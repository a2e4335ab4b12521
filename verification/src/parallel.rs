//! Thread-count plumbing shared by the parallel variants.

use vstd::prelude::*;

verus! {

/// Lower bound below which parallel passes fall back to serial.
pub(crate) const PARALLEL_MIN: usize = 16384;

/// `rayon::current_num_threads`: the size of the rayon pool the caller runs
/// in (the global pool outside any pool). The claim is that it is at least
/// one: a registry has one entry per worker, and rayon-core's
/// `get_num_threads` never asks for zero workers. Which number comes back
/// depends on the machine and the environment, so nothing more is claimed.
/// The call takes no argument; it panics only when the global pool cannot be
/// started on the machine at all.
#[verifier::external_body]
fn rayon_current_num_threads() -> (r: usize)
    ensures
        r >= 1,
{
    rayon::current_num_threads()
}

/// Number of worker threads a parallel call with `threads` splits its work
/// for: `threads` itself, or the current rayon pool's size when it is 0.
pub(crate) fn worker_threads(threads: usize) -> (r: usize)
    ensures
        r >= 1,
        threads > 0 ==> r == threads,
{
    if threads == 0 {
        rayon_current_num_threads()
    } else {
        threads
    }
}

} // verus!
