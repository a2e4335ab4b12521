//! Alphabet utilities and the `Symbol` trait that abstracts over the two
//! character types met during SA-IS: `u8` at the top level (256 symbols)
//! and `i32` for the reduced alphabet of named LMS substrings.

use vstd::prelude::*;

verus! {

/// Number of distinct byte symbols.
pub const K_BYTE: usize = 256;

/// A character of the text being sorted: something with a bucket index.
pub trait Symbol: Copy + Ord + Send + Sync {
    /// The bucket index of this symbol, as a mathematical integer.
    spec fn index_of(self) -> int;

    /// Whether this symbol has a bucket at all (reduced names are never negative).
    spec fn has_index(self) -> bool;

    fn idx(self) -> (r: usize)
        requires
            self.has_index(),
        ensures
            r as int == self.index_of(),
    ;
}

impl Symbol for u8 {
    open spec fn index_of(self) -> int {
        self as int
    }

    open spec fn has_index(self) -> bool {
        true
    }

    fn idx(self) -> (r: usize) {
        self as usize
    }
}

impl Symbol for i32 {
    open spec fn index_of(self) -> int {
        self as int
    }

    open spec fn has_index(self) -> bool {
        self >= 0
    }

    fn idx(self) -> (r: usize) {
        self as usize
    }
}

/// The text seen as the sequence of its bucket indices.
pub open spec fn symbols<C: Symbol>(t: Seq<C>) -> Seq<int> {
    Seq::new(t.len(), |i: int| t[i].index_of())
}

/// Every symbol of `t` has a bucket among the first `k`.
pub open spec fn within_alphabet<C: Symbol>(t: Seq<C>, k: int) -> bool {
    forall|i: int| 0 <= i < t.len() ==> #[trigger] t[i].has_index() && 0 <= t[i].index_of() < k
}

/// A byte text always fits the 256-symbol alphabet.
pub proof fn lemma_bytes_within_alphabet(t: Seq<u8>)
    ensures
        within_alphabet(t, K_BYTE as int),
{
}

} // verus!
