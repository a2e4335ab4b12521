//! Top-level SA-IS orchestrator.
//!
//!   1. Approximate-sort LMS substrings via initial L+S induction.
//!   2. Name LMS substrings; recurse on the reduced string if names are not
//!      unique; place LMS in correct order at bucket tails.
//!   3. Final L+S induction fills in the remaining suffixes.
//!
//! No explicit sentinel is appended to `text`. The implicit sentinel at
//! position `n` is the smallest character; position `n-1` is consequently
//! always L-type, and the L-pass is seeded with it.

use vstd::prelude::*;

use crate::alphabet::{K_BYTE, Symbol, symbols, within_alphabet, lemma_bytes_within_alphabet};
use crate::buckets::{count_symbols, count_symbols_parallel};
use crate::classify::{classify, types_of};
use crate::error::SaisError;
use crate::index::{SaIndex, entries};
use crate::induce::{induce_inputs, induce_l, induce_l_parallel, induce_s, induce_s_parallel, slots_in_range};
use crate::keys::{prefix_order_l, prefix_order_s, lemma_prefix_order_l, lemma_prefix_order_s};
use crate::layout::is_l;
use crate::lms::{
    lms_at, lms_list, lms_positions, lms_substrings_match, name_lms, takes_value, lemma_names_cover,
    lemma_output_lms_once, lemma_reduced_order,
};
use crate::order::{order_fits, order_shifts_l, order_shifts_s, suffix_order, lemma_suffix_order_fits};
use crate::parallel::worker_threads;
use crate::l_pass::{l_input, lemma_l_input_range};
use crate::place::{place_lms_in_text_order, place_lms_sorted};
use crate::s_pass::{s_output, lemma_s_input_from_l};
use crate::suffix::{is_suffix_array, suffix_less};

verus! {

/// How the induction passes run: serially, or block-structured for `threads` workers.
#[derive(Copy, Clone)]
enum Mode {
    Serial,
    Parallel(usize),
}

/// Positions with the S/L classification of `types` have LMS ones exactly
/// where `types` says so; there are fewer of them than positions.
proof fn lemma_lms_count(types: Seq<bool>, order: Seq<i32>)
    requires
        lms_list(types, order),
        types.len() >= 1,
    ensures
        order.len() < types.len(),
{
    if order.len() > 0 {
        assert forall|r: int| 0 <= r < order.len() implies order[r] >= r + 1 by {
            lemma_lms_list_grows(types, order, r);
        }
        assert(lms_at(types, order[order.len() - 1] as int));
    }
}

proof fn lemma_lms_list_grows(types: Seq<bool>, order: Seq<i32>, r: int)
    requires
        lms_list(types, order),
        0 <= r < order.len(),
    ensures
        order[r] >= r + 1,
    decreases r,
{
    assert(lms_at(types, order[r] as int));
    if r > 0 {
        lemma_lms_list_grows(types, order, r - 1);
        assert(order[r - 1] < order[r]);
    }
}

/// When the names are `0..m` without repeats, the inverse permutation of the
/// reduced string is its suffix array.
proof fn lemma_inverse_is_suffix_array(reduced: Seq<i32>, rank: Seq<i32>)
    requires
        rank.len() == reduced.len(),
        forall|i: int| 0 <= i < reduced.len() ==> 0 <= #[trigger] reduced[i] < reduced.len(),
        forall|v: int| 0 <= v < reduced.len() ==> #[trigger] takes_value(reduced, v),
        forall|i: int| 0 <= i < reduced.len() ==> #[trigger] rank[reduced[i] as int] == i,
    ensures
        is_suffix_array(symbols(reduced), entries(rank)),
{
    let r = symbols(reduced);
    let m = reduced.len() as int;
    assert forall|v: int| 0 <= v < m implies 0 <= #[trigger] rank[v] < m && reduced[rank[v] as int] == v by {
        assert(takes_value(reduced, v));
        let i = choose|i: int| 0 <= i < reduced.len() && reduced[i] == v;
        assert(rank[reduced[i] as int] == i);
    }
    assert forall|a: int, b: int| 0 <= a < b < m implies suffix_less(r, #[trigger] entries(rank)[a], #[trigger] entries(rank)[b]) by {
        assert(0 <= rank[a] < m && reduced[rank[a] as int] == a);
        assert(0 <= rank[b] < m && reduced[rank[b] as int] == b);
        assert(r[rank[a] as int] < r[rank[b] as int]);
    }
}

/// The order of the reduced suffixes carries over to the LMS suffixes.
proof fn lemma_rank_order(s: Seq<int>, types: Seq<bool>, order: Seq<i32>, reduced: Seq<i32>, rank: Seq<i32>)
    requires
        types.len() == s.len(),
        lms_list(types, order),
        reduced.len() == order.len(),
        forall|x: int, y: int|
            #![trigger reduced[x], reduced[y]]
            0 <= x < reduced.len() && 0 <= y < reduced.len() && reduced[x] == reduced[y] ==> lms_substrings_match(
                s,
                types,
                order[x] as int,
                order[y] as int,
            ),
        forall|x: int, y: int|
            #![trigger reduced[x], reduced[y]]
            0 <= x < reduced.len() && 0 <= y < reduced.len() && reduced[x] < reduced[y] ==> suffix_less(
                s,
                order[x] as int,
                order[y] as int,
            ),
        is_suffix_array(symbols(reduced), entries(rank)),
    ensures
        forall|r: int| 0 <= r < rank.len() ==> 0 <= #[trigger] rank[r] < order.len(),
        forall|a: int, b: int|
            #![trigger rank[a], rank[b]]
            0 <= a < b < rank.len() ==> suffix_less(s, order[rank[a] as int] as int, order[rank[b] as int] as int),
{
    let r = symbols(reduced);
    assert forall|x: int, y: int|
        #![trigger r[x], r[y]]
        0 <= x < r.len() && 0 <= y < r.len() && r[x] == r[y] implies lms_substrings_match(
        s,
        types,
        order[x] as int,
        order[y] as int,
    ) by {
        assert(reduced[x] == reduced[y]);
    }
    assert forall|x: int, y: int|
        #![trigger r[x], r[y]]
        0 <= x < r.len() && 0 <= y < r.len() && r[x] < r[y] implies suffix_less(s, order[x] as int, order[y] as int) by {
        assert(reduced[x] < reduced[y]);
    }
    assert forall|q: int| 0 <= q < rank.len() implies 0 <= #[trigger] rank[q] < order.len() by {
        assert(0 <= entries(rank)[q] < r.len());
    }
    assert forall|a: int, b: int|
        #![trigger rank[a], rank[b]]
        0 <= a < b < rank.len() implies suffix_less(s, order[rank[a] as int] as int, order[rank[b] as int] as int) by {
        assert(suffix_less(r, entries(rank)[a], entries(rank)[b]));
        assert(0 <= entries(rank)[a] < r.len() && 0 <= entries(rank)[b] < r.len());
        lemma_reduced_order(s, types, order, r, rank[a] as int, rank[b] as int);
    }
}

/// The output of the final S-pass, sorted by suffix, is the suffix array.
proof fn lemma_output_is_suffix_array(s: Seq<int>, sa: Seq<i32>)
    requires
        s_output(s, suffix_order(s), sa),
    ensures
        is_suffix_array(s, entries(sa)),
{
    assert forall|a: int, b: int| 0 <= a < b < sa.len() implies suffix_less(s, #[trigger] entries(sa)[a], #[trigger] entries(sa)[b]) by {
        assert(sa[a] >= 0 && sa[b] >= 0);
        assert(suffix_order(s)(sa[a] as int, sa[b] as int));
    }
}

/// The two induction passes, serial or block-structured, for the order
/// `ord_l` of the L-pass and `ord` of the S-pass.
fn induce_both<C: Symbol>(
    sa: &mut [i32],
    t: &[C],
    types: &[bool],
    counts: &[i32],
    mode: Mode,
    Ghost(ord_l): Ghost<spec_fn(int, int) -> bool>,
    Ghost(ord): Ghost<spec_fn(int, int) -> bool>,
)
    requires
        induce_inputs(old(sa)@, t@, types@, counts@),
        types_of(symbols(t@), types@),
        mode matches Mode::Parallel(th) ==> th >= 1,
        order_fits(symbols(t@), ord_l),
        order_shifts_l(symbols(t@), ord_l),
        order_fits(symbols(t@), ord),
        order_shifts_s(symbols(t@), ord),
        forall|i: int, j: int|
            #![trigger ord_l(i, j)]
            is_l(symbols(t@), i) && is_l(symbols(t@), j) && ord_l(i, j) ==> ord(i, j),
        l_input(symbols(t@), counts@.len() as int, ord_l, old(sa)@),
    ensures
        s_output(symbols(t@), ord, final(sa)@),
{
    let ghost s = symbols(t@);
    let ghost k = counts@.len() as int;
    let ghost sa0 = sa@;
    match mode {
        Mode::Serial => induce_l(sa, t, types, counts, Ghost(ord_l)),
        Mode::Parallel(th) => induce_l_parallel(sa, t, types, counts, th, Ghost(ord_l)),
    }
    proof {
        crate::induce::lemma_symbols_below(t@, k);
        lemma_s_input_from_l(s, k, ord_l, ord, sa0, sa@);
    }
    match mode {
        Mode::Serial => induce_s(sa, t, types, counts, Ghost(ord)),
        Mode::Parallel(th) => induce_s_parallel(sa, t, types, counts, th, Ghost(ord)),
    }
}

/// Core SA-IS recursion over a text whose symbols are the buckets `0..k`.
fn sais_inner<C: Symbol>(t: &[C], sa: &mut [i32], k: usize, mode: Mode)
    requires
        old(sa)@.len() == t@.len(),
        t@.len() <= i32::MAX,
        k <= i32::MAX,
        within_alphabet(t@, k as int),
        mode matches Mode::Parallel(th) ==> th >= 1,
    ensures
        is_suffix_array(symbols(t@), entries(final(sa)@)),
    decreases old(sa)@.len(),
{
    let ghost s = symbols(t@);
    let n = t.len();
    if n == 0 {
        return ;
    }
    if n == 1 {
        sa[0] = 0;
        return ;
    }
    assert forall|i: int| 0 <= i < t@.len() implies #[trigger] t@[i].has_index() by {
        assert(within_alphabet(t@, k as int));
    }
    let types = classify(t);
    let counts = match mode {
        Mode::Serial => count_symbols(t, k),
        Mode::Parallel(th) => count_symbols_parallel(t, k, th),
    };
    proof {
        crate::induce::lemma_symbols_below(t@, k as int);
        crate::induce::lemma_inputs_counts(t@, counts@);
        lemma_prefix_order_l(s, k as int);
        lemma_prefix_order_s(s, k as int);
        lemma_suffix_order_fits(s);
    }

    // 1. Place LMS positions at the tails of their buckets in text order.
    place_lms_in_text_order(sa, t, &types, &counts);
    proof {
        lemma_l_input_range(s, k as int, prefix_order_l(s), sa@);
    }

    // 2. Initial L-pass (seeding `n-1`) and S-pass: sorts the LMS substrings.
    induce_both(sa, t, &types, &counts, mode, Ghost(prefix_order_l(s)), Ghost(prefix_order_s(s)));

    // 3. Name LMS substrings into a reduced string.
    let lms_in_text_order = lms_positions(&types);
    proof {
        lemma_output_lms_once(s, k as int, types@, sa@);
    }
    let (reduced, alphabet_size) = name_lms(t, sa, &types, Ghost(k as int), Ghost(lms_in_text_order@));
    let lms_count = reduced.len();
    proof {
        lemma_lms_count(types@, lms_in_text_order@);
    }

    // 4. Recurse (or invert directly if the names are already unique).
    let reduced_sa = if alphabet_size < lms_count {
        let mut sa_red = vec![0i32; lms_count];
        // Recursion stays serial; reduced inputs are small.
        sais_inner::<i32>(reduced.as_slice(), sa_red.as_mut_slice(), alphabet_size, Mode::Serial);
        sa_red
    } else {
        proof {
            lemma_names_cover(reduced@, alphabet_size as int);
        }
        let mut sa_red = vec![0i32; lms_count];
        let mut r: usize = 0;
        while r < lms_count
            invariant
                r <= lms_count == reduced@.len() == sa_red@.len() == alphabet_size,
                lms_count < n <= i32::MAX,
                forall|x: int| 0 <= x < reduced@.len() ==> 0 <= #[trigger] reduced@[x] < alphabet_size,
                forall|i: int, j: int| 0 <= i < j < reduced@.len() ==> reduced@[i] != reduced@[j],
                forall|i: int| 0 <= i < r ==> #[trigger] sa_red@[reduced@[i] as int] == i,
            decreases lms_count - r,
        {
            let name = reduced[r];
            sa_red.set(name as usize, r as i32);
            proof {
                assert forall|i: int| 0 <= i < r + 1 implies #[trigger] sa_red@[reduced@[i] as int] == i by {
                    if i < r {
                        assert(reduced@[i] != reduced@[r as int]);
                    }
                }
            }
            r += 1;
        }
        proof {
            lemma_inverse_is_suffix_array(reduced@, sa_red@);
        }
        sa_red
    };
    proof {
        lemma_rank_order(s, types@, lms_in_text_order@, reduced@, reduced_sa@);
    }

    // 5. Re-place LMS at bucket tails in sorted order.
    place_lms_sorted(sa, t, &types, &counts, &reduced_sa, &lms_in_text_order);
    proof {
        lemma_l_input_range(s, k as int, suffix_order(s), sa@);
    }

    // 6. Final induction.
    induce_both(sa, t, &types, &counts, mode, Ghost(suffix_order(s)), Ghost(suffix_order(s)));
    proof {
        lemma_output_is_suffix_array(s, sa@);
    }
}

/// The serial and the parallel recursion leave the same array in their
/// buffers: each holds the one suffix array of the text.
pub proof fn lemma_modes_agree(s: Seq<int>, serial: Seq<i32>, parallel: Seq<i32>)
    requires
        is_suffix_array(s, entries(serial)),
        is_suffix_array(s, entries(parallel)),
    ensures
        serial == parallel,
{
    crate::bwt::lemma_suffix_array_unique(s, entries(serial), entries(parallel));
    assert forall|i: int| 0 <= i < serial.len() implies serial[i] == parallel[i] by {
        assert(entries(serial)[i] == entries(parallel)[i]);
    }
    assert(serial =~= parallel);
}

/// The outcome owed for a text of length `n` and an output buffer of length `m`:
/// a buffer of another length is refused, a text too long for `i32` indices
/// too, anything else succeeds.
pub open spec fn sa_outcome(n: int, m: int, r: Result<(), SaisError>) -> bool {
    if m != n {
        r == Err::<(), SaisError>(SaisError::BufferLen { expected: n as usize, got: m as usize })
    } else if n > i32::MAX {
        r == Err::<(), SaisError>(SaisError::InputTooLarge(n as usize))
    } else {
        r is Ok
    }
}

/// Run SA-IS on a byte text into a fresh `i32` scratch buffer.
fn sais_bytes(text: &[u8], mode: Mode) -> (scratch: Vec<i32>)
    requires
        text@.len() <= i32::MAX,
        mode matches Mode::Parallel(th) ==> th >= 1,
    ensures
        is_suffix_array(symbols(text@), entries(scratch@)),
{
    let mut scratch = vec![0i32; text.len()];
    proof {
        lemma_bytes_within_alphabet(text@);
    }
    sais_inner::<u8>(text, scratch.as_mut_slice(), K_BYTE, mode);
    scratch
}

/// Copy the `i32` result into the caller's index type.
fn copy_out<I: SaIndex>(scratch: &Vec<i32>, sa: &mut [I])
    requires
        old(sa)@.len() == scratch@.len() <= i32::MAX,
        forall|q: int| 0 <= q < scratch@.len() ==> 0 <= #[trigger] scratch@[q],
    ensures
        entries(final(sa)@) == entries(scratch@),
{
    proof {
        I::lemma_constants();
    }
    let n = sa.len();
    let mut q: usize = 0;
    while q < n
        invariant
            q <= n == sa@.len() == scratch@.len() <= i32::MAX,
            I::max_int() >= i32::MAX,
            forall|x: int| 0 <= x < scratch@.len() ==> 0 <= #[trigger] scratch@[x],
            forall|x: int| 0 <= x < q ==> #[trigger] sa@[x].as_int() == scratch@[x],
        decreases n - q,
    {
        let val = scratch[q];
        sa[q] = I::from_usize(val as usize);
        q += 1;
    }
    proof {
        assert(entries(sa@) =~= entries(scratch@));
    }
}

/// The suffix array of a byte text, copied into `sa`.
fn sais_into<I: SaIndex>(text: &[u8], sa: &mut [I], mode: Mode)
    requires
        old(sa)@.len() == text@.len() <= i32::MAX,
        mode matches Mode::Parallel(th) ==> th >= 1,
    ensures
        is_suffix_array(symbols(text@), entries(final(sa)@)),
{
    let scratch = sais_bytes(text, mode);
    proof {
        assert forall|q: int| 0 <= q < scratch@.len() implies 0 <= #[trigger] scratch@[q] by {
            assert(0 <= entries(scratch@)[q]);
        }
    }
    copy_out(&scratch, sa);
}

/// Compute the suffix array of `text` (single-threaded).
pub fn suffix_array(text: &[u8]) -> (r: Result<Vec<i32>, SaisError>)
    ensures
        match r {
            Ok(sa) => text@.len() <= i32::MAX && is_suffix_array(symbols(text@), entries(sa@)),
            Err(e) => text@.len() > i32::MAX && e == SaisError::InputTooLarge(text@.len() as usize),
        },
{
    suffix_array_with::<i32>(text)
}

/// Generic variant over the index type.
pub fn suffix_array_with<I: SaIndex>(text: &[u8]) -> (r: Result<Vec<I>, SaisError>)
    ensures
        match r {
            Ok(sa) => text@.len() <= i32::MAX && is_suffix_array(symbols(text@), entries(sa@)),
            Err(e) => text@.len() > i32::MAX && e == SaisError::InputTooLarge(text@.len() as usize),
        },
{
    proof {
        I::lemma_constants();
    }
    let mut sa = vec![I::ZERO; text.len()];
    match suffix_array_into(text, sa.as_mut_slice()) {
        Ok(()) => Ok(sa),
        Err(e) => Err(e),
    }
}

/// In-place: the caller provides an output buffer of length `text.len()`.
pub fn suffix_array_into<I: SaIndex>(text: &[u8], sa: &mut [I]) -> (r: Result<(), SaisError>)
    ensures
        sa_outcome(text@.len() as int, old(sa)@.len() as int, r),
        final(sa)@.len() == old(sa)@.len(),
        r is Err ==> final(sa)@ == old(sa)@,
        r is Ok ==> is_suffix_array(symbols(text@), entries(final(sa)@)),
{
    proof {
        I::lemma_constants();
    }
    if sa.len() != text.len() {
        return Err(SaisError::BufferLen { expected: text.len(), got: sa.len() });
    }
    let n = text.len();
    if n == 0 {
        return Ok(());
    }
    if I::try_from_usize(n - 1).is_none() {
        return Err(SaisError::InputTooLarge(n));
    }
    if n > i32::MAX as usize {
        return Err(SaisError::InputTooLarge(n));
    }
    sais_into(text, sa, Mode::Serial);
    Ok(())
}

/// Parallel variant. `threads = 0` uses the size of the current rayon pool.
pub fn suffix_array_parallel(text: &[u8], threads: usize) -> (r: Result<Vec<i32>, SaisError>)
    ensures
        match r {
            Ok(sa) => text@.len() <= i32::MAX && is_suffix_array(symbols(text@), entries(sa@)),
            Err(e) => text@.len() > i32::MAX && e == SaisError::InputTooLarge(text@.len() as usize),
        },
{
    let mut sa = vec![0i32; text.len()];
    match suffix_array_parallel_into(text, sa.as_mut_slice(), threads) {
        Ok(()) => Ok(sa),
        Err(e) => Err(e),
    }
}

/// Parallel in-place variant.
pub fn suffix_array_parallel_into<I: SaIndex>(text: &[u8], sa: &mut [I], threads: usize) -> (r:
    Result<(), SaisError>)
    ensures
        sa_outcome(text@.len() as int, old(sa)@.len() as int, r),
        final(sa)@.len() == old(sa)@.len(),
        r is Err ==> final(sa)@ == old(sa)@,
        r is Ok ==> is_suffix_array(symbols(text@), entries(final(sa)@)),
{
    proof {
        I::lemma_constants();
    }
    if sa.len() != text.len() {
        return Err(SaisError::BufferLen { expected: text.len(), got: sa.len() });
    }
    let n = text.len();
    if n == 0 {
        return Ok(());
    }
    if I::try_from_usize(n - 1).is_none() || n > i32::MAX as usize {
        return Err(SaisError::InputTooLarge(n));
    }
    let workers = worker_threads(threads);
    sais_into(text, sa, Mode::Parallel(workers));
    Ok(())
}

} // verus!
