//! Induced-sort L-pass and S-pass (serial and block-structured).
//!
//! The L-pass walks SA left-to-right, inducing L-type positions into bucket
//! heads. The S-pass walks right-to-left, inducing S-type positions into
//! bucket tails.
//!
//! The block-structured variants follow libsais's scheme: walk SA looking for
//! a contiguous run of non-empty slots (a block), gather the inductions of the
//! block chunk by chunk (the chunks are what worker threads would share), then
//! scatter them in chunk order. This gives the serial result because every
//! write goes to an empty slot, never into the block being scattered. The
//! L-pass writes at bucket heads, which are always empty. The S-pass writes
//! just before the filled end of a bucket, where LMS entries of an earlier
//! step may still sit, so the block-structured S-pass first empties every
//! slot holding an LMS position.

use vstd::prelude::*;

use crate::alphabet::{Symbol, symbols, within_alphabet};
use crate::buckets::{
    bucket_heads, bucket_tails, counts_of, prefix_sum, lemma_occ_total, lemma_prefix_sum_monotone,
};
use crate::classify::types_of;
use crate::layout::{bend, bstart, is_l, symbols_below, lemma_prefix_sum_is_bstart};
use crate::order::{order_fits, order_shifts_l, order_shifts_s};
use crate::l_pass::{
    l_end, l_input, l_output, l_state, lms_tail, present, lemma_l_done, lemma_l_state_range, lemma_l_seed, lemma_l_skip, lemma_l_write,
    lemma_regions,
};
use crate::s_pass::{
    s_input, s_output, s_state, stale_cleared, lemma_s_done, lemma_s_skip, lemma_s_start, lemma_s_write,
    lemma_s_write_cleared,
};
use crate::suffix::{lms, s_type};
use crate::classify::is_lms;

verus! {

/// Below this block size the gather/scatter split is not worth it.
const PAR_BLOCK_MIN: usize = 1024;

/// Hard cap on a single block.
const PAR_BLOCK_MAX: usize = 65536;

/// Every SA slot is empty (`-1`) or holds a position of the text.
pub open spec fn slots_in_range(sa: Seq<i32>, n: int) -> bool {
    forall|q: int| 0 <= q < sa.len() ==> -1 <= #[trigger] sa[q] < n
}

/// What the induction passes need of their inputs.
pub open spec fn induce_inputs<C: Symbol>(
    sa: Seq<i32>,
    t: Seq<C>,
    types: Seq<bool>,
    counts: Seq<i32>,
) -> bool {
    &&& sa.len() == t.len()
    &&& types.len() == t.len()
    &&& t.len() <= i32::MAX
    &&& counts.len() <= i32::MAX
    &&& within_alphabet(t, counts.len() as int)
    &&& counts_of(symbols(t), counts.len() as int, counts.map_values(|v: i32| v as int))
    &&& slots_in_range(sa, t.len() as int)
}

/// Bucket pointers stay inside the SA.
spec fn pointers_in_range(p: Seq<i32>, k: int, n: int) -> bool {
    &&& p.len() == k
    &&& forall|c: int| 0 <= c < k ==> 0 <= #[trigger] p[c] <= n
}

proof fn lemma_bucket_bounds(counts: Seq<i32>, c: int)
    requires
        0 <= c < counts.len(),
        forall|j: int| 0 <= j < counts.len() ==> 0 <= #[trigger] counts[j],
    ensures
        0 <= prefix_sum(counts.map_values(|v: i32| v as int), c),
        prefix_sum(counts.map_values(|v: i32| v as int), c) + counts[c] == prefix_sum(
            counts.map_values(|v: i32| v as int),
            c + 1,
        ),
        prefix_sum(counts.map_values(|v: i32| v as int), c + 1) <= prefix_sum(
            counts.map_values(|v: i32| v as int),
            counts.len() as int,
        ),
{
    let cs = counts.map_values(|v: i32| v as int);
    assert forall|j: int| 0 <= j < cs.len() implies 0 <= #[trigger] cs[j] by {
        assert(cs[j] == counts[j] as int);
    }
    lemma_prefix_sum_monotone(cs, c, c + 1);
    lemma_prefix_sum_monotone(cs, c + 1, cs.len() as int);
}

/// Facts about the counts that the passes rely on.
pub proof fn lemma_inputs_counts<C: Symbol>(t: Seq<C>, counts: Seq<i32>)
    requires
        within_alphabet(t, counts.len() as int),
        counts_of(symbols(t), counts.len() as int, counts.map_values(|v: i32| v as int)),
    ensures
        forall|j: int| 0 <= j < counts.len() ==> 0 <= #[trigger] counts[j],
        prefix_sum(counts.map_values(|v: i32| v as int), counts.len() as int) == t.len(),
        t.len() > 0 ==> counts[t[t.len() - 1].index_of()] >= 1,
{
    let s = symbols(t);
    let cs = counts.map_values(|v: i32| v as int);
    assert forall|j: int| 0 <= j < counts.len() implies 0 <= #[trigger] counts[j] by {
        assert(cs[j] == counts[j] as int);
    }
    assert forall|i: int| 0 <= i < s.len() implies 0 <= #[trigger] s[i] < counts.len() by {
        assert(t[i].has_index());
    }
    lemma_occ_total(s, counts.len() as int, cs);
    if t.len() > 0 {
        let x = t[t.len() - 1].index_of();
        assert(t[t.len() - 1].has_index());
        assert(cs[x] == counts[x] as int);
    }
}

fn heads_of(counts: &[i32], n: usize) -> (heads: Vec<i32>)
    requires
        forall|j: int| 0 <= j < counts@.len() ==> 0 <= #[trigger] counts@[j],
        prefix_sum(counts@.map_values(|v: i32| v as int), counts@.len() as int) == n,
        n <= i32::MAX,
    ensures
        pointers_in_range(heads@, counts@.len() as int, n as int),
        forall|c: int| 0 <= c < counts@.len() ==> #[trigger] heads@[c] == prefix_sum(counts@.map_values(|v: i32| v as int), c),
{
    let heads = bucket_heads(counts);
    proof {
        assert forall|c: int| 0 <= c < counts@.len() implies 0 <= #[trigger] heads@[c] <= n by {
            lemma_bucket_bounds(counts@, c);
        }
    }
    heads
}

fn tails_of(counts: &[i32], n: usize) -> (tails: Vec<i32>)
    requires
        forall|j: int| 0 <= j < counts@.len() ==> 0 <= #[trigger] counts@[j],
        prefix_sum(counts@.map_values(|v: i32| v as int), counts@.len() as int) == n,
        n <= i32::MAX,
    ensures
        pointers_in_range(tails@, counts@.len() as int, n as int),
        forall|c: int| 0 <= c < counts@.len() ==> #[trigger] tails@[c] == prefix_sum(counts@.map_values(|v: i32| v as int), c + 1),
{
    let tails = bucket_tails(counts);
    proof {
        assert forall|c: int| 0 <= c < counts@.len() implies 0 <= #[trigger] tails@[c] <= n by {
            lemma_bucket_bounds(counts@, c);
        }
    }
    tails
}

/// A text within the alphabet has its symbols below `k`.
pub proof fn lemma_symbols_below<C: Symbol>(t: Seq<C>, k: int)
    requires
        within_alphabet(t, k),
    ensures
        symbols_below(symbols(t), k),
{
    assert forall|i: int| 0 <= i < symbols(t).len() implies 0 <= #[trigger] symbols(t)[i] < k by {
        assert(t[i].has_index());
    }
}

/// The prefix sums of exact counts are the bucket starts.
proof fn lemma_pointers_are_buckets<C: Symbol>(t: Seq<C>, counts: Seq<i32>, c: int)
    requires
        within_alphabet(t, counts.len() as int),
        counts_of(symbols(t), counts.len() as int, counts.map_values(|v: i32| v as int)),
        0 <= c < counts.len(),
    ensures
        prefix_sum(counts.map_values(|v: i32| v as int), c) == bstart(symbols(t), c),
        prefix_sum(counts.map_values(|v: i32| v as int), c + 1) == bend(symbols(t), c),
{
    lemma_symbols_below(t, counts.len() as int);
    let cs = counts.map_values(|v: i32| v as int);
    lemma_prefix_sum_is_bstart(symbols(t), counts.len() as int, cs, c);
    lemma_prefix_sum_is_bstart(symbols(t), counts.len() as int, cs, c + 1);
}

/// Induce the L-type predecessor of the suffix in slot `i`, if any, into
/// the head of its bucket.
fn induce_l_step<C: Symbol>(
    sa: &mut [i32],
    t: &[C],
    types: &[bool],
    heads: &mut Vec<i32>,
    i: usize,
    Ghost(ord): Ghost<spec_fn(int, int) -> bool>,
    Ghost(sa0): Ghost<Seq<i32>>,
)
    requires
        i < t@.len() <= i32::MAX,
        types_of(symbols(t@), types@),
        within_alphabet(t@, old(heads)@.len() as int),
        order_fits(symbols(t@), ord),
        order_shifts_l(symbols(t@), ord),
        l_state(symbols(t@), old(heads)@.len() as int, ord, sa0, old(sa)@, old(heads)@, i as int),
    ensures
        final(heads)@.len() == old(heads)@.len(),
        l_state(symbols(t@), old(heads)@.len() as int, ord, sa0, final(sa)@, final(heads)@, i + 1),
{
    let ghost s = symbols(t@);
    let ghost k = heads@.len() as int;
    proof {
        lemma_symbols_below(t@, k);
    }
    let v = sa[i];
    if v <= 0 {
        proof {
            lemma_l_skip(s, k, ord, sa0, sa@, heads@, i as int);
        }
        return ;
    }
    assert(v < t@.len());
    let j = (v - 1) as usize;
    if types[j] {
        proof {
            lemma_l_skip(s, k, ord, sa0, sa@, heads@, i as int);
        }
        return ;
    }
    assert(t@[j as int].has_index());
    let c = t[j].idx();
    proof {
        lemma_l_write(s, k, ord, sa0, sa@, heads@, i as int);
    }
    let slot = heads[c] as usize;
    sa[slot] = j as i32;
    heads.set(c, heads[c] + 1);
}

/// Induce the S-type predecessor of the suffix in slot `i`, if any, into
/// the tail of its bucket.
fn induce_s_step<C: Symbol>(
    sa: &mut [i32],
    t: &[C],
    types: &[bool],
    tails: &mut Vec<i32>,
    i: usize,
    Ghost(ord): Ghost<spec_fn(int, int) -> bool>,
)
    requires
        i < t@.len() <= i32::MAX,
        types_of(symbols(t@), types@),
        within_alphabet(t@, old(tails)@.len() as int),
        order_fits(symbols(t@), ord),
        order_shifts_s(symbols(t@), ord),
        s_state(symbols(t@), old(tails)@.len() as int, ord, old(sa)@, old(tails)@, i + 1),
    ensures
        final(tails)@.len() == old(tails)@.len(),
        s_state(symbols(t@), old(tails)@.len() as int, ord, final(sa)@, final(tails)@, i as int),
        stale_cleared(symbols(t@), old(tails)@.len() as int, old(sa)@, old(tails)@) ==> stale_cleared(
            symbols(t@),
            old(tails)@.len() as int,
            final(sa)@,
            final(tails)@,
        ),
{
    let ghost s = symbols(t@);
    let ghost k = tails@.len() as int;
    proof {
        lemma_symbols_below(t@, k);
    }
    let v = sa[i];
    if v <= 0 {
        proof {
            lemma_s_skip(s, k, ord, sa@, tails@, i + 1);
        }
        return ;
    }
    let j = (v - 1) as usize;
    if !types[j] {
        proof {
            lemma_s_skip(s, k, ord, sa@, tails@, i + 1);
        }
        return ;
    }
    assert(t@[j as int].has_index());
    let c = t[j].idx();
    proof {
        lemma_s_write(s, k, ord, sa@, tails@, i + 1);
        if stale_cleared(s, k, sa@, tails@) {
            lemma_s_write_cleared(s, k, sa@, tails@, c as int, j as int);
        }
    }
    tails.set(c, tails[c] - 1);
    let slot = tails[c] as usize;
    sa[slot] = j as i32;
}

/// Place the last position (always L-type) at the head of its bucket.
fn seed_last_l<C: Symbol>(
    sa: &mut [i32],
    t: &[C],
    types: &[bool],
    heads: &mut Vec<i32>,
    Ghost(ord): Ghost<spec_fn(int, int) -> bool>,
)
    requires
        1 <= t@.len() <= i32::MAX,
        types_of(symbols(t@), types@),
        within_alphabet(t@, old(heads)@.len() as int),
        order_fits(symbols(t@), ord),
        order_shifts_l(symbols(t@), ord),
        l_input(symbols(t@), old(heads)@.len() as int, ord, old(sa)@),
        forall|c: int| 0 <= c < old(heads)@.len() ==> #[trigger] old(heads)@[c] == bstart(symbols(t@), c),
    ensures
        final(heads)@.len() == old(heads)@.len(),
        l_state(symbols(t@), old(heads)@.len() as int, ord, old(sa)@, final(sa)@, final(heads)@, 0),
{
    let ghost s = symbols(t@);
    let ghost k = heads@.len() as int;
    proof {
        lemma_symbols_below(t@, k);
        lemma_l_seed(s, k, ord, sa@, heads@);
    }
    let n = sa.len();
    assert(t@[n - 1].has_index());
    let c = t[n - 1].idx();
    let slot = heads[c] as usize;
    sa[slot] = (n - 1) as i32;
    heads.set(c, heads[c] + 1);
}

/// With an empty text the L-pass has nothing to do.
proof fn lemma_l_output_empty(s: Seq<int>, k: int, ord: spec_fn(int, int) -> bool, sa: Seq<i32>)
    requires
        s.len() == 0,
        sa.len() == 0,
    ensures
        l_output(s, k, ord, sa, sa),
{
    assert forall|c: int, q: int|
        #![trigger sa[q], l_end(s, c)]
        0 <= c < k && bstart(s, c) <= q < l_end(s, c) implies sa[q] >= 0 && s[sa[q] as int] == c && is_l(
            s,
            sa[q] as int,
        ) by {
        lemma_regions(s, c);
    }
    assert forall|c: int, q: int|
        #![trigger sa[q], l_end(s, c)]
        0 <= c < k && l_end(s, c) <= q < lms_tail(s, c) implies sa[q] == -1 by {
        lemma_regions(s, c);
    }
}

/// Bucket starts, from exact counts.
fn heads_at_starts<C: Symbol>(t: &[C], counts: &[i32]) -> (heads: Vec<i32>)
    requires
        t@.len() <= i32::MAX,
        within_alphabet(t@, counts@.len() as int),
        counts_of(symbols(t@), counts@.len() as int, counts@.map_values(|v: i32| v as int)),
    ensures
        heads@.len() == counts@.len(),
        forall|c: int| 0 <= c < counts@.len() ==> #[trigger] heads@[c] == bstart(symbols(t@), c),
{
    proof {
        lemma_inputs_counts(t@, counts@);
    }
    let heads = heads_of(counts, t.len());
    proof {
        assert forall|c: int| 0 <= c < counts@.len() implies #[trigger] heads@[c] == bstart(symbols(t@), c) by {
            lemma_pointers_are_buckets(t@, counts@, c);
        }
    }
    heads
}

/// Bucket ends, from exact counts.
pub(crate) fn tails_at_ends<C: Symbol>(t: &[C], counts: &[i32]) -> (tails: Vec<i32>)
    requires
        t@.len() <= i32::MAX,
        within_alphabet(t@, counts@.len() as int),
        counts_of(symbols(t@), counts@.len() as int, counts@.map_values(|v: i32| v as int)),
    ensures
        tails@.len() == counts@.len(),
        forall|c: int| 0 <= c < counts@.len() ==> #[trigger] tails@[c] == bend(symbols(t@), c),
{
    proof {
        lemma_inputs_counts(t@, counts@);
    }
    let tails = tails_of(counts, t.len());
    proof {
        assert forall|c: int| 0 <= c < counts@.len() implies #[trigger] tails@[c] == bend(symbols(t@), c) by {
            lemma_pointers_are_buckets(t@, counts@, c);
        }
    }
    tails
}

/// L-pass: seed `n-1` at the head of its bucket, then induce all other
/// L-type positions, left to right.
pub(crate) fn induce_l<C: Symbol>(
    sa: &mut [i32],
    t: &[C],
    types: &[bool],
    counts: &[i32],
    Ghost(ord): Ghost<spec_fn(int, int) -> bool>,
)
    requires
        induce_inputs(old(sa)@, t@, types@, counts@),
        types_of(symbols(t@), types@),
        order_fits(symbols(t@), ord),
        order_shifts_l(symbols(t@), ord),
        l_input(symbols(t@), counts@.len() as int, ord, old(sa)@),
    ensures
        l_output(symbols(t@), counts@.len() as int, ord, old(sa)@, final(sa)@),
{
    let ghost s = symbols(t@);
    let ghost k = counts@.len() as int;
    let ghost sa0 = sa@;
    let n = sa.len();
    if n == 0 {
        proof {
            lemma_l_output_empty(s, k, ord, sa0);
        }
        return ;
    }
    let mut heads = heads_at_starts(t, counts);
    seed_last_l(sa, t, types, &mut heads, Ghost(ord));
    let mut i: usize = 0;
    while i < n
        invariant
            i <= n == sa@.len() == t@.len() <= i32::MAX,
            s == symbols(t@),
            k == counts@.len() == heads@.len(),
            types_of(s, types@),
            within_alphabet(t@, k),
            order_fits(s, ord),
            order_shifts_l(s, ord),
            l_input(s, k, ord, sa0),
            l_state(s, k, ord, sa0, sa@, heads@, i as int),
        decreases n - i,
    {
        induce_l_step(sa, t, types, &mut heads, i, Ghost(ord), Ghost(sa0));
        i += 1;
    }
    proof {
        lemma_symbols_below(t@, k);
        lemma_l_done(s, k, ord, sa0, sa@, heads@);
    }
}

/// S-pass: induce S-type positions from already-placed entries, walking
/// right to left.
pub(crate) fn induce_s<C: Symbol>(
    sa: &mut [i32],
    t: &[C],
    types: &[bool],
    counts: &[i32],
    Ghost(ord): Ghost<spec_fn(int, int) -> bool>,
)
    requires
        induce_inputs(old(sa)@, t@, types@, counts@),
        types_of(symbols(t@), types@),
        order_fits(symbols(t@), ord),
        order_shifts_s(symbols(t@), ord),
        s_input(symbols(t@), counts@.len() as int, ord, old(sa)@),
    ensures
        s_output(symbols(t@), ord, final(sa)@),
{
    let ghost s = symbols(t@);
    let ghost k = counts@.len() as int;
    let n = sa.len();
    let mut tails = tails_at_ends(t, counts);
    proof {
        lemma_symbols_below(t@, k);
        lemma_s_start(s, k, ord, sa@, tails@);
    }
    let mut i: usize = n;
    while i > 0
        invariant
            i <= n == sa@.len() == t@.len() <= i32::MAX,
            s == symbols(t@),
            k == counts@.len() == tails@.len(),
            types_of(s, types@),
            within_alphabet(t@, k),
            order_fits(s, ord),
            order_shifts_s(s, ord),
            s_state(s, k, ord, sa@, tails@, i as int),
        decreases i,
    {
        i -= 1;
        induce_s_step(sa, t, types, &mut tails, i, Ghost(ord));
    }
    proof {
        lemma_symbols_below(t@, k);
        lemma_s_done(s, k, ord, sa@, tails@);
    }
}

/// Slot `q` holds a position whose predecessor is L-type.
pub open spec fn induces_l(types: Seq<bool>, sa: Seq<i32>, q: int) -> bool {
    sa[q] > 0 && !types[sa[q] - 1]
}

/// Slot `q` holds a position whose predecessor is S-type.
pub open spec fn induces_s(types: Seq<bool>, sa: Seq<i32>, q: int) -> bool {
    sa[q] > 0 && types[sa[q] - 1]
}

/// `cache` lists the inductions that slots `lo..hi` of `sa` call for (in the
/// L-pass when `left`, else in the S-pass), found at the slots `at`: in
/// increasing slot order for the L-pass, decreasing for the S-pass.
pub open spec fn gathered(
    s: Seq<int>,
    types: Seq<bool>,
    sa: Seq<i32>,
    lo: int,
    hi: int,
    cache: Seq<(i32, u32)>,
    at: Seq<int>,
    left: bool,
) -> bool {
    &&& at.len() == cache.len()
    &&& forall|m: int|
        #![trigger at[m]]
        0 <= m < at.len() ==> {
            &&& lo <= at[m] < hi
            &&& if left {
                induces_l(types, sa, at[m])
            } else {
                induces_s(types, sa, at[m])
            }
            &&& cache[m].0 == sa[at[m]] - 1
            &&& cache[m].1 as int == s[sa[at[m]] - 1]
        }
    &&& forall|m1: int, m2: int|
        #![trigger at[m1], at[m2]]
        0 <= m1 < m2 < at.len() ==> if left {
            at[m1] < at[m2]
        } else {
            at[m1] > at[m2]
        }
    &&& forall|q: int|
        lo <= q < hi && (if left {
            induces_l(types, sa, q)
        } else {
            induces_s(types, sa, q)
        }) ==> exists|m: int| 0 <= m < at.len() && #[trigger] at[m] == q
}

/// Gather, over slots `lo..hi`, the L-type predecessors to induce, in slot order.
fn gather_l<C: Symbol>(sa: &[i32], lo: usize, hi: usize, t: &[C], types: &[bool], k: usize) -> (r: (
    Vec<(i32, u32)>,
    Ghost<Seq<int>>,
))
    requires
        lo <= hi <= sa@.len(),
        sa@.len() == t@.len(),
        types@.len() == t@.len(),
        t@.len() <= i32::MAX,
        k <= i32::MAX,
        within_alphabet(t@, k as int),
        slots_in_range(sa@, t@.len() as int),
    ensures
        gathered(symbols(t@), types@, sa@, lo as int, hi as int, r.0@, r.1@, true),
{
    let ghost s = symbols(t@);
    let mut cache: Vec<(i32, u32)> = Vec::with_capacity(hi - lo);
    let ghost mut at: Seq<int> = Seq::empty();
    let mut q = lo;
    while q < hi
        invariant
            lo <= q <= hi <= sa@.len(),
            sa@.len() == t@.len(),
            types@.len() == t@.len(),
            t@.len() <= i32::MAX,
            k <= i32::MAX,
            s == symbols(t@),
            within_alphabet(t@, k as int),
            slots_in_range(sa@, t@.len() as int),
            gathered(s, types@, sa@, lo as int, q as int, cache@, at, true),
            forall|m: int| 0 <= m < at.len() ==> #[trigger] at[m] < q,
        decreases hi - q,
    {
        let v = sa[q];
        if v > 0 {
            let j = (v - 1) as usize;
            if !types[j] {
                assert(t@[j as int].has_index());
                let c = t[j].idx();
                let ghost at0 = at;
                cache.push((j as i32, c as u32));
                proof {
                    at = at.push(q as int);
                    assert forall|m: int| 0 <= m < at.len() implies #[trigger] at[m] < q + 1 by {
                        if m < at0.len() {
                            assert(at[m] == at0[m]);
                        }
                    }
                    assert forall|q2: int| lo <= q2 < q + 1 && induces_l(types@, sa@, q2) implies exists|m: int|
                        0 <= m < at.len() && #[trigger] at[m] == q2 by {
                        if q2 < q {
                            let m = choose|m: int| 0 <= m < at0.len() && #[trigger] at0[m] == q2;
                            assert(at[m] == q2);
                        } else {
                            assert(at[at.len() - 1] == q2);
                        }
                    }
                }
            }
        }
        q += 1;
    }
    (cache, Ghost(at))
}

/// Gather, over slots `lo..hi` walked right-to-left, the S-type predecessors to induce.
fn gather_s<C: Symbol>(sa: &[i32], lo: usize, hi: usize, t: &[C], types: &[bool], k: usize) -> (r: (
    Vec<(i32, u32)>,
    Ghost<Seq<int>>,
))
    requires
        lo <= hi <= sa@.len(),
        sa@.len() == t@.len(),
        types@.len() == t@.len(),
        t@.len() <= i32::MAX,
        k <= i32::MAX,
        within_alphabet(t@, k as int),
        slots_in_range(sa@, t@.len() as int),
    ensures
        gathered(symbols(t@), types@, sa@, lo as int, hi as int, r.0@, r.1@, false),
{
    let ghost s = symbols(t@);
    let mut cache: Vec<(i32, u32)> = Vec::with_capacity(hi - lo);
    let ghost mut at: Seq<int> = Seq::empty();
    let mut q = hi;
    while q > lo
        invariant
            lo <= q <= hi <= sa@.len(),
            sa@.len() == t@.len(),
            types@.len() == t@.len(),
            t@.len() <= i32::MAX,
            k <= i32::MAX,
            s == symbols(t@),
            within_alphabet(t@, k as int),
            slots_in_range(sa@, t@.len() as int),
            gathered(s, types@, sa@, q as int, hi as int, cache@, at, false),
            forall|m: int| 0 <= m < at.len() ==> #[trigger] at[m] >= q,
        decreases q - lo,
    {
        q -= 1;
        let v = sa[q];
        if v > 0 {
            let j = (v - 1) as usize;
            if types[j] {
                assert(t@[j as int].has_index());
                let c = t[j].idx();
                let ghost at0 = at;
                cache.push((j as i32, c as u32));
                proof {
                    at = at.push(q as int);
                    assert forall|m: int| 0 <= m < at.len() implies #[trigger] at[m] >= q by {
                        if m < at0.len() {
                            assert(at[m] == at0[m]);
                        }
                    }
                    assert forall|q2: int| q <= q2 < hi && induces_s(types@, sa@, q2) implies exists|m: int|
                        0 <= m < at.len() && #[trigger] at[m] == q2 by {
                        if q2 > q {
                            let m = choose|m: int| 0 <= m < at0.len() && #[trigger] at0[m] == q2;
                            assert(at[m] == q2);
                        } else {
                            assert(at[at.len() - 1] == q2);
                        }
                    }
                }
            } else {
                proof {
                    assert forall|q2: int| q <= q2 < hi && induces_s(types@, sa@, q2) implies exists|m: int|
                        0 <= m < at.len() && #[trigger] at[m] == q2 by {
                        assert(q2 != q);
                    }
                }
            }
        }
    }
    (cache, Ghost(at))
}

/// Chunks `lo..hi` into pieces of `chunk` slots: `bounds` are their edges.
pub open spec fn chunked(bounds: Seq<int>, lo: int, hi: int, count: int) -> bool {
    &&& bounds.len() == count + 1
    &&& bounds[0] == lo
    &&& bounds[count] == hi
    &&& forall|m: int| 0 <= m <= count ==> lo <= #[trigger] bounds[m] <= hi
    &&& forall|m: int| 0 <= m < count ==> #[trigger] bounds[m] <= bounds[m + 1]
}

/// Split `lo..hi` into chunks of `chunk` slots and gather each (L-pass when
/// `left`, else S-pass).
fn gather_chunks<C: Symbol>(
    sa: &[i32],
    lo: usize,
    hi: usize,
    chunk: usize,
    t: &[C],
    types: &[bool],
    k: usize,
    left: bool,
) -> (r: (Vec<Vec<(i32, u32)>>, Ghost<Seq<int>>, Ghost<Seq<Seq<int>>>))
    requires
        lo <= hi <= sa@.len(),
        chunk >= 1,
        sa@.len() == t@.len(),
        types@.len() == t@.len(),
        t@.len() <= i32::MAX,
        k <= i32::MAX,
        within_alphabet(t@, k as int),
        slots_in_range(sa@, t@.len() as int),
    ensures
        chunked(r.1@, lo as int, hi as int, r.0@.len() as int),
        r.2@.len() == r.0@.len(),
        forall|m: int|
            0 <= m < r.0@.len() ==> gathered(
                symbols(t@),
                types@,
                sa@,
                r.1@[m],
                r.1@[m + 1],
                #[trigger] r.0@[m]@,
                r.2@[m],
                left,
            ),
{
    let mut caches: Vec<Vec<(i32, u32)>> = Vec::new();
    let ghost mut bounds: Seq<int> = seq![lo as int];
    let ghost mut ats: Seq<Seq<int>> = Seq::empty();
    let mut start = lo;
    while start < hi
        invariant
            lo <= start <= hi <= sa@.len(),
            chunk >= 1,
            sa@.len() == t@.len(),
            types@.len() == t@.len(),
            t@.len() <= i32::MAX,
            k <= i32::MAX,
            within_alphabet(t@, k as int),
            slots_in_range(sa@, t@.len() as int),
            chunked(bounds, lo as int, start as int, caches@.len() as int),
            ats.len() == caches@.len(),
            forall|m: int|
                0 <= m < caches@.len() ==> gathered(
                    symbols(t@),
                    types@,
                    sa@,
                    bounds[m],
                    bounds[m + 1],
                    #[trigger] caches@[m]@,
                    ats[m],
                    left,
                ),
        decreases hi - start,
    {
        let end = if hi - start > chunk {
            start + chunk
        } else {
            hi
        };
        let (cache, Ghost(at)) = if left {
            gather_l(sa, start, end, t, types, k)
        } else {
            gather_s(sa, start, end, t, types, k)
        };
        let ghost caches0 = caches@;
        let ghost bounds0 = bounds;
        let ghost ats0 = ats;
        caches.push(cache);
        proof {
            bounds = bounds.push(end as int);
            ats = ats.push(at);
            assert forall|m: int|
                0 <= m < caches@.len() implies gathered(
                symbols(t@),
                types@,
                sa@,
                bounds[m],
                bounds[m + 1],
                #[trigger] caches@[m]@,
                ats[m],
                left,
            ) by {
                if m < caches0.len() {
                    assert(caches@[m] == caches0[m]);
                    assert(bounds[m] == bounds0[m] && bounds[m + 1] == bounds0[m + 1]);
                    assert(ats[m] == ats0[m]);
                }
            }
            assert forall|m: int| 0 <= m < caches@.len() implies #[trigger] bounds[m] <= bounds[m + 1] by {
                if m < caches0.len() {
                    assert(bounds[m] == bounds0[m] && bounds[m + 1] == bounds0[m + 1]);
                }
            }
            assert forall|m: int| 0 <= m <= caches@.len() implies lo <= #[trigger] bounds[m] <= end by {
                if m < bounds0.len() {
                    assert(bounds[m] == bounds0[m]);
                }
            }
        }
        start = end;
    }
    (caches, Ghost(bounds), Ghost(ats))
}

/// Number of workers a block of `block_size` slots is gathered by: `threads`,
/// but no more than one per `PAR_BLOCK_MIN` slots, and at least one.
spec fn block_workers(block_size: int, threads: int) -> int {
    let by_size = block_size / (PAR_BLOCK_MIN as int);
    let capped = if threads < by_size {
        threads
    } else {
        by_size
    };
    if capped > 1 {
        capped
    } else {
        1
    }
}

/// Size of the chunks a block of `block_size` slots is gathered in: the
/// block shared out evenly among its workers, rounded up, and at least one.
spec fn block_chunk_size(block_size: int, threads: int) -> int {
    let w = block_workers(block_size, threads);
    let chunk = block_size / w + if block_size % w == 0 {
        0int
    } else {
        1int
    };
    if chunk > 1 {
        chunk
    } else {
        1
    }
}

/// Size of the chunks a block of `block_size` slots is gathered in.
fn chunk_size_for(block_size: usize, threads: usize) -> (r: usize)
    requires
        1 <= block_size <= i32::MAX,
    ensures
        r == block_chunk_size(block_size as int, threads as int),
        r >= 1,
{
    let by_size = block_size / PAR_BLOCK_MIN;
    let capped = if threads < by_size {
        threads
    } else {
        by_size
    };
    let n_threads = if capped > 1 {
        capped
    } else {
        1
    };
    assert(block_size / n_threads <= block_size / 1) by (nonlinear_arith)
        requires
            n_threads >= 1,
    ;
    let chunk = block_size / n_threads + if block_size % n_threads == 0 {
        0
    } else {
        1
    };
    if chunk > 1 {
        chunk
    } else {
        1
    }
}

/// The L-pass state moves over slots that induce nothing.
proof fn lemma_l_skip_to(
    s: Seq<int>,
    k: int,
    ord: spec_fn(int, int) -> bool,
    sa0: Seq<i32>,
    sa: Seq<i32>,
    heads: Seq<i32>,
    p: int,
    q: int,
)
    requires
        l_state(s, k, ord, sa0, sa, heads, p),
        p <= q <= s.len(),
        forall|r: int| p <= r < q ==> #[trigger] sa[r] <= 0 || s_type(s, sa[r] - 1),
    ensures
        l_state(s, k, ord, sa0, sa, heads, q),
    decreases q - p,
{
    if p < q {
        lemma_l_skip(s, k, ord, sa0, sa, heads, p);
        lemma_l_skip_to(s, k, ord, sa0, sa, heads, p + 1, q);
    }
}

/// The S-pass state moves over slots that induce nothing.
proof fn lemma_s_skip_to(
    s: Seq<int>,
    k: int,
    ord: spec_fn(int, int) -> bool,
    sa: Seq<i32>,
    tails: Seq<i32>,
    p: int,
    q: int,
)
    requires
        s_state(s, k, ord, sa, tails, p),
        0 <= q <= p,
        forall|r: int| q <= r < p ==> #[trigger] sa[r] <= 0 || !s_type(s, sa[r] - 1),
    ensures
        s_state(s, k, ord, sa, tails, q),
    decreases p - q,
{
    if q < p {
        lemma_s_skip(s, k, ord, sa, tails, p);
        lemma_s_skip_to(s, k, ord, sa, tails, p - 1, q);
    }
}

/// Run the serial L-pass steps over slots `lo..hi`.
fn induce_l_range<C: Symbol>(
    sa: &mut [i32],
    t: &[C],
    types: &[bool],
    heads: &mut Vec<i32>,
    lo: usize,
    hi: usize,
    Ghost(ord): Ghost<spec_fn(int, int) -> bool>,
    Ghost(sa0): Ghost<Seq<i32>>,
)
    requires
        lo <= hi <= t@.len() <= i32::MAX,
        types_of(symbols(t@), types@),
        within_alphabet(t@, old(heads)@.len() as int),
        order_fits(symbols(t@), ord),
        order_shifts_l(symbols(t@), ord),
        l_state(symbols(t@), old(heads)@.len() as int, ord, sa0, old(sa)@, old(heads)@, lo as int),
    ensures
        final(heads)@.len() == old(heads)@.len(),
        l_state(symbols(t@), old(heads)@.len() as int, ord, sa0, final(sa)@, final(heads)@, hi as int),
{
    let ghost s = symbols(t@);
    let ghost k = heads@.len() as int;
    let mut q = lo;
    while q < hi
        invariant
            lo <= q <= hi <= t@.len() <= i32::MAX,
            s == symbols(t@),
            k == heads@.len(),
            types_of(s, types@),
            within_alphabet(t@, k),
            order_fits(s, ord),
            order_shifts_l(s, ord),
            l_state(s, k, ord, sa0, sa@, heads@, q as int),
        decreases hi - q,
    {
        induce_l_step(sa, t, types, heads, q, Ghost(ord), Ghost(sa0));
        q += 1;
    }
}

/// The L-pass over a block `lo..hi` of non-empty slots: gather its
/// inductions chunk by chunk from the block as it stands, then scatter them
/// in chunk order. No write lands in the block, so this is the serial pass.
fn induce_l_block<C: Symbol>(
    sa: &mut [i32],
    t: &[C],
    types: &[bool],
    heads: &mut Vec<i32>,
    lo: usize,
    hi: usize,
    threads: usize,
    Ghost(ord): Ghost<spec_fn(int, int) -> bool>,
    Ghost(sa0): Ghost<Seq<i32>>,
)
    requires
        lo < hi <= t@.len() <= i32::MAX,
        old(heads)@.len() <= i32::MAX,
        types_of(symbols(t@), types@),
        within_alphabet(t@, old(heads)@.len() as int),
        order_fits(symbols(t@), ord),
        order_shifts_l(symbols(t@), ord),
        l_input(symbols(t@), old(heads)@.len() as int, ord, sa0),
        l_state(symbols(t@), old(heads)@.len() as int, ord, sa0, old(sa)@, old(heads)@, lo as int),
        forall|q: int| lo <= q < hi ==> #[trigger] old(sa)@[q] >= 0,
    ensures
        final(heads)@.len() == old(heads)@.len(),
        l_state(symbols(t@), old(heads)@.len() as int, ord, sa0, final(sa)@, final(heads)@, hi as int),
{
    let ghost s = symbols(t@);
    let k = heads.len();
    let n = sa.len();
    proof {
        lemma_symbols_below(t@, k as int);
        lemma_l_state_range(s, k as int, ord, sa0, sa@, heads@, lo as int);
    }
    let chunk = chunk_size_for(hi - lo, threads);
    let ghost snap = sa@;
    let (caches, Ghost(bounds), Ghost(ats)) = gather_chunks(sa, lo, hi, chunk, t, types, k, true);
    let ghost mut p: int = lo as int;
    let mut m: usize = 0;
    while m < caches.len()
        invariant
            n == sa@.len() == t@.len() <= i32::MAX,
            s == symbols(t@),
            k == heads@.len(),
            types_of(s, types@),
            symbols_below(s, k as int),
            order_fits(s, ord),
            order_shifts_l(s, ord),
            m <= caches@.len(),
            chunked(bounds, lo as int, hi as int, caches@.len() as int),
            ats.len() == caches@.len(),
            forall|x: int|
                0 <= x < caches@.len() ==> gathered(
                    s,
                    types@,
                    snap,
                    bounds[x],
                    bounds[x + 1],
                    #[trigger] caches@[x]@,
                    ats[x],
                    true,
                ),
            hi <= n,
            forall|q: int| lo <= q < hi ==> #[trigger] snap[q] >= 0,
            forall|q: int| lo <= q < hi ==> #[trigger] sa@[q] == snap[q],
            p == bounds[m as int],
            l_state(s, k as int, ord, sa0, sa@, heads@, p),
        decreases caches@.len() - m,
    {
        let cache = &caches[m];
        let ghost at = ats[m as int];
        assert(gathered(s, types@, snap, bounds[m as int], bounds[m + 1], cache@, at, true));
        let mut e: usize = 0;
        while e < cache.len()
            invariant
                n == sa@.len() == t@.len() <= i32::MAX,
                s == symbols(t@),
                k == heads@.len(),
                types_of(s, types@),
                symbols_below(s, k as int),
                order_fits(s, ord),
                order_shifts_l(s, ord),
                lo <= bounds[m as int] <= bounds[m + 1] <= hi <= n,
                gathered(s, types@, snap, bounds[m as int], bounds[m + 1], cache@, at, true),
                e <= cache@.len(),
                forall|q: int| lo <= q < hi ==> #[trigger] snap[q] >= 0,
                forall|q: int| lo <= q < hi ==> #[trigger] sa@[q] == snap[q],
                e == 0 ==> p == bounds[m as int],
                e > 0 ==> p == at[e - 1] + 1,
                bounds[m as int] <= p <= bounds[m + 1],
                l_state(s, k as int, ord, sa0, sa@, heads@, p),
            decreases cache@.len() - e,
        {
            let (j, c) = cache[e];
            let ghost qe = at[e as int];
            proof {
                assert(bounds[m as int] <= qe < bounds[m + 1]);
                if e > 0 {
                    assert(at[e - 1] < qe);
                }
                assert forall|r: int| p <= r < qe implies #[trigger] sa@[r] <= 0 || s_type(s, sa@[r] - 1) by {
                    if sa@[r] > 0 && !s_type(s, sa@[r] - 1) {
                        assert(induces_l(types@, snap, r));
                        let m2 = choose|m2: int| 0 <= m2 < at.len() && #[trigger] at[m2] == r;
                        if m2 < e {
                            if m2 < e - 1 {
                                assert(at[m2] < at[e - 1]);
                            }
                        } else if m2 > e {
                            assert(at[e as int] < at[m2]);
                        }
                    }
                }
                lemma_l_skip_to(s, k as int, ord, sa0, sa@, heads@, p, qe);
                assert(induces_l(types@, snap, qe));
                lemma_l_write(s, k as int, ord, sa0, sa@, heads@, qe);
            }
            let cu = c as usize;
            let slot = heads[cu] as usize;
            sa[slot] = j;
            heads.set(cu, heads[cu] + 1);
            proof {
                p = qe + 1;
            }
            e += 1;
        }
        proof {
            let b = bounds[m + 1];
            assert forall|r: int| p <= r < b implies #[trigger] sa@[r] <= 0 || s_type(s, sa@[r] - 1) by {
                if sa@[r] > 0 && !s_type(s, sa@[r] - 1) {
                    assert(induces_l(types@, snap, r));
                    let m2 = choose|m2: int| 0 <= m2 < at.len() && #[trigger] at[m2] == r;
                    if m2 < at.len() - 1 {
                        assert(at[m2] < at[at.len() - 1]);
                    }
                }
            }
            lemma_l_skip_to(s, k as int, ord, sa0, sa@, heads@, p, b);
            p = b;
        }
        m += 1;
    }
}

/// Block-structured L-pass: same output as `induce_l`. `threads` shapes the chunks.
pub(crate) fn induce_l_parallel<C: Symbol>(
    sa: &mut [i32],
    t: &[C],
    types: &[bool],
    counts: &[i32],
    threads: usize,
    Ghost(ord): Ghost<spec_fn(int, int) -> bool>,
)
    requires
        induce_inputs(old(sa)@, t@, types@, counts@),
        types_of(symbols(t@), types@),
        order_fits(symbols(t@), ord),
        order_shifts_l(symbols(t@), ord),
        l_input(symbols(t@), counts@.len() as int, ord, old(sa)@),
    ensures
        l_output(symbols(t@), counts@.len() as int, ord, old(sa)@, final(sa)@),
{
    let ghost s = symbols(t@);
    let ghost sa0 = sa@;
    let n = sa.len();
    let k = counts.len();
    if n == 0 {
        proof {
            lemma_l_output_empty(s, k as int, ord, sa0);
        }
        return ;
    }
    let mut heads = heads_at_starts(t, counts);
    seed_last_l(sa, t, types, &mut heads, Ghost(ord));
    let mut i: usize = 0;
    while i < n
        invariant
            i <= n == sa@.len() == t@.len() <= i32::MAX,
            s == symbols(t@),
            k == counts@.len() == heads@.len(),
            k <= i32::MAX,
            types_of(s, types@),
            within_alphabet(t@, k as int),
            order_fits(s, ord),
            order_shifts_l(s, ord),
            l_input(s, k as int, ord, sa0),
            l_state(s, k as int, ord, sa0, sa@, heads@, i as int),
        decreases n - i,
    {
        // Skip leading empty slots (`sa[i] == 0` is a valid entry).
        let ghost i0 = i;
        while i < n && sa[i] < 0
            invariant
                i0 <= i <= n == sa@.len() == s.len(),
                l_state(s, k as int, ord, sa0, sa@, heads@, i as int),
            decreases n - i,
        {
            proof {
                lemma_l_skip(s, k as int, ord, sa0, sa@, heads@, i as int);
            }
            i += 1;
        }
        if i < n {
            // Extend the block until an empty slot or the size cap.
            let block_end_max = if n - i > PAR_BLOCK_MAX {
                i + PAR_BLOCK_MAX
            } else {
                n
            };
            let mut block_end = i + 1;
            while block_end < block_end_max && sa[block_end] >= 0
                invariant
                    i < block_end <= block_end_max <= n == sa@.len(),
                    forall|q: int| i <= q < block_end ==> #[trigger] sa@[q] >= 0,
                decreases block_end_max - block_end,
            {
                block_end += 1;
            }
            let block_size = block_end - i;
            if block_size < PAR_BLOCK_MIN {
                induce_l_range(sa, t, types, &mut heads, i, block_end, Ghost(ord), Ghost(sa0));
            } else {
                induce_l_block(sa, t, types, &mut heads, i, block_end, threads, Ghost(ord), Ghost(sa0));
            }
            i = block_end;
        }
    }
    proof {
        lemma_symbols_below(t@, k as int);
        lemma_l_done(s, k as int, ord, sa0, sa@, heads@);
    }
}

/// Empty every slot that holds an LMS position, so that the S-pass only ever
/// writes over empty slots.
fn clear_lms(sa: &mut [i32], types: &[bool], Ghost(s): Ghost<Seq<int>>)
    requires
        types_of(s, types@),
        slots_in_range(old(sa)@, s.len() as int),
    ensures
        final(sa)@.len() == old(sa)@.len(),
        forall|q: int|
            0 <= q < old(sa)@.len() ==> #[trigger] final(sa)@[q] == if old(sa)@[q] >= 0 && lms(s, old(sa)@[q] as int) {
                -1i32
            } else {
                old(sa)@[q]
            },
{
    let ghost sa0 = sa@;
    let n = sa.len();
    let mut q: usize = 0;
    while q < n
        invariant
            q <= n == sa@.len() == sa0.len(),
            types_of(s, types@),
            slots_in_range(sa0, s.len() as int),
            forall|x: int| q <= x < n ==> #[trigger] sa@[x] == sa0[x],
            forall|x: int|
                0 <= x < q ==> #[trigger] sa@[x] == if sa0[x] >= 0 && lms(s, sa0[x] as int) {
                    -1i32
                } else {
                    sa0[x]
                },
        decreases n - q,
    {
        let v = sa[q];
        if v > 0 {
            proof {
                crate::classify::lemma_is_lms_matches(s, types@, v as int);
            }
            if is_lms(types, v as usize) {
                sa[q] = -1;
            }
        }
        q += 1;
    }
}

/// Run the serial S-pass steps over slots `lo..hi`, right to left.
fn induce_s_range<C: Symbol>(
    sa: &mut [i32],
    t: &[C],
    types: &[bool],
    tails: &mut Vec<i32>,
    lo: usize,
    hi: usize,
    Ghost(ord): Ghost<spec_fn(int, int) -> bool>,
)
    requires
        lo <= hi <= t@.len() <= i32::MAX,
        types_of(symbols(t@), types@),
        within_alphabet(t@, old(tails)@.len() as int),
        order_fits(symbols(t@), ord),
        order_shifts_s(symbols(t@), ord),
        s_state(symbols(t@), old(tails)@.len() as int, ord, old(sa)@, old(tails)@, hi as int),
        stale_cleared(symbols(t@), old(tails)@.len() as int, old(sa)@, old(tails)@),
    ensures
        final(tails)@.len() == old(tails)@.len(),
        s_state(symbols(t@), old(tails)@.len() as int, ord, final(sa)@, final(tails)@, lo as int),
        stale_cleared(symbols(t@), old(tails)@.len() as int, final(sa)@, final(tails)@),
{
    let ghost s = symbols(t@);
    let ghost k = tails@.len() as int;
    let mut q = hi;
    while q > lo
        invariant
            lo <= q <= hi <= t@.len() <= i32::MAX,
            s == symbols(t@),
            k == tails@.len(),
            types_of(s, types@),
            within_alphabet(t@, k),
            order_fits(s, ord),
            order_shifts_s(s, ord),
            s_state(s, k, ord, sa@, tails@, q as int),
            stale_cleared(s, k, sa@, tails@),
        decreases q - lo,
    {
        q -= 1;
        induce_s_step(sa, t, types, tails, q, Ghost(ord));
    }
}

/// The S-pass over a block `lo..hi` of non-empty slots: gather its
/// inductions chunk by chunk, right to left, from the block as it stands,
/// then scatter them starting with the rightmost chunk. Every write goes to
/// an empty slot, never into the block, so this is the serial pass.
fn induce_s_block<C: Symbol>(
    sa: &mut [i32],
    t: &[C],
    types: &[bool],
    tails: &mut Vec<i32>,
    lo: usize,
    hi: usize,
    threads: usize,
    Ghost(ord): Ghost<spec_fn(int, int) -> bool>,
)
    requires
        lo < hi <= t@.len() <= i32::MAX,
        old(tails)@.len() <= i32::MAX,
        types_of(symbols(t@), types@),
        within_alphabet(t@, old(tails)@.len() as int),
        order_fits(symbols(t@), ord),
        order_shifts_s(symbols(t@), ord),
        s_state(symbols(t@), old(tails)@.len() as int, ord, old(sa)@, old(tails)@, hi as int),
        stale_cleared(symbols(t@), old(tails)@.len() as int, old(sa)@, old(tails)@),
        forall|q: int| lo <= q < hi ==> #[trigger] old(sa)@[q] >= 0,
    ensures
        final(tails)@.len() == old(tails)@.len(),
        s_state(symbols(t@), old(tails)@.len() as int, ord, final(sa)@, final(tails)@, lo as int),
        stale_cleared(symbols(t@), old(tails)@.len() as int, final(sa)@, final(tails)@),
{
    let ghost s = symbols(t@);
    let k = tails.len();
    let n = sa.len();
    proof {
        lemma_symbols_below(t@, k as int);
    }
    let chunk = chunk_size_for(hi - lo, threads);
    let ghost snap = sa@;
    let (caches, Ghost(bounds), Ghost(ats)) = gather_chunks(sa, lo, hi, chunk, t, types, k, false);
    let ghost mut p: int = hi as int;
    let mut m: usize = caches.len();
    while m > 0
        invariant
            n == sa@.len() == t@.len() <= i32::MAX,
            s == symbols(t@),
            k == tails@.len(),
            types_of(s, types@),
            symbols_below(s, k as int),
            order_fits(s, ord),
            order_shifts_s(s, ord),
            m <= caches@.len(),
            chunked(bounds, lo as int, hi as int, caches@.len() as int),
            ats.len() == caches@.len(),
            forall|x: int|
                0 <= x < caches@.len() ==> gathered(
                    s,
                    types@,
                    snap,
                    bounds[x],
                    bounds[x + 1],
                    #[trigger] caches@[x]@,
                    ats[x],
                    false,
                ),
            hi <= n,
            forall|q: int| lo <= q < hi ==> #[trigger] snap[q] >= 0,
            forall|q: int| lo <= q < hi ==> #[trigger] sa@[q] == snap[q],
            p == bounds[m as int],
            s_state(s, k as int, ord, sa@, tails@, p),
            stale_cleared(s, k as int, sa@, tails@),
        decreases m,
    {
        m -= 1;
        let cache = &caches[m];
        let ghost at = ats[m as int];
        assert(gathered(s, types@, snap, bounds[m as int], bounds[m + 1], cache@, at, false));
        let mut e: usize = 0;
        while e < cache.len()
            invariant
                n == sa@.len() == t@.len() <= i32::MAX,
                s == symbols(t@),
                k == tails@.len(),
                types_of(s, types@),
                symbols_below(s, k as int),
                order_fits(s, ord),
                order_shifts_s(s, ord),
                lo <= bounds[m as int] <= bounds[m + 1] <= hi <= n,
                gathered(s, types@, snap, bounds[m as int], bounds[m + 1], cache@, at, false),
                e <= cache@.len(),
                forall|q: int| lo <= q < hi ==> #[trigger] snap[q] >= 0,
                forall|q: int| lo <= q < hi ==> #[trigger] sa@[q] == snap[q],
                e == 0 ==> p == bounds[m + 1],
                e > 0 ==> p == at[e - 1],
                bounds[m as int] <= p <= bounds[m + 1],
                s_state(s, k as int, ord, sa@, tails@, p),
                stale_cleared(s, k as int, sa@, tails@),
            decreases cache@.len() - e,
        {
            let (j, c) = cache[e];
            let ghost qe = at[e as int];
            proof {
                assert(bounds[m as int] <= qe < bounds[m + 1]);
                if e > 0 {
                    assert(at[e - 1] > qe);
                }
                assert forall|r: int| qe + 1 <= r < p implies #[trigger] sa@[r] <= 0 || !s_type(s, sa@[r] - 1) by {
                    if sa@[r] > 0 && s_type(s, sa@[r] - 1) {
                        assert(induces_s(types@, snap, r));
                        let m2 = choose|m2: int| 0 <= m2 < at.len() && #[trigger] at[m2] == r;
                        if m2 < e {
                            if m2 < e - 1 {
                                assert(at[m2] > at[e - 1]);
                            }
                        } else if m2 > e {
                            assert(at[e as int] > at[m2]);
                        }
                    }
                }
                lemma_s_skip_to(s, k as int, ord, sa@, tails@, p, qe + 1);
                assert(induces_s(types@, snap, qe));
                lemma_s_write(s, k as int, ord, sa@, tails@, qe + 1);
                lemma_s_write_cleared(s, k as int, sa@, tails@, c as int, j as int);
            }
            let cu = c as usize;
            tails.set(cu, tails[cu] - 1);
            let slot = tails[cu] as usize;
            sa[slot] = j;
            proof {
                p = qe;
            }
            e += 1;
        }
        proof {
            let b = bounds[m as int];
            assert forall|r: int| b <= r < p implies #[trigger] sa@[r] <= 0 || !s_type(s, sa@[r] - 1) by {
                if sa@[r] > 0 && s_type(s, sa@[r] - 1) {
                    assert(induces_s(types@, snap, r));
                    let m2 = choose|m2: int| 0 <= m2 < at.len() && #[trigger] at[m2] == r;
                    if m2 < at.len() - 1 {
                        assert(at[m2] > at[at.len() - 1]);
                    }
                }
            }
            lemma_s_skip_to(s, k as int, ord, sa@, tails@, p, b);
            p = b;
        }
    }
}

/// Block-structured S-pass: same output as `induce_s`. `threads` shapes the chunks.
pub(crate) fn induce_s_parallel<C: Symbol>(
    sa: &mut [i32],
    t: &[C],
    types: &[bool],
    counts: &[i32],
    threads: usize,
    Ghost(ord): Ghost<spec_fn(int, int) -> bool>,
)
    requires
        induce_inputs(old(sa)@, t@, types@, counts@),
        types_of(symbols(t@), types@),
        order_fits(symbols(t@), ord),
        order_shifts_s(symbols(t@), ord),
        s_input(symbols(t@), counts@.len() as int, ord, old(sa)@),
    ensures
        s_output(symbols(t@), ord, final(sa)@),
{
    let ghost s = symbols(t@);
    let n = sa.len();
    let k = counts.len();
    proof {
        lemma_symbols_below(t@, k as int);
    }
    let ghost sa_in = sa@;
    clear_lms(sa, types, Ghost(s));
    proof {
        lemma_s_input_cleared(s, k as int, ord, sa_in, sa@);
    }
    let mut tails = tails_at_ends(t, counts);
    proof {
        lemma_s_start(s, k as int, ord, sa@, tails@);
    }
    let mut i: usize = n;
    while i > 0
        invariant
            i <= n == sa@.len() == t@.len() <= i32::MAX,
            s == symbols(t@),
            k == counts@.len() == tails@.len(),
            k <= i32::MAX,
            types_of(s, types@),
            within_alphabet(t@, k as int),
            order_fits(s, ord),
            order_shifts_s(s, ord),
            s_state(s, k as int, ord, sa@, tails@, i as int),
            stale_cleared(s, k as int, sa@, tails@),
        decreases i,
    {
        let ghost i0 = i;
        while i > 0 && sa[i - 1] < 0
            invariant
                i <= i0 <= n == sa@.len() == s.len(),
                s_state(s, k as int, ord, sa@, tails@, i as int),
            decreases i,
        {
            proof {
                lemma_s_skip(s, k as int, ord, sa@, tails@, i as int);
            }
            i -= 1;
        }
        if i > 0 {
            let block_start_min = if i > PAR_BLOCK_MAX {
                i - PAR_BLOCK_MAX
            } else {
                0
            };
            let mut block_start = i - 1;
            while block_start > block_start_min && sa[block_start - 1] >= 0
                invariant
                    block_start_min <= block_start < i <= n == sa@.len(),
                    forall|q: int| block_start <= q < i ==> #[trigger] sa@[q] >= 0,
                decreases block_start,
            {
                block_start -= 1;
            }
            let block_size = i - block_start;
            if block_size < PAR_BLOCK_MIN {
                induce_s_range(sa, t, types, &mut tails, block_start, i, Ghost(ord));
            } else {
                induce_s_block(sa, t, types, &mut tails, block_start, i, threads, Ghost(ord));
            }
            i = block_start;
        }
    }
    proof {
        lemma_symbols_below(t@, k as int);
        lemma_s_done(s, k as int, ord, sa@, tails@);
    }
}

/// Emptying the LMS slots of an S-pass input keeps it an S-pass input, with
/// no LMS position left in it.
proof fn lemma_s_input_cleared(s: Seq<int>, k: int, ord: spec_fn(int, int) -> bool, sa: Seq<i32>, sa2: Seq<i32>)
    requires
        s_input(s, k, ord, sa),
        sa2.len() == sa.len(),
        forall|q: int|
            0 <= q < sa.len() ==> #[trigger] sa2[q] == if sa[q] >= 0 && lms(s, sa[q] as int) {
                -1i32
            } else {
                sa[q]
            },
    ensures
        s_input(s, k, ord, sa2),
        forall|q: int| 0 <= q < sa2.len() && sa2[q] >= 0 ==> !lms(s, #[trigger] sa2[q] as int),
{
    assert forall|c: int, q: int|
        #![trigger sa2[q], l_end(s, c)]
        0 <= c < k && bstart(s, c) <= q < l_end(s, c) implies sa2[q] >= 0 && s[sa2[q] as int] == c && is_l(
            s,
            sa2[q] as int,
        ) by {
        lemma_regions(s, c);
        assert(sa[q] >= 0 && s[sa[q] as int] == c && is_l(s, sa[q] as int));
    }
    assert forall|c: int, q: int|
        #![trigger sa2[q], l_end(s, c)]
        0 <= c < k && l_end(s, c) <= q < bend(s, c) implies sa2[q] == -1 || (lms(s, sa2[q] as int) && s[sa2[q] as int]
            == c) by {
        lemma_regions(s, c);
        assert(sa[q] == -1 || (lms(s, sa[q] as int) && s[sa[q] as int] == c));
    }
    assert forall|q1: int, q2: int|
        #![trigger sa2[q1], sa2[q2]]
        0 <= q1 < q2 < sa2.len() && sa2[q1] >= 0 && sa2[q2] >= 0 && is_l(s, sa2[q1] as int) && is_l(
            s,
            sa2[q2] as int,
        ) implies ord(sa2[q1] as int, sa2[q2] as int) by {
        assert(sa2[q1] == sa[q1] && sa2[q2] == sa[q2]);
    }
    assert forall|x: int| #[trigger] is_l(s, x) implies present(sa2, x) by {
        let q = choose|q: int| 0 <= q < sa.len() && sa[q] == x;
        assert(sa2[q] == x);
    }
    assert forall|q: int| 0 <= q < sa2.len() implies -1 <= #[trigger] sa2[q] < s.len() by {
        assert(-1 <= sa[q] < s.len());
    }
}

} // verus!
