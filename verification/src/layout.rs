//! Bucket geometry of a suffix array: where each bucket starts and ends,
//! and how many L-type, S-type and LMS suffixes it holds.

use vstd::prelude::*;
use vstd::set_lib::{lemma_len_subset, lemma_subset_equality, lemma_int_range, set_int_range};

use crate::buckets::{below, occ, prefix_sum, counts_of, lemma_below_step, lemma_below_le_len, lemma_below_none};
use crate::suffix::{lms, s_type, suffix_less, lemma_s_type_step};

verus! {

/// Every symbol of `s` lies in `[0, k)`.
pub open spec fn symbols_below(s: Seq<int>, k: int) -> bool {
    forall|i: int| 0 <= i < s.len() ==> 0 <= #[trigger] s[i] < k
}

/// First slot of bucket `c`: the number of symbols smaller than `c`.
pub open spec fn bstart(s: Seq<int>, c: int) -> int {
    below(s, c) as int
}

/// One past the last slot of bucket `c`.
pub open spec fn bend(s: Seq<int>, c: int) -> int {
    below(s, c + 1) as int
}

/// `x` is an L-type position.
pub open spec fn is_l(s: Seq<int>, x: int) -> bool {
    0 <= x < s.len() && !s_type(s, x)
}

/// `x` is an S-type position.
pub open spec fn is_s(s: Seq<int>, x: int) -> bool {
    0 <= x < s.len() && s_type(s, x)
}

pub open spec fn bucket_set(s: Seq<int>, c: int) -> Set<int> {
    Set::new(|x: int| 0 <= x < s.len() && s[x] == c)
}

pub open spec fn l_set(s: Seq<int>, c: int) -> Set<int> {
    Set::new(|x: int| is_l(s, x) && s[x] == c)
}

pub open spec fn s_set(s: Seq<int>, c: int) -> Set<int> {
    Set::new(|x: int| is_s(s, x) && s[x] == c)
}

pub open spec fn lms_set(s: Seq<int>, c: int) -> Set<int> {
    Set::new(|x: int| lms(s, x) && s[x] == c)
}

/// Number of L-type positions with symbol `c`.
pub open spec fn nl(s: Seq<int>, c: int) -> int {
    l_set(s, c).len() as int
}

/// Number of S-type positions with symbol `c`.
pub open spec fn ns(s: Seq<int>, c: int) -> int {
    s_set(s, c).len() as int
}

/// Number of LMS positions with symbol `c`.
pub open spec fn nlms(s: Seq<int>, c: int) -> int {
    lms_set(s, c).len() as int
}

pub proof fn lemma_occ_is_bucket_len(s: Seq<int>, c: int)
    ensures
        bucket_set(s, c).finite(),
        bucket_set(s, c).len() == occ(s, c),
    decreases s.len(),
{
    if s.len() == 0 {
        assert(bucket_set(s, c) =~= Set::empty());
    } else {
        let s0 = s.drop_last();
        lemma_occ_is_bucket_len(s0, c);
        let n = s.len() - 1;
        if s[n] == c {
            assert(bucket_set(s, c) =~= bucket_set(s0, c).insert(n));
        } else {
            assert(bucket_set(s, c) =~= bucket_set(s0, c));
        }
    }
}

/// The bucket splits into its L-type and S-type positions; LMS positions are S-type.
pub proof fn lemma_bucket_counts(s: Seq<int>, c: int)
    ensures
        l_set(s, c).finite(),
        s_set(s, c).finite(),
        lms_set(s, c).finite(),
        nl(s, c) + ns(s, c) == occ(s, c),
        0 <= nlms(s, c) <= ns(s, c),
        0 <= nl(s, c),
{
    lemma_occ_is_bucket_len(s, c);
    let b = bucket_set(s, c);
    assert(l_set(s, c).subset_of(b));
    assert(s_set(s, c).subset_of(b));
    assert(lms_set(s, c).subset_of(s_set(s, c)));
    vstd::set_lib::lemma_set_subset_finite(b, l_set(s, c));
    vstd::set_lib::lemma_set_subset_finite(b, s_set(s, c));
    vstd::set_lib::lemma_set_subset_finite(s_set(s, c), lms_set(s, c));
    assert(b =~= l_set(s, c) + s_set(s, c));
    assert(l_set(s, c).disjoint(s_set(s, c)));
    vstd::set_lib::lemma_set_disjoint_lens(l_set(s, c), s_set(s, c));
    lemma_len_subset(lms_set(s, c), s_set(s, c));
}

/// Bucket boundaries: each bucket ends where the next one starts, buckets
/// never go backwards, and everything fits in `[0, n]`.
pub proof fn lemma_bucket_bounds(s: Seq<int>, c: int)
    ensures
        bend(s, c) == bstart(s, c) + occ(s, c),
        0 <= bstart(s, c) <= bend(s, c) <= s.len(),
        bend(s, c) == bstart(s, c + 1),
{
    lemma_below_step(s, c);
    lemma_below_le_len(s, c + 1);
}

pub proof fn lemma_bstart_monotone(s: Seq<int>, c1: int, c2: int)
    requires
        c1 <= c2,
    ensures
        bstart(s, c1) <= bstart(s, c2),
    decreases c2 - c1,
{
    if c1 < c2 {
        lemma_bstart_monotone(s, c1, c2 - 1);
        lemma_below_step(s, c2 - 1);
    }
}

/// A bucket below `c2` ends before bucket `c2` starts.
pub proof fn lemma_bucket_order(s: Seq<int>, c1: int, c2: int)
    requires
        c1 < c2,
    ensures
        bend(s, c1) <= bstart(s, c2),
{
    lemma_bucket_bounds(s, c1);
    lemma_bstart_monotone(s, c1 + 1, c2);
}

/// The bucket of a position's own symbol is not empty.
pub proof fn lemma_own_bucket(s: Seq<int>, x: int)
    requires
        0 <= x < s.len(),
    ensures
        bstart(s, s[x]) < bend(s, s[x]),
{
    lemma_occ_is_bucket_len(s, s[x]);
    assert(bucket_set(s, s[x]).contains(x));
    lemma_bucket_bounds(s, s[x]);
}

/// With symbols in `[0, k)`: bucket 0 starts at 0 and bucket `k - 1` ends at `n`.
pub proof fn lemma_bucket_extremes(s: Seq<int>, k: int)
    requires
        symbols_below(s, k),
    ensures
        bstart(s, 0) == 0,
        bstart(s, k) == s.len(),
{
    lemma_below_none(s, 0);
    lemma_below_all(s, k);
}

proof fn lemma_below_all(s: Seq<int>, k: int)
    requires
        symbols_below(s, k),
    ensures
        below(s, k) == s.len(),
    decreases s.len(),
{
    if s.len() > 0 {
        assert(symbols_below(s.drop_last(), k));
        lemma_below_all(s.drop_last(), k);
    }
}

/// Every slot `q` of the SA lies in exactly one bucket's range.
pub proof fn lemma_find_bucket(s: Seq<int>, k: int, q: int) -> (c: int)
    requires
        symbols_below(s, k),
        0 <= q < s.len(),
    ensures
        0 <= c < k,
        bstart(s, c) <= q < bend(s, c),
{
    lemma_bucket_extremes(s, k);
    if k <= 0 {
        lemma_below_none(s, 0);
    }
    lemma_find_bucket_from(s, k, q, 0)
}

proof fn lemma_find_bucket_from(s: Seq<int>, k: int, q: int, c: int) -> (r: int)
    requires
        symbols_below(s, k),
        0 <= c < k,
        bstart(s, c) <= q < s.len(),
        bstart(s, k) == s.len(),
    ensures
        c <= r < k,
        bstart(s, r) <= q < bend(s, r),
    decreases k - c,
{
    lemma_bucket_bounds(s, c);
    if q < bend(s, c) {
        c
    } else {
        lemma_find_bucket_from(s, k, q, c + 1)
    }
}

/// Bucket starts are the prefix sums of the symbol counts.
pub proof fn lemma_prefix_sum_is_bstart(s: Seq<int>, k: int, counts: Seq<int>, c: int)
    requires
        counts_of(s, k, counts),
        symbols_below(s, k),
        0 <= c <= k,
    ensures
        prefix_sum(counts, c) == bstart(s, c),
    decreases c,
{
    if c == 0 {
        lemma_below_none(s, 0);
    } else {
        lemma_prefix_sum_is_bstart(s, k, counts, c - 1);
        lemma_below_step(s, c - 1);
    }
}

/// A duplicate-free run of slots whose entries all lie in `x` has at most
/// `|x|` slots, and exactly `|x|` when it holds every element of `x`.
pub proof fn lemma_distinct_in_set(seg: Seq<i32>, x: Set<int>)
    requires
        x.finite(),
        forall|i: int, j: int| 0 <= i < j < seg.len() ==> seg[i] != seg[j],
        forall|i: int| 0 <= i < seg.len() ==> x.contains(#[trigger] seg[i] as int),
    ensures
        seg.len() <= x.len(),
        (forall|e: int| #[trigger] x.contains(e) ==> exists|i: int| 0 <= i < seg.len() && seg[i] == e)
            ==> seg.len() == x.len(),
{
    let m = seg.map_values(|v: i32| v as int);
    assert(m.no_duplicates()) by {
        assert forall|i: int, j: int| 0 <= i < m.len() && 0 <= j < m.len() && i != j implies m[i]
            != m[j] by {
            if i < j {
                assert(seg[i] != seg[j]);
            } else {
                assert(seg[j] != seg[i]);
            }
        }
    }
    m.unique_seq_to_set();
    assert(m.to_set().subset_of(x)) by {
        assert forall|e: int| m.to_set().contains(e) implies x.contains(e) by {
            let i = choose|i: int| 0 <= i < m.len() && m[i] == e;
            assert(x.contains(seg[i] as int));
        }
    }
    lemma_len_subset(m.to_set(), x);
    if forall|e: int| #[trigger] x.contains(e) ==> exists|i: int| 0 <= i < seg.len() && seg[i] == e {
        assert forall|e: int| x.contains(e) implies m.to_set().contains(e) by {
            let i = choose|i: int| 0 <= i < seg.len() && seg[i] == e;
            assert(m[i] == e);
        }
        assert(m.to_set() =~= x);
    }
}

} // verus!
