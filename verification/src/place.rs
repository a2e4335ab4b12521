//! Seeding the induction: LMS positions at the ends of their buckets, first
//! in text order, then in suffix order.

use vstd::prelude::*;

use crate::alphabet::{Symbol, symbols, within_alphabet};
use crate::buckets::counts_of;
use crate::classify::{is_lms, types_of, lemma_is_lms_matches};
use crate::induce::{tails_at_ends, lemma_symbols_below};
use crate::keys::{key_l, prefix_order_l, lemma_prefix_order_l};
use crate::layout::{
    bend, bstart, lms_set, symbols_below, lemma_bucket_order, lemma_distinct_in_set, lemma_find_bucket,
};
use crate::lms::{lms_at, lms_list, takes_value};
use crate::order::{suffix_order, order_fits, lemma_suffix_order_fits};
use crate::l_pass::{l_input, lms_tail, present, sorted_entries, lemma_bucket_disjoint, lemma_regions};
use crate::suffix::{lms, suffix_less};

verus! {

/// Every slot of `sa` becomes empty (`-1`).
pub(crate) fn fill_empty(sa: &mut [i32])
    ensures
        final(sa)@.len() == old(sa)@.len(),
        forall|q: int| 0 <= q < final(sa)@.len() ==> #[trigger] final(sa)@[q] == -1,
{
    let mut q: usize = 0;
    while q < sa.len()
        invariant
            q <= sa@.len() == old(sa)@.len(),
            forall|x: int| 0 <= x < q ==> #[trigger] sa@[x] == -1,
        decreases sa@.len() - q,
    {
        sa[q] = -1;
        q += 1;
    }
}

/// The ends of the buckets filling with LMS positions: each bucket `c` holds
/// LMS positions of symbol `c` from `tails[c]` to its end, and nothing
/// before.
pub open spec fn tails_filling(s: Seq<int>, k: int, sa: Seq<i32>, tails: Seq<i32>) -> bool {
    &&& sa.len() == s.len()
    &&& tails.len() == k
    &&& forall|c: int| 0 <= c < k ==> lms_tail(s, c) <= #[trigger] tails[c] <= bend(s, c)
    &&& forall|c: int, q: int|
        #![trigger sa[q], tails[c]]
        0 <= c < k && bstart(s, c) <= q < tails[c] ==> sa[q] == -1
    &&& forall|c: int, q: int|
        #![trigger sa[q], tails[c]]
        0 <= c < k && tails[c] <= q < bend(s, c) ==> sa[q] >= 0 && lms(s, sa[q] as int) && s[sa[q] as int] == c
}

/// Empty buckets with their tails at their ends are filling.
proof fn lemma_filling_start(s: Seq<int>, k: int, sa: Seq<i32>, tails: Seq<i32>)
    requires
        sa.len() == s.len(),
        forall|q: int| 0 <= q < sa.len() ==> #[trigger] sa[q] == -1,
        tails.len() == k,
        forall|c: int| 0 <= c < k ==> #[trigger] tails[c] == bend(s, c),
    ensures
        tails_filling(s, k, sa, tails),
{
    assert forall|c: int| 0 <= c < k implies lms_tail(s, c) <= #[trigger] tails[c] <= bend(s, c) by {
        lemma_regions(s, c);
    }
    assert forall|c: int, q: int|
        #![trigger sa[q], tails[c]]
        0 <= c < k && bstart(s, c) <= q < tails[c] implies sa[q] == -1 by {
        lemma_regions(s, c);
    }
}

/// In a filling state, a non-empty slot lies in the bucket of its entry.
proof fn lemma_filling_slot(s: Seq<int>, k: int, sa: Seq<i32>, tails: Seq<i32>, q: int)
    requires
        symbols_below(s, k),
        tails_filling(s, k, sa, tails),
        0 <= q < s.len(),
        sa[q] >= 0,
    ensures
        0 <= sa[q] < s.len(),
        lms(s, sa[q] as int),
        tails[s[sa[q] as int]] <= q < bend(s, s[sa[q] as int]),
        0 <= s[sa[q] as int] < k,
{
    let c = lemma_find_bucket(s, k, q);
    lemma_regions(s, c);
    if q < tails[c] {
        assert(sa[q] == -1);
    }
}

/// A filling state with room for `x` in its bucket: `x` goes just before the
/// filled end and the state stays a filling state.
proof fn lemma_filling_write(s: Seq<int>, k: int, sa: Seq<i32>, tails: Seq<i32>, x: int)
    requires
        symbols_below(s, k),
        tails_filling(s, k, sa, tails),
        lms(s, x),
        !present(sa, x),
        sorted_entries(sa, suffix_order(s)) || sorted_entries(sa, prefix_order_l(s)),
        s.len() <= i32::MAX,
    ensures
        ({
            let c = s[x];
            let h = tails[c] - 1;
            &&& 0 <= c < k
            &&& 0 <= lms_tail(s, c) <= h < bend(s, c) <= s.len()
            &&& sa[h] == -1
            &&& tails_filling(s, k, sa.update(h, x as i32), tails.update(c, h as i32))
            &&& forall|q: int| 0 <= q < h && sa[q] >= 0 ==> s[sa[q] as int] < c
            &&& forall|q: int| h < q < s.len() && sa[q] >= 0 ==> s[sa[q] as int] >= c
        }),
{
    let c = s[x];
    assert(0 <= c < k);
    lemma_regions(s, c);
    // The filled end of bucket c holds distinct LMS positions other than x.
    assert(tails[c] > lms_tail(s, c)) by {
        let set = lms_set(s, c).remove(x);
        assert(lms_set(s, c).contains(x));
        let seg = sa.subrange(tails[c] as int, bend(s, c));
        assert forall|i: int, i2: int| 0 <= i < i2 < seg.len() implies seg[i] != seg[i2] by {
            let q1 = tails[c] + i;
            let q2 = tails[c] + i2;
            assert(sa[q1] >= 0 && sa[q2] >= 0);
            if seg[i] == seg[i2] {
                if sorted_entries(sa, suffix_order(s)) {
                    assert(suffix_order(s)(sa[q1] as int, sa[q2] as int));
                    crate::suffix::lemma_suffix_less_irreflexive(s, sa[q1] as int);
                } else {
                    assert(prefix_order_l(s)(sa[q1] as int, sa[q2] as int));
                    crate::keys::lemma_lex_irreflexive(key_l(s, sa[q1] as int));
                }
            }
        }
        assert forall|i: int| 0 <= i < seg.len() implies set.contains(#[trigger] seg[i] as int) by {
            let q = tails[c] + i;
            assert(sa[q] >= 0 && lms(s, sa[q] as int) && s[sa[q] as int] == c);
            if sa[q] == x {
                assert(present(sa, x));
            }
        }
        lemma_distinct_in_set(seg, set);
    }
    let h = tails[c] - 1;
    let sa2 = sa.update(h, x as i32);
    let tails2 = tails.update(c, h as i32);
    assert(sa[h] == -1);
    assert forall|c2: int| 0 <= c2 < k implies lms_tail(s, c2) <= #[trigger] tails2[c2] <= bend(s, c2) by {
        if c2 != c {
            assert(tails2[c2] == tails[c2]);
        }
    }
    assert forall|c2: int, q: int|
        #![trigger sa2[q], tails2[c2]]
        0 <= c2 < k && bstart(s, c2) <= q < tails2[c2] implies sa2[q] == -1 by {
        lemma_regions(s, c2);
        if q == h {
            lemma_bucket_disjoint(s, c, c2, q);
        }
        if c2 != c {
            assert(tails2[c2] == tails[c2]);
        }
    }
    assert forall|c2: int, q: int|
        #![trigger sa2[q], tails2[c2]]
        0 <= c2 < k && tails2[c2] <= q < bend(s, c2) implies sa2[q] >= 0 && lms(s, sa2[q] as int) && s[sa2[q] as int]
            == c2 by {
        lemma_regions(s, c2);
        if q == h {
            lemma_bucket_disjoint(s, c, c2, q);
        } else {
            if c2 != c {
                assert(tails2[c2] == tails[c2]);
            }
            assert(sa[q] >= 0 && lms(s, sa[q] as int) && s[sa[q] as int] == c2);
        }
    }
    assert forall|q: int| 0 <= q < h && sa[q] >= 0 implies s[sa[q] as int] < c by {
        lemma_filling_slot(s, k, sa, tails, q);
        let c2 = s[sa[q] as int];
        lemma_regions(s, c2);
        if c2 > c {
            lemma_bucket_order(s, c, c2);
        } else if c2 == c {
            assert(q >= tails[c]);
        }
    }
    assert forall|q: int| h < q < s.len() && sa[q] >= 0 implies s[sa[q] as int] >= c by {
        lemma_filling_slot(s, k, sa, tails, q);
        let c2 = s[sa[q] as int];
        lemma_regions(s, c2);
        if c2 < c {
            lemma_bucket_order(s, c2, c);
        }
    }
}

/// When every LMS position is in, each bucket's filled end is exactly its
/// LMS part, and the state is an L-pass input for any order it is sorted by.
proof fn lemma_filling_done(
    s: Seq<int>,
    k: int,
    ord: spec_fn(int, int) -> bool,
    sa: Seq<i32>,
    tails: Seq<i32>,
)
    requires
        symbols_below(s, k),
        order_fits(s, ord),
        tails_filling(s, k, sa, tails),
        sorted_entries(sa, ord),
        forall|x: int| #[trigger] lms(s, x) ==> present(sa, x),
    ensures
        l_input(s, k, ord, sa),
{
    assert forall|c: int| 0 <= c < k implies #[trigger] tails[c] == lms_tail(s, c) by {
        lemma_regions(s, c);
        let seg = sa.subrange(tails[c] as int, bend(s, c));
        assert forall|i: int, i2: int| 0 <= i < i2 < seg.len() implies seg[i] != seg[i2] by {
            let q1 = tails[c] + i;
            let q2 = tails[c] + i2;
            assert(sa[q1] >= 0 && sa[q2] >= 0);
            assert(lms(s, sa[q1] as int) && lms(s, sa[q2] as int));
            crate::l_pass::lemma_sorted_distinct(s, ord, sa, q1, q2);
        }
        assert forall|i: int| 0 <= i < seg.len() implies lms_set(s, c).contains(#[trigger] seg[i] as int) by {
            let q = tails[c] + i;
            assert(sa[q] >= 0 && lms(s, sa[q] as int) && s[sa[q] as int] == c);
        }
        assert forall|e: int| #[trigger] lms_set(s, c).contains(e) implies exists|i: int| 0 <= i < seg.len() && seg[i] == e by {
            assert(lms(s, e));
            let q = choose|q: int| 0 <= q < sa.len() && sa[q] == e;
            lemma_filling_slot(s, k, sa, tails, q);
            assert(seg[q - tails[c]] == e);
        }
        lemma_distinct_in_set(seg, lms_set(s, c));
    }
    assert forall|c: int, q: int|
        #![trigger sa[q], lms_tail(s, c)]
        0 <= c < k && bstart(s, c) <= q < lms_tail(s, c) implies sa[q] == -1 by {
        assert(tails[c] == lms_tail(s, c));
    }
    assert forall|c: int, q: int|
        #![trigger sa[q], lms_tail(s, c)]
        0 <= c < k && lms_tail(s, c) <= q < bend(s, c) implies sa[q] >= 0 && lms(s, sa[q] as int) && s[sa[q] as int] == c by {
        assert(tails[c] == lms_tail(s, c));
    }
}

/// Step 1 of SA-IS: every LMS position at the end of its bucket, walking
/// the text left to right, so that within a bucket later positions come
/// first.
pub(crate) fn place_lms_in_text_order<C: Symbol>(sa: &mut [i32], t: &[C], types: &[bool], counts: &[i32])
    requires
        old(sa)@.len() == t@.len() <= i32::MAX,
        types_of(symbols(t@), types@),
        within_alphabet(t@, counts@.len() as int),
        counts_of(symbols(t@), counts@.len() as int, counts@.map_values(|v: i32| v as int)),
    ensures
        l_input(symbols(t@), counts@.len() as int, prefix_order_l(symbols(t@)), final(sa)@),
{
    let ghost s = symbols(t@);
    let ghost k = counts@.len() as int;
    let ghost ord = prefix_order_l(s);
    proof {
        lemma_symbols_below(t@, k);
        lemma_prefix_order_l(s, k);
    }
    let n = t.len();
    fill_empty(sa);
    let mut tails = tails_at_ends(t, counts);
    proof {
        lemma_filling_start(s, k, sa@, tails@);
    }
    let mut i: usize = 1;
    while i < n
        invariant
            1 <= i <= n || n == 0,
            n == sa@.len() == t@.len() == types@.len() <= i32::MAX,
            s == symbols(t@),
            k == counts@.len(),
            ord == prefix_order_l(s),
            symbols_below(s, k),
            within_alphabet(t@, k),
            types_of(s, types@),
            order_fits(s, ord),
            tails_filling(s, k, sa@, tails@),
            forall|q1: int, q2: int|
                #![trigger sa@[q1], sa@[q2]]
                0 <= q1 < q2 < n && sa@[q1] >= 0 && sa@[q2] >= 0 && s[sa@[q1] as int] == s[sa@[q2] as int] ==> sa@[q1]
                    > sa@[q2],
            forall|q: int| 0 <= q < n && sa@[q] >= 0 ==> #[trigger] sa@[q] < i,
            forall|x: int| #[trigger] lms(s, x) && x < i ==> present(sa@, x),
        decreases n - i,
    {
        proof {
            lemma_is_lms_matches(s, types@, i as int);
        }
        if is_lms(types, i) {
            proof {
                assert(!present(sa@, i as int)) by {
                    if present(sa@, i as int) {
                        let q = choose|q: int| 0 <= q < sa@.len() && sa@[q] == i;
                    }
                }
                lemma_filling_sorted(s, k, sa@, tails@);
                lemma_filling_write(s, k, sa@, tails@, i as int);
            }
            assert(t@[i as int].has_index());
            let c = t[i].idx();
            let ghost sa_before = sa@;
            tails.set(c, tails[c] - 1);
            let slot = tails[c] as usize;
            sa[slot] = i as i32;
            proof {
                assert forall|q1: int, q2: int|
                    #![trigger sa@[q1], sa@[q2]]
                    0 <= q1 < q2 < n && sa@[q1] >= 0 && sa@[q2] >= 0 && s[sa@[q1] as int] == s[sa@[q2] as int] implies sa@[q1]
                        > sa@[q2] by {
                    if q1 == slot {
                        assert(sa_before[q2] < i);
                    } else if q2 == slot {
                        assert(s[sa_before[q1] as int] < c);
                    } else {
                        assert(sa_before[q1] >= 0 && sa_before[q2] >= 0);
                    }
                }
                assert forall|x: int| #[trigger] lms(s, x) && x < i + 1 implies present(sa@, x) by {
                    if x < i {
                        let q = choose|q: int| 0 <= q < sa_before.len() && sa_before[q] == x;
                        assert(sa@[q] == x);
                    } else {
                        assert(sa@[slot as int] == x);
                    }
                }
            }
        } else {
            proof {
                assert forall|x: int| #[trigger] lms(s, x) && x < i + 1 implies present(sa@, x) by {
                    if x == i {
                        assert(!lms(s, x));
                    }
                }
            }
        }
        i += 1;
    }
    proof {
        assert forall|x: int| #[trigger] lms(s, x) implies present(sa@, x) by {
            assert(x < n);
        }
        lemma_filling_sorted(s, k, sa@, tails@);
        lemma_filling_done(s, k, ord, sa@, tails@);
    }
}

/// LMS entries of one bucket in decreasing position order are sorted by the
/// order of the first L-pass.
proof fn lemma_filling_sorted(s: Seq<int>, k: int, sa: Seq<i32>, tails: Seq<i32>)
    requires
        symbols_below(s, k),
        tails_filling(s, k, sa, tails),
        forall|q1: int, q2: int|
            #![trigger sa[q1], sa[q2]]
            0 <= q1 < q2 < s.len() && sa[q1] >= 0 && sa[q2] >= 0 && s[sa[q1] as int] == s[sa[q2] as int] ==> sa[q1]
                > sa[q2],
    ensures
        sorted_entries(sa, prefix_order_l(s)),
{
    lemma_prefix_order_l(s, k);
    let ord = prefix_order_l(s);
    assert forall|q1: int, q2: int|
        #![trigger sa[q1], sa[q2]]
        0 <= q1 < q2 < sa.len() && sa[q1] >= 0 && sa[q2] >= 0 implies ord(sa[q1] as int, sa[q2] as int) by {
        lemma_filling_slot(s, k, sa, tails, q1);
        lemma_filling_slot(s, k, sa, tails, q2);
        let x = sa[q1] as int;
        let y = sa[q2] as int;
        lemma_regions(s, s[x]);
        lemma_regions(s, s[y]);
        if s[x] > s[y] {
            lemma_bucket_order(s, s[y], s[x]);
        } else if s[x] == s[y] {
            assert(key_l(s, x) == key_l(s, y));
        }
    }
}

/// The values of `v`, all below `m` and never repeating, are all of `0..m`.
pub proof fn lemma_permutation(v: Seq<i32>, m: int)
    requires
        v.len() == m,
        forall|i: int| 0 <= i < m ==> 0 <= #[trigger] v[i] < m,
        forall|i: int, j: int| 0 <= i < j < m ==> v[i] != v[j],
    ensures
        forall|x: int| 0 <= x < m ==> #[trigger] takes_value(v, x),
{
    let w = v.map_values(|e: i32| e as int);
    let range = vstd::set_lib::set_int_range(0, m);
    vstd::set_lib::lemma_int_range(0, m);
    assert(w.no_duplicates()) by {
        assert forall|i: int, j: int| 0 <= i < w.len() && 0 <= j < w.len() && i != j implies w[i] != w[j] by {
            if i < j {
                assert(v[i] != v[j]);
            } else {
                assert(v[j] != v[i]);
            }
        }
    }
    w.unique_seq_to_set();
    assert(w.to_set().subset_of(range)) by {
        assert forall|e: int| w.to_set().contains(e) implies range.contains(e) by {
            let i = choose|i: int| 0 <= i < w.len() && w[i] == e;
            assert(0 <= v[i] < m);
        }
    }
    vstd::set_lib::lemma_subset_equality(w.to_set(), range);
    assert forall|x: int| 0 <= x < m implies #[trigger] takes_value(v, x) by {
        assert(range.contains(x));
        assert(w.to_set().contains(x));
        let i = choose|i: int| 0 <= i < w.len() && w[i] == x;
        assert(v[i] == x);
    }
}

/// Step 5 of SA-IS: the LMS positions at the ends of their buckets in suffix
/// order, from the sorted order `rank` of the LMS positions `order`: walking
/// it backwards puts the largest LMS suffix at the last slot first.
pub(crate) fn place_lms_sorted<C: Symbol>(
    sa: &mut [i32],
    t: &[C],
    types: &[bool],
    counts: &[i32],
    rank: &[i32],
    order: &[i32],
)
    requires
        old(sa)@.len() == t@.len() <= i32::MAX,
        types_of(symbols(t@), types@),
        within_alphabet(t@, counts@.len() as int),
        counts_of(symbols(t@), counts@.len() as int, counts@.map_values(|v: i32| v as int)),
        lms_list(types@, order@),
        rank@.len() == order@.len(),
        forall|r: int| 0 <= r < rank@.len() ==> 0 <= #[trigger] rank@[r] < order@.len(),
        forall|a: int, b: int|
            #![trigger rank@[a], rank@[b]]
            0 <= a < b < rank@.len() ==> suffix_less(
                symbols(t@),
                order@[rank@[a] as int] as int,
                order@[rank@[b] as int] as int,
            ),
    ensures
        l_input(symbols(t@), counts@.len() as int, suffix_order(symbols(t@)), final(sa)@),
{
    let ghost s = symbols(t@);
    let ghost k = counts@.len() as int;
    let ghost ord = suffix_order(s);
    let ghost m = rank@.len() as int;
    proof {
        lemma_symbols_below(t@, k);
        lemma_suffix_order_fits(s);
        assert forall|r: int| 0 <= r < m implies lms(s, #[trigger] order@[rank@[r] as int] as int) by {
            assert(lms_at(types@, order@[rank@[r] as int] as int));
            lemma_is_lms_matches(s, types@, order@[rank@[r] as int] as int);
        }
    }
    fill_empty(sa);
    let mut tails = tails_at_ends(t, counts);
    proof {
        lemma_filling_start(s, k, sa@, tails@);
    }
    let mut r: usize = rank.len();
    while r > 0
        invariant
            r <= rank@.len() == order@.len(),
            m == rank@.len(),
            sa@.len() == t@.len() == types@.len() <= i32::MAX,
            s == symbols(t@),
            k == counts@.len(),
            ord == suffix_order(s),
            symbols_below(s, k),
            within_alphabet(t@, k),
            types_of(s, types@),
            order_fits(s, ord),
            lms_list(types@, order@),
            forall|r2: int| 0 <= r2 < m ==> 0 <= #[trigger] rank@[r2] < m,
            forall|a: int, b: int|
                #![trigger rank@[a], rank@[b]]
                0 <= a < b < m ==> suffix_less(s, order@[rank@[a] as int] as int, order@[rank@[b] as int] as int),
            forall|r2: int| 0 <= r2 < m ==> lms(s, #[trigger] order@[rank@[r2] as int] as int),
            tails_filling(s, k, sa@, tails@),
            sorted_entries(sa@, ord),
            forall|q: int|
                0 <= q < sa@.len() && #[trigger] sa@[q] >= 0 ==> exists|r2: int|
                    r <= r2 < m && sa@[q] == order@[rank@[r2] as int],
            forall|r2: int| r <= r2 < m ==> present(sa@, #[trigger] order@[rank@[r2] as int] as int),
        decreases r,
    {
        r -= 1;
        let reduced_idx = rank[r];
        let pos = order[reduced_idx as usize];
        proof {
            let x = pos as int;
            assert(lms(s, x));
            assert(!present(sa@, x)) by {
                if present(sa@, x) {
                    let q = choose|q: int| 0 <= q < sa@.len() && sa@[q] == x;
                    let r2 = choose|r2: int| r + 1 <= r2 < m && sa@[q] == order@[rank@[r2] as int];
                    assert(suffix_less(s, order@[rank@[r as int] as int] as int, order@[rank@[r2] as int] as int));
                    crate::suffix::lemma_suffix_less_irreflexive(s, x);
                }
            }
            lemma_filling_write(s, k, sa@, tails@, x);
        }
        assert(t@[pos as int].has_index());
        let c = t[pos as usize].idx();
        let ghost sa_before = sa@;
        tails.set(c, tails[c] - 1);
        let slot = tails[c] as usize;
        sa[slot] = pos;
        proof {
            let x = pos as int;
            assert forall|q1: int, q2: int|
                #![trigger sa@[q1], sa@[q2]]
                0 <= q1 < q2 < sa@.len() && sa@[q1] >= 0 && sa@[q2] >= 0 implies ord(sa@[q1] as int, sa@[q2] as int) by {
                if q1 == slot {
                    let r2 = choose|r2: int| r + 1 <= r2 < m && sa_before[q2] == order@[rank@[r2] as int];
                    assert(suffix_less(s, order@[rank@[r as int] as int] as int, order@[rank@[r2] as int] as int));
                } else if q2 == slot {
                    assert(s[sa_before[q1] as int] < c);
                    assert(0 <= sa_before[q1] < s.len()) by {
                        lemma_filling_slot(s, k, sa_before, tails@.update(c as int, (slot + 1) as i32), q1);
                    }
                } else {
                    assert(sa_before[q1] >= 0 && sa_before[q2] >= 0);
                }
            }
            assert forall|q: int|
                0 <= q < sa@.len() && #[trigger] sa@[q] >= 0 implies exists|r2: int|
                    r <= r2 < m && sa@[q] == order@[rank@[r2] as int] by {
                if q == slot {
                    assert(sa@[q] == order@[rank@[r as int] as int]);
                } else {
                    assert(sa_before[q] >= 0);
                    let r2 = choose|r2: int| r + 1 <= r2 < m && sa_before[q] == order@[rank@[r2] as int];
                    assert(sa@[q] == order@[rank@[r2] as int]);
                }
            }
            assert forall|r2: int| r <= r2 < m implies present(sa@, #[trigger] order@[rank@[r2] as int] as int) by {
                if r2 == r {
                    assert(sa@[slot as int] == x);
                } else {
                    let q = choose|q: int| 0 <= q < sa_before.len() && sa_before[q] == order@[rank@[r2] as int];
                    assert(sa@[q] == sa_before[q]);
                }
            }
        }
    }
    proof {
        // Every LMS position is some `order[rank[r]]`.
        assert forall|a: int, b: int| 0 <= a < b < m implies rank@[a] != rank@[b] by {
            assert(suffix_less(s, order@[rank@[a] as int] as int, order@[rank@[b] as int] as int));
            if rank@[a] == rank@[b] {
                crate::suffix::lemma_suffix_less_irreflexive(s, order@[rank@[a] as int] as int);
            }
        }
        lemma_permutation(rank@, m);
        assert forall|x: int| #[trigger] lms(s, x) implies present(sa@, x) by {
            lemma_is_lms_matches(s, types@, x);
            assert(lms_at(types@, x));
            let i = choose|i: int| 0 <= i < order@.len() && order@[i] == x;
            assert(takes_value(rank@, i));
            let r2 = choose|r2: int| 0 <= r2 < rank@.len() && rank@[r2] == i;
            assert(present(sa@, order@[rank@[r2] as int] as int));
        }
        lemma_filling_done(s, k, ord, sa@, tails@);
    }
}

} // verus!
