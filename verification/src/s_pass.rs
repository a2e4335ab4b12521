//! What the S-pass establishes, step by step, for any order that fits the
//! buckets: the S-type part of every bucket fills from its end, and stale
//! LMS entries left there by earlier steps are overwritten.

use vstd::prelude::*;

use crate::layout::{
    bend, bstart, is_l, is_s, s_set, symbols_below, lemma_bucket_order, lemma_distinct_in_set,
    lemma_find_bucket,
};
use crate::order::{occurs, order_fits, order_shifts_s, sorted_by, lemma_sorted_unique};
use crate::l_pass::{
    l_end, l_input, l_output, lms_tail, present, seen_from, sorted_entries, lemma_bucket_disjoint,
    lemma_regions, lemma_s_successor, lemma_sorted_distinct,
};
use crate::suffix::{lms, s_type};

verus! {

/// Slot `q` holds an entry the S-pass relies on: an L-type entry in the L
/// part of its bucket, or an entry in the filled end of its bucket.
pub open spec fn live(s: Seq<int>, sa: Seq<i32>, tails: Seq<i32>, q: int) -> bool {
    &&& 0 <= q < sa.len()
    &&& 0 <= sa[q] < s.len()
    &&& {
        let x = sa[q] as int;
        (bstart(s, s[x]) <= q < l_end(s, s[x])) || (tails[s[x]] <= q < bend(s, s[x]))
    }
}

/// Live entries come in increasing `ord`.
pub open spec fn sorted_live(s: Seq<int>, ord: spec_fn(int, int) -> bool, sa: Seq<i32>, tails: Seq<i32>) -> bool {
    forall|q1: int, q2: int|
        #![trigger sa[q1], sa[q2]]
        0 <= q1 < q2 < sa.len() && live(s, sa, tails, q1) && live(s, sa, tails, q2) ==> ord(
            sa[q1] as int,
            sa[q2] as int,
        )
}

/// `x` sits in the filled end of its bucket.
pub open spec fn placed(s: Seq<int>, sa: Seq<i32>, tails: Seq<i32>, x: int) -> bool {
    exists|q: int| tails[s[x]] <= q < bend(s, s[x]) && 0 <= q < sa.len() && sa[q] == x
}

/// Input of the S-pass: every bucket starts with all its L-type positions,
/// in increasing `ord`, and holds nothing but LMS positions of its own
/// symbol after them.
pub open spec fn s_input(s: Seq<int>, k: int, ord: spec_fn(int, int) -> bool, sa: Seq<i32>) -> bool {
    &&& sa.len() == s.len()
    &&& forall|q: int| 0 <= q < sa.len() ==> -1 <= #[trigger] sa[q] < s.len()
    &&& forall|c: int, q: int|
        #![trigger sa[q], l_end(s, c)]
        0 <= c < k && bstart(s, c) <= q < l_end(s, c) ==> sa[q] >= 0 && s[sa[q] as int] == c && is_l(s, sa[q] as int)
    &&& forall|c: int, q: int|
        #![trigger sa[q], l_end(s, c)]
        0 <= c < k && l_end(s, c) <= q < bend(s, c) ==> sa[q] == -1 || (lms(s, sa[q] as int) && s[sa[q] as int] == c)
    &&& forall|q1: int, q2: int|
        #![trigger sa[q1], sa[q2]]
        0 <= q1 < q2 < sa.len() && sa[q1] >= 0 && sa[q2] >= 0 && is_l(s, sa[q1] as int) && is_l(s, sa[q2] as int)
            ==> ord(sa[q1] as int, sa[q2] as int)
    &&& forall|x: int| #[trigger] is_l(s, x) ==> present(sa, x)
}

/// State of the S-pass with the scanner about to read slot `p - 1`.
pub open spec fn s_state(
    s: Seq<int>,
    k: int,
    ord: spec_fn(int, int) -> bool,
    sa: Seq<i32>,
    tails: Seq<i32>,
    p: int,
) -> bool {
    &&& sa.len() == s.len()
    &&& tails.len() == k
    &&& 0 <= p <= s.len()
    &&& forall|q: int| 0 <= q < sa.len() ==> -1 <= #[trigger] sa[q] < s.len()
    &&& forall|c: int| 0 <= c < k ==> l_end(s, c) <= #[trigger] tails[c] <= bend(s, c)
    &&& forall|c: int, q: int|
        #![trigger sa[q], l_end(s, c)]
        0 <= c < k && bstart(s, c) <= q < l_end(s, c) ==> sa[q] >= 0 && s[sa[q] as int] == c && is_l(s, sa[q] as int)
    &&& forall|c: int, q: int|
        #![trigger sa[q], tails[c]]
        0 <= c < k && tails[c] <= q < bend(s, c) ==> sa[q] >= 0 && s[sa[q] as int] == c && is_s(s, sa[q] as int)
    &&& forall|c: int, q: int|
        #![trigger sa[q], tails[c]]
        0 <= c < k && l_end(s, c) <= q < tails[c] ==> sa[q] == -1 || (lms(s, sa[q] as int) && s[sa[q] as int] == c)
    &&& forall|x: int| #[trigger] is_l(s, x) ==> present(sa, x)
    &&& sorted_live(s, ord, sa, tails)
    &&& forall|x: int| #[trigger] is_s(s, x) ==> (placed(s, sa, tails, x) <==> seen_from(sa, p, x + 1))
}

/// No stale entry is left: the part of every bucket still to be filled is empty.
pub open spec fn stale_cleared(s: Seq<int>, k: int, sa: Seq<i32>, tails: Seq<i32>) -> bool {
    forall|c: int, q: int|
        #![trigger sa[q], tails[c]]
        0 <= c < k && l_end(s, c) <= q < tails[c] ==> sa[q] == -1
}

/// Output of the S-pass: every position of the text, once, in increasing `ord`.
pub open spec fn s_output(s: Seq<int>, ord: spec_fn(int, int) -> bool, sa: Seq<i32>) -> bool {
    &&& sa.len() == s.len()
    &&& forall|q: int| 0 <= q < sa.len() ==> 0 <= #[trigger] sa[q] < s.len()
    &&& sorted_entries(sa, ord)
    &&& forall|x: int| 0 <= x < s.len() ==> #[trigger] present(sa, x)
}

/// The L-pass output, read with an order that agrees on L-type positions,
/// is an S-pass input.
pub proof fn lemma_s_input_from_l(
    s: Seq<int>,
    k: int,
    ord_l: spec_fn(int, int) -> bool,
    ord: spec_fn(int, int) -> bool,
    sa0: Seq<i32>,
    sa: Seq<i32>,
)
    requires
        symbols_below(s, k),
        l_input(s, k, ord_l, sa0),
        l_output(s, k, ord_l, sa0, sa),
        forall|i: int, j: int| #![trigger ord_l(i, j)] is_l(s, i) && is_l(s, j) && ord_l(i, j) ==> ord(i, j),
    ensures
        s_input(s, k, ord, sa),
{
    assert forall|q: int| 0 <= q < sa.len() implies -1 <= #[trigger] sa[q] < s.len() by {
        let c = lemma_find_bucket(s, k, q);
        lemma_regions(s, c);
        if q < l_end(s, c) {
            assert(sa[q] >= 0 && is_l(s, sa[q] as int));
        } else if q >= lms_tail(s, c) {
            assert(sa[q] == sa0[q]);
            assert(lms(s, sa0[q] as int));
        }
    }
    assert forall|c: int, q: int|
        #![trigger sa[q], l_end(s, c)]
        0 <= c < k && l_end(s, c) <= q < bend(s, c) implies sa[q] == -1 || (lms(s, sa[q] as int) && s[sa[q] as int] == c) by {
        lemma_regions(s, c);
        if q >= lms_tail(s, c) {
            assert(sa[q] == sa0[q]);
        }
    }
    assert forall|q1: int, q2: int|
        #![trigger sa[q1], sa[q2]]
        0 <= q1 < q2 < sa.len() && sa[q1] >= 0 && sa[q2] >= 0 && is_l(s, sa[q1] as int) && is_l(s, sa[q2] as int)
            implies ord(sa[q1] as int, sa[q2] as int) by {
        assert(ord_l(sa[q1] as int, sa[q2] as int));
    }
}

/// The S-pass starts with empty S-type parts.
pub proof fn lemma_s_start(s: Seq<int>, k: int, ord: spec_fn(int, int) -> bool, sa: Seq<i32>, tails: Seq<i32>)
    requires
        symbols_below(s, k),
        s_input(s, k, ord, sa),
        tails.len() == k,
        forall|c: int| 0 <= c < k ==> #[trigger] tails[c] == bend(s, c),
    ensures
        s_state(s, k, ord, sa, tails, s.len() as int),
        (forall|q: int| 0 <= q < sa.len() && sa[q] >= 0 ==> !lms(s, #[trigger] sa[q] as int)) ==> stale_cleared(
            s,
            k,
            sa,
            tails,
        ),
{
    let n = s.len() as int;
    assert forall|c: int| 0 <= c < k implies l_end(s, c) <= #[trigger] tails[c] <= bend(s, c) by {
        lemma_regions(s, c);
    }
    assert forall|c: int, q: int|
        #![trigger sa[q], tails[c]]
        0 <= c < k && l_end(s, c) <= q < tails[c] implies sa[q] == -1 || (lms(s, sa[q] as int) && s[sa[q] as int] == c) by {
        assert(l_end(s, c) <= q < bend(s, c));
    }
    assert forall|q1: int, q2: int|
        #![trigger sa[q1], sa[q2]]
        0 <= q1 < q2 < sa.len() && live(s, sa, tails, q1) && live(s, sa, tails, q2) implies ord(
            sa[q1] as int,
            sa[q2] as int,
        ) by {
        let x1 = sa[q1] as int;
        let x2 = sa[q2] as int;
        assert(0 <= s[x1] < k && 0 <= s[x2] < k);
        assert(bstart(s, s[x1]) <= q1 < l_end(s, s[x1]));
        assert(bstart(s, s[x2]) <= q2 < l_end(s, s[x2]));
        assert(is_l(s, x1) && is_l(s, x2));
    }
    assert forall|x: int| #[trigger] is_s(s, x) implies (placed(s, sa, tails, x) <==> seen_from(sa, n, x + 1)) by {
        assert(0 <= s[x] < k);
        assert(!placed(s, sa, tails, x));
    }
    if forall|q: int| 0 <= q < sa.len() && sa[q] >= 0 ==> !lms(s, #[trigger] sa[q] as int) {
        assert forall|c: int, q: int|
            #![trigger sa[q], tails[c]]
            0 <= c < k && l_end(s, c) <= q < tails[c] implies sa[q] == -1 by {
            lemma_regions(s, c);
            assert(l_end(s, c) <= q < bend(s, c));
            if sa[q] != -1 {
                assert(lms(s, sa[q] as int));
            }
        }
    }
}

/// In an S-pass state, a slot holding a position that is not LMS is live,
/// and a live slot is in the L part or the filled end of its own bucket.
pub proof fn lemma_s_slot(
    s: Seq<int>,
    k: int,
    ord: spec_fn(int, int) -> bool,
    sa: Seq<i32>,
    tails: Seq<i32>,
    p: int,
    q: int,
)
    requires
        symbols_below(s, k),
        s_state(s, k, ord, sa, tails, p),
        0 <= q < s.len(),
    ensures
        sa[q] >= 0 && !lms(s, sa[q] as int) ==> live(s, sa, tails, q),
        live(s, sa, tails, q) ==> ({
            let x = sa[q] as int;
            &&& 0 <= s[x] < k
            &&& bstart(s, s[x]) <= q < bend(s, s[x])
            &&& (bstart(s, s[x]) <= q < l_end(s, s[x]) && is_l(s, x)) || (tails[s[x]] <= q && is_s(s, x))
        }),
{
    let c = lemma_find_bucket(s, k, q);
    lemma_regions(s, c);
    if sa[q] >= 0 {
        let x = sa[q] as int;
        assert(0 <= x < s.len());
        assert(0 <= s[x] < k);
        lemma_regions(s, s[x]);
        if q < l_end(s, c) {
            assert(s[x] == c && is_l(s, x));
        } else if q >= tails[c] {
            assert(s[x] == c && is_s(s, x));
        } else {
            if !lms(s, x) {
                assert(false);
            }
            assert(s[x] == c);
        }
        if live(s, sa, tails, q) {
            lemma_bucket_disjoint(s, c, s[x], q);
        }
    }
}

/// Placed entries of one bucket never repeat and all belong to its S-type set.
proof fn lemma_s_filled_count(
    s: Seq<int>,
    k: int,
    ord: spec_fn(int, int) -> bool,
    sa: Seq<i32>,
    tails: Seq<i32>,
    p: int,
    c: int,
    x: Set<int>,
)
    requires
        symbols_below(s, k),
        order_fits(s, ord),
        s_state(s, k, ord, sa, tails, p),
        0 <= c < k,
        x.finite(),
        forall|q: int| tails[c] <= q < bend(s, c) ==> x.contains(#[trigger] sa[q] as int),
    ensures
        bend(s, c) - tails[c] <= x.len(),
        (forall|e: int| #[trigger] x.contains(e) ==> exists|q: int| tails[c] <= q < bend(s, c) && sa[q] == e)
            ==> bend(s, c) - tails[c] == x.len(),
{
    lemma_regions(s, c);
    let seg = sa.subrange(tails[c] as int, bend(s, c));
    assert forall|i: int, i2: int| 0 <= i < i2 < seg.len() implies seg[i] != seg[i2] by {
        let q1 = tails[c] + i;
        let q2 = tails[c] + i2;
        assert(sa[q1] >= 0 && s[sa[q1] as int] == c);
        assert(sa[q2] >= 0 && s[sa[q2] as int] == c);
        assert(live(s, sa, tails, q1));
        assert(live(s, sa, tails, q2));
        assert(ord(sa[q1] as int, sa[q2] as int));
        if sa[q1] == sa[q2] {
            assert(!ord(sa[q1] as int, sa[q1] as int));
        }
    }
    assert forall|i: int| 0 <= i < seg.len() implies x.contains(#[trigger] seg[i] as int) by {
        let q = tails[c] + i;
        assert(x.contains(sa[q] as int));
    }
    if forall|e: int| #[trigger] x.contains(e) ==> exists|q: int| tails[c] <= q < bend(s, c) && sa[q] == e {
        assert forall|e: int| #[trigger] x.contains(e) implies exists|i: int| 0 <= i < seg.len() && seg[i] == e by {
            let q = choose|q: int| tails[c] <= q < bend(s, c) && sa[q] == e;
            assert(seg[q - tails[c]] == e);
        }
    }
    lemma_distinct_in_set(seg, x);
}

/// With the scanner reading slot `p - 1` holding `v`, where `v - 1` is
/// S-type: the induced position goes just before the filled end of its
/// bucket, ahead of the scanner, over a stale slot, and the state moves on.
#[verifier::rlimit(40)]
pub proof fn lemma_s_write(
    s: Seq<int>,
    k: int,
    ord: spec_fn(int, int) -> bool,
    sa: Seq<i32>,
    tails: Seq<i32>,
    p: int,
)
    requires
        symbols_below(s, k),
        order_fits(s, ord),
        order_shifts_s(s, ord),
        s_state(s, k, ord, sa, tails, p),
        0 < p,
        s.len() <= i32::MAX,
        sa[p - 1] > 0,
        s_type(s, sa[p - 1] - 1),
    ensures
        ({
            let j = sa[p - 1] - 1;
            let c = s[j];
            let h = tails[c] - 1;
            &&& 0 <= j < s.len() - 1
            &&& 0 <= c < k
            &&& l_end(s, c) <= h < p - 1
            &&& s_state(s, k, ord, sa.update(h, j as i32), tails.update(c, h as i32), p - 1)
        }),
{
    let n = s.len() as int;
    let p1 = p - 1;
    let v = sa[p1] as int;
    assert(0 < v < n);
    let j = v - 1;
    lemma_s_successor(s, j);
    let c = s[j];
    assert(0 <= c < k && 0 <= s[v] < k);
    lemma_regions(s, c);
    lemma_regions(s, s[v]);
    lemma_s_slot(s, k, ord, sa, tails, p, p1);
    assert(live(s, sa, tails, p1));
    // j is not placed yet.
    assert(!placed(s, sa, tails, j)) by {
        if placed(s, sa, tails, j) {
            assert(is_s(s, j));
            let q2 = choose|q2: int| 0 <= p <= q2 < sa.len() && sa[q2] == v;
            lemma_s_slot(s, k, ord, sa, tails, p, q2);
            assert(ord(sa[p1] as int, sa[q2] as int));
        }
    }
    // The end of bucket c still has a stale slot.
    assert(tails[c] > l_end(s, c)) by {
        let x = s_set(s, c).remove(j);
        assert(s_set(s, c).contains(j));
        assert forall|q: int| tails[c] <= q < bend(s, c) implies x.contains(#[trigger] sa[q] as int) by {
            assert(sa[q] >= 0 && s[sa[q] as int] == c && is_s(s, sa[q] as int));
            if sa[q] == j {
                assert(placed(s, sa, tails, j));
            }
        }
        lemma_s_filled_count(s, k, ord, sa, tails, p, c, x);
    }
    let h = tails[c] - 1;
    // The write lands ahead of the scanner.
    assert(h < p1) by {
        if s[j] < s[v] {
            lemma_bucket_order(s, c, s[v]);
        }
    }
    let sa2 = sa.update(h, j as i32);
    let tails2 = tails.update(c, h as i32);
    assert(sa[h] == -1 || lms(s, sa[h] as int));
    // Slots other than h keep their liveness.
    assert forall|q: int| 0 <= q < n && q != h implies live(s, sa2, tails2, q) == live(s, sa, tails, q) by {
        assert(sa2[q] == sa[q]);
    }
    assert(live(s, sa2, tails2, h));
    assert forall|q: int| 0 <= q < sa2.len() implies -1 <= #[trigger] sa2[q] < s.len() by {
        if q != h {
            assert(sa2[q] == sa[q]);
        }
    }
    assert forall|c2: int| 0 <= c2 < k implies l_end(s, c2) <= #[trigger] tails2[c2] <= bend(s, c2) by {
        if c2 != c {
            assert(tails2[c2] == tails[c2]);
        }
    }
    assert forall|c2: int, q: int|
        #![trigger sa2[q], l_end(s, c2)]
        0 <= c2 < k && bstart(s, c2) <= q < l_end(s, c2) implies sa2[q] >= 0 && s[sa2[q] as int] == c2 && is_l(
            s,
            sa2[q] as int,
        ) by {
        lemma_regions(s, c2);
        if q == h {
            lemma_bucket_disjoint(s, c, c2, q);
        }
        assert(sa[q] >= 0 && s[sa[q] as int] == c2 && is_l(s, sa[q] as int));
    }
    assert forall|c2: int, q: int|
        #![trigger sa2[q], tails2[c2]]
        0 <= c2 < k && tails2[c2] <= q < bend(s, c2) implies sa2[q] >= 0 && s[sa2[q] as int] == c2 && is_s(
            s,
            sa2[q] as int,
        ) by {
        lemma_regions(s, c2);
        if q != h {
            if c2 != c {
                assert(tails2[c2] == tails[c2]);
            }
            assert(sa[q] >= 0 && s[sa[q] as int] == c2 && is_s(s, sa[q] as int));
        } else {
            lemma_bucket_disjoint(s, c, c2, q);
        }
    }
    assert forall|c2: int, q: int|
        #![trigger sa2[q], tails2[c2]]
        0 <= c2 < k && l_end(s, c2) <= q < tails2[c2] implies sa2[q] == -1 || (lms(s, sa2[q] as int) && s[sa2[q] as int]
            == c2) by {
        lemma_regions(s, c2);
        if q == h {
            lemma_bucket_disjoint(s, c, c2, q);
        }
        if c2 != c {
            assert(tails2[c2] == tails[c2]);
        }
        assert(sa[q] == -1 || (lms(s, sa[q] as int) && s[sa[q] as int] == c2));
    }
    assert forall|x: int| #[trigger] is_l(s, x) implies present(sa2, x) by {
        let q = choose|q: int| 0 <= q < sa.len() && sa[q] == x;
        if q == h {
            assert(!lms(s, x));
        }
        assert(sa2[q] == x);
    }
    // Order around the new entry.
    assert forall|q1: int, q2: int|
        #![trigger sa2[q1], sa2[q2]]
        0 <= q1 < q2 < sa2.len() && live(s, sa2, tails2, q1) && live(s, sa2, tails2, q2) implies ord(
            sa2[q1] as int,
            sa2[q2] as int,
        ) by {
        if q1 == h {
            let y = sa[q2] as int;
            lemma_s_slot(s, k, ord, sa, tails, p, q2);
            lemma_regions(s, s[y]);
            if s[y] < c {
                lemma_bucket_order(s, s[y], c);
            } else if s[y] == c {
                assert(is_s(s, y) && placed(s, sa, tails, y));
                let q3 = choose|q3: int| 0 <= p <= q3 < sa.len() && sa[q3] == y + 1;
                lemma_s_successor(s, y);
                lemma_s_slot(s, k, ord, sa, tails, p, q3);
                assert(ord(sa[p1] as int, sa[q3] as int));
                assert(ord(j, y) == ord(j + 1, y + 1));
            }
        } else if q2 == h {
            let y = sa[q1] as int;
            lemma_s_slot(s, k, ord, sa, tails, p, q1);
            lemma_regions(s, s[y]);
            if s[y] > c {
                lemma_bucket_order(s, c, s[y]);
            } else if s[y] == c {
                assert(is_l(s, y));
            }
        } else {
            assert(sa2[q1] == sa[q1] && sa2[q2] == sa[q2]);
        }
    }
    // Placed exactly when the successor has been scanned.
    assert forall|x: int| #[trigger] is_s(s, x) implies (placed(s, sa2, tails2, x) <==> seen_from(sa2, p1, x + 1)) by {
        assert(0 <= s[x] < k);
        lemma_regions(s, s[x]);
        assert(placed(s, sa2, tails2, x) <==> (placed(s, sa, tails, x) || x == j)) by {
            if placed(s, sa2, tails2, x) {
                let q = choose|q: int| tails2[s[x]] <= q < bend(s, s[x]) && 0 <= q < sa2.len() && sa2[q] == x;
                if q != h {
                    if s[x] != c {
                        assert(tails2[s[x]] == tails[s[x]]);
                    }
                    assert(sa[q] == x);
                }
            }
            if placed(s, sa, tails, x) {
                let q = choose|q: int| tails[s[x]] <= q < bend(s, s[x]) && 0 <= q < sa.len() && sa[q] == x;
                if q == h {
                    lemma_bucket_disjoint(s, c, s[x], q);
                }
                if s[x] != c {
                    assert(tails2[s[x]] == tails[s[x]]);
                }
                assert(sa2[q] == x);
            }
            if x == j {
                assert(sa2[h] == x);
            }
        }
        assert(seen_from(sa2, p1, x + 1) <==> (seen_from(sa, p, x + 1) || sa[p1] == x + 1)) by {
            if seen_from(sa2, p1, x + 1) {
                let q = choose|q: int| 0 <= p1 <= q < sa2.len() && sa2[q] == x + 1;
                assert(sa[q] == x + 1);
                if q > p1 {
                    assert(seen_from(sa, p, x + 1));
                }
            }
            if seen_from(sa, p, x + 1) {
                let q = choose|q: int| 0 <= p <= q < sa.len() && sa[q] == x + 1;
                assert(sa2[q] == x + 1);
            }
            if sa[p1] == x + 1 {
                assert(sa2[p1] == x + 1);
            }
        }
    }
}

/// A write just before the filled end of bucket `c` lands on an empty slot
/// and keeps the stale parts empty.
pub proof fn lemma_s_write_cleared(s: Seq<int>, k: int, sa: Seq<i32>, tails: Seq<i32>, c: int, j: int)
    requires
        stale_cleared(s, k, sa, tails),
        sa.len() == s.len(),
        tails.len() == k,
        0 <= c < k,
        l_end(s, c) <= tails[c] - 1,
        forall|c2: int| 0 <= c2 < k ==> l_end(s, c2) <= #[trigger] tails[c2] <= bend(s, c2),
    ensures
        sa[tails[c] - 1] == -1,
        stale_cleared(s, k, sa.update(tails[c] - 1, j as i32), tails.update(c, (tails[c] - 1) as i32)),
{
    let h = tails[c] - 1;
    let sa2 = sa.update(h, j as i32);
    let tails2 = tails.update(c, h as i32);
    lemma_regions(s, c);
    assert(sa[h] == -1);
    assert forall|c2: int, q: int|
        #![trigger sa2[q], tails2[c2]]
        0 <= c2 < k && l_end(s, c2) <= q < tails2[c2] implies sa2[q] == -1 by {
        lemma_regions(s, c2);
        if q == h {
            lemma_bucket_disjoint(s, c, c2, q);
        }
        if c2 != c {
            assert(tails2[c2] == tails[c2]);
        }
        assert(sa[q] == -1);
    }
}

/// With the scanner reading slot `p - 1` and inducing nothing, the state moves on.
pub proof fn lemma_s_skip(
    s: Seq<int>,
    k: int,
    ord: spec_fn(int, int) -> bool,
    sa: Seq<i32>,
    tails: Seq<i32>,
    p: int,
)
    requires
        s_state(s, k, ord, sa, tails, p),
        0 < p,
        sa[p - 1] <= 0 || !s_type(s, sa[p - 1] - 1),
    ensures
        s_state(s, k, ord, sa, tails, p - 1),
{
    assert forall|x: int| #[trigger] is_s(s, x) implies (placed(s, sa, tails, x) <==> seen_from(sa, p - 1, x + 1)) by {
        if seen_from(sa, p - 1, x + 1) {
            let q = choose|q: int| 0 <= p - 1 <= q < sa.len() && sa[q] == x + 1;
            if q >= p {
                assert(seen_from(sa, p, x + 1));
            }
        }
        if seen_from(sa, p, x + 1) {
            let q = choose|q: int| 0 <= p <= q < sa.len() && sa[q] == x + 1;
            assert(seen_from(sa, p - 1, x + 1));
        }
    }
}

/// At the end of the S-pass every S-type position has been placed.
proof fn lemma_s_complete(
    s: Seq<int>,
    k: int,
    ord: spec_fn(int, int) -> bool,
    sa: Seq<i32>,
    tails: Seq<i32>,
    x: int,
)
    requires
        s_state(s, k, ord, sa, tails, 0),
        is_s(s, x),
    ensures
        placed(s, sa, tails, x),
    decreases s.len() - x,
{
    lemma_s_successor(s, x);
    if is_s(s, x + 1) {
        lemma_s_complete(s, k, ord, sa, tails, x + 1);
        let q = choose|q: int| tails[s[x + 1]] <= q < bend(s, s[x + 1]) && 0 <= q < sa.len() && sa[q] == x + 1;
        assert(seen_from(sa, 0, x + 1));
    } else {
        assert(is_l(s, x + 1));
        let q = choose|q: int| 0 <= q < sa.len() && sa[q] == x + 1;
        assert(seen_from(sa, 0, x + 1));
    }
}

/// The S-pass ends with every position in its slot, in increasing `ord`.
pub proof fn lemma_s_done(s: Seq<int>, k: int, ord: spec_fn(int, int) -> bool, sa: Seq<i32>, tails: Seq<i32>)
    requires
        symbols_below(s, k),
        order_fits(s, ord),
        s_state(s, k, ord, sa, tails, 0),
    ensures
        s_output(s, ord, sa),
{
    let n = s.len() as int;
    assert forall|c: int| 0 <= c < k implies #[trigger] tails[c] == l_end(s, c) by {
        lemma_regions(s, c);
        assert forall|q: int| tails[c] <= q < bend(s, c) implies s_set(s, c).contains(#[trigger] sa[q] as int) by {
            assert(sa[q] >= 0 && s[sa[q] as int] == c && is_s(s, sa[q] as int));
        }
        assert forall|e: int| #[trigger] s_set(s, c).contains(e) implies exists|q: int|
            tails[c] <= q < bend(s, c) && sa[q] == e by {
            lemma_s_complete(s, k, ord, sa, tails, e);
        }
        lemma_s_filled_count(s, k, ord, sa, tails, 0, c, s_set(s, c));
    }
    assert forall|q: int| 0 <= q < n implies live(s, sa, tails, q) by {
        let c = lemma_find_bucket(s, k, q);
        lemma_regions(s, c);
        assert(tails[c] == l_end(s, c));
        if q < l_end(s, c) {
            assert(sa[q] >= 0 && s[sa[q] as int] == c);
        } else {
            assert(sa[q] >= 0 && s[sa[q] as int] == c);
        }
    }
    assert forall|q: int| 0 <= q < sa.len() implies 0 <= #[trigger] sa[q] < s.len() by {
        assert(live(s, sa, tails, q));
    }
    assert forall|q1: int, q2: int|
        #![trigger sa[q1], sa[q2]]
        0 <= q1 < q2 < sa.len() && sa[q1] >= 0 && sa[q2] >= 0 implies ord(sa[q1] as int, sa[q2] as int) by {
        assert(live(s, sa, tails, q1) && live(s, sa, tails, q2));
    }
    assert forall|x: int| 0 <= x < s.len() implies #[trigger] present(sa, x) by {
        if s_type(s, x) {
            assert(is_s(s, x));
            lemma_s_complete(s, k, ord, sa, tails, x);
            let q = choose|q: int| tails[s[x]] <= q < bend(s, s[x]) && 0 <= q < sa.len() && sa[q] == x;
        } else {
            assert(is_l(s, x));
        }
    }
}

/// The S-pass output is determined by its order: the serial and the
/// block-structured S-pass end in the same state.
pub proof fn lemma_s_output_unique(s: Seq<int>, ord: spec_fn(int, int) -> bool, a: Seq<i32>, b: Seq<i32>)
    requires
        order_fits(s, ord),
        s_output(s, ord, a),
        s_output(s, ord, b),
    ensures
        a == b,
{
    let ea = a.map_values(|v: i32| v as int);
    let eb = b.map_values(|v: i32| v as int);
    assert forall|i: int| 0 <= i < ea.len() implies #[trigger] occurs(eb, ea[i]) by {
        assert(0 <= a[i] < s.len());
        assert(present(b, a[i] as int));
        let q = choose|q: int| 0 <= q < b.len() && b[q] == a[i] as int;
        assert(eb[q] == ea[i]);
    }
    assert forall|i: int| 0 <= i < eb.len() implies #[trigger] occurs(ea, eb[i]) by {
        assert(0 <= b[i] < s.len());
        assert(present(a, b[i] as int));
        let q = choose|q: int| 0 <= q < a.len() && a[q] == b[i] as int;
        assert(ea[q] == eb[i]);
    }
    assert forall|i: int, j: int| 0 <= i < ea.len() && 0 <= j < ea.len() && ord(ea[i], ea[j]) implies !ord(ea[j], ea[i]) by {
        assert(0 <= a[i] < s.len() && 0 <= a[j] < s.len());
        if ord(ea[j], ea[i]) {
            assert(ord(ea[i], ea[i]));
        }
    }
    assert(sorted_by(ea, ord)) by {
        assert forall|i: int, j: int| 0 <= i < ea.len() && 0 <= j < ea.len() && i != j implies ea[i] != ea[j] by {
            assert(0 <= a[i] < s.len() && 0 <= a[j] < s.len());
            if i < j {
                lemma_sorted_distinct(s, ord, a, i, j);
            } else {
                lemma_sorted_distinct(s, ord, a, j, i);
            }
        }
        assert forall|i: int, j: int| 0 <= i < j < ea.len() implies #[trigger] ord(ea[i], ea[j]) by {
            assert(a[i] >= 0 && a[j] >= 0);
        }
    }
    assert(sorted_by(eb, ord)) by {
        assert forall|i: int, j: int| 0 <= i < eb.len() && 0 <= j < eb.len() && i != j implies eb[i] != eb[j] by {
            assert(0 <= b[i] < s.len() && 0 <= b[j] < s.len());
            if i < j {
                lemma_sorted_distinct(s, ord, b, i, j);
            } else {
                lemma_sorted_distinct(s, ord, b, j, i);
            }
        }
        assert forall|i: int, j: int| 0 <= i < j < eb.len() implies #[trigger] ord(eb[i], eb[j]) by {
            assert(b[i] >= 0 && b[j] >= 0);
        }
    }
    lemma_sorted_unique(ord, ea, eb);
    assert forall|i: int| 0 <= i < a.len() implies a[i] == b[i] by {
        assert(ea[i] == eb[i]);
    }
    assert(a =~= b);
}

} // verus!
