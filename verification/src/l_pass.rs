//! What the L-pass establishes, step by step, for any order that fits the
//! buckets: the L-type part of every bucket fills from its start, in order.

use vstd::prelude::*;

use crate::layout::{
    bend, bstart, is_l, is_s, l_set, lms_set, nl, nlms, ns, s_set, symbols_below,
    lemma_bucket_bounds, lemma_bucket_counts, lemma_bucket_order, lemma_distinct_in_set,
    lemma_find_bucket, lemma_own_bucket,
};
use crate::order::{occurs, order_fits, order_shifts_l, order_shifts_s, sorted_by, lemma_sorted_unique};
use crate::suffix::{lms, s_type, lemma_s_type_step};

verus! {

/// `x` occurs in some slot of `sa`.
pub open spec fn present(sa: Seq<i32>, x: int) -> bool {
    exists|q: int| 0 <= q < sa.len() && sa[q] == x
}

/// `y` occurs in a slot before `p`.
pub open spec fn seen_before(sa: Seq<i32>, p: int, y: int) -> bool {
    exists|q: int| 0 <= q < p && q < sa.len() && sa[q] == y
}

/// `y` occurs in a slot at or after `p`.
pub open spec fn seen_from(sa: Seq<i32>, p: int, y: int) -> bool {
    exists|q: int| 0 <= p <= q < sa.len() && sa[q] == y
}

/// First slot of the LMS part at the end of bucket `c`.
pub open spec fn lms_tail(s: Seq<int>, c: int) -> int {
    bend(s, c) - nlms(s, c)
}

/// End of the L part at the start of bucket `c`.
pub open spec fn l_end(s: Seq<int>, c: int) -> int {
    bstart(s, c) + nl(s, c)
}

/// Non-empty slots hold entries in increasing `ord`.
pub open spec fn sorted_entries(sa: Seq<i32>, ord: spec_fn(int, int) -> bool) -> bool {
    forall|q1: int, q2: int|
        #![trigger sa[q1], sa[q2]]
        0 <= q1 < q2 < sa.len() && sa[q1] >= 0 && sa[q2] >= 0 ==> ord(sa[q1] as int, sa[q2] as int)
}

/// Input of the L-pass: every bucket holds its LMS positions, sorted, at its
/// end, and nothing else.
pub open spec fn l_input(s: Seq<int>, k: int, ord: spec_fn(int, int) -> bool, sa: Seq<i32>) -> bool {
    &&& sa.len() == s.len()
    &&& forall|c: int, q: int|
        #![trigger sa[q], lms_tail(s, c)]
        0 <= c < k && bstart(s, c) <= q < lms_tail(s, c) ==> sa[q] == -1
    &&& forall|c: int, q: int|
        #![trigger sa[q], lms_tail(s, c)]
        0 <= c < k && lms_tail(s, c) <= q < bend(s, c) ==> sa[q] >= 0 && lms(s, sa[q] as int) && s[sa[q] as int] == c
    &&& sorted_entries(sa, ord)
    &&& forall|x: int| #[trigger] lms(s, x) ==> present(sa, x)
}

/// State of the L-pass with the scanner at slot `p`.
pub open spec fn l_state(
    s: Seq<int>,
    k: int,
    ord: spec_fn(int, int) -> bool,
    sa0: Seq<i32>,
    sa: Seq<i32>,
    heads: Seq<i32>,
    p: int,
) -> bool {
    &&& sa.len() == s.len()
    &&& heads.len() == k
    &&& 0 <= p <= s.len()
    &&& forall|c: int| 0 <= c < k ==> bstart(s, c) <= #[trigger] heads[c] <= l_end(s, c)
    &&& forall|q: int|
        #![trigger sa[q]]
        0 <= q < s.len() && sa[q] >= 0 ==> {
            let x = sa[q] as int;
            &&& 0 <= x < s.len()
            &&& (bstart(s, s[x]) <= q < heads[s[x]] && !s_type(s, x)) || (lms_tail(s, s[x]) <= q < bend(s, s[x]) && lms(s, x))
        }
    &&& forall|c: int, q: int|
        #![trigger sa[q], heads[c]]
        0 <= c < k && bstart(s, c) <= q < heads[c] ==> sa[q] >= 0 && s[sa[q] as int] == c
    &&& forall|c: int, q: int|
        #![trigger sa[q], heads[c]]
        0 <= c < k && heads[c] <= q < lms_tail(s, c) ==> sa[q] == -1
    &&& forall|c: int, q: int|
        #![trigger sa[q], lms_tail(s, c)]
        0 <= c < k && lms_tail(s, c) <= q < bend(s, c) ==> sa[q] == sa0[q]
    &&& sorted_entries(sa, ord)
    &&& forall|x: int|
        #![trigger is_l(s, x)]
        is_l(s, x) ==> (present(sa, x) <==> (x == s.len() - 1 || seen_before(sa, p, x + 1)))
}

/// Facts about the regions of the buckets that every pass relies on.
pub proof fn lemma_regions(s: Seq<int>, c: int)
    ensures
        bstart(s, c) <= l_end(s, c) <= lms_tail(s, c) <= bend(s, c) <= s.len(),
        0 <= bstart(s, c),
        l_end(s, c) + ns(s, c) == bend(s, c),
        l_set(s, c).finite(),
        s_set(s, c).finite(),
        lms_set(s, c).finite(),
{
    lemma_bucket_counts(s, c);
    lemma_bucket_bounds(s, c);
}

/// Slots of two different buckets never coincide.
pub proof fn lemma_bucket_disjoint(s: Seq<int>, c1: int, c2: int, q: int)
    requires
        bstart(s, c1) <= q < bend(s, c1),
        bstart(s, c2) <= q < bend(s, c2),
    ensures
        c1 == c2,
{
    if c1 < c2 {
        lemma_bucket_order(s, c1, c2);
    } else if c2 < c1 {
        lemma_bucket_order(s, c2, c1);
    }
}

/// An L-type position after the last one never comes first, and the L-type
/// successor of an L-type position keeps its symbol.
proof fn lemma_l_successor(s: Seq<int>, j: int)
    requires
        0 <= j < s.len() - 1,
        !s_type(s, j),
    ensures
        s[j] >= s[j + 1],
        s[j] == s[j + 1] ==> !s_type(s, j + 1),
{
    lemma_s_type_step(s, j);
}

/// An S-type position is never last; its S-type successor keeps its symbol.
pub proof fn lemma_s_successor(s: Seq<int>, j: int)
    requires
        0 <= j < s.len(),
        s_type(s, j),
    ensures
        j < s.len() - 1,
        s[j] <= s[j + 1],
        s[j] == s[j + 1] ==> s_type(s, j + 1),
        !lms(s, j + 1),
{
    lemma_s_type_step(s, j);
}

/// Sorted entries never repeat.
pub proof fn lemma_sorted_distinct(s: Seq<int>, ord: spec_fn(int, int) -> bool, sa: Seq<i32>, q1: int, q2: int)
    requires
        order_fits(s, ord),
        sorted_entries(sa, ord),
        0 <= q1 < q2 < sa.len(),
        0 <= sa[q1] < s.len(),
        0 <= sa[q2] < s.len(),
    ensures
        sa[q1] != sa[q2],
{
    assert(ord(sa[q1] as int, sa[q2] as int));
    if sa[q1] == sa[q2] {
        assert(!ord(sa[q1] as int, sa[q1] as int));
    }
}

/// With the scanner at slot `p` holding `v`, where `v - 1` is L-type: the
/// induced position goes to the head of its bucket, ahead of the scanner,
/// into an empty slot, and the state moves on to `p + 1`.
pub proof fn lemma_l_write(
    s: Seq<int>,
    k: int,
    ord: spec_fn(int, int) -> bool,
    sa0: Seq<i32>,
    sa: Seq<i32>,
    heads: Seq<i32>,
    p: int,
)
    requires
        symbols_below(s, k),
        order_fits(s, ord),
        order_shifts_l(s, ord),
        l_state(s, k, ord, sa0, sa, heads, p),
        p < s.len() <= i32::MAX,
        sa[p] > 0,
        !s_type(s, sa[p] - 1),
    ensures
        ({
            let j = sa[p] - 1;
            let c = s[j];
            let h = heads[c] as int;
            &&& 0 <= j < s.len() - 1
            &&& 0 <= c < k
            &&& p < h < l_end(s, c) <= s.len()
            &&& sa[h] == -1
            &&& l_state(s, k, ord, sa0, sa.update(h, j as i32), heads.update(c, (h + 1) as i32), p + 1)
        }),
{
    let n = s.len() as int;
    let v = sa[p] as int;
    assert(0 <= v < n);
    let j = v - 1;
    lemma_l_successor(s, j);
    let c = s[j];
    assert(0 <= c < k);
    let h = heads[c] as int;
    lemma_regions(s, c);
    lemma_regions(s, s[v]);
    // j is not placed yet.
    assert(!present(sa, j)) by {
        if present(sa, j) {
            assert(is_l(s, j));
            let q2 = choose|q2: int| 0 <= q2 < p && q2 < sa.len() && sa[q2] == v;
            assert(ord(sa[q2] as int, sa[p] as int));
        }
    }
    // The head of bucket c still has room.
    let seg = sa.subrange(bstart(s, c), h);
    assert(h < l_end(s, c)) by {
        let x = l_set(s, c).remove(j);
        assert(l_set(s, c).contains(j));
        assert forall|i: int, i2: int| 0 <= i < i2 < seg.len() implies seg[i] != seg[i2] by {
            let q1 = bstart(s, c) + i;
            let q2 = bstart(s, c) + i2;
            assert(sa[q1] >= 0 && sa[q2] >= 0);
            lemma_sorted_distinct(s, ord, sa, q1, q2);
        }
        assert forall|i: int| 0 <= i < seg.len() implies x.contains(#[trigger] seg[i] as int) by {
            let q = bstart(s, c) + i;
            assert(sa[q] >= 0 && s[sa[q] as int] == c);
            assert(!s_type(s, sa[q] as int));
            assert(sa[q] != j);
        }
        lemma_distinct_in_set(seg, x);
    }
    // The write lands ahead of the scanner.
    assert(p < h) by {
        if s[v] < c {
            lemma_bucket_order(s, s[v], c);
        }
    }
    assert(sa[h] == -1);
    let sa2 = sa.update(h, j as i32);
    let heads2 = heads.update(c, (h + 1) as i32);
    // Entry classification.
    assert forall|q: int|
        #![trigger sa2[q]]
        0 <= q < n && sa2[q] >= 0 implies {
            let x = sa2[q] as int;
            &&& 0 <= x < n
            &&& (bstart(s, s[x]) <= q < heads2[s[x]] && !s_type(s, x)) || (lms_tail(s, s[x]) <= q < bend(s, s[x]) && lms(s, x))
        } by {
        if q != h {
            assert(sa2[q] == sa[q]);
            assert(sa[q] >= 0);
        }
    }
    assert forall|c2: int, q: int|
        #![trigger sa2[q], heads2[c2]]
        0 <= c2 < k && bstart(s, c2) <= q < heads2[c2] implies sa2[q] >= 0 && s[sa2[q] as int] == c2 by {
        lemma_regions(s, c2);
        if q == h {
            lemma_bucket_disjoint(s, c, c2, q);
        } else {
            if c2 == c {
                assert(sa[q] >= 0 && s[sa[q] as int] == c2);
            } else {
                assert(sa[q] >= 0 && s[sa[q] as int] == c2);
            }
        }
    }
    assert forall|c2: int, q: int|
        #![trigger sa2[q], heads2[c2]]
        0 <= c2 < k && heads2[c2] <= q < lms_tail(s, c2) implies sa2[q] == -1 by {
        lemma_regions(s, c2);
        if q == h {
            lemma_bucket_disjoint(s, c, c2, q);
        } else {
            assert(sa[q] == -1);
        }
    }
    assert forall|c2: int, q: int|
        #![trigger sa2[q], lms_tail(s, c2)]
        0 <= c2 < k && lms_tail(s, c2) <= q < bend(s, c2) implies sa2[q] == sa0[q] by {
        lemma_regions(s, c2);
        if q == h {
            lemma_bucket_disjoint(s, c, c2, q);
        }
    }
    // Order around the new entry.
    assert forall|q1: int, q2: int|
        #![trigger sa2[q1], sa2[q2]]
        0 <= q1 < q2 < n && sa2[q1] >= 0 && sa2[q2] >= 0 implies ord(sa2[q1] as int, sa2[q2] as int) by {
        if q1 == h {
            lemma_l_new_entry_before(s, k, ord, sa0, sa, heads, p, q2);
        } else if q2 == h {
            lemma_l_new_entry_after(s, k, ord, sa0, sa, heads, p, q1);
        } else {
            assert(sa[q1] >= 0 && sa[q2] >= 0);
        }
    }
    // Placed exactly when the successor has been scanned.
    assert forall|x: int|
        #![trigger is_l(s, x)]
        is_l(s, x) implies (present(sa2, x) <==> (x == n - 1 || seen_before(sa2, p + 1, x + 1))) by {
        assert(present(sa2, x) <==> (present(sa, x) || x == j)) by {
            if present(sa2, x) {
                let q = choose|q: int| 0 <= q < sa2.len() && sa2[q] == x;
                if q != h {
                    assert(sa[q] == x);
                }
            }
            if present(sa, x) {
                let q = choose|q: int| 0 <= q < sa.len() && sa[q] == x;
                assert(q != h);
                assert(sa2[q] == x);
            }
            if x == j {
                assert(sa2[h] == x);
            }
        }
        assert(seen_before(sa2, p + 1, x + 1) <==> (seen_before(sa, p, x + 1) || sa[p] == x + 1)) by {
            if seen_before(sa2, p + 1, x + 1) {
                let q = choose|q: int| 0 <= q < p + 1 && q < sa2.len() && sa2[q] == x + 1;
                assert(sa[q] == x + 1);
                if q < p {
                    assert(seen_before(sa, p, x + 1));
                }
            }
            if seen_before(sa, p, x + 1) {
                let q = choose|q: int| 0 <= q < p && q < sa.len() && sa[q] == x + 1;
                assert(sa2[q] == x + 1);
            }
            if sa[p] == x + 1 {
                assert(sa2[p] == x + 1);
            }
        }
    }
}

/// The new entry of `lemma_l_write` comes before every entry to its right.
proof fn lemma_l_new_entry_before(
    s: Seq<int>,
    k: int,
    ord: spec_fn(int, int) -> bool,
    sa0: Seq<i32>,
    sa: Seq<i32>,
    heads: Seq<i32>,
    p: int,
    q2: int,
)
    requires
        symbols_below(s, k),
        order_fits(s, ord),
        l_state(s, k, ord, sa0, sa, heads, p),
        p < s.len(),
        sa[p] > 0,
        !s_type(s, sa[p] - 1),
        heads[s[sa[p] - 1]] < q2 < s.len(),
        heads[s[sa[p] - 1]] < l_end(s, s[sa[p] - 1]),
        sa[q2] >= 0,
    ensures
        ord(sa[p] - 1, sa[q2] as int),
{
    let j = sa[p] - 1;
    let c = s[j];
    let y = sa[q2] as int;
    lemma_regions(s, c);
    lemma_regions(s, s[y]);
    if s[y] < c {
        lemma_bucket_order(s, s[y], c);
    } else if s[y] == c {
        assert(lms(s, y));
    }
}

/// Every entry to the left of the new entry of `lemma_l_write` comes before it.
proof fn lemma_l_new_entry_after(
    s: Seq<int>,
    k: int,
    ord: spec_fn(int, int) -> bool,
    sa0: Seq<i32>,
    sa: Seq<i32>,
    heads: Seq<i32>,
    p: int,
    q1: int,
)
    requires
        symbols_below(s, k),
        order_fits(s, ord),
        order_shifts_l(s, ord),
        l_state(s, k, ord, sa0, sa, heads, p),
        p < s.len(),
        sa[p] > 0,
        !s_type(s, sa[p] - 1),
        !present(sa, sa[p] - 1),
        0 <= q1 < heads[s[sa[p] - 1]],
        heads[s[sa[p] - 1]] < l_end(s, s[sa[p] - 1]),
        sa[q1] >= 0,
    ensures
        ord(sa[q1] as int, sa[p] - 1),
{
    let n = s.len() as int;
    let v = sa[p] as int;
    let j = v - 1;
    lemma_l_successor(s, j);
    let c = s[j];
    let y = sa[q1] as int;
    lemma_regions(s, c);
    lemma_regions(s, s[y]);
    if s[y] > c {
        lemma_bucket_order(s, c, s[y]);
    } else if s[y] == c {
        // y is an L-type entry of bucket c, placed before j.
        assert(!s_type(s, y));
        assert(is_l(s, y));
        assert(present(sa, y));
        if y == n - 1 {
            assert(ord(n - 1, j));
        } else {
            let q3 = choose|q3: int| 0 <= q3 < p && q3 < sa.len() && sa[q3] == y + 1;
            assert(ord(sa[q3] as int, sa[p] as int));
            assert(ord(y, j) == ord(y + 1, j + 1));
        }
    }
}

/// With the scanner at slot `p` inducing nothing, the state moves on to `p + 1`.
pub proof fn lemma_l_skip(
    s: Seq<int>,
    k: int,
    ord: spec_fn(int, int) -> bool,
    sa0: Seq<i32>,
    sa: Seq<i32>,
    heads: Seq<i32>,
    p: int,
)
    requires
        l_state(s, k, ord, sa0, sa, heads, p),
        p < s.len(),
        sa[p] <= 0 || s_type(s, sa[p] - 1),
    ensures
        l_state(s, k, ord, sa0, sa, heads, p + 1),
{
    let n = s.len() as int;
    assert forall|x: int|
        #![trigger is_l(s, x)]
        is_l(s, x) implies (present(sa, x) <==> (x == n - 1 || seen_before(sa, p + 1, x + 1))) by {
        if seen_before(sa, p + 1, x + 1) {
            let q = choose|q: int| 0 <= q < p + 1 && q < sa.len() && sa[q] == x + 1;
            if q < p {
                assert(seen_before(sa, p, x + 1));
            }
        }
        if seen_before(sa, p, x + 1) {
            let q = choose|q: int| 0 <= q < p && q < sa.len() && sa[q] == x + 1;
            assert(seen_before(sa, p + 1, x + 1));
        }
    }
}

/// Output of the L-pass: every bucket starts with all its L-type positions,
/// sorted, and keeps its LMS positions at its end.
pub open spec fn l_output(s: Seq<int>, k: int, ord: spec_fn(int, int) -> bool, sa0: Seq<i32>, sa: Seq<i32>) -> bool {
    &&& sa.len() == s.len()
    &&& forall|c: int, q: int|
        #![trigger sa[q], l_end(s, c)]
        0 <= c < k && bstart(s, c) <= q < l_end(s, c) ==> sa[q] >= 0 && s[sa[q] as int] == c && is_l(s, sa[q] as int)
    &&& forall|c: int, q: int|
        #![trigger sa[q], l_end(s, c)]
        0 <= c < k && l_end(s, c) <= q < lms_tail(s, c) ==> sa[q] == -1
    &&& forall|c: int, q: int|
        #![trigger sa[q], lms_tail(s, c)]
        0 <= c < k && lms_tail(s, c) <= q < bend(s, c) ==> sa[q] == sa0[q]
    &&& sorted_entries(sa, ord)
    &&& forall|x: int| #[trigger] is_l(s, x) ==> present(sa, x)
}

/// The L-pass starts by placing the last position, always L-type, at the
/// head of its bucket.
pub proof fn lemma_l_seed(s: Seq<int>, k: int, ord: spec_fn(int, int) -> bool, sa0: Seq<i32>, heads: Seq<i32>)
    requires
        symbols_below(s, k),
        1 <= s.len() <= i32::MAX,
        order_fits(s, ord),
        order_shifts_l(s, ord),
        l_input(s, k, ord, sa0),
        heads.len() == k,
        forall|c: int| 0 <= c < k ==> #[trigger] heads[c] == bstart(s, c),
    ensures
        ({
            let c0 = s[s.len() - 1];
            let h = bstart(s, c0);
            &&& 0 <= c0 < k
            &&& h < l_end(s, c0) <= s.len()
            &&& sa0[h] == -1
            &&& l_state(s, k, ord, sa0, sa0.update(h, (s.len() - 1) as i32), heads.update(c0, (h + 1) as i32), 0)
        }),
{
    let n = s.len() as int;
    lemma_s_type_step(s, n - 1);
    let c0 = s[n - 1];
    let h = bstart(s, c0);
    lemma_regions(s, c0);
    assert(l_set(s, c0).contains(n - 1));
    if l_set(s, c0).len() == 0 {
        vstd::set_lib::lemma_set_empty_equivalency_len(l_set(s, c0));
    }
    assert(h < l_end(s, c0));
    let sa2 = sa0.update(h, (n - 1) as i32);
    let heads2 = heads.update(c0, (h + 1) as i32);
    assert forall|q: int|
        #![trigger sa2[q]]
        0 <= q < n && sa2[q] >= 0 implies {
            let x = sa2[q] as int;
            &&& 0 <= x < n
            &&& (bstart(s, s[x]) <= q < heads2[s[x]] && !s_type(s, x)) || (lms_tail(s, s[x]) <= q < bend(s, s[x]) && lms(s, x))
        } by {
        if q != h {
            let c = lemma_find_bucket(s, k, q);
            lemma_regions(s, c);
            assert(sa0[q] >= 0);
            if q < lms_tail(s, c) {
                assert(sa0[q] == -1);
            }
        }
    }
    assert forall|c2: int, q: int|
        #![trigger sa2[q], heads2[c2]]
        0 <= c2 < k && bstart(s, c2) <= q < heads2[c2] implies sa2[q] >= 0 && s[sa2[q] as int] == c2 by {
        lemma_regions(s, c2);
        if c2 != c0 {
            assert(heads2[c2] == bstart(s, c2));
        }
    }
    assert forall|c2: int, q: int|
        #![trigger sa2[q], heads2[c2]]
        0 <= c2 < k && heads2[c2] <= q < lms_tail(s, c2) implies sa2[q] == -1 by {
        lemma_regions(s, c2);
        if q == h {
            lemma_bucket_disjoint(s, c0, c2, q);
        }
    }
    assert forall|c2: int, q: int|
        #![trigger sa2[q], lms_tail(s, c2)]
        0 <= c2 < k && lms_tail(s, c2) <= q < bend(s, c2) implies sa2[q] == sa0[q] by {
        lemma_regions(s, c2);
        if q == h {
            lemma_bucket_disjoint(s, c0, c2, q);
        }
    }
    assert forall|q1: int, q2: int|
        #![trigger sa2[q1], sa2[q2]]
        0 <= q1 < q2 < n && sa2[q1] >= 0 && sa2[q2] >= 0 implies ord(sa2[q1] as int, sa2[q2] as int) by {
        if q1 == h || q2 == h {
            let q = if q1 == h { q2 } else { q1 };
            let c = lemma_find_bucket(s, k, q);
            lemma_regions(s, c);
            assert(sa0[q] >= 0);
            if q < lms_tail(s, c) {
                assert(sa0[q] == -1);
            }
            let y = sa0[q] as int;
            assert(s[y] == c && lms(s, y));
            if c < c0 {
                lemma_bucket_order(s, c, c0);
            } else if c > c0 {
                lemma_bucket_order(s, c0, c);
            }
        } else {
            assert(sa0[q1] >= 0 && sa0[q2] >= 0);
        }
    }
    assert forall|x: int|
        #![trigger is_l(s, x)]
        is_l(s, x) implies (present(sa2, x) <==> (x == n - 1 || seen_before(sa2, 0, x + 1))) by {
        if present(sa2, x) {
            let q = choose|q: int| 0 <= q < sa2.len() && sa2[q] == x;
            if q != h {
                let c = lemma_find_bucket(s, k, q);
                lemma_regions(s, c);
                if q < lms_tail(s, c) {
                    assert(sa0[q] == -1);
                }
                assert(lms(s, x));
            }
        }
        if x == n - 1 {
            assert(sa2[h] == x);
        }
    }
}

/// At the end of the L-pass every L-type position has been placed.
proof fn lemma_l_complete(
    s: Seq<int>,
    k: int,
    ord: spec_fn(int, int) -> bool,
    sa0: Seq<i32>,
    sa: Seq<i32>,
    heads: Seq<i32>,
    x: int,
)
    requires
        symbols_below(s, k),
        l_input(s, k, ord, sa0),
        l_state(s, k, ord, sa0, sa, heads, s.len() as int),
        is_l(s, x),
    ensures
        present(sa, x),
    decreases s.len() - x,
{
    let n = s.len() as int;
    if x < n - 1 {
        lemma_s_type_step(s, x);
        if s_type(s, x + 1) {
            assert(lms(s, x + 1));
            assert(present(sa0, x + 1));
            let q = choose|q: int| 0 <= q < sa0.len() && sa0[q] == x + 1;
            let c = lemma_find_bucket(s, k, q);
            lemma_regions(s, c);
            if q < lms_tail(s, c) {
                assert(sa0[q] == -1);
            }
            assert(sa[q] == x + 1);
        } else {
            lemma_l_complete(s, k, ord, sa0, sa, heads, x + 1);
            let q = choose|q: int| 0 <= q < sa.len() && sa[q] == x + 1;
            assert(seen_before(sa, n, x + 1));
        }
    }
}

/// Every slot of an L-pass input is empty or holds a position of the text.
pub proof fn lemma_l_input_range(s: Seq<int>, k: int, ord: spec_fn(int, int) -> bool, sa: Seq<i32>)
    requires
        symbols_below(s, k),
        l_input(s, k, ord, sa),
    ensures
        forall|q: int| 0 <= q < sa.len() ==> -1 <= #[trigger] sa[q] < s.len(),
{
    assert forall|q: int| 0 <= q < sa.len() implies -1 <= #[trigger] sa[q] < s.len() by {
        let c = lemma_find_bucket(s, k, q);
        lemma_regions(s, c);
        if q < lms_tail(s, c) {
            assert(sa[q] == -1);
        } else {
            assert(lms(s, sa[q] as int));
        }
    }
}

/// Every slot of an L-pass state is empty or holds a position of the text.
pub proof fn lemma_l_state_range(
    s: Seq<int>,
    k: int,
    ord: spec_fn(int, int) -> bool,
    sa0: Seq<i32>,
    sa: Seq<i32>,
    heads: Seq<i32>,
    p: int,
)
    requires
        symbols_below(s, k),
        l_input(s, k, ord, sa0),
        l_state(s, k, ord, sa0, sa, heads, p),
    ensures
        forall|q: int| 0 <= q < sa.len() ==> -1 <= #[trigger] sa[q] < s.len(),
{
    assert forall|q: int| 0 <= q < sa.len() implies -1 <= #[trigger] sa[q] < s.len() by {
        let c = lemma_find_bucket(s, k, q);
        lemma_regions(s, c);
        if q >= lms_tail(s, c) {
            assert(sa[q] == sa0[q]);
        } else if q >= heads[c] {
            assert(sa[q] == -1);
        } else {
            assert(sa[q] >= 0);
        }
    }
}

/// The L-pass ends with its output.
pub proof fn lemma_l_done(
    s: Seq<int>,
    k: int,
    ord: spec_fn(int, int) -> bool,
    sa0: Seq<i32>,
    sa: Seq<i32>,
    heads: Seq<i32>,
)
    requires
        symbols_below(s, k),
        order_fits(s, ord),
        l_input(s, k, ord, sa0),
        l_state(s, k, ord, sa0, sa, heads, s.len() as int),
    ensures
        l_output(s, k, ord, sa0, sa),
{
    let n = s.len() as int;
    assert forall|x: int| #[trigger] is_l(s, x) implies present(sa, x) by {
        lemma_l_complete(s, k, ord, sa0, sa, heads, x);
    }
    assert forall|c: int| 0 <= c < k implies #[trigger] heads[c] == l_end(s, c) by {
        lemma_regions(s, c);
        let seg = sa.subrange(bstart(s, c), heads[c] as int);
        assert forall|i: int, i2: int| 0 <= i < i2 < seg.len() implies seg[i] != seg[i2] by {
            let q1 = bstart(s, c) + i;
            let q2 = bstart(s, c) + i2;
            assert(sa[q1] >= 0 && sa[q2] >= 0);
            lemma_sorted_distinct(s, ord, sa, q1, q2);
        }
        assert forall|i: int| 0 <= i < seg.len() implies l_set(s, c).contains(#[trigger] seg[i] as int) by {
            let q = bstart(s, c) + i;
            assert(sa[q] >= 0 && s[sa[q] as int] == c);
        }
        assert forall|e: int| #[trigger] l_set(s, c).contains(e) implies exists|i: int| 0 <= i < seg.len() && seg[i] == e by {
            assert(is_l(s, e));
            let q = choose|q: int| 0 <= q < sa.len() && sa[q] == e;
            assert(sa[q] >= 0);
            assert(seg[q - bstart(s, c)] == e);
        }
        lemma_distinct_in_set(seg, l_set(s, c));
    }
    assert forall|c: int, q: int|
        #![trigger sa[q], l_end(s, c)]
        0 <= c < k && bstart(s, c) <= q < l_end(s, c) implies sa[q] >= 0 && s[sa[q] as int] == c && is_l(s, sa[q] as int) by {
        lemma_regions(s, c);
        assert(heads[c] == l_end(s, c));
        assert(sa[q] >= 0 && s[sa[q] as int] == c);
        let x = sa[q] as int;
        assert(0 <= x < n);
    }
    assert forall|c: int, q: int|
        #![trigger sa[q], l_end(s, c)]
        0 <= c < k && l_end(s, c) <= q < lms_tail(s, c) implies sa[q] == -1 by {
        assert(heads[c] == l_end(s, c));
    }
}

/// In an L-pass output, an L-type position sits in the L part of its bucket.
proof fn lemma_l_output_slot(
    s: Seq<int>,
    k: int,
    ord: spec_fn(int, int) -> bool,
    sa0: Seq<i32>,
    sa: Seq<i32>,
    q: int,
)
    requires
        symbols_below(s, k),
        l_input(s, k, ord, sa0),
        l_output(s, k, ord, sa0, sa),
        0 <= q < s.len(),
        sa[q] >= 0,
        is_l(s, sa[q] as int),
    ensures
        bstart(s, s[sa[q] as int]) <= q < l_end(s, s[sa[q] as int]),
{
    let c = lemma_find_bucket(s, k, q);
    lemma_regions(s, c);
    if q >= lms_tail(s, c) {
        assert(sa[q] == sa0[q]);
        assert(lms(s, sa0[q] as int));
    } else if q >= l_end(s, c) {
        assert(sa[q] == -1);
    }
    assert(s[sa[q] as int] == c);
}

/// The L-pass output is determined by its input and order: the serial and
/// the block-structured L-pass end in the same state.
pub proof fn lemma_l_output_unique(
    s: Seq<int>,
    k: int,
    ord: spec_fn(int, int) -> bool,
    sa0: Seq<i32>,
    a: Seq<i32>,
    b: Seq<i32>,
)
    requires
        symbols_below(s, k),
        order_fits(s, ord),
        l_input(s, k, ord, sa0),
        l_output(s, k, ord, sa0, a),
        l_output(s, k, ord, sa0, b),
    ensures
        a == b,
{
    assert forall|q: int| 0 <= q < a.len() implies a[q] == b[q] by {
        let c = lemma_find_bucket(s, k, q);
        lemma_regions(s, c);
        if q < l_end(s, c) {
            lemma_l_output_region(s, k, ord, sa0, a, b, c);
            let i = q - bstart(s, c);
            assert(a.subrange(bstart(s, c), l_end(s, c))[i] == b.subrange(bstart(s, c), l_end(s, c))[i]);
        } else if q < lms_tail(s, c) {
        } else {
            assert(a[q] == sa0[q] && b[q] == sa0[q]);
        }
    }
    assert(a =~= b);
}

/// The L parts of bucket `c` in two L-pass outputs agree.
proof fn lemma_l_output_region(
    s: Seq<int>,
    k: int,
    ord: spec_fn(int, int) -> bool,
    sa0: Seq<i32>,
    a: Seq<i32>,
    b: Seq<i32>,
    c: int,
)
    requires
        symbols_below(s, k),
        order_fits(s, ord),
        l_input(s, k, ord, sa0),
        l_output(s, k, ord, sa0, a),
        l_output(s, k, ord, sa0, b),
        0 <= c < k,
    ensures
        a.subrange(bstart(s, c), l_end(s, c)) == b.subrange(bstart(s, c), l_end(s, c)),
{
    lemma_regions(s, c);
    let lo = bstart(s, c);
    let hi = l_end(s, c);
    let ea = a.subrange(lo, hi).map_values(|v: i32| v as int);
    let eb = b.subrange(lo, hi).map_values(|v: i32| v as int);
    assert forall|i: int| 0 <= i < ea.len() implies #[trigger] occurs(eb, ea[i]) by {
        let x = a[lo + i] as int;
        assert(a[lo + i] >= 0 && s[x] == c && is_l(s, x));
        assert(present(b, x));
        let q = choose|q: int| 0 <= q < b.len() && b[q] == x;
        lemma_l_output_slot(s, k, ord, sa0, b, q);
        assert(eb[q - lo] == ea[i]);
    }
    assert forall|i: int| 0 <= i < eb.len() implies #[trigger] occurs(ea, eb[i]) by {
        let x = b[lo + i] as int;
        assert(b[lo + i] >= 0 && s[x] == c && is_l(s, x));
        assert(present(a, x));
        let q = choose|q: int| 0 <= q < a.len() && a[q] == x;
        lemma_l_output_slot(s, k, ord, sa0, a, q);
        assert(ea[q - lo] == eb[i]);
    }
    assert forall|i: int, j: int| 0 <= i < ea.len() && 0 <= j < ea.len() && ord(ea[i], ea[j]) implies !ord(ea[j], ea[i]) by {
        assert(a[lo + i] >= 0 && is_l(s, a[lo + i] as int));
        assert(a[lo + j] >= 0 && is_l(s, a[lo + j] as int));
        if ord(ea[j], ea[i]) {
            assert(ord(ea[i], ea[i]));
        }
    }
    assert(sorted_by(ea, ord)) by {
        assert forall|i: int, j: int| 0 <= i < ea.len() && 0 <= j < ea.len() && i != j implies ea[i] != ea[j] by {
            assert(a[lo + i] >= 0 && is_l(s, a[lo + i] as int));
            assert(a[lo + j] >= 0 && is_l(s, a[lo + j] as int));
            if i < j {
                lemma_sorted_distinct(s, ord, a, lo + i, lo + j);
            } else {
                lemma_sorted_distinct(s, ord, a, lo + j, lo + i);
            }
        }
        assert forall|i: int, j: int| 0 <= i < j < ea.len() implies #[trigger] ord(ea[i], ea[j]) by {
            assert(a[lo + i] >= 0 && a[lo + j] >= 0);
        }
    }
    assert(sorted_by(eb, ord)) by {
        assert forall|i: int, j: int| 0 <= i < eb.len() && 0 <= j < eb.len() && i != j implies eb[i] != eb[j] by {
            assert(b[lo + i] >= 0 && is_l(s, b[lo + i] as int));
            assert(b[lo + j] >= 0 && is_l(s, b[lo + j] as int));
            if i < j {
                lemma_sorted_distinct(s, ord, b, lo + i, lo + j);
            } else {
                lemma_sorted_distinct(s, ord, b, lo + j, lo + i);
            }
        }
        assert forall|i: int, j: int| 0 <= i < j < eb.len() implies #[trigger] ord(eb[i], eb[j]) by {
            assert(b[lo + i] >= 0 && b[lo + j] >= 0);
        }
    }
    lemma_sorted_unique(ord, ea, eb);
    assert forall|i: int| 0 <= i < hi - lo implies a.subrange(lo, hi)[i] == b.subrange(lo, hi)[i] by {
        assert(ea[i] == eb[i]);
    }
    assert(a.subrange(lo, hi) =~= b.subrange(lo, hi));
}

} // verus!
