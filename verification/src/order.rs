//! Orders that the induced-sort passes can establish, and the suffix order
//! as one of them.

use vstd::prelude::*;

use crate::suffix::{
    s_type, suffix_less, lemma_s_type_step, lemma_suffix_less_irreflexive,
    lemma_suffix_less_total, lemma_suffix_less_transitive,
};

verus! {

/// `ord` is a strict total order on the positions of `s` that sorts by
/// symbol first and, within one symbol, puts L-type before S-type.
pub open spec fn order_fits(s: Seq<int>, ord: spec_fn(int, int) -> bool) -> bool {
    &&& forall|i: int| 0 <= i < s.len() ==> !#[trigger] ord(i, i)
    &&& forall|i: int, j: int, l: int|
        #![trigger ord(i, j), ord(j, l)]
        0 <= i < s.len() && 0 <= j < s.len() && 0 <= l < s.len() && ord(i, j) && ord(j, l) ==> ord(i, l)
    &&& forall|i: int, j: int|
        #![trigger ord(i, j)]
        0 <= i < s.len() && 0 <= j < s.len() && i != j ==> ord(i, j) || ord(j, i)
    &&& forall|i: int, j: int|
        #![trigger ord(i, j)]
        0 <= i < s.len() && 0 <= j < s.len() && s[i] < s[j] ==> ord(i, j)
    &&& forall|i: int, j: int|
        #![trigger ord(i, j)]
        0 <= i < s.len() && 0 <= j < s.len() && s[i] == s[j] && !s_type(s, i) && s_type(s, j)
            ==> ord(i, j)
}

/// L-type positions with one symbol are ordered as their successors, and
/// the last position comes first among the L-type ones of its symbol.
pub open spec fn order_shifts_l(s: Seq<int>, ord: spec_fn(int, int) -> bool) -> bool {
    &&& forall|i: int, j: int|
        #![trigger ord(i, j)]
        0 <= i < s.len() - 1 && 0 <= j < s.len() - 1 && s[i] == s[j] && !s_type(s, i) && !s_type(s, j)
            ==> (ord(i, j) == ord(i + 1, j + 1))
    &&& forall|j: int|
        0 <= j < s.len() - 1 && s[j] == s[s.len() - 1] && !s_type(s, j) ==> #[trigger] ord(
            s.len() - 1,
            j,
        )
}

/// S-type positions with one symbol are ordered as their successors.
pub open spec fn order_shifts_s(s: Seq<int>, ord: spec_fn(int, int) -> bool) -> bool {
    forall|i: int, j: int|
        #![trigger ord(i, j)]
        0 <= i < s.len() && 0 <= j < s.len() && s[i] == s[j] && s_type(s, i) && s_type(s, j) ==> (
        ord(i, j) == ord(i + 1, j + 1))
}

/// `x` occurs in some slot of `v`.
pub open spec fn occurs(v: Seq<int>, x: int) -> bool {
    exists|q: int| 0 <= q < v.len() && v[q] == x
}

/// `v` never repeats and lists its entries in increasing `ord`.
pub open spec fn sorted_by(v: Seq<int>, ord: spec_fn(int, int) -> bool) -> bool {
    &&& forall|i: int, j: int| 0 <= i < v.len() && 0 <= j < v.len() && i != j ==> v[i] != v[j]
    &&& forall|i: int, j: int| 0 <= i < j < v.len() ==> #[trigger] ord(v[i], v[j])
}

/// Two sequences of the same entries, each sorted by one order that never
/// holds both ways, are equal.
pub proof fn lemma_sorted_unique(ord: spec_fn(int, int) -> bool, a: Seq<int>, b: Seq<int>)
    requires
        a.len() == b.len(),
        sorted_by(a, ord),
        sorted_by(b, ord),
        forall|i: int| 0 <= i < a.len() ==> #[trigger] occurs(b, a[i]),
        forall|i: int| 0 <= i < b.len() ==> #[trigger] occurs(a, b[i]),
        forall|i: int, j: int| 0 <= i < a.len() && 0 <= j < a.len() && ord(a[i], a[j]) ==> !ord(a[j], a[i]),
    ensures
        a == b,
{
    assert forall|i: int| 0 <= i < a.len() implies a[i] == b[i] by {
        lemma_sorted_unique_slot(ord, a, b, i);
    }
    assert(a =~= b);
}

proof fn lemma_sorted_unique_slot(ord: spec_fn(int, int) -> bool, a: Seq<int>, b: Seq<int>, i: int)
    requires
        a.len() == b.len(),
        sorted_by(a, ord),
        sorted_by(b, ord),
        forall|i: int| 0 <= i < a.len() ==> #[trigger] occurs(b, a[i]),
        forall|i: int| 0 <= i < b.len() ==> #[trigger] occurs(a, b[i]),
        forall|i: int, j: int| 0 <= i < a.len() && 0 <= j < a.len() && ord(a[i], a[j]) ==> !ord(a[j], a[i]),
        0 <= i < a.len(),
    ensures
        a[i] == b[i],
    decreases i,
{
    assert forall|r: int| 0 <= r < i implies a[r] == b[r] by {
        lemma_sorted_unique_slot(ord, a, b, r);
    }
    let x = a[i];
    assert(occurs(b, x));
    let j = choose|q: int| 0 <= q < b.len() && b[q] == x;
    let y = b[i];
    assert(occurs(a, y));
    let j2 = choose|q: int| 0 <= q < a.len() && a[q] == y;
    if j < i {
        assert(a[j] == b[j]);
    }
    if j2 < i {
        assert(a[j2] == b[j2]);
    }
    if j > i {
        assert(ord(b[i], b[j]));
        if j2 > i {
            assert(ord(a[i], a[j2]));
        }
    }
}

/// The suffix order as a closure.
pub open spec fn suffix_order(s: Seq<int>) -> spec_fn(int, int) -> bool {
    |i: int, j: int| suffix_less(s, i, j)
}

/// Within one symbol, an L-type suffix is smaller than an S-type one.
pub proof fn lemma_l_before_s(s: Seq<int>, i: int, j: int)
    requires
        0 <= i < s.len(),
        0 <= j < s.len(),
        s[i] == s[j],
        !s_type(s, i),
        s_type(s, j),
    ensures
        suffix_less(s, i, j),
    decreases s.len() - i,
{
    lemma_s_type_step(s, i);
    lemma_s_type_step(s, j);
    assert(j + 1 < s.len());
    assert(suffix_less(s, i, j) == suffix_less(s, i + 1, j + 1));
    if i + 1 == s.len() {
        assert(suffix_less(s, i + 1, j + 1));
    } else if s[i + 1] == s[i] && s[j + 1] == s[j] {
        lemma_l_before_s(s, i + 1, j + 1);
    } else {
        assert(s[i + 1] < s[j + 1]);
        assert(suffix_less(s, i + 1, j + 1));
    }
}

/// The suffix order is an order the passes can establish.
pub proof fn lemma_suffix_order_fits(s: Seq<int>)
    ensures
        order_fits(s, suffix_order(s)),
        order_shifts_l(s, suffix_order(s)),
        order_shifts_s(s, suffix_order(s)),
{
    let ord = suffix_order(s);
    assert forall|i: int| 0 <= i < s.len() implies !#[trigger] ord(i, i) by {
        lemma_suffix_less_irreflexive(s, i);
    }
    assert forall|i: int, j: int, l: int|
        #![trigger ord(i, j), ord(j, l)]
        0 <= i < s.len() && 0 <= j < s.len() && 0 <= l < s.len() && ord(i, j) && ord(j, l) implies ord(
        i,
        l,
    ) by {
        lemma_suffix_less_transitive(s, i, j, l);
    }
    assert forall|i: int, j: int|
        #![trigger ord(i, j)]
        0 <= i < s.len() && 0 <= j < s.len() && i != j implies ord(i, j) || ord(j, i) by {
        lemma_suffix_less_total(s, i, j);
    }
    assert forall|i: int, j: int|
        #![trigger ord(i, j)]
        0 <= i < s.len() && 0 <= j < s.len() && s[i] == s[j] && !s_type(s, i) && s_type(s, j) implies ord(
        i,
        j,
    ) by {
        lemma_l_before_s(s, i, j);
    }
    assert forall|j: int|
        0 <= j < s.len() - 1 && s[j] == s[s.len() - 1] && !s_type(s, j) implies #[trigger] ord(
        s.len() - 1,
        j,
    ) by {
        assert(suffix_less(s, s.len() as int, j + 1));
    }
}

} // verus!
