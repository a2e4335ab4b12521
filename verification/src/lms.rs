//! LMS substring extraction, lex-naming, and the pieces of the recursion.

use vstd::prelude::*;

use crate::alphabet::{Symbol, symbols, within_alphabet};
use crate::classify::{is_lms, types_of, lemma_is_lms_matches};
use crate::keys::{key_s, lex_less, prefix_order_s, lemma_lex_asymmetric, lemma_lex_irreflexive, lemma_lex_transitive};
use crate::layout::symbols_below;
use crate::order::order_fits;
use crate::l_pass::{present, seen_before, lemma_sorted_distinct};
use crate::s_pass::s_output;
use crate::suffix::{lms, suffix_less, lemma_suffix_less_irreflexive, lemma_suffix_less_total};

verus! {

/// Position `p` is LMS according to the classification `types`.
pub open spec fn lms_at(types: Seq<bool>, p: int) -> bool {
    0 < p < types.len() && types[p] && !types[p - 1]
}

/// No LMS position strictly between `a` and `e`.
pub open spec fn no_lms_between(types: Seq<bool>, a: int, e: int) -> bool {
    forall|p: int| a < p < e ==> !#[trigger] lms_at(types, p)
}

/// The LMS substrings at `a` and `b` are equal: the same position, or both
/// reach their next LMS position after the same number `len` of symbols,
/// with equal symbols on the way, that next LMS position included.
pub open spec fn lms_substrings_match(s: Seq<int>, types: Seq<bool>, a: int, b: int) -> bool {
    a == b || exists|len: int|
        #![trigger lms_at(types, a + len), lms_at(types, b + len)]
        {
            &&& len >= 1
            &&& lms_at(types, a + len)
            &&& lms_at(types, b + len)
            &&& no_lms_between(types, a, a + len)
            &&& no_lms_between(types, b, b + len)
            &&& s.subrange(a, a + len + 1) == s.subrange(b, b + len + 1)
        }
}

/// `out` lists the LMS positions of `types` in increasing order.
pub open spec fn lms_list(types: Seq<bool>, out: Seq<i32>) -> bool {
    &&& forall|r: int| 0 <= r < out.len() ==> #[trigger] lms_at(types, out[r] as int)
    &&& forall|r: int, q: int| 0 <= r < q < out.len() ==> out[r] < out[q]
    &&& forall|p: int| #[trigger] lms_at(types, p) ==> exists|r: int| 0 <= r < out.len() && out[r] == p
}

/// LMS positions in text order.
pub(crate) fn lms_positions(types: &[bool]) -> (out: Vec<i32>)
    requires
        types@.len() <= i32::MAX,
    ensures
        lms_list(types@, out@),
{
    let n = types.len();
    let mut out: Vec<i32> = Vec::new();
    let mut i: usize = 1;
    while i < n
        invariant
            1 <= i <= n || n == 0,
            n == types@.len() <= i32::MAX,
            forall|r: int| 0 <= r < out@.len() ==> #[trigger] lms_at(types@, out@[r] as int),
            forall|r: int| 0 <= r < out@.len() ==> out@[r] < i,
            forall|r: int, q: int| 0 <= r < q < out@.len() ==> out@[r] < out@[q],
            forall|p: int| #[trigger] lms_at(types@, p) && p < i ==> exists|r: int| 0 <= r < out@.len() && out@[r] == p,
        decreases n - i,
    {
        if is_lms(types, i) {
            let ghost old_out = out@;
            out.push(i as i32);
            proof {
                assert forall|p: int| #[trigger] lms_at(types@, p) && p < i + 1 implies exists|r: int|
                    0 <= r < out@.len() && out@[r] == p by {
                    if p == i {
                        assert(out@[out@.len() - 1] == p);
                    } else {
                        let r = choose|r: int| 0 <= r < old_out.len() && old_out[r] == p;
                        assert(out@[r] == p);
                    }
                }
            }
        }
        i += 1;
    }
    out
}

/// Compare two LMS substrings symbol by symbol until both reach the next LMS
/// position or they diverge. A substring running into the end of the text
/// (the implicit sentinel) equals no other.
pub(crate) fn lms_substrings_equal<C: Symbol>(t: &[C], types: &[bool], a: usize, b: usize) -> (r:
    bool)
    requires
        types@.len() == t@.len(),
        forall|i: int| 0 <= i < t@.len() ==> #[trigger] t@[i].has_index(),
    ensures
        r == lms_substrings_match(symbols(t@), types@, a as int, b as int),
{
    let ghost s = symbols(t@);
    if a == b {
        return true;
    }
    let n = t.len();
    let mut i: usize = 0;
    loop
        invariant
            a != b,
            n == t@.len() == types@.len(),
            s == symbols(t@),
            forall|j: int| 0 <= j < t@.len() ==> #[trigger] t@[j].has_index(),
            i == 0 || (a + i <= n && b + i <= n),
            i == 0 || s.subrange(a as int, a + i) == s.subrange(b as int, b + i),
            no_lms_between(types@, a as int, a + i),
            no_lms_between(types@, b as int, b + i),
        decreases n + 1 - i,
    {
        let pa = a + i;
        let pb = b + i;
        if pa >= n || pb >= n {
            proof {
                assert forall|len: int|
                    #![trigger lms_at(types@, a + len), lms_at(types@, b + len)]
                    len >= 1 && lms_at(types@, a + len) && lms_at(types@, b + len) && no_lms_between(
                        types@,
                        a as int,
                        a + len,
                    ) && no_lms_between(types@, b as int, b + len) implies s.subrange(a as int, a + len + 1) != s.subrange(b as int, b + len + 1) by {
                    if len < i {
                        assert(!lms_at(types@, a + len));
                    }
                }
            }
            return false;
        }
        let a_lms = i > 0 && is_lms(types, pa);
        let b_lms = i > 0 && is_lms(types, pb);
        if a_lms != b_lms {
            proof {
                assert forall|len: int|
                    #![trigger lms_at(types@, a + len), lms_at(types@, b + len)]
                    len >= 1 && lms_at(types@, a + len) && lms_at(types@, b + len) && no_lms_between(
                        types@,
                        a as int,
                        a + len,
                    ) && no_lms_between(types@, b as int, b + len) implies s.subrange(a as int, a + len + 1) != s.subrange(b as int, b + len + 1) by {
                    if len < i {
                        assert(!lms_at(types@, a + len));
                    } else if len > i {
                        assert(!lms_at(types@, a + i as int));
                        assert(!lms_at(types@, b + i as int));
                    }
                }
            }
            return false;
        }
        assert(t@[pa as int].has_index() && t@[pb as int].has_index());
        let ca = t[pa].idx();
        let cb = t[pb].idx();
        if ca != cb {
            proof {
                assert forall|len: int|
                    #![trigger lms_at(types@, a + len), lms_at(types@, b + len)]
                    len >= 1 && lms_at(types@, a + len) && lms_at(types@, b + len) && no_lms_between(
                        types@,
                        a as int,
                        a + len,
                    ) && no_lms_between(types@, b as int, b + len) implies s.subrange(a as int, a + len + 1) != s.subrange(b as int, b + len + 1) by {
                    if len < i {
                        assert(!lms_at(types@, a + len));
                    } else {
                        assert(s.subrange(a as int, a + len + 1)[i as int] != s.subrange(b as int, b + len + 1)[i as int]);
                    }
                }
            }
            return false;
        }
        if a_lms && b_lms {
            proof {
                assert(lms_at(types@, a + i as int) && lms_at(types@, b + i as int));
                assert(no_lms_between(types@, a as int, a + i));
                assert(no_lms_between(types@, b as int, b + i));
                assert(s.subrange(a as int, a + i + 1) =~= s.subrange(a as int, a + i).push(s[pa as int]));
                assert(s.subrange(b as int, b + i + 1) =~= s.subrange(b as int, b + i).push(s[pb as int]));
            }
            return true;
        }
        proof {
            if i > 0 {
                assert(s.subrange(a as int, a + i + 1) =~= s.subrange(a as int, a + i).push(s[pa as int]));
                assert(s.subrange(b as int, b + i + 1) =~= s.subrange(b as int, b + i).push(s[pb as int]));
            } else {
                assert(s.subrange(a as int, a + 1) =~= s.subrange(b as int, b + 1));
            }
        }
        i += 1;
    }
}

/// Matching LMS substrings match the other way round.
pub proof fn lemma_match_symmetric(s: Seq<int>, types: Seq<bool>, a: int, b: int)
    requires
        lms_substrings_match(s, types, a, b),
    ensures
        lms_substrings_match(s, types, b, a),
{
    if a != b {
        let len = choose|len: int|
            #![trigger lms_at(types, a + len), lms_at(types, b + len)]
            {
                &&& len >= 1
                &&& lms_at(types, a + len)
                &&& lms_at(types, b + len)
                &&& no_lms_between(types, a, a + len)
                &&& no_lms_between(types, b, b + len)
                &&& s.subrange(a, a + len + 1) == s.subrange(b, b + len + 1)
            };
        assert(lms_at(types, b + len) && lms_at(types, a + len));
    }
}

/// Matching LMS substrings is transitive.
pub proof fn lemma_match_transitive(s: Seq<int>, types: Seq<bool>, a: int, b: int, c: int)
    requires
        lms_substrings_match(s, types, a, b),
        lms_substrings_match(s, types, b, c),
    ensures
        lms_substrings_match(s, types, a, c),
{
    if a != b && b != c && a != c {
        let l1 = choose|len: int|
            #![trigger lms_at(types, a + len), lms_at(types, b + len)]
            {
                &&& len >= 1
                &&& lms_at(types, a + len)
                &&& lms_at(types, b + len)
                &&& no_lms_between(types, a, a + len)
                &&& no_lms_between(types, b, b + len)
                &&& s.subrange(a, a + len + 1) == s.subrange(b, b + len + 1)
            };
        let l2 = choose|len: int|
            #![trigger lms_at(types, b + len), lms_at(types, c + len)]
            {
                &&& len >= 1
                &&& lms_at(types, b + len)
                &&& lms_at(types, c + len)
                &&& no_lms_between(types, b, b + len)
                &&& no_lms_between(types, c, c + len)
                &&& s.subrange(b, b + len + 1) == s.subrange(c, c + len + 1)
            };
        if l1 < l2 {
            assert(!lms_at(types, b + l1));
        } else if l2 < l1 {
            assert(!lms_at(types, b + l2));
        }
        assert(lms_at(types, a + l1) && lms_at(types, c + l1));
    }
}

/// Some entry of `r` is `v`.
pub open spec fn takes_value(r: Seq<i32>, v: int) -> bool {
    exists|i: int| 0 <= i < r.len() && r[i] == v
}

/// Every value below `a` occurs among the values of `r`, all below `a`:
/// there are at least `a` of them, and exactly `a` only if none repeats.
pub proof fn lemma_names_cover(names: Seq<i32>, a: int)
    requires
        a >= 0,
        forall|i: int| 0 <= i < names.len() ==> 0 <= #[trigger] names[i] < a,
        forall|v: int| 0 <= v < a ==> #[trigger] takes_value(names, v),
    ensures
        a <= names.len(),
        a == names.len() ==> forall|i: int, j: int| 0 <= i < j < names.len() ==> names[i] != names[j],
{
    let r = names.map_values(|v: i32| v as int);
    let range = vstd::set_lib::set_int_range(0, a);
    vstd::set_lib::lemma_int_range(0, a);
    assert(r.to_set() =~= range) by {
        assert forall|v: int| r.to_set().contains(v) implies range.contains(v) by {
            let i = choose|i: int| 0 <= i < r.len() && r[i] == v;
            assert(0 <= r[i] < a);
        }
        assert forall|v: int| range.contains(v) implies r.to_set().contains(v) by {
            assert(takes_value(names, v));
            let i = choose|i: int| 0 <= i < names.len() && names[i] == v;
            assert(r[i] == v);
            assert(r.contains(v));
        }
    }
    r.lemma_cardinality_of_set();
    if a == r.len() {
        r.lemma_no_dup_set_cardinality();
        assert forall|i: int, j: int| 0 <= i < j < names.len() implies names[i] != names[j] by {
            assert(r.no_duplicates());
            assert(r[i] != r[j]);
        }
    }
}

/// With the S/L classification, LMS positions by type and by the text agree.
proof fn lemma_lms_at_is_lms(s: Seq<int>, types: Seq<bool>, x: int)
    requires
        types_of(s, types),
    ensures
        lms_at(types, x) == lms(s, x),
{
    if 0 <= x < s.len() {
        lemma_is_lms_matches(s, types, x);
    }
}

/// Every entry of `sa` is negative or a position of the text, and every LMS
/// position occurs in `sa` exactly once.
pub open spec fn lms_once(types: Seq<bool>, sa: Seq<i32>) -> bool {
    &&& sa.len() == types.len()
    &&& forall|j: int| 0 <= j < sa.len() ==> #[trigger] sa[j] < types.len()
    &&& forall|p: int| #[trigger] lms_at(types, p) ==> present(sa, p)
    &&& forall|i: int, j: int|
        #![trigger sa[i], sa[j]]
        0 <= i < j < sa.len() && sa[i] == sa[j] ==> !lms_at(types, sa[i] as int)
}

/// The LMS positions among the entries of `sa`, in slot order.
pub open spec fn lms_entries(types: Seq<bool>, sa: Seq<i32>) -> Seq<int>
    decreases sa.len(),
{
    if sa.len() == 0 {
        seq![]
    } else {
        let rest = lms_entries(types, sa.drop_last());
        if sa.last() >= 0 && lms_at(types, sa.last() as int) {
            rest.push(sa.last() as int)
        } else {
            rest
        }
    }
}

/// The names handed out in turn to the LMS positions `l`: 0 to the first,
/// then to each the name of the one before it, or one more where their LMS
/// substrings do not match.
pub open spec fn names_in_turn(s: Seq<int>, types: Seq<bool>, l: Seq<int>) -> Seq<int>
    decreases l.len(),
{
    if l.len() == 0 {
        seq![]
    } else if l.len() == 1 {
        seq![0int]
    } else {
        let before = names_in_turn(s, types, l.drop_last());
        let step: int = if lms_substrings_match(s, types, l[l.len() - 2], l.last()) {
            0
        } else {
            1
        };
        before.push(before.last() + step)
    }
}

/// How many names `names_in_turn` hands out.
pub open spec fn name_count(s: Seq<int>, types: Seq<bool>, l: Seq<int>) -> int {
    if l.len() == 0 {
        0
    } else {
        names_in_turn(s, types, l).last() + 1
    }
}

/// Names start at 0 and never decrease; the `j`-th is at most `j`.
proof fn lemma_names_in_turn(s: Seq<int>, types: Seq<bool>, l: Seq<int>)
    ensures
        names_in_turn(s, types, l).len() == l.len(),
        forall|j: int| 0 <= j < l.len() ==> 0 <= #[trigger] names_in_turn(s, types, l)[j] <= j,
        forall|i: int, j: int|
            #![trigger names_in_turn(s, types, l)[i], names_in_turn(s, types, l)[j]]
            0 <= i <= j < l.len() ==> names_in_turn(s, types, l)[i] <= names_in_turn(s, types, l)[j],
    decreases l.len(),
{
    if l.len() >= 2 {
        lemma_names_in_turn(s, types, l.drop_last());
    }
}

/// One more LMS position: its name follows from the last one.
proof fn lemma_names_push(s: Seq<int>, types: Seq<bool>, l: Seq<int>, p: int)
    requires
        l.len() >= 1,
    ensures
        names_in_turn(s, types, l.push(p)) == names_in_turn(s, types, l).push(
            names_in_turn(s, types, l).last() + if lms_substrings_match(s, types, l.last(), p) {
                0int
            } else {
                1int
            },
        ),
{
    assert(l.push(p).drop_last() =~= l);
    assert(l.push(p)[l.push(p).len() - 2] == l.last());
}

/// One more slot of `sa`: its entry joins the LMS entries if it is one.
proof fn lemma_entries_step(types: Seq<bool>, sa: Seq<i32>, q: int)
    requires
        0 <= q < sa.len(),
    ensures
        lms_entries(types, sa.subrange(0, q + 1)) == if sa[q] >= 0 && lms_at(types, sa[q] as int) {
            lms_entries(types, sa.subrange(0, q)).push(sa[q] as int)
        } else {
            lms_entries(types, sa.subrange(0, q))
        },
{
    assert(sa.subrange(0, q + 1).drop_last() =~= sa.subrange(0, q));
    assert(sa.subrange(0, q + 1).last() == sa[q]);
}

/// The sorted output of the first induction holds every LMS position once.
pub proof fn lemma_output_lms_once(s: Seq<int>, k: int, types: Seq<bool>, sa: Seq<i32>)
    requires
        symbols_below(s, k),
        types_of(s, types),
        s_output(s, prefix_order_s(s), sa),
    ensures
        lms_once(types, sa),
{
    crate::keys::lemma_prefix_order_s(s, k);
    assert forall|p: int| #[trigger] lms_at(types, p) implies present(sa, p) by {
        lemma_lms_at_is_lms(s, types, p);
    }
    assert forall|i: int, j: int|
        #![trigger sa[i], sa[j]]
        0 <= i < j < sa.len() && sa[i] == sa[j] implies !lms_at(types, sa[i] as int) by {
        lemma_sorted_distinct(s, prefix_order_s(s), sa, i, j);
    }
}

/// After the first L+S induction passes the LMS substrings occupy SA in
/// sorted order. Walk SA in order, giving each LMS substring a name;
/// consecutive equal substrings share a name.
///
/// Returns `(reduced_string, alphabet_size)` where `reduced_string[x]` is the
/// name of the x-th LMS position in text order. Walking `sa`, the first LMS
/// entry is named 0 and each later one gets the name of the LMS entry before
/// it, or one more where their LMS substrings do not match; `alphabet_size`
/// counts the names. When `sa` holds the text sorted by LMS prefixes, two
/// LMS substrings get equal names exactly when they match, and a smaller name
/// goes to a smaller suffix.
pub(crate) fn name_lms<C: Symbol>(
    t: &[C],
    sa: &[i32],
    types: &[bool],
    Ghost(k): Ghost<int>,
    Ghost(order): Ghost<Seq<i32>>,
) -> (r: (Vec<i32>, usize))
    requires
        t@.len() <= i32::MAX,
        within_alphabet(t@, k),
        types_of(symbols(t@), types@),
        lms_once(types@, sa@),
        lms_list(types@, order),
    ensures
        r.0@.len() == order.len(),
        r.1 == name_count(symbols(t@), types@, lms_entries(types@, sa@)),
        forall|x: int|
            #![trigger order[x]]
            0 <= x < order.len() ==> lms_entries(types@, sa@).contains(order[x] as int),
        forall|x: int, j: int|
            #![trigger r.0@[x], lms_entries(types@, sa@)[j]]
            0 <= x < order.len() && 0 <= j < lms_entries(types@, sa@).len() && lms_entries(types@, sa@)[j]
                == order[x] ==> r.0@[x] == names_in_turn(symbols(t@), types@, lms_entries(types@, sa@))[j],
        r.1 <= order.len(),
        forall|x: int| 0 <= x < r.0@.len() ==> 0 <= #[trigger] r.0@[x] < r.1,
        forall|v: int| 0 <= v < r.1 ==> #[trigger] takes_value(r.0@, v),
        s_output(symbols(t@), prefix_order_s(symbols(t@)), sa@) ==> forall|x: int, y: int|
            #![trigger r.0@[x], r.0@[y]]
            0 <= x < r.0@.len() && 0 <= y < r.0@.len() ==> (r.0@[x] == r.0@[y] <==> lms_substrings_match(
                symbols(t@),
                types@,
                order[x] as int,
                order[y] as int,
            )),
        s_output(symbols(t@), prefix_order_s(symbols(t@)), sa@) ==> forall|x: int, y: int|
            #![trigger r.0@[x], r.0@[y]]
            0 <= x < r.0@.len() && 0 <= y < r.0@.len() && r.0@[x] < r.0@[y] ==> suffix_less(
                symbols(t@),
                order[x] as int,
                order[y] as int,
            ),
{
    let ghost s = symbols(t@);
    let ghost q1 = prefix_order_s(s);
    let ghost sorted = s_output(s, q1, sa@);
    proof {
        crate::induce::lemma_symbols_below(t@, k);
        crate::keys::lemma_prefix_order_s(s, k);
        assert(sa@.subrange(0, 0) =~= Seq::<i32>::empty());
    }
    let n = t.len();
    let mut name_at: Vec<i32> = vec![-1i32; n];
    let mut name: i32 = -1;
    let mut prev_lms: Option<usize> = None;
    let ghost mut prev_slot: int = 0;
    let ghost mut lq: Seq<int> = seq![];
    let mut q: usize = 0;
    while q < sa.len()
        invariant
            q <= sa@.len() == n == t@.len() == types@.len() == name_at@.len(),
            n <= i32::MAX,
            s == symbols(t@),
            q1 == prefix_order_s(s),
            symbols_below(s, k),
            order_fits(s, q1),
            forall|i: int| 0 <= i < t@.len() ==> #[trigger] t@[i].has_index(),
            types_of(s, types@),
            lms_once(types@, sa@),
            sorted == s_output(s, q1, sa@),
            lq == lms_entries(types@, sa@.subrange(0, q as int)),
            -1 <= name < q,
            forall|x: int| 0 <= x < n ==> -1 <= #[trigger] name_at@[x] <= name,
            forall|x: int| 0 <= x < n ==> (#[trigger] name_at@[x] >= 0 <==> (lms(s, x) && seen_before(sa@, q as int, x))),
            (name == -1) == (prev_lms is None),
            (lq.len() == 0) == (prev_lms is None),
            forall|j: int| 0 <= j < lq.len() ==> 0 <= #[trigger] lq[j] < n,
            forall|j: int| 0 <= j < lq.len() ==> name_at@[#[trigger] lq[j]] == names_in_turn(s, types@, lq)[j],
            forall|j: int|
                0 <= j < q && #[trigger] sa@[j] >= 0 && lms_at(types@, sa@[j] as int) ==> lq.contains(sa@[j] as int),
            prev_lms matches Some(pl) ==> {
                &&& pl < n
                &&& lms(s, pl as int)
                &&& pl == lq.last()
                &&& name == names_in_turn(s, types@, lq).last()
                &&& name_at@[pl as int] == name
                &&& 0 <= prev_slot < q
                &&& sa@[prev_slot] == pl
                &&& forall|r: int| prev_slot < r < q ==> !(#[trigger] sa@[r] >= 0 && lms(s, sa@[r] as int))
            },
            sorted ==> forall|x: int, y: int|
                #![trigger name_at@[x], name_at@[y]]
                0 <= x < n && 0 <= y < n && name_at@[x] >= 0 && name_at@[x] == name_at@[y] ==> lms_substrings_match(
                    s,
                    types@,
                    x,
                    y,
                ),
            sorted ==> forall|x: int, y: int|
                #![trigger name_at@[x], name_at@[y]]
                0 <= x < n && 0 <= y < n && name_at@[x] >= 0 && name_at@[x] < name_at@[y] ==> lex_less(
                    key_s(s, x),
                    key_s(s, y),
                ),
            sorted ==> forall|x: int, y: int|
                #![trigger name_at@[x], name_at@[y]]
                0 <= x < n && 0 <= y < n && name_at@[x] >= 0 && name_at@[y] >= 0 && key_s(s, x) == key_s(s, y)
                    ==> name_at@[x] == name_at@[y],
            forall|v: int| 0 <= v <= name ==> #[trigger] takes_value(name_at@, v),
        decreases sa@.len() - q,
    {
        let v = sa[q];
        proof {
            lemma_entries_step(types@, sa@, q as int);
        }
        if v >= 0 {
            let p = v as usize;
            proof {
                assert(sa@[q as int] < types@.len());
                lemma_is_lms_matches(s, types@, p as int);
            }
            if is_lms(types, p) {
                let ghost old_names = name_at@;
                let ghost old_name = name as int;
                let ghost old_lq = lq;
                proof {
                    // p has no name yet: LMS entries never repeat.
                    if seen_before(sa@, q as int, p as int) {
                        let q0 = choose|q0: int| 0 <= q0 < q && q0 < sa@.len() && sa@[q0] == p;
                        assert(sa@[q0] == sa@[q as int]);
                    }
                    assert(old_names[p as int] == -1);
                    lemma_names_in_turn(s, types@, lq);
                    lemma_names_in_turn(s, types@, lq.push(p as int));
                    if lq.len() > 0 {
                        lemma_names_push(s, types@, lq, p as int);
                    }
                }
                match prev_lms {
                    None => {
                        name = 0;
                        name_at.set(p, name);
                        proof {
                            assert forall|x: int| 0 <= x < n && x != p implies #[trigger] name_at@[x] == -1 by {
                                assert(old_names[x] <= -1);
                            }
                            assert(name_at@[p as int] == 0);
                            assert(lq.push(p as int).len() == 1);
                        }
                    },
                    Some(prev) => {
                        let eq = lms_substrings_equal(t, types, prev, p);
                        if !eq {
                            name += 1;
                        }
                        name_at.set(p, name);
                        proof {
                            if sorted {
                                lemma_naming_step(
                                    s,
                                    k,
                                    types@,
                                    sa@,
                                    old_names,
                                    name_at@,
                                    prev as int,
                                    prev_slot,
                                    p as int,
                                    q as int,
                                    name as int,
                                    eq,
                                );
                            }
                        }
                    },
                }
                proof {
                    lemma_naming_cover(old_names, name_at@, p as int, old_name, name as int);
                    lq = lq.push(p as int);
                    assert forall|j: int| 0 <= j < lq.len() implies name_at@[#[trigger] lq[j]] == names_in_turn(
                        s,
                        types@,
                        lq,
                    )[j] by {
                        if j < old_lq.len() {
                            assert(old_lq[j] == lq[j]);
                            assert(old_names[old_lq[j]] >= 0);
                        }
                    }
                    assert forall|j: int|
                        0 <= j < q + 1 && #[trigger] sa@[j] >= 0 && lms_at(types@, sa@[j] as int) implies lq.contains(
                        sa@[j] as int,
                    ) by {
                        if j < q {
                            assert(old_lq.contains(sa@[j] as int));
                            let i = choose|i: int| 0 <= i < old_lq.len() && old_lq[i] == sa@[j] as int;
                            assert(lq[i] == sa@[j] as int);
                        } else {
                            assert(lq[old_lq.len() as int] == p);
                        }
                    }
                }
                prev_lms = Some(p);
                proof {
                    prev_slot = q as int;
                }
            } else {
                proof {
                    assert forall|j: int|
                        0 <= j < q + 1 && #[trigger] sa@[j] >= 0 && lms_at(types@, sa@[j] as int) implies lq.contains(
                        sa@[j] as int,
                    ) by {
                        if j == q {
                            assert(!lms_at(types@, p as int));
                        }
                    }
                }
            }
        }
        proof {
            assert forall|x: int| 0 <= x < n implies (#[trigger] name_at@[x] >= 0 <==> (lms(s, x) && seen_before(sa@, q + 1, x))) by {
                if seen_before(sa@, q + 1, x) && !seen_before(sa@, q as int, x) {
                    assert(sa@[q as int] == x);
                }
                if seen_before(sa@, q as int, x) {
                    let q0 = choose|q0: int| 0 <= q0 < q && q0 < sa@.len() && sa@[q0] == x;
                    assert(seen_before(sa@, q + 1, x));
                }
            }
        }
        q += 1;
    }
    let alphabet_size = (name + 1) as usize;
    proof {
        assert(sa@.subrange(0, n as int) =~= sa@);
        assert forall|x: int| 0 <= x < n implies (#[trigger] name_at@[x] >= 0 <==> lms(s, x)) by {
            if lms(s, x) {
                lemma_lms_at_is_lms(s, types@, x);
                assert(present(sa@, x));
                let q0 = choose|q0: int| 0 <= q0 < sa@.len() && sa@[q0] == x;
                assert(seen_before(sa@, n as int, x));
            }
        }
        assert forall|x: int| #![trigger order[x]] 0 <= x < order.len() implies lq.contains(order[x] as int) && 0 <= order[x] < n by {
            assert(lms_at(types@, order[x] as int));
            assert(present(sa@, order[x] as int));
            let j = choose|j: int| 0 <= j < sa@.len() && sa@[j] == order[x];
            assert(sa@[j] >= 0 && lms_at(types@, sa@[j] as int));
        }
    }
    let mut reduced: Vec<i32> = Vec::new();
    let ghost mut c: int = 0;
    let mut i: usize = 0;
    while i < n
        invariant
            i <= n == name_at@.len() == types@.len() == t@.len(),
            s == symbols(t@),
            types_of(s, types@),
            lms_list(types@, order),
            0 <= c <= order.len(),
            forall|r: int| 0 <= r < c ==> order[r] < i,
            forall|r: int| c <= r < order.len() ==> order[r] >= i,
            reduced@.len() == c,
            forall|r: int| 0 <= r < c ==> #[trigger] reduced@[r] == name_at@[order[r] as int],
            forall|x: int| 0 <= x < n ==> (#[trigger] name_at@[x] >= 0 <==> lms(s, x)),
        decreases n - i,
    {
        proof {
            lemma_lms_at_is_lms(s, types@, i as int);
        }
        if name_at[i] >= 0 {
            proof {
                let r = choose|r: int| 0 <= r < order.len() && order[r] == i;
                assert(r == c) by {
                    if r > c {
                        assert(order[c] < order[r]);
                    }
                }
            }
            reduced.push(name_at[i]);
            proof {
                c = c + 1;
                assert forall|r: int| c <= r < order.len() implies order[r] >= i + 1 by {
                    assert(order[c - 1] < order[r]);
                }
            }
        } else {
            proof {
                assert forall|r: int| c <= r < order.len() implies order[r] >= i + 1 by {
                    if order[r] == i {
                        assert(lms_at(types@, order[r] as int));
                    }
                }
            }
        }
        i += 1;
    }
    proof {
        assert(c == order.len()) by {
            if c < order.len() {
                assert(lms_at(types@, order[c] as int));
            }
        }
        assert forall|x: int, j: int|
            #![trigger reduced@[x], lq[j]]
            0 <= x < order.len() && 0 <= j < lq.len() && lq[j] == order[x] implies reduced@[x] == names_in_turn(
            s,
            types@,
            lq,
        )[j] by {
            assert(reduced@[x] == name_at@[order[x] as int]);
        }
        lemma_reduced_cover(s, types@, order, name_at@, reduced@, name as int);
        if sorted {
            lemma_reduced_semantics(s, k, types@, order, name_at@, reduced@);
        }
    }
    (reduced, alphabet_size)
}

/// The names read off in text order stay in range and use every name.
proof fn lemma_reduced_cover(
    s: Seq<int>,
    types: Seq<bool>,
    order: Seq<i32>,
    names: Seq<i32>,
    red: Seq<i32>,
    name: int,
)
    requires
        types_of(s, types),
        lms_list(types, order),
        names.len() == s.len(),
        -1 <= name,
        forall|x: int| 0 <= x < s.len() ==> -1 <= #[trigger] names[x] <= name,
        forall|x: int| 0 <= x < s.len() ==> (#[trigger] names[x] >= 0 <==> lms(s, x)),
        forall|v: int| 0 <= v <= name ==> #[trigger] takes_value(names, v),
        red.len() == order.len(),
        forall|r: int| 0 <= r < red.len() ==> #[trigger] red[r] == names[order[r] as int],
    ensures
        name + 1 <= red.len(),
        forall|x: int| 0 <= x < red.len() ==> 0 <= #[trigger] red[x] < name + 1,
        forall|v: int| 0 <= v < name + 1 ==> #[trigger] takes_value(red, v),
{
    assert forall|x: int| 0 <= x < red.len() implies 0 <= order[x] < s.len() && lms(s, order[x] as int) by {
        assert(lms_at(types, order[x] as int));
        lemma_lms_at_is_lms(s, types, order[x] as int);
    }
    assert forall|x: int| 0 <= x < red.len() implies 0 <= #[trigger] red[x] < name + 1 by {
        assert(lms(s, order[x] as int));
    }
    assert forall|v: int| 0 <= v < name + 1 implies #[trigger] takes_value(red, v) by {
        assert(takes_value(names, v));
        let p = choose|p: int| 0 <= p < names.len() && names[p] == v;
        lemma_lms_at_is_lms(s, types, p);
        let r = choose|r: int| 0 <= r < order.len() && order[r] == p;
        assert(red[r] == v);
    }
    lemma_names_cover(red, name + 1);
}

/// Over a sorted walk, the names read off in text order are equal exactly
/// for matching LMS substrings, and order their suffixes.
proof fn lemma_reduced_semantics(
    s: Seq<int>,
    k: int,
    types: Seq<bool>,
    order: Seq<i32>,
    names: Seq<i32>,
    red: Seq<i32>,
)
    requires
        symbols_below(s, k),
        types_of(s, types),
        lms_list(types, order),
        names.len() == s.len(),
        forall|x: int| 0 <= x < s.len() ==> (#[trigger] names[x] >= 0 <==> lms(s, x)),
        forall|x: int, y: int|
            #![trigger names[x], names[y]]
            0 <= x < s.len() && 0 <= y < s.len() && names[x] >= 0 && names[x] == names[y] ==> lms_substrings_match(
                s,
                types,
                x,
                y,
            ),
        forall|x: int, y: int|
            #![trigger names[x], names[y]]
            0 <= x < s.len() && 0 <= y < s.len() && names[x] >= 0 && names[x] < names[y] ==> lex_less(
                key_s(s, x),
                key_s(s, y),
            ),
        forall|x: int, y: int|
            #![trigger names[x], names[y]]
            0 <= x < s.len() && 0 <= y < s.len() && names[x] >= 0 && names[y] >= 0 && key_s(s, x) == key_s(s, y)
                ==> names[x] == names[y],
        red.len() == order.len(),
        forall|r: int| 0 <= r < red.len() ==> #[trigger] red[r] == names[order[r] as int],
    ensures
        forall|x: int, y: int|
            #![trigger red[x], red[y]]
            0 <= x < red.len() && 0 <= y < red.len() ==> (red[x] == red[y] <==> lms_substrings_match(
                s,
                types,
                order[x] as int,
                order[y] as int,
            )),
        forall|x: int, y: int|
            #![trigger red[x], red[y]]
            0 <= x < red.len() && 0 <= y < red.len() && red[x] < red[y] ==> suffix_less(
                s,
                order[x] as int,
                order[y] as int,
            ),
{
    assert forall|x: int| 0 <= x < red.len() implies 0 <= order[x] < s.len() && lms(s, order[x] as int) by {
        assert(lms_at(types, order[x] as int));
        lemma_lms_at_is_lms(s, types, order[x] as int);
    }
    assert forall|x: int, y: int|
        #![trigger red[x], red[y]]
        0 <= x < red.len() && 0 <= y < red.len() implies (red[x] == red[y] <==> lms_substrings_match(
        s,
        types,
        order[x] as int,
        order[y] as int,
    )) by {
        assert(lms(s, order[x] as int) && lms(s, order[y] as int));
        if lms_substrings_match(s, types, order[x] as int, order[y] as int) {
            crate::keys::lemma_match_key_eq(s, types, order[x] as int, order[y] as int);
        }
        assert(names[order[x] as int] == red[x] && names[order[y] as int] == red[y]);
    }
    assert forall|x: int, y: int|
        #![trigger red[x], red[y]]
        0 <= x < red.len() && 0 <= y < red.len() && red[x] < red[y] implies suffix_less(
        s,
        order[x] as int,
        order[y] as int,
    ) by {
        assert(lms(s, order[x] as int) && lms(s, order[y] as int));
        assert(names[order[x] as int] < names[order[y] as int]);
        crate::keys::lemma_key_s_less(s, k, order[x] as int, order[y] as int);
    }
}

/// Naming `p`, which had no name, with the last name or the next one keeps
/// every name in range and in use.
proof fn lemma_naming_cover(old_names: Seq<i32>, names: Seq<i32>, p: int, old_name: int, name: int)
    requires
        0 <= p < old_names.len(),
        old_names[p] == -1,
        0 <= name <= i32::MAX,
        old_name <= name <= old_name + 1,
        names == old_names.update(p, name as i32),
        forall|x: int| 0 <= x < old_names.len() ==> -1 <= #[trigger] old_names[x] <= old_name,
        forall|v: int| 0 <= v <= old_name ==> #[trigger] takes_value(old_names, v),
    ensures
        forall|x: int| 0 <= x < names.len() ==> -1 <= #[trigger] names[x] <= name,
        forall|v: int| 0 <= v <= name ==> #[trigger] takes_value(names, v),
{
    assert forall|v: int| 0 <= v <= name implies #[trigger] takes_value(names, v) by {
        if v == name {
            assert(names[p] == v);
        } else {
            assert(takes_value(old_names, v));
            let x = choose|x: int| 0 <= x < old_names.len() && old_names[x] == v;
            assert(x != p);
            assert(names[x] == v);
        }
    }
}

/// One naming step: `p`, found at slot `q` after `prev` at `prev_slot`, gets
/// the name of `prev` when their substrings match, a new name otherwise.
proof fn lemma_naming_step(
    s: Seq<int>,
    k: int,
    types: Seq<bool>,
    sa: Seq<i32>,
    old_names: Seq<i32>,
    names: Seq<i32>,
    prev: int,
    prev_slot: int,
    p: int,
    q: int,
    name: int,
    eq: bool,
)
    requires
        symbols_below(s, k),
        types_of(s, types),
        order_fits(s, prefix_order_s(s)),
        s_output(s, prefix_order_s(s), sa),
        names.len() == old_names.len() == s.len(),
        0 <= prev_slot < q < s.len(),
        sa[prev_slot] == prev,
        sa[q] == p,
        lms(s, prev),
        lms(s, p),
        old_names[prev] == name - if eq { 0int } else { 1int },
        old_names[p] == -1,
        0 <= name <= i32::MAX,
        eq == lms_substrings_match(s, types, prev, p),
        names == old_names.update(p, name as i32),
        forall|x: int| 0 <= x < s.len() ==> -1 <= #[trigger] old_names[x] <= old_names[prev],
        forall|x: int| 0 <= x < s.len() && #[trigger] old_names[x] >= 0 ==> lms(s, x) && seen_before(sa, q, x),
        forall|r: int| prev_slot < r < q ==> !(#[trigger] sa[r] >= 0 && lms(s, sa[r] as int)),
        forall|x: int, y: int|
            #![trigger old_names[x], old_names[y]]
            0 <= x < s.len() && 0 <= y < s.len() && old_names[x] >= 0 && old_names[x] == old_names[y] ==> lms_substrings_match(
                s,
                types,
                x,
                y,
            ),
        forall|x: int, y: int|
            #![trigger old_names[x], old_names[y]]
            0 <= x < s.len() && 0 <= y < s.len() && old_names[x] >= 0 && old_names[x] < old_names[y] ==> lex_less(
                key_s(s, x),
                key_s(s, y),
            ),
        forall|x: int, y: int|
            #![trigger old_names[x], old_names[y]]
            0 <= x < s.len() && 0 <= y < s.len() && old_names[x] >= 0 && old_names[y] >= 0 && key_s(s, x) == key_s(
                s,
                y,
            ) ==> old_names[x] == old_names[y],
    ensures
        forall|x: int, y: int|
            #![trigger names[x], names[y]]
            0 <= x < s.len() && 0 <= y < s.len() && names[x] >= 0 && names[x] == names[y] ==> lms_substrings_match(
                s,
                types,
                x,
                y,
            ),
        forall|x: int, y: int|
            #![trigger names[x], names[y]]
            0 <= x < s.len() && 0 <= y < s.len() && names[x] >= 0 && names[x] < names[y] ==> lex_less(
                key_s(s, x),
                key_s(s, y),
            ),
        forall|x: int, y: int|
            #![trigger names[x], names[y]]
            0 <= x < s.len() && 0 <= y < s.len() && names[x] >= 0 && names[y] >= 0 && key_s(s, x) == key_s(s, y)
                ==> names[x] == names[y],
{
    let q1 = prefix_order_s(s);
    let n = s.len() as int;
    // Every named position sits at or before `prev` in SA, so its key is at
    // most that of `prev`, which is at most that of `p`.
    assert forall|x: int| 0 <= x < n && #[trigger] old_names[x] >= 0 implies lex_less(key_s(s, x), key_s(s, p)) || key_s(
        s,
        x,
    ) == key_s(s, p) by {
        let qx = choose|qx: int| 0 <= qx < q && qx < sa.len() && sa[qx] == x;
        assert(q1(sa[qx] as int, sa[q] as int));
    }
    assert(lex_less(key_s(s, prev), key_s(s, p)) || key_s(s, prev) == key_s(s, p)) by {
        assert(q1(sa[prev_slot] as int, sa[q] as int));
    }
    assert forall|x: int| 0 <= x < n && #[trigger] old_names[x] >= 0 && x != prev implies lex_less(key_s(s, x), key_s(s, prev))
        || key_s(s, x) == key_s(s, prev) by {
        let qx = choose|qx: int| 0 <= qx < q && qx < sa.len() && sa[qx] == x;
        if qx > prev_slot {
            assert(!(sa[qx] >= 0 && lms(s, sa[qx] as int)));
        }
        if qx == prev_slot {
            assert(x == prev);
        }
        assert(q1(sa[qx] as int, sa[prev_slot] as int));
    }
    assert forall|x: int, y: int|
        #![trigger names[x], names[y]]
        0 <= x < n && 0 <= y < n && names[x] >= 0 && names[x] == names[y] implies lms_substrings_match(s, types, x, y) by {
        if x == p && y == p {
        } else if x == p {
            assert(names[y] == old_names[y]);
            assert(old_names[y] <= old_names[prev]);
            assert(eq);
            assert(old_names[y] == old_names[prev]);
            lemma_match_symmetric(s, types, y, prev);
            lemma_match_transitive(s, types, p, prev, y);
            lemma_match_symmetric(s, types, prev, p);
            lemma_match_transitive(s, types, p, prev, y);
        } else if y == p {
            assert(names[x] == old_names[x]);
            assert(old_names[x] <= old_names[prev]);
            assert(eq);
            assert(old_names[x] == old_names[prev]);
            lemma_match_transitive(s, types, x, prev, p);
        } else {
            assert(old_names[x] == names[x] && old_names[y] == names[y]);
        }
    }
    assert forall|x: int, y: int|
        #![trigger names[x], names[y]]
        0 <= x < n && 0 <= y < n && names[x] >= 0 && names[x] < names[y] implies lex_less(key_s(s, x), key_s(s, y)) by {
        if y == p {
            assert(old_names[x] >= 0);
            if eq {
                assert(old_names[x] < old_names[prev]);
                if lex_less(key_s(s, prev), key_s(s, p)) {
                    lemma_lex_transitive(key_s(s, x), key_s(s, prev), key_s(s, p));
                }
            } else {
                if !lex_less(key_s(s, x), key_s(s, p)) {
                    assert(key_s(s, x) == key_s(s, p));
                    if x != prev {
                        if lex_less(key_s(s, x), key_s(s, prev)) && lex_less(key_s(s, prev), key_s(s, p)) {
                            lemma_lex_transitive(key_s(s, x), key_s(s, prev), key_s(s, p));
                            lemma_lex_irreflexive(key_s(s, x));
                        } else if lex_less(key_s(s, x), key_s(s, prev)) {
                            lemma_lex_asymmetric(key_s(s, x), key_s(s, prev));
                        } else if lex_less(key_s(s, prev), key_s(s, p)) {
                            lemma_lex_irreflexive(key_s(s, p));
                        }
                    }
                    assert(key_s(s, prev) == key_s(s, p));
                    crate::keys::lemma_key_s_eq_match(s, k, types, prev, p);
                }
            }
        } else if x == p {
            assert(old_names[y] <= old_names[prev]);
        } else {
            assert(old_names[x] == names[x] && old_names[y] == names[y]);
        }
    }
    // A named position with the key of `p` has the key of `prev` as well.
    assert forall|x: int| 0 <= x < n && #[trigger] old_names[x] >= 0 && key_s(s, x) == key_s(s, p) implies key_s(
        s,
        prev,
    ) == key_s(s, p) by {
        if x != prev && lex_less(key_s(s, x), key_s(s, prev)) {
            if lex_less(key_s(s, prev), key_s(s, p)) {
                lemma_lex_transitive(key_s(s, x), key_s(s, prev), key_s(s, p));
            }
            lemma_lex_irreflexive(key_s(s, x));
        }
    }
    if key_s(s, prev) == key_s(s, p) {
        crate::keys::lemma_key_s_eq_match(s, k, types, prev, p);
    }
    assert forall|x: int, y: int|
        #![trigger names[x], names[y]]
        0 <= x < n && 0 <= y < n && names[x] >= 0 && names[y] >= 0 && key_s(s, x) == key_s(s, y) implies names[x]
        == names[y] by {
        if x == p && y == p {
        } else if x == p {
            assert(old_names[y] == names[y]);
            assert(key_s(s, prev) == key_s(s, p));
            assert(old_names[y] == old_names[prev]);
        } else if y == p {
            assert(old_names[x] == names[x]);
            assert(key_s(s, prev) == key_s(s, p));
            assert(old_names[x] == old_names[prev]);
        } else {
            assert(old_names[x] == names[x] && old_names[y] == names[y]);
        }
    }
}

/// Equal stretches shift the comparison of two suffixes past them.
pub proof fn lemma_suffix_less_shift(s: Seq<int>, a: int, b: int, len: int)
    requires
        0 <= len,
        0 <= a,
        0 <= b,
        a + len <= s.len(),
        b + len <= s.len(),
        s.subrange(a, a + len) == s.subrange(b, b + len),
    ensures
        suffix_less(s, a, b) == suffix_less(s, a + len, b + len),
    decreases len,
{
    if len > 0 {
        assert(s[a] == s.subrange(a, a + len)[0]);
        assert(s[b] == s.subrange(b, b + len)[0]);
        assert(s.subrange(a + 1, a + len) =~= s.subrange(a, a + len).drop_first());
        assert(s.subrange(b + 1, b + len) =~= s.subrange(b, b + len).drop_first());
        lemma_suffix_less_shift(s, a + 1, b + 1, len - 1);
    }
}

/// A named LMS position that is not the last one is followed, after its
/// matching stretch, by the next LMS position.
proof fn lemma_match_reaches_next(s: Seq<int>, types: Seq<bool>, order: Seq<i32>, i: int, len: int)
    requires
        lms_list(types, order),
        0 <= i < order.len(),
        len >= 1,
        lms_at(types, order[i] + len),
        no_lms_between(types, order[i] as int, order[i] + len),
    ensures
        i + 1 < order.len(),
        order[i + 1] == order[i] + len,
{
    let t2 = choose|r: int| 0 <= r < order.len() && order[r] == order[i] + len;
    if t2 <= i {
        if t2 < i {
            assert(order[t2] < order[i]);
        }
    }
    assert(i + 1 < order.len());
    if i + 1 < t2 {
        assert(order[i + 1] < order[t2]);
    }
    assert(lms_at(types, order[i + 1] as int));
    assert(order[i] < order[i + 1]);
}

/// The reduced string orders its suffixes as the text orders the LMS
/// suffixes it names.
pub proof fn lemma_reduced_order(s: Seq<int>, types: Seq<bool>, order: Seq<i32>, r: Seq<int>, i: int, j: int)
    requires
        lms_list(types, order),
        r.len() == order.len(),
        forall|x: int, y: int|
            #![trigger r[x], r[y]]
            0 <= x < r.len() && 0 <= y < r.len() && r[x] == r[y] ==> lms_substrings_match(
                s,
                types,
                order[x] as int,
                order[y] as int,
            ),
        forall|x: int, y: int|
            #![trigger r[x], r[y]]
            0 <= x < r.len() && 0 <= y < r.len() && r[x] < r[y] ==> suffix_less(s, order[x] as int, order[y] as int),
        0 <= i < r.len(),
        0 <= j < r.len(),
        types.len() == s.len(),
    ensures
        suffix_less(r, i, j) == suffix_less(s, order[i] as int, order[j] as int),
    decreases r.len() - i,
{
    assert(lms_at(types, order[i] as int) && lms_at(types, order[j] as int));
    if i == j {
        lemma_suffix_less_irreflexive(r, i);
        lemma_suffix_less_irreflexive(s, order[i] as int);
    } else if r[i] < r[j] {
    } else if r[j] < r[i] {
        if i < j {
            assert(order[i] < order[j]);
        } else {
            assert(order[j] < order[i]);
        }
        lemma_suffix_less_total(s, order[i] as int, order[j] as int);
    } else {
        let a = order[i] as int;
        let b = order[j] as int;
        if i < j {
            assert(order[i] < order[j]);
        } else {
            assert(order[j] < order[i]);
        }
        assert(lms_substrings_match(s, types, a, b));
        let len = choose|len: int|
            #![trigger lms_at(types, a + len), lms_at(types, b + len)]
            {
                &&& len >= 1
                &&& lms_at(types, a + len)
                &&& lms_at(types, b + len)
                &&& no_lms_between(types, a, a + len)
                &&& no_lms_between(types, b, b + len)
                &&& s.subrange(a, a + len + 1) == s.subrange(b, b + len + 1)
            };
        lemma_match_reaches_next(s, types, order, i, len);
        lemma_match_reaches_next(s, types, order, j, len);
        assert(s.subrange(a, a + len) =~= s.subrange(a, a + len + 1).subrange(0, len));
        assert(s.subrange(b, b + len) =~= s.subrange(b, b + len + 1).subrange(0, len));
        lemma_suffix_less_shift(s, a, b, len);
        lemma_reduced_order(s, types, order, r, i + 1, j + 1);
    }
}

} // verus!
