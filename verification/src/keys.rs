//! LMS prefixes as keys: the order that the first round of induced sorting
//! establishes, and what that order says about the suffixes.

use vstd::prelude::*;

use crate::classify::{types_of, lemma_is_lms_matches};
use crate::layout::{is_l, symbols_below};
use crate::lms::{lms_at, lms_substrings_match, no_lms_between};
use crate::order::{order_fits, order_shifts_l, order_shifts_s, lemma_l_before_s};
use crate::suffix::{lms, s_type, suffix_less, lemma_s_type_step};

verus! {

/// The symbol of position `x` with its type: `2 * s[x]` when L-type, one
/// more when S-type.
pub open spec fn enc(s: Seq<int>, x: int) -> int {
    2 * s[x] + if s_type(s, x) {
        1int
    } else {
        0int
    }
}

/// The encoded symbols from `x` up to and including the next LMS position,
/// or up to the end of the text, which reads as `-1`. An LMS `x` stops at
/// itself.
pub open spec fn key_l(s: Seq<int>, x: int) -> Seq<int>
    decreases s.len() - x,
{
    if x < 0 || x >= s.len() {
        seq![-1int]
    } else if lms(s, x) {
        seq![enc(s, x)]
    } else {
        seq![enc(s, x)] + key_l(s, x + 1)
    }
}

/// The LMS prefix of the suffix at `x`: `key_l` without stopping at `x`.
pub open spec fn key_s(s: Seq<int>, x: int) -> Seq<int> {
    if 0 <= x < s.len() {
        seq![enc(s, x)] + key_l(s, x + 1)
    } else {
        seq![-1int]
    }
}

/// Lexicographic order, a proper prefix first.
pub open spec fn lex_less(a: Seq<int>, b: Seq<int>) -> bool
    decreases a.len(),
{
    if b.len() == 0 {
        false
    } else if a.len() == 0 {
        true
    } else if a[0] != b[0] {
        a[0] < b[0]
    } else {
        lex_less(a.drop_first(), b.drop_first())
    }
}

/// Order positions by `key_l`, ties broken by position, the later first.
pub open spec fn prefix_order_l(s: Seq<int>) -> spec_fn(int, int) -> bool {
    |i: int, j: int| lex_less(key_l(s, i), key_l(s, j)) || (key_l(s, i) == key_l(s, j) && i > j)
}

/// Order positions by `key_s`, ties broken by position, the later first.
pub open spec fn prefix_order_s(s: Seq<int>) -> spec_fn(int, int) -> bool {
    |i: int, j: int| lex_less(key_s(s, i), key_s(s, j)) || (key_s(s, i) == key_s(s, j) && i > j)
}

pub proof fn lemma_lex_irreflexive(a: Seq<int>)
    ensures
        !lex_less(a, a),
    decreases a.len(),
{
    if a.len() > 0 {
        lemma_lex_irreflexive(a.drop_first());
    }
}

pub proof fn lemma_lex_transitive(a: Seq<int>, b: Seq<int>, c: Seq<int>)
    requires
        lex_less(a, b),
        lex_less(b, c),
    ensures
        lex_less(a, c),
    decreases a.len(),
{
    if a.len() > 0 && b.len() > 0 && c.len() > 0 && a[0] == b[0] && b[0] == c[0] {
        lemma_lex_transitive(a.drop_first(), b.drop_first(), c.drop_first());
    }
}

pub proof fn lemma_lex_total(a: Seq<int>, b: Seq<int>)
    requires
        a != b,
    ensures
        lex_less(a, b) || lex_less(b, a),
    decreases a.len(),
{
    if a.len() > 0 && b.len() > 0 && a[0] == b[0] {
        if a.drop_first() == b.drop_first() {
            assert(a =~= seq![a[0]] + a.drop_first());
            assert(b =~= seq![b[0]] + b.drop_first());
        }
        lemma_lex_total(a.drop_first(), b.drop_first());
    }
    if a.len() == 0 && b.len() == 0 {
        assert(a =~= b);
    }
}

pub proof fn lemma_lex_asymmetric(a: Seq<int>, b: Seq<int>)
    requires
        lex_less(a, b),
    ensures
        !lex_less(b, a),
{
    if lex_less(b, a) {
        lemma_lex_transitive(a, b, a);
        lemma_lex_irreflexive(a);
    }
}

/// Keys with one head compare as their tails.
pub proof fn lemma_lex_cons(e: int, a: Seq<int>, b: Seq<int>)
    ensures
        lex_less(seq![e] + a, seq![e] + b) == lex_less(a, b),
        (seq![e] + a == seq![e] + b) == (a == b),
{
    assert((seq![e] + a).drop_first() =~= a);
    assert((seq![e] + b).drop_first() =~= b);
    if seq![e] + a == seq![e] + b {
        assert(a =~= (seq![e] + a).drop_first());
    }
}

proof fn lemma_enc_bounds(s: Seq<int>, k: int, x: int)
    requires
        symbols_below(s, k),
        0 <= x < s.len(),
    ensures
        enc(s, x) >= 0,
{
}

/// Keys start with the encoded symbol, or with `-1` at the end of the text.
pub proof fn lemma_key_head(s: Seq<int>, k: int, x: int)
    requires
        symbols_below(s, k),
        0 <= x <= s.len(),
    ensures
        key_l(s, x).len() >= 1,
        x < s.len() ==> key_l(s, x)[0] == enc(s, x) >= 0,
        x == s.len() ==> key_l(s, x) == seq![-1int],
        x < s.len() ==> key_s(s, x).len() >= 1 && key_s(s, x)[0] == enc(s, x),
{
    if x < s.len() {
        lemma_enc_bounds(s, k, x);
    }
}

/// An encoded symbol orders positions as their suffixes when it differs.
proof fn lemma_enc_less(s: Seq<int>, i: int, j: int)
    requires
        0 <= i < s.len(),
        0 <= j < s.len(),
        enc(s, i) < enc(s, j),
    ensures
        suffix_less(s, i, j),
        s[i] <= s[j],
{
    if s[i] == s[j] {
        lemma_l_before_s(s, i, j);
    }
}

/// Equal encoded symbols: equal symbols and types.
proof fn lemma_enc_eq(s: Seq<int>, i: int, j: int)
    requires
        0 <= i < s.len(),
        0 <= j < s.len(),
        enc(s, i) == enc(s, j),
    ensures
        s[i] == s[j],
        s_type(s, i) == s_type(s, j),
{
}

/// A key order on positions whose keys start with the encoded symbol fits
/// the buckets.
proof fn lemma_key_order_fits(s: Seq<int>, k: int, key: spec_fn(int) -> Seq<int>, ord: spec_fn(int, int) -> bool)
    requires
        forall|i: int| 0 <= i < s.len() ==> (#[trigger] key(i)).len() >= 1 && key(i)[0] == enc(s, i),
        forall|i: int, j: int| #[trigger] ord(i, j) == (lex_less(key(i), key(j)) || (key(i) == key(j) && i > j)),
    ensures
        order_fits(s, ord),
{
    assert forall|i: int| 0 <= i < s.len() implies !#[trigger] ord(i, i) by {
        lemma_lex_irreflexive(key(i));
    }
    assert forall|i: int, j: int, l: int|
        #![trigger ord(i, j), ord(j, l)]
        0 <= i < s.len() && 0 <= j < s.len() && 0 <= l < s.len() && ord(i, j) && ord(j, l) implies ord(i, l) by {
        if lex_less(key(i), key(j)) && lex_less(key(j), key(l)) {
            lemma_lex_transitive(key(i), key(j), key(l));
        }
    }
    assert forall|i: int, j: int|
        #![trigger ord(i, j)]
        0 <= i < s.len() && 0 <= j < s.len() && i != j implies ord(i, j) || ord(j, i) by {
        if key(i) != key(j) {
            lemma_lex_total(key(i), key(j));
        }
    }
    assert forall|i: int, j: int|
        #![trigger ord(i, j)]
        0 <= i < s.len() && 0 <= j < s.len() && s[i] < s[j] implies ord(i, j) by {
        assert(key(i)[0] < key(j)[0]);
    }
    assert forall|i: int, j: int|
        #![trigger ord(i, j)]
        0 <= i < s.len() && 0 <= j < s.len() && s[i] == s[j] && !s_type(s, i) && s_type(s, j) implies ord(i, j) by {
        assert(key(i)[0] < key(j)[0]);
    }
}

/// An L-type position is not LMS, so both keys agree on it.
pub proof fn lemma_key_l_type(s: Seq<int>, x: int)
    requires
        is_l(s, x),
    ensures
        key_s(s, x) == key_l(s, x),
{
}

/// The successor of an S-type position has the same two keys.
proof fn lemma_key_s_successor(s: Seq<int>, x: int)
    requires
        0 <= x < s.len(),
        s_type(s, x),
    ensures
        x + 1 < s.len(),
        key_s(s, x + 1) == key_l(s, x + 1),
{
    lemma_s_type_step(s, x);
}

/// The order of the first L-pass fits the buckets and shifts along L-type runs.
pub proof fn lemma_prefix_order_l(s: Seq<int>, k: int)
    requires
        symbols_below(s, k),
    ensures
        order_fits(s, prefix_order_l(s)),
        order_shifts_l(s, prefix_order_l(s)),
{
    let ord = prefix_order_l(s);
    let key = |x: int| key_l(s, x);
    assert forall|i: int| 0 <= i < s.len() implies (#[trigger] key(i)).len() >= 1 && key(i)[0] == enc(s, i) by {
        lemma_key_head(s, k, i);
    }
    lemma_key_order_fits(s, k, key, ord);
    let n = s.len() as int;
    assert forall|i: int, j: int|
        #![trigger ord(i, j)]
        0 <= i < n - 1 && 0 <= j < n - 1 && s[i] == s[j] && !s_type(s, i) && !s_type(s, j) implies (ord(i, j) == ord(
        i + 1,
        j + 1,
    )) by {
        assert(!lms(s, i) && !lms(s, j));
        assert(key_l(s, i) == seq![enc(s, i)] + key_l(s, i + 1));
        assert(key_l(s, j) == seq![enc(s, j)] + key_l(s, j + 1));
        lemma_lex_cons(enc(s, i), key_l(s, i + 1), key_l(s, j + 1));
    }
    assert forall|j: int| 0 <= j < n - 1 && s[j] == s[n - 1] && !s_type(s, j) implies #[trigger] ord(n - 1, j) by {
        lemma_s_type_step(s, n - 1);
        assert(!lms(s, n - 1) && !lms(s, j));
        lemma_key_head(s, k, n);
        lemma_key_head(s, k, j + 1);
        assert(key_l(s, n - 1) == seq![enc(s, n - 1)] + key_l(s, n));
        assert(key_l(s, j) == seq![enc(s, j)] + key_l(s, j + 1));
        lemma_lex_cons(enc(s, j), key_l(s, n), key_l(s, j + 1));
        assert(lex_less(key_l(s, n), key_l(s, j + 1)));
    }
}

/// The order of the first S-pass fits the buckets, shifts along S-type runs,
/// and agrees with the order of the first L-pass on L-type positions.
pub proof fn lemma_prefix_order_s(s: Seq<int>, k: int)
    requires
        symbols_below(s, k),
    ensures
        order_fits(s, prefix_order_s(s)),
        order_shifts_s(s, prefix_order_s(s)),
        forall|i: int, j: int|
            #![trigger prefix_order_l(s)(i, j)]
            is_l(s, i) && is_l(s, j) && prefix_order_l(s)(i, j) ==> prefix_order_s(s)(i, j),
{
    let ord = prefix_order_s(s);
    let key = |x: int| key_s(s, x);
    assert forall|i: int| 0 <= i < s.len() implies (#[trigger] key(i)).len() >= 1 && key(i)[0] == enc(s, i) by {
        lemma_key_head(s, k, i);
    }
    lemma_key_order_fits(s, k, key, ord);
    assert forall|i: int, j: int|
        #![trigger ord(i, j)]
        0 <= i < s.len() && 0 <= j < s.len() && s[i] == s[j] && s_type(s, i) && s_type(s, j) implies (ord(i, j)
        == ord(i + 1, j + 1)) by {
        lemma_key_s_successor(s, i);
        lemma_key_s_successor(s, j);
        lemma_lex_cons(enc(s, i), key_l(s, i + 1), key_l(s, j + 1));
    }
    assert forall|i: int, j: int|
        #![trigger prefix_order_l(s)(i, j)]
        is_l(s, i) && is_l(s, j) && prefix_order_l(s)(i, j) implies ord(i, j) by {
        lemma_key_l_type(s, i);
        lemma_key_l_type(s, j);
    }
}

/// Comparing `key_l` from two positions whose predecessors have one type
/// compares their suffixes.
proof fn lemma_key_l_less(s: Seq<int>, k: int, i: int, j: int)
    requires
        symbols_below(s, k),
        1 <= i <= s.len(),
        1 <= j <= s.len(),
        s_type(s, i - 1) == s_type(s, j - 1),
        lex_less(key_l(s, i), key_l(s, j)),
    ensures
        suffix_less(s, i, j),
    decreases s.len() - i,
{
    let n = s.len() as int;
    lemma_key_head(s, k, i);
    lemma_key_head(s, k, j);
    if i == n {
        if j == n {
            lemma_lex_irreflexive(key_l(s, i));
        }
    } else if j == n {
    } else if enc(s, i) != enc(s, j) {
        lemma_enc_less(s, i, j);
    } else {
        lemma_enc_eq(s, i, j);
        if lms(s, i) {
            lemma_lex_irreflexive(key_l(s, i));
        } else {
            lemma_lex_cons(enc(s, i), key_l(s, i + 1), key_l(s, j + 1));
            lemma_key_l_less(s, k, i + 1, j + 1);
        }
    }
}

/// Positions whose LMS prefixes compare lexicographically have their suffixes
/// in the same order.
pub proof fn lemma_key_s_less(s: Seq<int>, k: int, a: int, b: int)
    requires
        symbols_below(s, k),
        0 <= a < s.len(),
        0 <= b < s.len(),
        lex_less(key_s(s, a), key_s(s, b)),
    ensures
        suffix_less(s, a, b),
{
    if enc(s, a) != enc(s, b) {
        lemma_key_head(s, k, a);
        lemma_key_head(s, k, b);
        lemma_enc_less(s, a, b);
    } else {
        lemma_enc_eq(s, a, b);
        lemma_lex_cons(enc(s, a), key_l(s, a + 1), key_l(s, b + 1));
        lemma_key_l_less(s, k, a + 1, b + 1);
    }
}

/// Equal `key_l` from two distinct positions whose predecessors have one
/// type: both reach an LMS position after the same number `d` of equal
/// symbols, with no LMS position on the way.
proof fn lemma_key_l_eq(s: Seq<int>, k: int, i: int, j: int) -> (d: int)
    requires
        symbols_below(s, k),
        1 <= i <= s.len(),
        1 <= j <= s.len(),
        i != j,
        s_type(s, i - 1) == s_type(s, j - 1),
        key_l(s, i) == key_l(s, j),
    ensures
        d >= 0,
        i + d < s.len(),
        j + d < s.len(),
        lms(s, i + d),
        lms(s, j + d),
        forall|e: int| 0 <= e < d ==> !#[trigger] lms(s, i + e) && !lms(s, j + e),
        s.subrange(i, i + d + 1) == s.subrange(j, j + d + 1),
    decreases s.len() - i,
{
    let n = s.len() as int;
    lemma_key_head(s, k, i);
    lemma_key_head(s, k, j);
    if i == n || j == n {
        assert(false);
        0
    } else {
        lemma_enc_eq(s, i, j);
        if lms(s, i) {
            assert(s.subrange(i, i + 1) =~= seq![s[i]]);
            assert(s.subrange(j, j + 1) =~= seq![s[j]]);
            0
        } else {
            lemma_lex_cons(enc(s, i), key_l(s, i + 1), key_l(s, j + 1));
            let d1 = lemma_key_l_eq(s, k, i + 1, j + 1);
            assert forall|e: int| 0 <= e < d1 + 1 implies !#[trigger] lms(s, i + e) && !lms(s, j + e) by {
                if e > 0 {
                    assert(!lms(s, (i + 1) + (e - 1)));
                }
            }
            assert(s.subrange(i, i + d1 + 2) =~= seq![s[i]] + s.subrange(i + 1, i + 1 + d1 + 1));
            assert(s.subrange(j, j + d1 + 2) =~= seq![s[j]] + s.subrange(j + 1, j + 1 + d1 + 1));
            d1 + 1
        }
    }
}

/// Distinct positions with equal LMS prefixes start equal LMS substrings.
pub proof fn lemma_key_s_eq_match(s: Seq<int>, k: int, types: Seq<bool>, a: int, b: int)
    requires
        symbols_below(s, k),
        types_of(s, types),
        0 <= a < s.len(),
        0 <= b < s.len(),
        key_s(s, a) == key_s(s, b),
    ensures
        lms_substrings_match(s, types, a, b),
{
    if a != b {
        lemma_key_head(s, k, a);
        lemma_key_head(s, k, b);
        lemma_enc_eq(s, a, b);
        lemma_lex_cons(enc(s, a), key_l(s, a + 1), key_l(s, b + 1));
        let d = lemma_key_l_eq(s, k, a + 1, b + 1);
        let len = d + 1;
        lemma_is_lms_matches(s, types, a + len);
        lemma_is_lms_matches(s, types, b + len);
        assert forall|p: int| a < p < a + len implies !#[trigger] lms_at(types, p) by {
            lemma_is_lms_matches(s, types, p);
            assert(!lms(s, (a + 1) + (p - a - 1)));
        }
        assert forall|p: int| b < p < b + len implies !#[trigger] lms_at(types, p) by {
            lemma_is_lms_matches(s, types, p);
            assert(!lms(s, (a + 1) + (p - b - 1)));
            assert(!lms(s, (b + 1) + (p - b - 1)));
        }
        assert(s.subrange(a, a + len + 1) =~= seq![s[a]] + s.subrange(a + 1, a + 1 + d + 1));
        assert(s.subrange(b, b + len + 1) =~= seq![s[b]] + s.subrange(b + 1, b + 1 + d + 1));
        assert(lms_at(types, a + len) && lms_at(types, b + len));
        assert(no_lms_between(types, a, a + len));
        assert(no_lms_between(types, b, b + len));
    }
}

/// Along two equal stretches that both end at their next LMS position,
/// types and keys agree position by position.
proof fn lemma_match_keys_from(s: Seq<int>, a: int, b: int, len: int, e: int)
    requires
        0 <= a,
        0 <= b,
        1 <= e <= len,
        a + len < s.len(),
        b + len < s.len(),
        lms(s, a + len),
        lms(s, b + len),
        forall|f: int| e <= f < len ==> !#[trigger] lms(s, a + f) && !lms(s, b + f),
        s.subrange(a, a + len + 1) == s.subrange(b, b + len + 1),
    ensures
        key_l(s, a + e) == key_l(s, b + e),
        s_type(s, a + e) == s_type(s, b + e),
    decreases len - e,
{
    assert(s[a + e] == s.subrange(a, a + len + 1)[e]);
    assert(s[b + e] == s.subrange(b, b + len + 1)[e]);
    if e < len {
        lemma_match_keys_from(s, a, b, len, e + 1);
        assert(s[a + e + 1] == s.subrange(a, a + len + 1)[e + 1]);
        assert(s[b + e + 1] == s.subrange(b, b + len + 1)[e + 1]);
        lemma_s_type_step(s, a + e);
        lemma_s_type_step(s, b + e);
        assert(!lms(s, a + e) && !lms(s, b + e));
    }
}

/// Matching LMS substrings have equal LMS prefixes.
pub proof fn lemma_match_key_eq(s: Seq<int>, types: Seq<bool>, a: int, b: int)
    requires
        types_of(s, types),
        lms(s, a),
        lms(s, b),
        lms_substrings_match(s, types, a, b),
    ensures
        key_s(s, a) == key_s(s, b),
{
    if a != b {
        let len = choose|len: int|
            #![trigger lms_at(types, a + len), lms_at(types, b + len)]
            {
                &&& len >= 1
                &&& lms_at(types, a + len)
                &&& lms_at(types, b + len)
                &&& no_lms_between(types, a, a + len)
                &&& no_lms_between(types, b, b + len)
                &&& s.subrange(a, a + len + 1) == s.subrange(b, b + len + 1)
            };
        lemma_is_lms_matches(s, types, a + len);
        lemma_is_lms_matches(s, types, b + len);
        assert forall|f: int| 1 <= f < len implies !#[trigger] lms(s, a + f) && !lms(s, b + f) by {
            assert(!lms_at(types, a + f));
            assert(!lms_at(types, b + f));
            lemma_is_lms_matches(s, types, a + f);
            lemma_is_lms_matches(s, types, b + f);
        }
        lemma_match_keys_from(s, a, b, len, 1);
        assert(s[a] == s.subrange(a, a + len + 1)[0]);
        assert(s[b] == s.subrange(b, b + len + 1)[0]);
    }
}

} // verus!
