//! The mathematical model: suffix order, suffix arrays, L/S types.

use vstd::prelude::*;

verus! {

/// `s[i..]` is lexicographically smaller than `s[j..]`, where the end of the
/// text is smaller than every symbol (the implicit sentinel).
pub open spec fn suffix_less(s: Seq<int>, i: int, j: int) -> bool
    decreases s.len() - i,
{
    if i < 0 || j < 0 || j >= s.len() {
        false
    } else if i >= s.len() {
        true
    } else if s[i] < s[j] {
        true
    } else if s[i] > s[j] {
        false
    } else {
        suffix_less(s, i + 1, j + 1)
    }
}

/// `sa` lists every suffix start of `s` exactly once, in increasing suffix order.
pub open spec fn is_suffix_array(s: Seq<int>, sa: Seq<int>) -> bool {
    &&& sa.len() == s.len()
    &&& forall|k: int| 0 <= k < sa.len() ==> 0 <= #[trigger] sa[k] < s.len()
    &&& forall|a: int, b: int| 0 <= a < b < sa.len() ==> suffix_less(s, #[trigger] sa[a], #[trigger] sa[b])
}

/// Position `i` is S-type: its suffix is smaller than the next one.
pub open spec fn s_type(s: Seq<int>, i: int) -> bool {
    suffix_less(s, i, i + 1)
}

/// Position `i` starts a leftmost-S run: S-type with an L-type predecessor.
pub open spec fn lms(s: Seq<int>, i: int) -> bool {
    0 < i < s.len() && s_type(s, i) && !s_type(s, i - 1)
}

/// The one-step unfolding of the type of a position.
pub proof fn lemma_s_type_step(s: Seq<int>, i: int)
    requires
        0 <= i < s.len(),
    ensures
        s_type(s, i) == if i + 1 == s.len() {
            false
        } else if s[i] < s[i + 1] {
            true
        } else if s[i] > s[i + 1] {
            false
        } else {
            s_type(s, i + 1)
        },
{
}

/// No suffix is smaller than itself.
pub proof fn lemma_suffix_less_irreflexive(s: Seq<int>, i: int)
    ensures
        !suffix_less(s, i, i),
    decreases s.len() - i,
{
    if 0 <= i < s.len() {
        lemma_suffix_less_irreflexive(s, i + 1);
    }
}

/// Two distinct suffixes are ordered one way or the other, never both.
pub proof fn lemma_suffix_less_total(s: Seq<int>, i: int, j: int)
    requires
        0 <= i <= s.len(),
        0 <= j <= s.len(),
        i != j,
    ensures
        suffix_less(s, i, j) != suffix_less(s, j, i),
    decreases s.len() - i,
{
    if i < s.len() && j < s.len() && s[i] == s[j] {
        lemma_suffix_less_total(s, i + 1, j + 1);
    }
}

/// Suffix order is transitive.
pub proof fn lemma_suffix_less_transitive(s: Seq<int>, i: int, j: int, k: int)
    requires
        suffix_less(s, i, j),
        suffix_less(s, j, k),
    ensures
        suffix_less(s, i, k),
    decreases s.len() - i,
{
    if 0 <= i < s.len() && 0 <= j < s.len() && s[i] == s[j] && s[j] == s[k] {
        lemma_suffix_less_transitive(s, i + 1, j + 1, k + 1);
    }
}

} // verus!
