//! L/S/LMS type classification.
//!
//! Convention: `types[i] == true` iff position `i` is S-type. The implicit
//! sentinel at position `n` is the smallest character, so position `n-1` is
//! always L-type.

use vstd::prelude::*;

use crate::alphabet::{Symbol, symbols};
use crate::suffix::{lms, s_type, lemma_s_type_step};

verus! {

/// `types` is the S/L classification of the text `s`.
pub open spec fn types_of(s: Seq<int>, types: Seq<bool>) -> bool {
    &&& types.len() == s.len()
    &&& forall|i: int| 0 <= i < s.len() ==> #[trigger] types[i] == s_type(s, i)
}

/// One right-to-left pass producing the L/S classification.
pub(crate) fn classify<C: Symbol>(t: &[C]) -> (types: Vec<bool>)
    requires
        forall|i: int| 0 <= i < t@.len() ==> #[trigger] t@[i].has_index(),
    ensures
        types_of(symbols(t@), types@),
{
    let ghost s = symbols(t@);
    let n = t.len();
    let mut types = vec![false; n];
    if n == 0 {
        return types;
    }
    proof {
        lemma_s_type_step(s, n - 1);
    }
    // Position n-1 is L-type (already initialized).
    let mut prev_is_s = false;
    let mut i = n - 1;
    while i > 0
        invariant
            0 <= i < n,
            n == t@.len(),
            s == symbols(t@),
            types@.len() == n,
            forall|j: int| 0 <= j < t@.len() ==> #[trigger] t@[j].has_index(),
            prev_is_s == s_type(s, i as int),
            forall|j: int| i <= j < n ==> #[trigger] types@[j] == s_type(s, j),
        decreases i,
    {
        i -= 1;
        let a = t[i].idx();
        let b = t[i + 1].idx();
        let cur_is_s = if a < b {
            true
        } else if a > b {
            false
        } else {
            prev_is_s
        };
        proof {
            lemma_s_type_step(s, i as int);
        }
        types.set(i, cur_is_s);
        prev_is_s = cur_is_s;
    }
    types
}

/// Leftmost-S: position `i > 0` is LMS iff it is S-type and its predecessor
/// is L-type. Position 0 is never LMS.
pub(crate) fn is_lms(types: &[bool], i: usize) -> (r: bool)
    requires
        i == 0 || i < types@.len(),
    ensures
        r == (i > 0 && types@[i as int] && !types@[i - 1]),
{
    i > 0 && types[i] && !types[i - 1]
}

/// With a correct classification, `is_lms` recognizes exactly the LMS positions.
pub proof fn lemma_is_lms_matches(s: Seq<int>, types: Seq<bool>, i: int)
    requires
        types_of(s, types),
        0 <= i < s.len(),
    ensures
        (i > 0 && types[i] && !types[i - 1]) == lms(s, i),
{
}

} // verus!
