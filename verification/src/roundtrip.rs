//! Why inverting the BWT gives the text back: over the BWT of the text with
//! its sentinel, the LF mapping takes the row of each suffix to the row of
//! the suffix one position earlier, so the walk from the primary row reads
//! the text backwards.

use vstd::prelude::*;
use vstd::relations::injective_on;
use vstd::set_lib::{lemma_int_range, lemma_map_size, lemma_set_disjoint_lens, lemma_subset_equality, set_int_range};

use crate::alphabet::symbols;
use crate::buckets::{below, occ};
use crate::bwt::{
    bwt_bytes, bwt_of, primary_row, lemma_other_rows, lemma_suffix_array_covers, lemma_suffix_array_rows,
};
use crate::order::occurs;
use crate::layout::{bucket_set, lemma_occ_is_bucket_len};
use crate::suffix::{is_suffix_array, suffix_less, lemma_suffix_less_irreflexive, lemma_suffix_less_total};
use crate::unbwt::{extended, lf, unbwt_outcome, walk, walk_avoids_sentinel, walked_text};

verus! {

/// Row `i` of the sorted suffixes of the text with its sentinel: row 0 holds
/// the empty suffix at `n`, row `i > 0` the suffix `sa[i - 1]`.
pub open spec fn ext_row(sa: Seq<int>, i: int) -> int {
    if i == 0 {
        sa.len() as int
    } else {
        sa[i - 1]
    }
}

/// The position before `y`, cyclically over `0..=n`.
pub open spec fn prev_pos(n: int, y: int) -> int {
    if y == 0 {
        n
    } else {
        y - 1
    }
}

/// The symbol at `y`, or the sentinel `-1` at the end of the text.
pub open spec fn sym_at(s: Seq<int>, y: int) -> int {
    if y == s.len() {
        -1
    } else {
        s[y]
    }
}

/// Some row holds `y`.
pub open spec fn has_row(sa: Seq<int>, y: int) -> bool {
    exists|i: int| 0 <= i <= sa.len() && ext_row(sa, i) == y
}

/// The row of the suffix one position before that of row `i`.
pub open spec fn prev_row(sa: Seq<int>, i: int) -> int {
    prev_pos(sa.len() as int, ext_row(sa, i))
}

/// A map of `0..=n` into itself without collisions takes every predicate
/// to one with as many solutions.
proof fn lemma_count_through(h: spec_fn(int) -> int, f: spec_fn(int) -> bool, n: int)
    requires
        n >= 0,
        forall|i: int| 0 <= i <= n ==> 0 <= #[trigger] h(i) <= n,
        forall|i: int, j: int| 0 <= i <= n && 0 <= j <= n && #[trigger] h(i) == #[trigger] h(j) ==> i == j,
    ensures
        Set::new(|i: int| 0 <= i <= n && f(h(i))).finite(),
        Set::new(|y: int| 0 <= y <= n && f(y)).finite(),
        Set::new(|i: int| 0 <= i <= n && f(h(i))).len() == Set::new(|y: int| 0 <= y <= n && f(y)).len(),
{
    let range = set_int_range(0, n + 1);
    lemma_int_range(0, n + 1);
    assert(injective_on(h, range));
    lemma_map_size(range, range.map(h), h);
    assert(range.map(h).subset_of(range));
    lemma_subset_equality(range.map(h), range);
    let x = Set::new(|i: int| 0 <= i <= n && f(h(i)));
    let y = Set::new(|y: int| 0 <= y <= n && f(y));
    assert(x.subset_of(range));
    vstd::set_lib::lemma_set_subset_finite(range, x);
    assert(y.subset_of(range));
    vstd::set_lib::lemma_set_subset_finite(range, y);
    assert(x.map(h) =~= y) by {
        assert forall|e: int| y.contains(e) implies x.map(h).contains(e) by {
            assert(range.contains(e));
            assert(range.map(h).contains(e));
            let i = choose|i: int| range.contains(i) && e == h(i);
            assert(x.contains(i));
        }
    }
    assert(injective_on(h, x));
    lemma_map_size(x, y, h);
}

/// `below` counts the positions of smaller symbols.
proof fn lemma_below_is_set_len(e: Seq<int>, c: int)
    ensures
        Set::new(|x: int| 0 <= x < e.len() && e[x] < c).finite(),
        Set::new(|x: int| 0 <= x < e.len() && e[x] < c).len() == below(e, c),
    decreases e.len(),
{
    let set = Set::new(|x: int| 0 <= x < e.len() && e[x] < c);
    if e.len() == 0 {
        assert(set =~= Set::empty());
    } else {
        let e0 = e.drop_last();
        lemma_below_is_set_len(e0, c);
        let set0 = Set::new(|x: int| 0 <= x < e0.len() && e0[x] < c);
        let last = e.len() - 1;
        if e[last] < c {
            assert(set =~= set0.insert(last));
        } else {
            assert(set =~= set0);
        }
    }
}

/// The rows of a suffix array with the sentinel row: every position
/// `0..=n` in one row, in increasing suffix order.
proof fn lemma_ext_rows(s: Seq<int>, sa: Seq<int>)
    requires
        is_suffix_array(s, sa),
    ensures
        forall|i: int| 0 <= i <= s.len() ==> 0 <= #[trigger] ext_row(sa, i) <= s.len(),
        forall|i: int, j: int|
            0 <= i <= s.len() && 0 <= j <= s.len() && #[trigger] ext_row(sa, i) == #[trigger] ext_row(sa, j) ==> i
                == j,
        forall|i: int, j: int|
            0 <= i < j <= s.len() ==> suffix_less(s, #[trigger] ext_row(sa, i), #[trigger] ext_row(sa, j)),
        forall|y: int| 0 <= y <= s.len() ==> #[trigger] has_row(sa, y),
{
    let n = s.len() as int;
    lemma_suffix_array_covers(s, sa);
    assert forall|i: int, j: int|
        0 <= i <= n && 0 <= j <= n && #[trigger] ext_row(sa, i) == #[trigger] ext_row(sa, j) implies i == j by {
        if i != j && i > 0 && j > 0 {
            assert(sa[i - 1] != sa[j - 1]);
        }
    }
    assert forall|y: int| 0 <= y <= n implies #[trigger] has_row(sa, y) by {
        if y == n {
            assert(ext_row(sa, 0) == y);
        } else {
            assert(occurs(sa, y));
            let q = choose|q: int| 0 <= q < sa.len() && sa[q] == y;
            assert(ext_row(sa, q + 1) == y);
        }
    }
}

/// Row order is suffix order, both ways.
proof fn lemma_rows_order(s: Seq<int>, sa: Seq<int>, i: int, j: int)
    requires
        is_suffix_array(s, sa),
        0 <= i <= s.len(),
        0 <= j <= s.len(),
    ensures
        (i < j) == suffix_less(s, ext_row(sa, i), ext_row(sa, j)),
{
    lemma_ext_rows(s, sa);
    if i == j {
        lemma_suffix_less_irreflexive(s, ext_row(sa, i));
    } else if j < i {
        assert(suffix_less(s, ext_row(sa, j), ext_row(sa, i)));
        lemma_suffix_less_total(s, ext_row(sa, i), ext_row(sa, j));
    } else {
        assert(suffix_less(s, ext_row(sa, i), ext_row(sa, j)));
    }
}

/// Stepping back one position over the rows never collides.
proof fn lemma_prev_rows(s: Seq<int>, sa: Seq<int>)
    requires
        is_suffix_array(s, sa),
    ensures
        forall|i: int| 0 <= i <= s.len() ==> 0 <= #[trigger] prev_row(sa, i) <= s.len(),
        forall|i: int, j: int|
            0 <= i <= s.len() && 0 <= j <= s.len() && #[trigger] prev_row(sa, i) == #[trigger] prev_row(sa, j) ==> i
                == j,
{
    lemma_ext_rows(s, sa);
    let n = s.len() as int;
    assert forall|i: int, j: int|
        0 <= i <= n && 0 <= j <= n && #[trigger] prev_row(sa, i) == #[trigger] prev_row(sa, j) implies i == j by {
        assert(ext_row(sa, i) == ext_row(sa, j));
    }
}

/// The extended BWT of a text: at each row, the symbol before its suffix,
/// the sentinel before the whole text.
proof fn lemma_extended_rows(text: Seq<u8>, sa: Seq<int>)
    requires
        is_suffix_array(symbols(text), sa),
        text.len() >= 1,
    ensures
        ({
            let (b, p) = bwt_of(text, sa);
            let e = extended(b, p);
            &&& b.len() == text.len()
            &&& 1 <= p <= text.len()
            &&& ext_row(sa, p) == 0
            &&& e.len() == text.len() + 1
            &&& forall|i: int|
                0 <= i <= text.len() ==> #[trigger] e[i] == sym_at(symbols(text), prev_row(sa, i))
        }),
{
    let s = symbols(text);
    let n = text.len() as int;
    lemma_suffix_array_rows(s, sa);
    lemma_other_rows(sa, n, 0);
    let p0 = primary_row(sa);
    let b = bwt_bytes(text, sa, p0);
    let p = p0 + 1;
    let e = extended(b, p);
    assert forall|i: int| 0 <= i <= n implies #[trigger] e[i] == sym_at(s, prev_row(sa, i)) by {
        if i == 0 {
        } else if i < p {
            lemma_other_rows(sa, n, i - 1);
        } else if i == p {
        } else {
            lemma_other_rows(sa, n, i - 1);
        }
    }
}

/// The LF mapping of a row that is not the sentinel's leads to the row of
/// the suffix one position earlier.
proof fn lemma_lf_steps_back(text: Seq<u8>, sa: Seq<int>, i: int)
    requires
        is_suffix_array(symbols(text), sa),
        text.len() >= 1,
        0 <= i <= text.len(),
        ext_row(sa, i) >= 1,
    ensures
        ({
            let (b, p) = bwt_of(text, sa);
            let e = extended(b, p);
            &&& 0 <= lf(e, i) <= text.len()
            &&& ext_row(sa, lf(e, i)) == ext_row(sa, i) - 1
        }),
{
    let s = symbols(text);
    let n = text.len() as int;
    let (b, p) = bwt_of(text, sa);
    let e = extended(b, p);
    lemma_extended_rows(text, sa);
    lemma_ext_rows(s, sa);
    lemma_prev_rows(s, sa);
    let x = ext_row(sa, i);
    let c = s[x - 1];
    assert(e[i] == c);
    assert(c >= 0);
    assert(has_row(sa, x - 1));
    let j = choose|j: int| 0 <= j <= sa.len() && ext_row(sa, j) == x - 1;
    let er = |k: int| ext_row(sa, k);
    let pr = |k: int| prev_row(sa, k);
    // The row of x - 1 counts the suffixes below it.
    let less = |y: int| suffix_less(s, y, x - 1);
    lemma_count_through(er, less, n);
    assert(Set::new(|k: int| 0 <= k <= n && less(er(k))) =~= set_int_range(0, j)) by {
        assert forall|k: int| #![trigger er(k)] 0 <= k <= n implies less(er(k)) == (k < j) by {
            lemma_rows_order(s, sa, k, j);
        }
    }
    lemma_int_range(0, j);
    // Rows whose symbol is smaller than c: positions before which comes a smaller symbol.
    let small = |y: int| sym_at(s, y) < c;
    lemma_count_through(pr, small, n);
    lemma_below_is_set_len(e, c);
    assert(Set::new(|k: int| 0 <= k < e.len() && e[k] < c) =~= Set::new(|k: int| 0 <= k <= n && small(pr(k))));
    // Rows before i holding c: positions with symbol c whose next suffix is below x.
    let same = |y: int| y < n && s[y] == c && suffix_less(s, y + 1, x);
    lemma_count_through(pr, same, n);
    lemma_occ_is_bucket_len(e.subrange(0, i), c);
    assert(bucket_set(e.subrange(0, i), c) =~= Set::new(|k: int| 0 <= k <= n && same(pr(k)))) by {
        assert forall|k: int| #![trigger pr(k)] 0 <= k <= n implies (k < i && e[k] == c) == same(pr(k)) by {
            lemma_rows_order(s, sa, k, i);
            if e[k] == c {
                assert(ext_row(sa, k) >= 1);
            }
        }
    }
    // Suffixes below x - 1: those of smaller first symbol, and those of first
    // symbol c whose next suffix is below x.
    let a_set = Set::new(|y: int| 0 <= y <= n && small(y));
    let b_set = Set::new(|y: int| 0 <= y <= n && same(y));
    assert(Set::new(|y: int| 0 <= y <= n && less(y)) =~= a_set + b_set) by {
        assert forall|y: int| #![trigger less(y)] 0 <= y <= n implies less(y) == (small(y) || same(y)) by {
            if y < n {
                assert(suffix_less(s, y, x - 1) == if s[y] < s[x - 1] {
                    true
                } else if s[y] > s[x - 1] {
                    false
                } else {
                    suffix_less(s, y + 1, x)
                });
            }
        }
    }
    assert(a_set.disjoint(b_set));
    lemma_set_disjoint_lens(a_set, b_set);
    assert(lf(e, i) == j);
}

/// The walk from the primary row visits the rows of the suffixes `n`,
/// `n - 1`, ..., in turn.
proof fn lemma_walk_rows(text: Seq<u8>, sa: Seq<int>, k: nat)
    requires
        is_suffix_array(symbols(text), sa),
        text.len() >= 1,
        k < text.len(),
    ensures
        ({
            let (b, p) = bwt_of(text, sa);
            let e = extended(b, p);
            &&& 0 <= walk(e, p, k) <= text.len()
            &&& ext_row(sa, walk(e, p, k)) == text.len() - k
        }),
    decreases k,
{
    let s = symbols(text);
    let n = text.len() as int;
    let (b, p) = bwt_of(text, sa);
    let e = extended(b, p);
    lemma_extended_rows(text, sa);
    lemma_ext_rows(s, sa);
    if k == 0 {
        // The sentinel row maps to row 0, that of the empty suffix.
        assert(e[p] == -1);
        lemma_below_is_set_len(e, -1);
        assert(Set::new(|x: int| 0 <= x < e.len() && e[x] < -1) =~= Set::<int>::empty()) by {
            assert forall|x: int| 0 <= x < e.len() implies e[x] >= -1 by {
                assert(e[x] == sym_at(s, prev_row(sa, x)));
            }
        }
        lemma_occ_is_bucket_len(e.subrange(0, p), -1);
        assert(bucket_set(e.subrange(0, p), -1) =~= Set::<int>::empty()) by {
            assert forall|x: int| 0 <= x < p implies e[x] != -1 by {
                assert(e[x] == sym_at(s, prev_row(sa, x)));
                if prev_row(sa, x) == n {
                    assert(ext_row(sa, x) == 0);
                    assert(ext_row(sa, x) == ext_row(sa, p));
                }
            }
        }
        assert(lf(e, p) == 0);
    } else {
        lemma_walk_rows(text, sa, (k - 1) as nat);
        lemma_lf_steps_back(text, sa, walk(e, p, (k - 1) as nat));
    }
}

/// Reading the BWT of a text back walks the text: one byte gives itself, and
/// for two bytes or more the LF walk from the primary row meets no sentinel
/// early and spells the text.
pub proof fn lemma_bwt_walks_back(text: Seq<u8>, sa: Seq<int>)
    requires
        is_suffix_array(symbols(text), sa),
    ensures
        ({
            let (b, p) = bwt_of(text, sa);
            &&& b.len() == text.len()
            &&& text.len() >= 1 ==> 1 <= p <= b.len()
            &&& text.len() == 1 ==> b == text
            &&& text.len() >= 2 ==> walk_avoids_sentinel(extended(b, p), p, b.len()) && walked_text(
                extended(b, p),
                p,
                b.len(),
            ) == text
        }),
{
    let n = text.len() as int;
    let (b, p) = bwt_of(text, sa);
    if n == 0 {
        assert(b.len() == 0);
    } else {
        let s = symbols(text);
        lemma_extended_rows(text, sa);
        lemma_ext_rows(s, sa);
        let e = extended(b, p);
        if n == 1 {
            assert(b =~= text) by {
                assert(b[0] == text[0]);
            }
        } else {
            assert forall|k: nat| k < n implies #[trigger] walk(e, p, k) != p by {
                lemma_walk_rows(text, sa, k);
            }
            assert(walked_text(e, p, n as nat) =~= text) by {
                assert forall|i: int| 0 <= i < n implies #[trigger] walked_text(e, p, n as nat)[i] == text[i] by {
                    lemma_walk_rows(text, sa, (n - 1 - i) as nat);
                    let w = walk(e, p, (n - 1 - i) as nat);
                    assert(ext_row(sa, w) == i + 1);
                    assert(e[w] == sym_at(s, prev_row(sa, w)));
                }
            }
        }
    }
}

/// Inverting the BWT of a text gives the text back: the walk of `unbwt`
/// never meets the sentinel early, and whatever `unbwt` owes for the BWT of
/// a text is the text.
pub proof fn lemma_unbwt_inverts_bwt(text: Seq<u8>, sa: Seq<int>)
    requires
        is_suffix_array(symbols(text), sa),
        text.len() <= i32::MAX,
    ensures
        ({
            let (b, p) = bwt_of(text, sa);
            &&& b.len() >= 2 && 1 <= p <= b.len() ==> walk_avoids_sentinel(extended(b, p), p, b.len())
            &&& forall|r: Result<Vec<u8>, crate::error::SaisError>| #[trigger]
                unbwt_outcome(b, p as i32, r) ==> (r matches Ok(t) && t@ == text)
        }),
{
    let (b, p) = bwt_of(text, sa);
    lemma_bwt_walks_back(text, sa);
    assert forall|r: Result<Vec<u8>, crate::error::SaisError>| #[trigger]
        unbwt_outcome(b, p as i32, r) implies (r matches Ok(t) && t@ == text) by {
        if let Ok(t) = r {
            if text.len() == 0 {
                assert(t@ =~= text);
            }
        }
    }
}

/// The BWT with its primary index loses nothing: texts with the same BWT,
/// each taken over its suffix array, are the same text.
pub proof fn lemma_bwt_injective(t1: Seq<u8>, sa1: Seq<int>, t2: Seq<u8>, sa2: Seq<int>)
    requires
        is_suffix_array(symbols(t1), sa1),
        is_suffix_array(symbols(t2), sa2),
        bwt_of(t1, sa1) == bwt_of(t2, sa2),
    ensures
        t1 == t2,
{
    lemma_bwt_walks_back(t1, sa1);
    lemma_bwt_walks_back(t2, sa2);
    if t1.len() == 0 {
        assert(t1 =~= t2);
    }
}

} // verus!
