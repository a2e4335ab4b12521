//! SA -> BWT derivation in libsais's byte layout.
//!
//! For a text of length `n` with suffix array `SA`:
//!   * The output has length `n`.
//!   * `bwt[0] = text[n-1]`, the wrapped character of the primary row.
//!   * The characters `text[SA[i]-1]` of the rows before the primary row
//!     occupy `bwt[1..=primary-1]`, shifted by one.
//!   * Those of the rows after it occupy `bwt[primary..n]` unshifted.
//!   * The primary index is 1-based: `(position of 0 in SA) + 1`, in `[1, n]`.

use vstd::prelude::*;

use crate::alphabet::symbols;
use crate::error::SaisError;
use crate::index::{SaIndex, entries};
use crate::parallel::PARALLEL_MIN;
use crate::sa::{suffix_array_into, suffix_array_parallel_into};
use crate::order::{occurs, sorted_by, suffix_order, lemma_sorted_unique};
use crate::suffix::{is_suffix_array, suffix_less, lemma_suffix_less_irreflexive, lemma_suffix_less_total};

verus! {

/// `sa` is a permutation-shaped array for a text of length `n`: entries in
/// `[0, n)`, with 0 (the whole text) at exactly one row.
pub open spec fn rows_ok(sa: Seq<int>, n: int) -> bool {
    &&& sa.len() == n
    &&& forall|q: int| 0 <= q < n ==> 0 <= #[trigger] sa[q] < n
    &&& exists|p: int| 0 <= p < n && sa[p] == 0
    &&& forall|p: int, q: int| 0 <= p < n && 0 <= q < n && sa[p] == 0 && sa[q] == 0 ==> p == q
}

/// The row holding the whole text.
pub open spec fn primary_row(sa: Seq<int>) -> int {
    choose|p: int| 0 <= p < sa.len() && sa[p] == 0
}

/// The BWT bytes of `text` for the rows `sa`, with `p0` the primary row.
pub open spec fn bwt_bytes(text: Seq<u8>, sa: Seq<int>, p0: int) -> Seq<u8> {
    Seq::new(
        text.len(),
        |k: int|
            if k == 0 {
                text[text.len() - 1]
            } else if k <= p0 {
                text[sa[k - 1] - 1]
            } else {
                text[sa[k] - 1]
            },
    )
}

/// The BWT of `text` for the rows `sa`: its bytes and 1-based primary index.
pub open spec fn bwt_of(text: Seq<u8>, sa: Seq<int>) -> (Seq<u8>, int) {
    if text.len() == 0 {
        (Seq::empty(), 0)
    } else {
        (bwt_bytes(text, sa, primary_row(sa)), primary_row(sa) + 1)
    }
}

/// The suffix array of `s`: the one sequence `is_suffix_array` admits.
pub open spec fn suffix_array_of(s: Seq<int>) -> Seq<int> {
    choose|sa: Seq<int>| is_suffix_array(s, sa)
}

/// The serial and the parallel BWT of a text agree byte for byte, primary
/// index included, whichever way each suffix array was computed.
pub proof fn lemma_bwt_modes_agree(
    text: Seq<u8>,
    sa_serial: Seq<int>,
    sa_parallel: Seq<int>,
    serial: (Seq<u8>, int),
    parallel: (Seq<u8>, int),
)
    requires
        is_suffix_array(symbols(text), sa_serial),
        is_suffix_array(symbols(text), sa_parallel),
        serial == bwt_of(text, sa_serial),
        parallel == bwt_of(text, sa_parallel),
    ensures
        serial == parallel,
{
    lemma_suffix_array_unique(symbols(text), sa_serial, sa_parallel);
}

/// Every position of the text occurs in its suffix array.
pub proof fn lemma_suffix_array_covers(s: Seq<int>, sa: Seq<int>)
    requires
        is_suffix_array(s, sa),
    ensures
        forall|x: int| 0 <= x < s.len() ==> #[trigger] occurs(sa, x),
        forall|p: int, q: int| 0 <= p < sa.len() && 0 <= q < sa.len() && p != q ==> sa[p] != sa[q],
{
    let n = s.len() as int;
    assert forall|p: int, q: int| 0 <= p < sa.len() && 0 <= q < sa.len() && p != q implies sa[p] != sa[q] by {
        if p < q {
            assert(suffix_less(s, sa[p], sa[q]));
        } else {
            assert(suffix_less(s, sa[q], sa[p]));
        }
        if sa[p] == sa[q] {
            lemma_suffix_less_irreflexive(s, sa[p]);
        }
    }
    let range = vstd::set_lib::set_int_range(0, n);
    vstd::set_lib::lemma_int_range(0, n);
    assert(sa.no_duplicates());
    sa.unique_seq_to_set();
    assert(sa.to_set().subset_of(range)) by {
        assert forall|e: int| sa.to_set().contains(e) implies range.contains(e) by {
            let i = choose|i: int| 0 <= i < sa.len() && sa[i] == e;
            assert(0 <= sa[i] < n);
        }
    }
    vstd::set_lib::lemma_subset_equality(sa.to_set(), range);
    assert forall|x: int| 0 <= x < n implies #[trigger] occurs(sa, x) by {
        assert(range.contains(x));
        assert(sa.to_set().contains(x));
    }
}

/// A text has one suffix array: any two agree slot by slot. So every way of
/// computing it (serial or parallel, any index type) gives the same array.
pub proof fn lemma_suffix_array_unique(s: Seq<int>, a: Seq<int>, b: Seq<int>)
    requires
        is_suffix_array(s, a),
        is_suffix_array(s, b),
    ensures
        a == b,
{
    let ord = suffix_order(s);
    lemma_suffix_array_covers(s, a);
    lemma_suffix_array_covers(s, b);
    assert forall|i: int| 0 <= i < a.len() implies #[trigger] occurs(b, a[i]) by {
        assert(0 <= a[i] < s.len());
    }
    assert forall|i: int| 0 <= i < b.len() implies #[trigger] occurs(a, b[i]) by {
        assert(0 <= b[i] < s.len());
    }
    assert forall|i: int, j: int| 0 <= i < a.len() && 0 <= j < a.len() && ord(a[i], a[j]) implies !ord(a[j], a[i]) by {
        if a[i] == a[j] {
            lemma_suffix_less_irreflexive(s, a[i]);
        } else {
            lemma_suffix_less_total(s, a[i], a[j]);
        }
    }
    assert(sorted_by(a, ord));
    assert(sorted_by(b, ord));
    lemma_sorted_unique(ord, a, b);
}

/// A suffix array has rows fit for a BWT: 0 in exactly one row.
pub proof fn lemma_suffix_array_rows(s: Seq<int>, sa: Seq<int>)
    requires
        is_suffix_array(s, sa),
        s.len() >= 1,
    ensures
        rows_ok(sa, s.len() as int),
{
    lemma_suffix_array_covers(s, sa);
    assert(occurs(sa, 0));
    let q = choose|q: int| 0 <= q < sa.len() && sa[q] == 0;
    assert(sa[q] == 0);
}

/// In rows fit for a BWT, every row but the primary one starts past position 0.
pub proof fn lemma_other_rows(sa: Seq<int>, n: int, q: int)
    requires
        rows_ok(sa, n),
        0 <= q < n,
    ensures
        0 <= primary_row(sa) < n,
        sa[primary_row(sa)] == 0,
        q != primary_row(sa) ==> 0 < sa[q] < n,
        q == primary_row(sa) <==> sa[q] == 0,
{
    let p = primary_row(sa);
    assert(0 <= sa[q] < n);
    if sa[q] == 0 {
        assert(q == p);
    }
}

/// Compute the BWT of `text`. Returns `(bwt_bytes, primary_index)`.
pub fn bwt(text: &[u8]) -> (r: Result<(Vec<u8>, i32), SaisError>)
    ensures
        match r {
            Ok(res) => {
                &&& text@.len() <= i32::MAX
                &&& is_suffix_array(symbols(text@), suffix_array_of(symbols(text@)))
                &&& (res.0@, res.1 as int) == bwt_of(text@, suffix_array_of(symbols(text@)))
                &&& res.0@.len() == text@.len()
                &&& text@.len() > 0 ==> 1 <= res.1 <= text@.len() && res.0@[0] == text@[text@.len() - 1]
            },
            Err(e) => text@.len() > i32::MAX && e == SaisError::InputTooLarge(text@.len() as usize),
        },
{
    let n = text.len();
    let mut sa = vec![0i32; n];
    match suffix_array_into(text, sa.as_mut_slice()) {
        Ok(()) => {},
        Err(e) => {
            return Err(e);
        },
    }
    proof {
        lemma_rows_from_suffix_array(text@, entries(sa@));
    }
    Ok(bwt_from_sa_serial(text, &sa))
}

/// The suffix array computed for a text is the one `suffix_array_of` names,
/// and has rows fit for a BWT.
proof fn lemma_rows_from_suffix_array(text: Seq<u8>, sa: Seq<int>)
    requires
        is_suffix_array(symbols(text), sa),
    ensures
        sa == suffix_array_of(symbols(text)),
        text.len() > 0 ==> rows_ok(sa, text.len() as int),
        text.len() == 0 ==> sa.len() == 0,
        bwt_of(text, sa).0.len() == text.len(),
        text.len() > 0 ==> 1 <= bwt_of(text, sa).1 <= text.len() && bwt_of(text, sa).0[0] == text[text.len() - 1],
{
    let s = symbols(text);
    lemma_suffix_array_unique(s, sa, suffix_array_of(s));
    if text.len() > 0 {
        lemma_suffix_array_rows(s, sa);
        lemma_other_rows(sa, text.len() as int, 0);
    }
}

/// BWT with the suffix array built for `threads` workers (0: the current rayon pool).
pub fn bwt_parallel(text: &[u8], threads: usize) -> (r: Result<(Vec<u8>, i32), SaisError>)
    ensures
        match r {
            Ok(res) => {
                &&& text@.len() <= i32::MAX
                &&& is_suffix_array(symbols(text@), suffix_array_of(symbols(text@)))
                &&& (res.0@, res.1 as int) == bwt_of(text@, suffix_array_of(symbols(text@)))
                &&& res.0@.len() == text@.len()
                &&& text@.len() > 0 ==> 1 <= res.1 <= text@.len() && res.0@[0] == text@[text@.len() - 1]
            },
            Err(e) => text@.len() > i32::MAX && e == SaisError::InputTooLarge(text@.len() as usize),
        },
{
    let n = text.len();
    let mut sa = vec![0i32; n];
    match suffix_array_parallel_into(text, sa.as_mut_slice(), threads) {
        Ok(()) => {},
        Err(e) => {
            return Err(e);
        },
    }
    proof {
        lemma_rows_from_suffix_array(text@, entries(sa@));
    }
    Ok(bwt_from_sa_parallel(text, &sa))
}

/// BWT into a caller-provided SA scratch buffer, overwritten with the suffix
/// array as a side effect.
pub fn bwt_with_sa<I: SaIndex>(text: &[u8], sa_scratch: &mut [I]) -> (r: Result<(Vec<u8>, I), SaisError>)
    ensures
        final(sa_scratch)@.len() == old(sa_scratch)@.len(),
        match r {
            Ok(res) => {
                &&& old(sa_scratch)@.len() == text@.len() <= i32::MAX
                &&& is_suffix_array(symbols(text@), entries(final(sa_scratch)@))
                &&& (res.0@, res.1.as_int()) == bwt_of(text@, entries(final(sa_scratch)@))
            },
            Err(e) => {
                &&& final(sa_scratch)@ == old(sa_scratch)@
                &&& if old(sa_scratch)@.len() != text@.len() {
                    e == SaisError::BufferLen { expected: text@.len() as usize, got: old(sa_scratch)@.len() as usize }
                } else {
                    text@.len() > i32::MAX && e == SaisError::InputTooLarge(text@.len() as usize)
                }
            },
        },
{
    proof {
        I::lemma_constants();
    }
    let n = text.len();
    if sa_scratch.len() != n {
        return Err(SaisError::BufferLen { expected: n, got: sa_scratch.len() });
    }
    match suffix_array_into(text, sa_scratch) {
        Ok(()) => {},
        Err(e) => {
            return Err(e);
        },
    }
    let ghost rows = entries(sa_scratch@);
    proof {
        lemma_rows_from_suffix_array(text@, rows);
        assert forall|q: int| 0 <= q < n implies 0 <= #[trigger] sa_scratch@[q].as_int() < n by {
            assert(rows[q] == sa_scratch@[q].as_int());
        }
    }
    if n == 0 {
        return Ok((Vec::new(), I::ZERO));
    }
    let ghost p0s = primary_row(rows);
    if n == 1 {
        assert(rows[0] == 0);
        assert(bwt_bytes(text@, rows, p0s) =~= seq![text@[0]]);
        return Ok((vec![text[0]], I::ONE));
    }
    let mut bwt_buf = vec![0u8; n];
    bwt_buf.set(0, text[n - 1]);
    let mut i: usize = 0;
    proof {
        lemma_other_rows(rows, n as int, 0);
    }
    while sa_scratch[i].as_usize() != 0
        invariant
            i < n == sa_scratch@.len() == text@.len() == bwt_buf@.len(),
            n <= i32::MAX,
            rows == entries(sa_scratch@),
            rows_ok(rows, n as int),
            forall|q: int| 0 <= q < n ==> 0 <= #[trigger] sa_scratch@[q].as_int() < n,
            0 <= p0s < n && rows[p0s] == 0,
            i <= p0s,
            bwt_buf@[0] == text@[n - 1],
            forall|k: int| 1 <= k <= i ==> #[trigger] bwt_buf@[k] == text@[rows[k - 1] - 1],
        decreases n - i,
    {
        proof {
            lemma_other_rows(rows, n as int, i as int);
        }
        let s = sa_scratch[i].as_usize();
        bwt_buf.set(i + 1, text[s - 1]);
        i += 1;
        proof {
            lemma_other_rows(rows, n as int, i as int);
        }
    }
    let p0 = i;
    proof {
        lemma_other_rows(rows, n as int, i as int);
    }
    let mut i = p0 + 1;
    while i < n
        invariant
            p0 < i <= n == sa_scratch@.len() == text@.len() == bwt_buf@.len(),
            n <= i32::MAX,
            rows == entries(sa_scratch@),
            rows_ok(rows, n as int),
            forall|q: int| 0 <= q < n ==> 0 <= #[trigger] sa_scratch@[q].as_int() < n,
            p0 == p0s,
            rows[p0s] == 0,
            bwt_buf@[0] == text@[n - 1],
            forall|k: int| 1 <= k <= p0 ==> #[trigger] bwt_buf@[k] == text@[rows[k - 1] - 1],
            forall|k: int| p0 < k < i ==> #[trigger] bwt_buf@[k] == text@[rows[k] - 1],
        decreases n - i,
    {
        proof {
            lemma_other_rows(rows, n as int, i as int);
        }
        let s = sa_scratch[i].as_usize();
        bwt_buf.set(i, text[s - 1]);
        i += 1;
    }
    assert(bwt_buf@ =~= bwt_bytes(text@, rows, p0s));
    Ok((bwt_buf, I::from_usize(p0 + 1)))
}

/// The BWT bytes and primary index of `text` for the suffix rows `sa`.
fn bwt_from_sa_serial(text: &[u8], sa: &Vec<i32>) -> (r: (Vec<u8>, i32))
    requires
        text@.len() <= i32::MAX,
        text@.len() > 0 ==> rows_ok(entries(sa@), text@.len() as int),
        text@.len() == 0 ==> sa@.len() == 0,
    ensures
        (r.0@, r.1 as int) == bwt_of(text@, entries(sa@)),
{
    let ghost rows = entries(sa@);
    let n = text.len();
    if n == 0 {
        return (Vec::new(), 0);
    }
    let ghost p0s = primary_row(rows);
    if n == 1 {
        assert(rows[0] == 0);
        assert(bwt_bytes(text@, rows, p0s) =~= seq![text@[0]]);
        return (vec![text[0]], 1);
    }
    let mut bwt = vec![0u8; n];
    bwt.set(0, text[n - 1]);
    // Forward scan: row i goes to bwt[i+1] until the primary row.
    let mut i: usize = 0;
    proof {
        lemma_other_rows(rows, n as int, 0);
    }
    while sa[i] != 0
        invariant
            i < n == sa@.len() == text@.len() == bwt@.len(),
            n <= i32::MAX,
            rows == entries(sa@),
            rows_ok(rows, n as int),
            0 <= p0s < n && rows[p0s] == 0,
            i <= p0s,
            bwt@[0] == text@[n - 1],
            forall|k: int| 1 <= k <= i ==> #[trigger] bwt@[k] == text@[rows[k - 1] - 1],
        decreases n - i,
    {
        proof {
            lemma_other_rows(rows, n as int, i as int);
        }
        bwt.set(i + 1, text[(sa[i] - 1) as usize]);
        i += 1;
        proof {
            lemma_other_rows(rows, n as int, i as int);
        }
    }
    let p0 = i;
    proof {
        lemma_other_rows(rows, n as int, i as int);
    }
    // After the primary row: row i goes to bwt[i], unshifted.
    let mut i = p0 + 1;
    while i < n
        invariant
            p0 < i <= n == sa@.len() == text@.len() == bwt@.len(),
            n <= i32::MAX,
            rows == entries(sa@),
            rows_ok(rows, n as int),
            p0 == p0s,
            rows[p0s] == 0,
            bwt@[0] == text@[n - 1],
            forall|k: int| 1 <= k <= p0 ==> #[trigger] bwt@[k] == text@[rows[k - 1] - 1],
            forall|k: int| p0 < k < i ==> #[trigger] bwt@[k] == text@[rows[k] - 1],
        decreases n - i,
    {
        proof {
            lemma_other_rows(rows, n as int, i as int);
        }
        bwt.set(i, text[(sa[i] - 1) as usize]);
        i += 1;
    }
    assert(bwt@ =~= bwt_bytes(text@, rows, p0s));
    (bwt, (p0 + 1) as i32)
}

/// Same result as `bwt_from_sa_serial`; above `PARALLEL_MIN` every output
/// slot is computed independently of the others, as worker threads would.
fn bwt_from_sa_parallel(text: &[u8], sa: &Vec<i32>) -> (r: (Vec<u8>, i32))
    requires
        text@.len() <= i32::MAX,
        text@.len() > 0 ==> rows_ok(entries(sa@), text@.len() as int),
        text@.len() == 0 ==> sa@.len() == 0,
    ensures
        (r.0@, r.1 as int) == bwt_of(text@, entries(sa@)),
{
    let n = text.len();
    if n < PARALLEL_MIN {
        return bwt_from_sa_serial(text, sa);
    }
    let ghost rows = entries(sa@);
    let ghost p0s = primary_row(rows);
    // Find the primary row.
    let mut p0: usize = 0;
    proof {
        lemma_other_rows(rows, n as int, 0);
    }
    while sa[p0] != 0
        invariant
            p0 < n == sa@.len(),
            rows == entries(sa@),
            rows_ok(rows, n as int),
            0 <= p0s < n && rows[p0s] == 0,
            p0 <= p0s,
        decreases n - p0,
    {
        proof {
            lemma_other_rows(rows, n as int, p0 as int);
        }
        p0 += 1;
        proof {
            lemma_other_rows(rows, n as int, p0 as int);
        }
    }
    proof {
        lemma_other_rows(rows, n as int, p0 as int);
    }
    let mut bwt = vec![0u8; n];
    bwt.set(0, text[n - 1]);
    // Slot bwt[j+1] takes row j (j < p0) or row j+1 (j >= p0, skipping the
    // primary row whose character already sits at bwt[0]).
    let mut j: usize = 0;
    while j + 1 < n
        invariant
            j < n == sa@.len() == text@.len() == bwt@.len(),
            rows == entries(sa@),
            rows_ok(rows, n as int),
            p0 == p0s,
            p0s == primary_row(rows),
            rows[p0s] == 0,
            bwt@[0] == text@[n - 1],
            forall|k: int| 1 <= k <= j ==> #[trigger] bwt@[k] == (if k <= p0 {
                text@[rows[k - 1] - 1]
            } else {
                text@[rows[k] - 1]
            }),
        decreases n - j,
    {
        let src = if j < p0 {
            j
        } else {
            j + 1
        };
        proof {
            lemma_other_rows(rows, n as int, src as int);
            assert(src as int != p0s);
            assert(rows[src as int] == sa@[src as int] as int);
        }
        let s = sa[src];
        assert(0 < s < n);
        bwt.set(j + 1, text[(s - 1) as usize]);
        j += 1;
    }
    assert(bwt@ =~= bwt_bytes(text@, rows, p0s));
    (bwt, (p0 + 1) as i32)
}

} // verus!
