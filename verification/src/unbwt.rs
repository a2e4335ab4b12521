//! Inverse BWT via LF-mapping over an extended (n+1)-length BWT.
//!
//! The BWT format is `BWT(T·$)` with the sentinel `$` removed and `T[n-1]`
//! filling the gap at position 0; the primary index is the position of `$`
//! in `BWT(T·$)`. To invert, `$` is virtually re-inserted at that position,
//! textbook LF mapping runs over the (n+1)-length extended BWT (where `$` is
//! smaller than every byte), and the walk starts from the primary row: its
//! first emission is `$` (discarded), the next `n` give `T` in reverse.

use vstd::prelude::*;

use crate::alphabet::K_BYTE;
use crate::buckets::{
    below, occ, lemma_below_concat, lemma_below_le_len, lemma_below_none, lemma_below_step,
    lemma_occ_concat, lemma_occ_le_len, lemma_occ_prefix_step,
};
use crate::error::SaisError;

verus! {

/// The extended BWT: the bytes of `b` with the sentinel (`-1`) re-inserted at `p`.
pub open spec fn extended(b: Seq<u8>, p: int) -> Seq<int> {
    Seq::new(
        (b.len() + 1) as nat,
        |i: int|
            if i == p {
                -1
            } else if i < p {
                b[i] as int
            } else {
                b[i - 1] as int
            },
    )
}

/// The LF mapping of row `i`: the rank, among all rows, of the row whose
/// suffix starts one position earlier.
pub open spec fn lf(e: Seq<int>, i: int) -> int {
    (below(e, e[i]) + occ(e.subrange(0, i), e[i])) as int
}

/// The row reached after `k + 1` LF steps from row `p`.
pub open spec fn walk(e: Seq<int>, p: int, k: nat) -> int
    decreases k,
{
    if k == 0 {
        lf(e, p)
    } else {
        lf(e, walk(e, p, (k - 1) as nat))
    }
}

/// The walk from the primary row meets no sentinel during its first `n` steps.
pub open spec fn walk_avoids_sentinel(e: Seq<int>, p: int, n: nat) -> bool {
    forall|k: nat| k < n ==> #[trigger] walk(e, p, k) != p
}

/// The text read off the walk: its `n-1-k`-th byte is the symbol at the
/// `k`-th row reached.
pub open spec fn walked_text(e: Seq<int>, p: int, n: nat) -> Seq<u8> {
    Seq::new(n, |i: int| e[walk(e, p, (n - 1 - i) as nat)] as u8)
}

/// What `unbwt` owes for the BWT bytes `b` and primary index `primary`.
pub open spec fn unbwt_outcome(b: Seq<u8>, primary: i32, r: Result<Vec<u8>, SaisError>) -> bool {
    if b.len() == 0 {
        r matches Ok(t) && t@.len() == 0
    } else if primary < 1 || primary > b.len() {
        r == Err::<Vec<u8>, SaisError>(
            SaisError::InvalidPrimaryIndex { primary: primary as i64, len: b.len() as usize },
        )
    } else if b.len() == 1 {
        r matches Ok(t) && t@ == b
    } else {
        r matches Ok(t) && t@ == walked_text(extended(b, primary as int), primary as int, b.len())
    }
}

/// The extended BWT holds the bytes of `b` plus one sentinel.
proof fn lemma_extended_counts(b: Seq<u8>, p: int, c: int)
    requires
        0 <= p <= b.len(),
    ensures
        c >= 0 ==> occ(extended(b, p), c) == occ(b.map_values(|x: u8| x as int), c),
        c >= 0 ==> below(extended(b, p), c) == 1 + below(b.map_values(|x: u8| x as int), c),
{
    let bs = b.map_values(|x: u8| x as int);
    let e = extended(b, p);
    assert(e =~= bs.subrange(0, p) + seq![-1int] + bs.subrange(p, b.len() as int));
    assert(bs =~= bs.subrange(0, p) + bs.subrange(p, b.len() as int));
    lemma_occ_concat(bs.subrange(0, p) + seq![-1int], bs.subrange(p, b.len() as int), c);
    lemma_occ_concat(bs.subrange(0, p), seq![-1int], c);
    lemma_occ_concat(bs.subrange(0, p), bs.subrange(p, b.len() as int), c);
    lemma_below_concat(bs.subrange(0, p) + seq![-1int], bs.subrange(p, b.len() as int), c);
    lemma_below_concat(bs.subrange(0, p), seq![-1int], c);
    lemma_below_concat(bs.subrange(0, p), bs.subrange(p, b.len() as int), c);
    assert(seq![-1int].drop_last() =~= Seq::<int>::empty());
    let one = seq![-1int];
    assert(one.len() == 1 && one.last() == -1);
    assert(one.drop_last() =~= Seq::<int>::empty());
    assert(occ(Seq::<int>::empty(), c) == 0);
    assert(below(Seq::<int>::empty(), c) == 0);
    assert(occ(one, c) == occ(one.drop_last(), c) + if one.last() == c { 1nat } else { 0nat });
    assert(below(one, c) == below(one.drop_last(), c) + if one.last() < c { 1nat } else { 0nat });
    if c >= 0 {
        assert(occ(seq![-1int], c) == 0);
        assert(below(seq![-1int], c) == 1);
    }
}

/// Invert the BWT `(bwt, primary_index)`.
pub fn unbwt(bwt: &[u8], primary_index: i32) -> (r: Result<Vec<u8>, SaisError>)
    requires
        bwt@.len() < i32::MAX,
        bwt@.len() >= 2 && 1 <= primary_index <= bwt@.len() ==> walk_avoids_sentinel(
            extended(bwt@, primary_index as int),
            primary_index as int,
            bwt@.len(),
        ),
    ensures
        unbwt_outcome(bwt@, primary_index, r),
{
    let n = bwt.len();
    if n == 0 {
        return Ok(Vec::new());
    }
    // Valid primary indices are [1, n]: row 0 is `$T`, whose last column is T[n-1].
    if primary_index < 1 || (primary_index as usize) > n {
        return Err(SaisError::InvalidPrimaryIndex { primary: primary_index as i64, len: n });
    }
    let primary = primary_index as usize;
    if n == 1 {
        let out = vec![bwt[0]];
        assert(out@ =~= bwt@);
        return Ok(out);
    }
    let m = n + 1;
    let ghost e = extended(bwt@, primary as int);
    let lf_tab = lf_table(bwt, primary);

    // Walk from the primary row: the first step passes the `$` row, the next
    // `n` emissions give the text in reverse.
    let mut t: Vec<u8> = Vec::with_capacity(n);
    let mut idx = lf_tab[primary] as usize;
    let mut step: usize = 0;
    while step < n
        invariant
            step <= n,
            m == n + 1,
            n == bwt@.len() >= 2,
            1 <= primary <= n,
            e == extended(bwt@, primary as int),
            e.len() == m,
            lf_tab@.len() == m,
            forall|j: int| 0 <= j < m ==> #[trigger] lf_tab@[j] == lf(e, j),
            forall|j: int| 0 <= j < m ==> 0 <= #[trigger] lf(e, j) < m,
            walk_avoids_sentinel(e, primary as int, n as nat),
            idx == walk(e, primary as int, step as nat),
            0 <= idx < m,
            t@.len() == step,
            forall|k: int| 0 <= k < step ==> #[trigger] t@[k] == e[walk(e, primary as int, k as nat)] as u8,
        decreases n - step,
    {
        assert(walk(e, primary as int, step as nat) != primary);
        let ch = if idx < primary {
            bwt[idx]
        } else {
            bwt[idx - 1]
        };
        t.push(ch);
        idx = lf_tab[idx] as usize;
        step += 1;
    }
    let out = reverse_bytes(t);
    assert(out@ =~= walked_text(e, primary as int, n as nat));
    Ok(out)
}

/// The LF table of the BWT with its sentinel re-inserted at `primary`.
fn lf_table(bwt: &[u8], primary: usize) -> (lf_tab: Vec<i32>)
    requires
        1 <= primary <= bwt@.len() < i32::MAX,
    ensures
        lf_tab@.len() == bwt@.len() + 1,
        forall|j: int| 0 <= j <= bwt@.len() ==> #[trigger] lf_tab@[j] == lf(extended(bwt@, primary as int), j),
        forall|j: int| 0 <= j <= bwt@.len() ==> 0 <= #[trigger] lf(extended(bwt@, primary as int), j) <= bwt@.len(),
{
    let n = bwt.len();
    let m = n + 1;
    let ghost bs = bwt@.map_values(|x: u8| x as int);
    let ghost e = extended(bwt@, primary as int);

    // Per-byte counts of the BWT bytes.
    let mut counts: Vec<i32> = vec![0i32; K_BYTE];
    let mut i: usize = 0;
    while i < n
        invariant
            i <= n < i32::MAX,
            n == bwt@.len(),
            bs == bwt@.map_values(|x: u8| x as int),
            counts@.len() == K_BYTE,
            forall|c: int| 0 <= c < K_BYTE ==> #[trigger] counts@[c] == occ(bs.subrange(0, i as int), c),
        decreases n - i,
    {
        let b = bwt[i] as usize;
        proof {
            assert forall|d: int| 0 <= d < K_BYTE implies #[trigger] occ(bs.subrange(0, i + 1), d) == occ(
                bs.subrange(0, i as int),
                d,
            ) + if bs[i as int] == d {
                1nat
            } else {
                0nat
            } by {
                lemma_occ_prefix_step(bs, i as int, d);
            }
            lemma_occ_le_len(bs.subrange(0, i as int), b as int);
            assert(counts@[b as int] == occ(bs.subrange(0, i as int), b as int));
        }
        counts.set(b, counts[b] + 1);
        i += 1;
    }
    assert(bs.subrange(0, n as int) =~= bs);

    // C[c] = 1 (for `$`, smaller than every byte) + number of bytes below c.
    proof {
        lemma_below_none(bs, 0);
    }
    let mut c_array: Vec<i32> = vec![0i32; K_BYTE];
    let mut sum: i32 = 1;
    let mut c: usize = 0;
    while c < K_BYTE
        invariant
            c <= K_BYTE,
            n == bwt@.len() < i32::MAX,
            bs == bwt@.map_values(|x: u8| x as int),
            counts@.len() == K_BYTE,
            c_array@.len() == K_BYTE,
            forall|d: int| 0 <= d < K_BYTE ==> #[trigger] counts@[d] == occ(bs, d),
            sum == 1 + below(bs, c as int),
            forall|d: int| 0 <= d < c ==> #[trigger] c_array@[d] == 1 + below(bs, d),
        decreases K_BYTE - c,
    {
        c_array.set(c, sum);
        proof {
            lemma_below_step(bs, c as int);
            lemma_below_le_len(bs, c + 1);
        }
        sum = sum + counts[c];
        c += 1;
    }

    // LF over the extended BWT; the single `$` row maps to row 0.
    let mut occ_run: Vec<i32> = vec![0i32; K_BYTE];
    let mut lf_tab: Vec<i32> = Vec::with_capacity(m);
    let mut i: usize = 0;
    while i < m
        invariant
            i <= m == n + 1,
            n == bwt@.len() < i32::MAX,
            1 <= primary <= n,
            bs == bwt@.map_values(|x: u8| x as int),
            e == extended(bwt@, primary as int),
            c_array@.len() == K_BYTE,
            occ_run@.len() == K_BYTE,
            forall|d: int| 0 <= d < K_BYTE ==> #[trigger] c_array@[d] == 1 + below(bs, d),
            forall|d: int| 0 <= d < K_BYTE ==> #[trigger] occ_run@[d] == occ(e.subrange(0, i as int), d),
            lf_tab@.len() == i,
            forall|j: int| 0 <= j < i ==> #[trigger] lf_tab@[j] == lf(e, j),
            forall|j: int| 0 <= j < i ==> 0 <= #[trigger] lf(e, j) < m,
        decreases m - i,
    {
        proof {
            assert forall|d: int| 0 <= d < K_BYTE implies #[trigger] occ(e.subrange(0, i + 1), d) == occ(
                e.subrange(0, i as int),
                d,
            ) + if e[i as int] == d {
                1nat
            } else {
                0nat
            } by {
                lemma_occ_prefix_step(e, i as int, d);
            }
        }
        if i == primary {
            proof {
                assert(e[i as int] == -1);
                assert(below(e, -1) == 0) by {
                    lemma_below_none(e, -1);
                }
                assert(occ(e.subrange(0, i as int), -1) == 0) by {
                    lemma_occ_sentinel_before(bwt@, primary as int, i as int);
                }
            }
            lf_tab.push(0);
        } else {
            let b = if i < primary {
                bwt[i]
            } else {
                bwt[i - 1]
            };
            let cu = b as usize;
            proof {
                assert(e[i as int] == b as int);
                lemma_extended_counts(bwt@, primary as int, cu as int);
                lemma_extended_counts(bwt@, primary as int, cu + 1);
                lemma_below_step(e, cu as int);
                lemma_occ_below_total(e, i as int, cu as int);
                lemma_below_le_len(e, cu + 1);
                lemma_below_step(bs, cu as int);
                lemma_below_le_len(bs, cu + 1);
                assert(lf(e, i as int) < m);
            }
            lf_tab.push(c_array[cu] + occ_run[cu]);
            occ_run.set(cu, occ_run[cu] + 1);
        }
        i += 1;
    }

    lf_tab
}

/// Whether `unbwt` can read `(bwt, primary_index)` back: it can unless the
/// BWT has two bytes or more, the primary index is in `[1, n]`, and the LF
/// walk from the primary row meets the sentinel within its first `n` steps.
pub fn unbwt_walk_ok(bwt: &[u8], primary_index: i32) -> (r: bool)
    requires
        bwt@.len() < i32::MAX,
    ensures
        r == (bwt@.len() >= 2 && 1 <= primary_index <= bwt@.len() ==> walk_avoids_sentinel(
            extended(bwt@, primary_index as int),
            primary_index as int,
            bwt@.len(),
        )),
{
    let n = bwt.len();
    if n < 2 || primary_index < 1 || (primary_index as usize) > n {
        return true;
    }
    let primary = primary_index as usize;
    assert(primary as int == primary_index as int);
    let ghost e = extended(bwt@, primary as int);
    let lf_tab = lf_table(bwt, primary);
    let mut idx = lf_tab[primary] as usize;
    let mut step: usize = 0;
    while step < n
        invariant
            primary as int == primary_index as int,
            2 <= n,
            step <= n == bwt@.len(),
            1 <= primary <= n < i32::MAX,
            e == extended(bwt@, primary as int),
            lf_tab@.len() == n + 1,
            forall|j: int| 0 <= j <= n ==> #[trigger] lf_tab@[j] == lf(e, j),
            forall|j: int| 0 <= j <= n ==> 0 <= #[trigger] lf(e, j) <= n,
            idx == walk(e, primary as int, step as nat),
            0 <= idx <= n,
            forall|k: nat| k < step ==> #[trigger] walk(e, primary as int, k) != primary,
        decreases n - step,
    {
        if idx == primary {
            assert(walk(e, primary as int, step as nat) == primary);
            assert(!walk_avoids_sentinel(e, primary as int, n as nat));
            return false;
        }
        idx = lf_tab[idx] as usize;
        step += 1;
    }
    true
}

proof fn lemma_occ_sentinel_before(b: Seq<u8>, p: int, i: int)
    requires
        0 <= i <= p <= b.len(),
    ensures
        occ(extended(b, p).subrange(0, i), -1) == 0,
    decreases i,
{
    if i > 0 {
        let e = extended(b, p);
        assert(e.subrange(0, i).drop_last() =~= e.subrange(0, i - 1));
        lemma_occ_sentinel_before(b, p, i - 1);
    }
}

proof fn lemma_occ_below_total(e: Seq<int>, i: int, c: int)
    requires
        0 <= i < e.len(),
        e[i] == c,
    ensures
        occ(e.subrange(0, i), c) < occ(e, c),
{
    assert(e =~= e.subrange(0, i) + e.subrange(i, e.len() as int));
    lemma_occ_concat(e.subrange(0, i), e.subrange(i, e.len() as int), c);
    let w = e.subrange(i, e.len() as int);
    assert(w =~= seq![c] + w.subrange(1, w.len() as int));
    lemma_occ_concat(seq![c], w.subrange(1, w.len() as int), c);
    assert(seq![c].drop_last() =~= Seq::<int>::empty());
}

/// The bytes of `v` in reverse order.
fn reverse_bytes(v: Vec<u8>) -> (r: Vec<u8>)
    ensures
        r@.len() == v@.len(),
        forall|i: int| 0 <= i < v@.len() ==> #[trigger] r@[i] == v@[v@.len() - 1 - i],
{
    let mut r = v;
    let len = r.len();
    let ghost orig = r@;
    let mut a: usize = 0;
    while a < len / 2
        invariant
            len == r@.len() == orig.len(),
            a <= len / 2,
            forall|i: int| 0 <= i < a ==> #[trigger] r@[i] == orig[len - 1 - i],
            forall|i: int| len - a <= i < len ==> #[trigger] r@[i] == orig[len - 1 - i],
            forall|i: int| a <= i < len - a ==> #[trigger] r@[i] == orig[i],
        decreases len / 2 - a,
    {
        let x = r[a];
        let y = r[len - 1 - a];
        r.set(a, y);
        r.set(len - 1 - a, x);
        a += 1;
    }
    r
}

/// Same as `unbwt`; the thread count does not change the walk.
pub fn unbwt_parallel(bwt: &[u8], primary_index: i32, threads: usize) -> (r: Result<Vec<u8>, SaisError>)
    requires
        bwt@.len() < i32::MAX,
        bwt@.len() >= 2 && 1 <= primary_index <= bwt@.len() ==> walk_avoids_sentinel(
            extended(bwt@, primary_index as int),
            primary_index as int,
            bwt@.len(),
        ),
    ensures
        unbwt_outcome(bwt@, primary_index, r),
{
    unbwt(bwt, primary_index)
}

} // verus!
