//! Bucket counts and head/tail pointers.
//!
//! Head pointer of bucket `c`: index into SA where bucket starts.
//! Tail pointer of bucket `c`: index into SA one past where bucket ends.

use vstd::prelude::*;

use crate::alphabet::{Symbol, symbols, within_alphabet};
use crate::parallel::PARALLEL_MIN;

verus! {

/// Number of positions of `s` holding symbol `c`.
pub open spec fn occ(s: Seq<int>, c: int) -> nat
    decreases s.len(),
{
    if s.len() == 0 {
        0
    } else {
        occ(s.drop_last(), c) + if s.last() == c {
            1nat
        } else {
            0nat
        }
    }
}

/// Number of symbols of `e` smaller than `c`.
pub open spec fn below(e: Seq<int>, c: int) -> nat
    decreases e.len(),
{
    if e.len() == 0 {
        0
    } else {
        below(e.drop_last(), c) + if e.last() < c {
            1nat
        } else {
            0nat
        }
    }
}

pub proof fn lemma_below_concat(a: Seq<int>, b: Seq<int>, c: int)
    ensures
        below(a + b, c) == below(a, c) + below(b, c),
    decreases b.len(),
{
    if b.len() == 0 {
        assert(a + b =~= a);
    } else {
        assert((a + b).drop_last() =~= a + b.drop_last());
        lemma_below_concat(a, b.drop_last(), c);
    }
}

/// `below` grows with the bound by the occurrences of the bound itself.
pub proof fn lemma_below_step(e: Seq<int>, c: int)
    ensures
        below(e, c + 1) == below(e, c) + occ(e, c),
    decreases e.len(),
{
    if e.len() > 0 {
        lemma_below_step(e.drop_last(), c);
    }
}

pub proof fn lemma_below_le_len(e: Seq<int>, c: int)
    ensures
        below(e, c) <= e.len(),
    decreases e.len(),
{
    if e.len() > 0 {
        lemma_below_le_len(e.drop_last(), c);
    }
}

pub proof fn lemma_below_none(e: Seq<int>, lo: int)
    requires
        forall|i: int| 0 <= i < e.len() ==> e[i] >= lo,
    ensures
        below(e, lo) == 0,
    decreases e.len(),
{
    if e.len() > 0 {
        lemma_below_none(e.drop_last(), lo);
    }
}

/// `counts[0] + ... + counts[c-1]`.
pub open spec fn prefix_sum(counts: Seq<int>, c: int) -> int
    decreases c,
{
    if c <= 0 {
        0
    } else {
        prefix_sum(counts, c - 1) + counts[c - 1]
    }
}

/// `counts` holds, for each of the `k` symbols, how often it occurs in `s`.
pub open spec fn counts_of(s: Seq<int>, k: int, counts: Seq<int>) -> bool {
    &&& counts.len() == k
    &&& forall|c: int| 0 <= c < k ==> #[trigger] counts[c] == occ(s, c)
}

pub proof fn lemma_occ_push(s: Seq<int>, x: int, c: int)
    ensures
        occ(s.push(x), c) == occ(s, c) + if x == c {
            1nat
        } else {
            0nat
        },
{
    assert(s.push(x).drop_last() =~= s);
}

pub proof fn lemma_occ_prefix_step(s: Seq<int>, i: int, c: int)
    requires
        0 <= i < s.len(),
    ensures
        occ(s.subrange(0, i + 1), c) == occ(s.subrange(0, i), c) + if s[i] == c {
            1nat
        } else {
            0nat
        },
{
    assert(s.subrange(0, i + 1) =~= s.subrange(0, i).push(s[i]));
    lemma_occ_push(s.subrange(0, i), s[i], c);
}

pub proof fn lemma_occ_le_len(s: Seq<int>, c: int)
    ensures
        occ(s, c) <= s.len(),
    decreases s.len(),
{
    if s.len() > 0 {
        lemma_occ_le_len(s.drop_last(), c);
    }
}

/// Occurrences in a concatenation add up.
pub proof fn lemma_occ_concat(a: Seq<int>, b: Seq<int>, c: int)
    ensures
        occ(a + b, c) == occ(a, c) + occ(b, c),
    decreases b.len(),
{
    if b.len() == 0 {
        assert(a + b =~= a);
    } else {
        assert((a + b).drop_last() =~= a + b.drop_last());
        lemma_occ_concat(a, b.drop_last(), c);
    }
}

/// Summed over all symbols of the alphabet, occurrences add up to the length.
pub proof fn lemma_occ_total(s: Seq<int>, k: int, counts: Seq<int>)
    requires
        counts_of(s, k, counts),
        forall|i: int| 0 <= i < s.len() ==> 0 <= #[trigger] s[i] < k,
    ensures
        prefix_sum(counts, k) == s.len(),
    decreases s.len(),
{
    if s.len() == 0 {
        lemma_prefix_sum_zero(counts, k);
    } else {
        let s0 = s.drop_last();
        let x = s.last();
        let counts0 = Seq::new(k as nat, |c: int| occ(s0, c) as int);
        assert forall|c: int| 0 <= c < k implies #[trigger] counts[c] == counts0[c] + if c == x {
            1int
        } else {
            0int
        } by {
            assert(s0.push(x) =~= s);
            lemma_occ_push(s0, x, c);
        }
        assert forall|i: int| 0 <= i < s0.len() implies 0 <= #[trigger] s0[i] < k by {
            assert(s0[i] == s[i]);
        }
        lemma_occ_total(s0, k, counts0);
        lemma_prefix_sum_bump(counts0, counts, x, k);
    }
}

proof fn lemma_prefix_sum_zero(counts: Seq<int>, c: int)
    requires
        0 <= c <= counts.len(),
        forall|j: int| 0 <= j < counts.len() ==> #[trigger] counts[j] == 0,
    ensures
        prefix_sum(counts, c) == 0,
    decreases c,
{
    if c > 0 {
        lemma_prefix_sum_zero(counts, c - 1);
    }
}

proof fn lemma_prefix_sum_bump(a: Seq<int>, b: Seq<int>, x: int, c: int)
    requires
        0 <= c <= a.len(),
        a.len() == b.len(),
        forall|j: int| 0 <= j < a.len() ==> #[trigger] b[j] == a[j] + if j == x {
            1int
        } else {
            0int
        },
    ensures
        prefix_sum(b, c) == prefix_sum(a, c) + if 0 <= x < c {
            1int
        } else {
            0int
        },
    decreases c,
{
    if c > 0 {
        lemma_prefix_sum_bump(a, b, x, c - 1);
    }
}

/// Prefix sums of non-negative counts never decrease.
pub proof fn lemma_prefix_sum_monotone(counts: Seq<int>, a: int, b: int)
    requires
        0 <= a <= b <= counts.len(),
        forall|j: int| 0 <= j < counts.len() ==> 0 <= #[trigger] counts[j],
    ensures
        0 <= prefix_sum(counts, a) <= prefix_sum(counts, b),
    decreases b,
{
    if a < b {
        lemma_prefix_sum_monotone(counts, a, b - 1);
    } else if a > 0 {
        lemma_prefix_sum_monotone(counts, a - 1, a - 1);
    }
}

/// Count occurrences of each symbol. `counts.len() == k`.
pub(crate) fn count_symbols<C: Symbol>(t: &[C], k: usize) -> (counts: Vec<i32>)
    requires
        within_alphabet(t@, k as int),
        t@.len() <= i32::MAX,
    ensures
        counts_of(symbols(t@), k as int, counts@.map_values(|v: i32| v as int)),
{
    let ghost s = symbols(t@);
    let mut counts = vec![0i32; k];
    let mut i: usize = 0;
    while i < t.len()
        invariant
            i <= t@.len() <= i32::MAX,
            s == symbols(t@),
            within_alphabet(t@, k as int),
            counts@.len() == k,
            forall|c: int| 0 <= c < k ==> #[trigger] counts@[c] == occ(s.subrange(0, i as int), c),
        decreases t@.len() - i,
    {
        assert(i < t@.len());
        assert(within_alphabet(t@, k as int));
        assert(t@[i as int].has_index());
        assert(0 <= t@[i as int].index_of() < k);
        let c = t[i].idx();
        proof {
            assert forall|d: int| 0 <= d < k implies #[trigger] occ(s.subrange(0, i + 1), d) == occ(
                s.subrange(0, i as int),
                d,
            ) + if s[i as int] == d {
                1nat
            } else {
                0nat
            } by {
                lemma_occ_prefix_step(s, i as int, d);
            }
            lemma_occ_le_len(s.subrange(0, i as int), c as int);
            assert(counts@[c as int] == occ(s.subrange(0, i as int), c as int));
        }
        counts.set(c, counts[c] + 1);
        i += 1;
    }
    proof {
        assert(s.subrange(0, i as int) =~= s);
    }
    counts
}

/// Parallel form: per-block private counts, element-wise reduce. Falls back
/// to serial below `PARALLEL_MIN`. `threads` is the number of worker threads
/// the work is split for; it shapes the blocks, never the result.
pub(crate) fn count_symbols_parallel<C: Symbol>(t: &[C], k: usize, threads: usize) -> (counts: Vec<
    i32,
>)
    requires
        within_alphabet(t@, k as int),
        t@.len() <= i32::MAX,
        threads >= 1,
    ensures
        counts_of(symbols(t@), k as int, counts@.map_values(|v: i32| v as int)),
{
    if t.len() < PARALLEL_MIN {
        return count_symbols(t, k);
    }
    let ghost s = symbols(t@);
    let q = t.len() / threads;
    let block = if q > PARALLEL_MIN {
        q
    } else {
        PARALLEL_MIN
    };
    let mut acc = vec![0i32; k];
    let mut start: usize = 0;
    while start < t.len()
        invariant
            start <= t@.len() <= i32::MAX,
            block >= 1,
            s == symbols(t@),
            within_alphabet(t@, k as int),
            acc@.len() == k,
            forall|c: int| 0 <= c < k ==> #[trigger] acc@[c] == occ(s.subrange(0, start as int), c),
        decreases t@.len() - start,
    {
        let end = if t.len() - start > block {
            start + block
        } else {
            t.len()
        };
        let local = count_range(t, k, start, end);
        let mut c: usize = 0;
        while c < k
            invariant
                start < end <= t@.len() <= i32::MAX,
                c <= k,
                acc@.len() == k,
                local@.len() == k,
                s == symbols(t@),
                forall|d: int| 0 <= d < k ==> #[trigger] local@[d] == occ(s.subrange(start as int, end as int), d),
                forall|d: int| c <= d < k ==> #[trigger] acc@[d] == occ(s.subrange(0, start as int), d),
                forall|d: int| 0 <= d < c ==> #[trigger] acc@[d] == occ(s.subrange(0, end as int), d),
            decreases k - c,
        {
            proof {
                assert(s.subrange(0, end as int) =~= s.subrange(0, start as int) + s.subrange(start as int, end as int));
                lemma_occ_concat(s.subrange(0, start as int), s.subrange(start as int, end as int), c as int);
                lemma_occ_le_len(s.subrange(0, end as int), c as int);
            }
            acc.set(c, acc[c] + local[c]);
            c += 1;
        }
        start = end;
    }
    proof {
        assert(s.subrange(0, start as int) =~= s);
    }
    acc
}

/// Counts of each symbol over `t[start..end]`.
fn count_range<C: Symbol>(t: &[C], k: usize, start: usize, end: usize) -> (counts: Vec<i32>)
    requires
        within_alphabet(t@, k as int),
        start <= end <= t@.len() <= i32::MAX,
    ensures
        counts@.len() == k,
        forall|d: int| 0 <= d < k ==> #[trigger] counts@[d] == occ(symbols(t@).subrange(start as int, end as int), d),
{
    let ghost s = symbols(t@);
    let mut counts = vec![0i32; k];
    let mut i = start;
    while i < end
        invariant
            start <= i <= end <= t@.len() <= i32::MAX,
            s == symbols(t@),
            within_alphabet(t@, k as int),
            counts@.len() == k,
            forall|c: int| 0 <= c < k ==> #[trigger] counts@[c] == occ(s.subrange(start as int, i as int), c),
        decreases end - i,
    {
        assert(i < t@.len());
        assert(within_alphabet(t@, k as int));
        assert(t@[i as int].has_index());
        assert(0 <= t@[i as int].index_of() < k);
        let c = t[i].idx();
        proof {
            let w = s.subrange(start as int, t@.len() as int);
            assert(s.subrange(start as int, i + 1) =~= w.subrange(0, i - start + 1));
            assert(s.subrange(start as int, i as int) =~= w.subrange(0, i - start));
            assert forall|d: int| 0 <= d < k implies #[trigger] occ(s.subrange(start as int, i + 1), d)
                == occ(s.subrange(start as int, i as int), d) + if s[i as int] == d {
                1nat
            } else {
                0nat
            } by {
                lemma_occ_prefix_step(w, i - start, d);
            }
            lemma_occ_le_len(s.subrange(start as int, i as int), c as int);
            assert(counts@[c as int] == occ(s.subrange(start as int, i as int), c as int));
        }
        counts.set(c, counts[c] + 1);
        i += 1;
    }
    counts
}

/// `heads[c] = sum(counts[0..c])` — start of bucket `c`.
pub(crate) fn bucket_heads(counts: &[i32]) -> (heads: Vec<i32>)
    requires
        forall|j: int| 0 <= j < counts@.len() ==> 0 <= #[trigger] counts@[j],
        prefix_sum(counts@.map_values(|v: i32| v as int), counts@.len() as int) <= i32::MAX,
    ensures
        heads@.len() == counts@.len(),
        forall|c: int| 0 <= c < counts@.len() ==> #[trigger] heads@[c] == prefix_sum(counts@.map_values(|v: i32| v as int), c),
{
    let ghost cs = counts@.map_values(|v: i32| v as int);
    let mut heads: Vec<i32> = Vec::with_capacity(counts.len());
    let mut sum: i32 = 0;
    let mut c: usize = 0;
    while c < counts.len()
        invariant
            c <= counts@.len(),
            cs == counts@.map_values(|v: i32| v as int),
            forall|j: int| 0 <= j < counts@.len() ==> 0 <= #[trigger] counts@[j],
            prefix_sum(cs, counts@.len() as int) <= i32::MAX,
            sum == prefix_sum(cs, c as int),
            heads@.len() == c,
            forall|j: int| 0 <= j < c ==> #[trigger] heads@[j] == prefix_sum(cs, j),
        decreases counts@.len() - c,
    {
        heads.push(sum);
        proof {
            lemma_prefix_sum_monotone(cs, c + 1, counts@.len() as int);
        }
        sum = sum + counts[c];
        c += 1;
    }
    heads
}

/// `tails[c] = sum(counts[0..=c])` — one past end of bucket `c`.
pub(crate) fn bucket_tails(counts: &[i32]) -> (tails: Vec<i32>)
    requires
        forall|j: int| 0 <= j < counts@.len() ==> 0 <= #[trigger] counts@[j],
        prefix_sum(counts@.map_values(|v: i32| v as int), counts@.len() as int) <= i32::MAX,
    ensures
        tails@.len() == counts@.len(),
        forall|c: int| 0 <= c < counts@.len() ==> #[trigger] tails@[c] == prefix_sum(counts@.map_values(|v: i32| v as int), c + 1),
{
    let ghost cs = counts@.map_values(|v: i32| v as int);
    let mut tails: Vec<i32> = Vec::with_capacity(counts.len());
    let mut sum: i32 = 0;
    let mut c: usize = 0;
    while c < counts.len()
        invariant
            c <= counts@.len(),
            cs == counts@.map_values(|v: i32| v as int),
            forall|j: int| 0 <= j < counts@.len() ==> 0 <= #[trigger] counts@[j],
            prefix_sum(cs, counts@.len() as int) <= i32::MAX,
            sum == prefix_sum(cs, c as int),
            tails@.len() == c,
            forall|j: int| 0 <= j < c ==> #[trigger] tails@[j] == prefix_sum(cs, j + 1),
        decreases counts@.len() - c,
    {
        proof {
            lemma_prefix_sum_monotone(cs, c + 1, counts@.len() as int);
        }
        sum = sum + counts[c];
        tails.push(sum);
        c += 1;
    }
    tails
}

} // verus!
