use vstd::prelude::*;
use crate::samples::{lemma_sorted_unique, sorted};

verus! {

/// Bucket of `x` among `n` equal-width buckets over `[lo, hi]`:
/// `floor((x - lo) * n / (hi - lo))`, with `x >= hi` put in the last bucket.
/// `-1` (no bucket) for a value below `lo`, for `n == 0` and for an empty range
/// (`hi <= lo`).
pub open spec fn bucket_of(x: int, n: int, lo: int, hi: int) -> int {
    if n <= 0 || hi <= lo || x < lo {
        -1
    } else if x > hi {
        n - 1
    } else {
        let idx = (x - lo) * n / (hi - lo);
        if idx >= n {
            n - 1
        } else {
            idx
        }
    }
}

/// Bucket counts of `s`: `n` counters, each sample in range adding one to its
/// bucket.
pub open spec fn hist_spec(s: Seq<u64>, n: nat, lo: int, hi: int) -> Seq<nat>
    decreases s.len(),
{
    if s.len() == 0 {
        Seq::new(n, |j: int| 0nat)
    } else {
        let h = hist_spec(s.drop_last(), n, lo, hi);
        let b = bucket_of(s.last() as int, n as int, lo, hi);
        if 0 <= b < n {
            h.update(b, h[b] + 1)
        } else {
            h
        }
    }
}

/// Number of samples of `s` that fall in some bucket.
pub open spec fn in_range_count(s: Seq<u64>, n: nat, lo: int, hi: int) -> nat
    decreases s.len(),
{
    if s.len() == 0 {
        0
    } else {
        let b = bucket_of(s.last() as int, n as int, lo, hi);
        in_range_count(s.drop_last(), n, lo, hi) + if 0 <= b < n {
            1nat
        } else {
            0nat
        }
    }
}

/// Sum of a sequence of counts.
pub open spec fn total_of(h: Seq<nat>) -> nat
    decreases h.len(),
{
    if h.len() == 0 {
        0
    } else {
        total_of(h.drop_last()) + h.last()
    }
}

/// Greatest count of a sequence, `0` when it is empty.
pub open spec fn is_max_count(h: Seq<usize>, m: usize) -> bool {
    &&& forall|j: int| 0 <= j < h.len() ==> h[j] <= m
    &&& h.len() > 0 ==> exists|j: int| 0 <= j < h.len() && h[j] == m
    &&& h.len() == 0 ==> m == 0
}

/// A bucket index in range lies among the `n` buckets.
proof fn lemma_bucket_in_range(x: int, n: int, lo: int, hi: int)
    requires
        n > 0,
        lo < hi,
        lo <= x,
    ensures
        0 <= bucket_of(x, n, lo, hi) < n,
{
    if x <= hi {
        assert(0 <= (x - lo) * n / (hi - lo)) by (nonlinear_arith)
            requires
                n > 0,
                lo < hi,
                lo <= x,
        ;
    }
}

proof fn lemma_hist_shape(s: Seq<u64>, n: nat, lo: int, hi: int)
    ensures
        hist_spec(s, n, lo, hi).len() == n,
        forall|j: int| 0 <= j < n ==> hist_spec(s, n, lo, hi)[j] <= s.len(),
    decreases s.len(),
{
    if s.len() > 0 {
        lemma_hist_shape(s.drop_last(), n, lo, hi);
    }
}

proof fn lemma_total_zeros(n: nat)
    ensures
        total_of(Seq::new(n, |j: int| 0nat)) == 0,
    decreases n,
{
    if n > 0 {
        assert(Seq::new(n, |j: int| 0nat).drop_last() =~= Seq::new((n - 1) as nat, |j: int| 0nat));
        lemma_total_zeros((n - 1) as nat);
    }
}

proof fn lemma_total_bump(h: Seq<nat>, b: int)
    requires
        0 <= b < h.len(),
    ensures
        total_of(h.update(b, h[b] + 1)) == total_of(h) + 1,
    decreases h.len(),
{
    if b == h.len() - 1 {
        assert(h.update(b, h[b] + 1).drop_last() =~= h.drop_last());
    } else {
        lemma_total_bump(h.drop_last(), b);
        assert(h.update(b, h[b] + 1).drop_last() =~= h.drop_last().update(b, h[b] + 1));
    }
}

/// The bucket counts add up to the number of samples that fall in the range.
pub proof fn lemma_hist_total_in_range(s: Seq<u64>, n: nat, lo: int, hi: int)
    ensures
        total_of(hist_spec(s, n, lo, hi)) == in_range_count(s, n, lo, hi),
    decreases s.len(),
{
    if s.len() == 0 {
        lemma_total_zeros(n);
    } else {
        lemma_hist_total_in_range(s.drop_last(), n, lo, hi);
        lemma_hist_shape(s.drop_last(), n, lo, hi);
        let b = bucket_of(s.last() as int, n as int, lo, hi);
        if 0 <= b < n {
            lemma_total_bump(hist_spec(s.drop_last(), n, lo, hi), b);
        }
    }
}

/// When no sample lies below the lower end of a non-empty range and there is at
/// least one bucket, the bucket counts add up to exactly the number of samples:
/// a sample above the range counts in the last bucket.
pub proof fn lemma_hist_total(s: Seq<u64>, n: nat, lo: int, hi: int)
    requires
        n > 0,
        lo < hi,
        forall|k: int| 0 <= k < s.len() ==> lo <= #[trigger] s[k],
    ensures
        total_of(hist_spec(s, n, lo, hi)) == s.len(),
    decreases s.len(),
{
    lemma_hist_total_in_range(s, n, lo, hi);
    lemma_in_range_all(s, n, lo, hi);
}

proof fn lemma_in_range_all(s: Seq<u64>, n: nat, lo: int, hi: int)
    requires
        n > 0,
        lo < hi,
        forall|k: int| 0 <= k < s.len() ==> lo <= #[trigger] s[k],
    ensures
        in_range_count(s, n, lo, hi) == s.len(),
    decreases s.len(),
{
    if s.len() > 0 {
        lemma_in_range_all(s.drop_last(), n, lo, hi);
        lemma_bucket_in_range(s.last() as int, n as int, lo, hi);
    }
}

/// The histogram is a function of the recorded samples and the range alone:
/// rebuilding it from sorted samples holding the same values, whatever the order
/// in which they were inserted, gives the same counts.
pub proof fn lemma_hist_rebuild(s1: Seq<u64>, s2: Seq<u64>, n: nat, lo: int, hi: int)
    requires
        sorted(s1),
        sorted(s2),
        s1.to_multiset() == s2.to_multiset(),
    ensures
        hist_spec(s1, n, lo, hi) == hist_spec(s2, n, lo, hi),
{
    lemma_sorted_unique(s1, s2);
}

/// Bucket counts of `samples` over `n` equal-width buckets spanning
/// `[min, max]`. A sample above `max` counts in the last bucket, one below `min`
/// is not counted; an empty range gives all-zero counts.
pub fn hist_buckets(samples: &Vec<u64>, n: usize, min: u64, max: u64) -> (r: Vec<usize>)
    ensures
        r@.len() == n,
        forall|j: int| 0 <= j < n ==> r@[j] == hist_spec(samples@, n as nat, min as int, max as int)[j],
{
    let mut counts: Vec<usize> = Vec::new();
    let mut j: usize = 0;
    while j < n
        invariant
            j <= n,
            counts@.len() == j,
            forall|k: int| 0 <= k < j ==> counts@[k] == 0,
        decreases n - j,
    {
        counts.push(0);
        j += 1;
    }
    let mut i: usize = 0;
    while i < samples.len()
        invariant
            i <= samples@.len(),
            counts@.len() == n,
            forall|k: int| 0 <= k < n ==> counts@[k] == hist_spec(samples@.take(i as int), n as nat, min as int, max as int)[k],
        decreases samples@.len() - i,
    {
        let x = samples[i];
        let ghost prev = samples@.take(i as int);
        proof {
            assert(samples@.take(i + 1).drop_last() =~= prev);
            assert(samples@.take(i + 1).last() == x);
            lemma_hist_shape(prev, n as nat, min as int, max as int);
            lemma_hist_shape(samples@.take(i + 1), n as nat, min as int, max as int);
        }
        if n > 0 && min < max && min <= x {
            let top = if x > max {
                max
            } else {
                x
            };
            let span: u128 = (max - min) as u128;
            let off: u128 = (top - min) as u128;
            assert(off * (n as u128) <= u128::MAX) by (nonlinear_arith)
                requires
                    off <= u64::MAX,
                    n <= usize::MAX,
            ;
            let q: u128 = off * (n as u128) / span;
            let idx: usize = if x > max || q >= n as u128 {
                n - 1
            } else {
                q as usize
            };
            proof {
                lemma_bucket_in_range(x as int, n as int, min as int, max as int);
                assert(idx == bucket_of(x as int, n as int, min as int, max as int));
            }
            counts.set(idx, counts[idx] + 1);
        }
        i += 1;
    }
    assert(samples@.take(i as int) =~= samples@);
    proof {
        lemma_hist_shape(samples@, n as nat, min as int, max as int);
    }
    counts
}

/// Greatest bucket count, `0` for no buckets.
pub fn max_bucket(counts: &Vec<usize>) -> (r: usize)
    ensures
        is_max_count(counts@, r),
{
    let mut m: usize = 0;
    let mut i: usize = 0;
    while i < counts.len()
        invariant
            i <= counts@.len(),
            forall|j: int| 0 <= j < i ==> counts@[j] <= m,
            i > 0 ==> exists|j: int| 0 <= j < i && counts@[j] == m,
            i == 0 ==> m == 0,
        decreases counts@.len() - i,
    {
        if i == 0 || counts[i] > m {
            m = counts[i];
        }
        i += 1;
    }
    m
}

} // verus!
