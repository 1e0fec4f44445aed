use vstd::prelude::*;

verus! {

/// Ascending order of a sequence of durations.
pub open spec fn sorted(s: Seq<u64>) -> bool {
    forall|i: int, j: int| 0 <= i < j < s.len() ==> s[i] <= s[j]
}

/// Sum of all durations of a sequence.
pub open spec fn sum_of(s: Seq<u64>) -> int
    decreases s.len(),
{
    if s.len() == 0 {
        0
    } else {
        sum_of(s.drop_last()) + s.last()
    }
}

/// `after` is `before` with `v` put at index `p`, past every element not greater
/// than `v` and in front of every element greater than it.
pub open spec fn placed_at(before: Seq<u64>, after: Seq<u64>, v: u64, p: int) -> bool {
    &&& 0 <= p <= before.len()
    &&& after == before.insert(p, v)
    &&& forall|k: int| 0 <= k < p ==> before[k] <= v
    &&& forall|k: int| p <= k < before.len() ==> before[k] > v
}

/// `after` is `before` with `v` put in its place.
pub open spec fn inserted(before: Seq<u64>, after: Seq<u64>, v: u64) -> bool {
    exists|p: int| placed_at(before, after, v, p)
}

/// Floor of the mean of a non-empty sequence.
pub open spec fn mean_of(s: Seq<u64>) -> int
    recommends
        s.len() > 0,
{
    sum_of(s) / (s.len() as int)
}

/// Index of the `q_permille / 1000` rank quantile in a sorted sequence of `len`
/// elements: `floor(len * q)`, clamped to the last index.
pub open spec fn rank_index(len: int, q_permille: int) -> int {
    let k = len * q_permille / 1000;
    if k < len {
        k
    } else {
        len - 1
    }
}

/// Adding a value at any position adds it to the sum.
pub proof fn lemma_sum_insert(s: Seq<u64>, p: int, v: u64)
    requires
        0 <= p <= s.len(),
    ensures
        sum_of(s.insert(p, v)) == sum_of(s) + v,
    decreases s.len(),
{
    if p == s.len() {
        assert(s.insert(p, v).drop_last() =~= s);
    } else {
        lemma_sum_insert(s.drop_last(), p, v);
        assert(s.insert(p, v).drop_last() =~= s.drop_last().insert(p, v));
    }
}

/// The mean kept from a running total, updated by adding each new value, is the
/// mean of the samples summed afresh.
pub proof fn lemma_running_mean(s: Seq<u64>, total: int, p: int, v: u64)
    requires
        total == sum_of(s),
        0 <= p <= s.len(),
    ensures
        mean_of(s.insert(p, v)) == (total + v) / (s.len() + 1) as int,
{
    lemma_sum_insert(s, p, v);
}

/// Putting a value into a sequence adds it to the multiset of its elements.
pub proof fn lemma_placed_multiset(before: Seq<u64>, after: Seq<u64>, v: u64, p: int)
    requires
        placed_at(before, after, v, p),
    ensures
        after.to_multiset() =~= before.to_multiset().insert(v),
{
    broadcast use vstd::seq_lib::group_to_multiset_ensures;

    assert(after.remove(p) =~= before);
    assert(after.remove(p).to_multiset() =~= after.to_multiset().remove(after[p]));
}

/// Two sorted sequences with the same elements, counted with multiplicity, are
/// equal: the sorted samples are fixed by the values inserted, whatever their order.
pub proof fn lemma_sorted_unique(s1: Seq<u64>, s2: Seq<u64>)
    requires
        sorted(s1),
        sorted(s2),
        s1.to_multiset() == s2.to_multiset(),
    ensures
        s1 == s2,
    decreases s1.len(),
{
    broadcast use vstd::seq_lib::group_to_multiset_ensures;

    assert(s1.len() == s1.to_multiset().len());
    assert(s2.len() == s2.to_multiset().len());
    if s1.len() > 0 {
        let a = s1[0];
        let b = s2[0];
        assert(s2.to_multiset().count(a) > 0);
        assert(s1.to_multiset().count(b) > 0);
        let i = choose|i: int| 0 <= i < s2.len() && s2[i] == a;
        let k = choose|k: int| 0 <= k < s1.len() && s1[k] == b;
        assert(a == b);
        let t1 = s1.remove(0);
        let t2 = s2.remove(0);
        assert(t1.to_multiset() =~= s1.to_multiset().remove(a));
        assert(t2.to_multiset() =~= s2.to_multiset().remove(b));
        lemma_sorted_unique(t1, t2);
        assert(s1 =~= t1.insert(0, a));
        assert(s2 =~= t2.insert(0, b));
    } else {
        assert(s1 =~= s2);
    }
}

/// Putting a value where `placed_at` says keeps a sorted sequence sorted.
pub proof fn lemma_placed_sorted(before: Seq<u64>, after: Seq<u64>, v: u64, p: int)
    requires
        sorted(before),
        placed_at(before, after, v, p),
    ensures
        sorted(after),
{
    assert forall|i: int, j: int| 0 <= i < j < after.len() implies after[i] <= after[j] by {
        if j < p {
            assert(after[i] == before[i] && after[j] == before[j]);
        } else if j == p {
            assert(after[i] == before[i]);
        } else if i < p {
            assert(after[i] == before[i] && after[j] == before[j - 1]);
            assert(before[i] <= v);
            assert(before[j - 1] > v);
        } else if i == p {
            assert(after[j] == before[j - 1]);
        } else {
            assert(after[i] == before[i - 1] && after[j] == before[j - 1]);
        }
    }
}

/// Any run of insertions into an empty sequence, each putting the next value
/// where `placed_at` says: after `j` of them the sequence is sorted, holds `j`
/// elements, and holds exactly the first `j` values inserted.
pub proof fn lemma_insertions(steps: Seq<Seq<u64>>, xs: Seq<u64>, j: int)
    requires
        steps.len() == xs.len() + 1,
        steps[0] == Seq::<u64>::empty(),
        forall|k: int|
            0 <= k < xs.len() ==> inserted(#[trigger] steps[k], steps[k + 1], xs[k]),
        0 <= j <= xs.len(),
    ensures
        sorted(steps[j]),
        steps[j].len() == j,
        steps[j].to_multiset() == xs.take(j).to_multiset(),
    decreases j,
{
    broadcast use vstd::seq_lib::group_to_multiset_ensures;

    if j == 0 {
        assert(xs.take(0) =~= Seq::<u64>::empty());
    } else {
        lemma_insertions(steps, xs, j - 1);
        let k = j - 1;
        let (a, b, v) = (steps[k], steps[j], xs[k]);
        assert(inserted(steps[k], steps[k + 1], xs[k]));
        let p = choose|p: int| placed_at(a, b, v, p);
        lemma_placed_sorted(steps[k], steps[j], xs[k], p);
        lemma_placed_multiset(steps[k], steps[j], xs[k], p);
        assert(xs.take(j) =~= xs.take(k).push(xs[k]));
    }
}

/// Elements between `lo` and `hi` sum to between `len * lo` and `len * hi`.
pub proof fn lemma_sum_between(s: Seq<u64>, lo: int, hi: int)
    requires
        forall|k: int| 0 <= k < s.len() ==> lo <= #[trigger] s[k] <= hi,
    ensures
        s.len() * lo <= sum_of(s) <= s.len() * hi,
    decreases s.len(),
{
    if s.len() > 0 {
        lemma_sum_between(s.drop_last(), lo, hi);
        assert((s.len() - 1) * lo + lo == s.len() * lo) by (nonlinear_arith);
        assert((s.len() - 1) * hi + hi == s.len() * hi) by (nonlinear_arith);
    }
}

/// The mean of a sorted non-empty sequence lies between its first and last
/// elements.
pub proof fn lemma_mean_between(s: Seq<u64>)
    requires
        sorted(s),
        s.len() > 0,
    ensures
        s[0] <= mean_of(s) <= s.last(),
{
    let lo = s[0] as int;
    let hi = s.last() as int;
    assert forall|k: int| 0 <= k < s.len() implies lo <= #[trigger] s[k] <= hi by {
        if k > 0 {
            assert(s[0] <= s[k]);
        }
        if k < s.len() - 1 {
            assert(s[k] <= s[s.len() - 1]);
        }
    }
    lemma_sum_between(s, lo, hi);
    let n = s.len() as int;
    let t = sum_of(s);
    assert(lo <= t / n <= hi) by (nonlinear_arith)
        requires
            n > 0,
            n * lo <= t <= n * hi,
    ;
}

/// Each element is at most `u64::MAX`, so the sum is at most `len * u64::MAX`.
pub proof fn lemma_sum_bound(s: Seq<u64>)
    ensures
        0 <= sum_of(s) <= s.len() * (u64::MAX as int),
    decreases s.len(),
{
    if s.len() > 0 {
        lemma_sum_bound(s.drop_last());
        assert((s.len() - 1) * (u64::MAX as int) + (u64::MAX as int) == s.len() * (u64::MAX as int))
            by (nonlinear_arith);
    }
}

/// Inserting `val` into a sorted vector: it goes to the end, then moves left past
/// each strictly greater predecessor.
pub fn insert_sorted(vec: &mut Vec<u64>, val: u64)
    requires
        sorted(old(vec)@),
    ensures
        sorted(final(vec)@),
        exists|p: int| placed_at(old(vec)@, final(vec)@, val, p),
{
    let ghost before = vec@;
    vec.push(val);
    let mut i: usize = vec.len() - 1;
    while i > 0 && vec[i - 1] > vec[i]
        invariant
            0 <= i < vec@.len(),
            vec@.len() == before.len() + 1,
            vec@ == before.insert(i as int, val),
            forall|k: int| i <= k < before.len() ==> before[k] > val,
            sorted(before),
        decreases i,
    {
        let a = vec[i - 1];
        let b = vec[i];
        vec.set(i - 1, b);
        vec.set(i, a);
        assert(vec@ =~= before.insert(i - 1, val));
        i -= 1;
    }
    assert(placed_at(before, vec@, val, i as int));
}


/// Rank quantile of a sorted vector: the element at `floor(len * q)` with
/// `q = q_permille / 1000`, the index clamped to the last element. `None` when
/// the vector is empty.
pub fn quantile(vec: &Vec<u64>, q_permille: u64) -> (r: Option<u64>)
    ensures
        vec@.len() == 0 ==> r is None,
        vec@.len() > 0 ==> r == Some(vec@[rank_index(vec@.len() as int, q_permille as int)]),
        r matches Some(v) ==> vec@.contains(v),
{
    let len = vec.len();
    if len == 0 {
        return None;
    }
    assert((len as u128) * (q_permille as u128) <= u128::MAX) by (nonlinear_arith)
        requires
            len <= usize::MAX,
            q_permille <= u64::MAX,
    ;
    let k: u128 = (len as u128) * (q_permille as u128) / 1000;
    assert(k == len * q_permille / 1000) by (nonlinear_arith)
        requires
            k == (len as u128) * (q_permille as u128) / 1000,
            len <= usize::MAX,
            q_permille <= u64::MAX,
    ;
    let index: usize = if k < len as u128 {
        k as usize
    } else {
        len - 1
    };
    let v = vec[index];
    assert(vec@[index as int] == v);
    Some(v)
}

/// Sum of a vector, computed afresh.
pub fn sum_from_scratch(vec: &Vec<u64>) -> (r: u128)
    ensures
        r == sum_of(vec@),
{
    proof {
        lemma_sum_bound(vec@);
    }
    let mut total: u128 = 0;
    let mut i: usize = 0;
    while i < vec.len()
        invariant
            i <= vec@.len(),
            total == sum_of(vec@.take(i as int)),
        decreases vec@.len() - i,
    {
        proof {
            assert(vec@.take(i + 1).drop_last() =~= vec@.take(i as int));
            lemma_sum_bound(vec@.take(i + 1));
            assert((i + 1) * (u64::MAX as int) <= (usize::MAX as int) * (u64::MAX as int))
                by (nonlinear_arith)
                requires
                    i < usize::MAX,
            ;
        }
        total = total + vec[i] as u128;
        i += 1;
    }
    assert(vec@.take(i as int) =~= vec@);
    total
}

/// The observed durations of one candidate, kept in ascending order, with their
/// running total and the most recently inserted value.
pub struct SampleStore {
    samples: Vec<u64>,
    total: u128,
    latest: Option<u64>,
}

impl View for SampleStore {
    type V = Seq<u64>;

    closed spec fn view(&self) -> Seq<u64> {
        self.samples@
    }
}

impl SampleStore {
    /// The last value inserted, `None` before the first insertion.
    pub closed spec fn latest_spec(&self) -> Option<u64> {
        self.latest
    }

    /// Samples sorted, total equal to their sum, latest among them.
    pub closed spec fn wf(&self) -> bool {
        &&& sorted(self.samples@)
        &&& self.total == sum_of(self.samples@)
        &&& (self.latest is Some <==> self.samples@.len() > 0)
        &&& (self.latest matches Some(v) ==> self.samples@.contains(v))
    }

    pub fn new() -> (r: SampleStore)
        ensures
            r.wf(),
            r@ == Seq::<u64>::empty(),
            r.latest_spec() is None,
    {
        SampleStore { samples: Vec::new(), total: 0, latest: None }
    }

    /// Records one duration: the samples stay sorted and gain exactly `val`.
    pub fn insert(&mut self, val: u64)
        requires
            old(self).wf(),
            old(self)@.len() < usize::MAX,
        ensures
            final(self).wf(),
            sorted(final(self)@),
            exists|p: int| placed_at(old(self)@, final(self)@, val, p),
            final(self)@.to_multiset() == old(self)@.to_multiset().insert(val),
            final(self).latest_spec() == Some(val),
    {
        let ghost before = self.samples@;
        insert_sorted(&mut self.samples, val);
        let ghost p = choose|p: int| placed_at(before, self.samples@, val, p);
        proof {
            lemma_sum_insert(before, p, val);
            lemma_sum_bound(self.samples@);
            assert(self.samples@.len() * (u64::MAX as int) < u128::MAX) by (nonlinear_arith)
                requires
                    self.samples@.len() <= usize::MAX,
            ;
            assert(self.samples@[p] == val);
        }
        self.total = self.total + val as u128;
        self.latest = Some(val);
        assert(placed_at(before, self@, val, p));
        proof {
            lemma_placed_multiset(before, self@, val, p);
        }
    }

    /// A well-formed store is sorted, whatever insertions built it.
    pub proof fn lemma_sorted(&self)
        requires
            self.wf(),
        ensures
            sorted(self@),
    {
    }

    pub fn len(&self) -> (r: usize)
        ensures
            r == self@.len(),
    {
        self.samples.len()
    }

    /// The samples in ascending order.
    pub fn samples(&self) -> (r: &Vec<u64>)
        ensures
            r@ == self@,
    {
        &self.samples
    }

    pub fn latest(&self) -> (r: Option<u64>)
        ensures
            r == self.latest_spec(),
    {
        self.latest
    }

    /// Floor of the mean, from the running total; `None` when empty.
    pub fn mean(&self) -> (r: Option<u64>)
        requires
            self.wf(),
        ensures
            self@.len() == 0 ==> r is None,
            self@.len() > 0 ==> r == Some(mean_of(self@) as u64),
            r matches Some(m) ==> m == mean_of(self@) && self@[0] <= m <= self@.last(),
    {
        let n = self.samples.len();
        if n == 0 {
            return None;
        }
        proof {
            lemma_sum_bound(self.samples@);
            assert(sum_of(self.samples@) / (n as int) <= u64::MAX) by (nonlinear_arith)
                requires
                    0 <= sum_of(self.samples@) <= n * (u64::MAX as int),
                    n > 0,
            ;
        }
        proof {
            lemma_mean_between(self.samples@);
        }
        Some((self.total / n as u128) as u64)
    }

    /// Floor of the mean, summing the samples afresh; `None` when empty.
    pub fn mean_from_scratch(&self) -> (r: Option<u64>)
        requires
            self.wf(),
        ensures
            self@.len() == 0 ==> r is None,
            self@.len() > 0 ==> r == Some(mean_of(self@) as u64),
    {
        let n = self.samples.len();
        if n == 0 {
            return None;
        }
        let total = sum_from_scratch(&self.samples);
        proof {
            lemma_sum_bound(self.samples@);
            assert(sum_of(self.samples@) / (n as int) <= u64::MAX) by (nonlinear_arith)
                requires
                    0 <= sum_of(self.samples@) <= n * (u64::MAX as int),
                    n > 0,
            ;
        }
        Some((total / n as u128) as u64)
    }

    /// Rank quantile of the samples; `None` when empty.
    pub fn quantile(&self, q_permille: u64) -> (r: Option<u64>)
        ensures
            self@.len() == 0 ==> r is None,
            self@.len() > 0 ==> r == Some(self@[rank_index(self@.len() as int, q_permille as int)]),
            r matches Some(v) ==> self@.contains(v),
    {
        quantile(&self.samples, q_permille)
    }
}

} // verus!
