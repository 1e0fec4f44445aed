use vstd::prelude::*;
use crate::samples::{SampleStore, mean_of, rank_index};
use crate::histogram::{hist_buckets, hist_spec, lemma_hist_total, max_bucket, total_of};

verus! {

/// Trials after which the rank statistics and standings are shown.
pub const RANK_STATS_MIN_TRIALS: u64 = 20;

/// Darkest and lightest cells of the heat map, in the 256-colour palette.
pub const COLOR_DARK: u16 = 232;
pub const COLOR_LIGHT: u16 = 255;

/// `m` is the least mean among the candidates that have samples, `None` when none has.
pub open spec fn is_best_mean(ss: Seq<Seq<u64>>, m: Option<u64>) -> bool {
    match m {
        None => forall|i: int| 0 <= i < ss.len() ==> #[trigger] ss[i].len() == 0,
        Some(b) => {
            &&& exists|i: int| 0 <= i < ss.len() && #[trigger] ss[i].len() > 0 && mean_of(ss[i]) == b
            &&& forall|i: int| 0 <= i < ss.len() && #[trigger] ss[i].len() > 0 ==> b <= mean_of(ss[i])
        },
    }
}

/// Number of samples over all candidates.
pub open spec fn total_samples(ss: Seq<Seq<u64>>) -> int
    decreases ss.len(),
{
    if ss.len() == 0 {
        0
    } else {
        total_samples(ss.drop_last()) + ss.last().len()
    }
}

proof fn lemma_total_samples_update(ss: Seq<Seq<u64>>, i: int, t: Seq<u64>)
    requires
        0 <= i < ss.len(),
    ensures
        total_samples(ss.update(i, t)) == total_samples(ss) - ss[i].len() + t.len(),
    decreases ss.len(),
{
    if i < ss.len() - 1 {
        lemma_total_samples_update(ss.drop_last(), i, t);
        assert(ss.update(i, t).drop_last() =~= ss.drop_last().update(i, t));
    } else {
        assert(ss.update(i, t).drop_last() =~= ss.drop_last());
    }
}

proof fn lemma_total_samples_empty(n: nat)
    ensures
        total_samples(Seq::new(n, |i: int| Seq::<u64>::empty())) == 0,
    decreases n,
{
    if n > 0 {
        assert(Seq::new(n, |i: int| Seq::<u64>::empty()).drop_last() =~= Seq::new(
            (n - 1) as nat,
            |i: int| Seq::<u64>::empty(),
        ));
        lemma_total_samples_empty((n - 1) as nat);
    }
}

/// `m` is the greatest of the latest samples, `0` when there is none.
pub open spec fn is_shared_max(ls: Seq<Option<u64>>, m: u64) -> bool {
    &&& forall|i: int| 0 <= i < ls.len() && (#[trigger] ls[i]) is Some ==> ls[i]->0 <= m
    &&& (m == 0 || exists|i: int| 0 <= i < ls.len() && #[trigger] ls[i] == Some(m))
}

/// How a candidate's mean compares with the best mean.
pub enum Standing {
    /// Its mean is the best mean.
    Best,
    /// Slower by this many tenths of a percent, rounded to nearest.
    Slower { tenths_percent: u128 },
    /// The best mean is zero and this one is not: no finite ratio.
    Unbounded,
}

/// `1000 * (mean - best) / best`, rounded half up.
pub open spec fn slower_tenths(mean: int, best: int) -> int
    recommends
        best > 0,
{
    (2000 * (mean - best) + best) / (2 * best)
}

/// Grey level of a heat-map cell: proportional to `count / max_count` over the
/// palette from dark to light, dark when `max_count` is zero.
pub open spec fn heat_color_spec(count: int, max_count: int) -> int {
    if max_count == 0 {
        COLOR_DARK as int
    } else {
        let steps = COLOR_LIGHT - COLOR_DARK + 1;
        let b = count * steps / max_count;
        COLOR_DARK + if b > steps - 1 {
            steps - 1
        } else {
            b
        }
    }
}

pub fn standing(mean: u64, best: u64) -> (r: Standing)
    requires
        best <= mean,
    ensures
        mean == best ==> r is Best,
        mean != best && best > 0 ==> r == (Standing::Slower {
            tenths_percent: slower_tenths(mean as int, best as int) as u128,
        }),
        mean != best && best == 0 ==> r is Unbounded,
{
    if mean == best {
        Standing::Best
    } else if best == 0 {
        Standing::Unbounded
    } else {
        let d: u128 = (mean - best) as u128;
        let b: u128 = best as u128;
        let t: u128 = (2000 * d + b) / (2 * b);
        Standing::Slower { tenths_percent: t }
    }
}

pub fn heat_color(count: usize, max_count: usize) -> (r: u16)
    ensures
        r == heat_color_spec(count as int, max_count as int),
        COLOR_DARK <= r <= COLOR_LIGHT,
{
    if max_count == 0 {
        return COLOR_DARK;
    }
    let steps: u128 = (COLOR_LIGHT - COLOR_DARK + 1) as u128;
    assert(count as u128 * steps <= 24 * usize::MAX) by (nonlinear_arith)
        requires
            steps == 24,
            count <= usize::MAX,
    ;
    let b: u128 = count as u128 * steps / max_count as u128;
    if b > steps - 1 {
        COLOR_LIGHT
    } else {
        COLOR_DARK + b as u16
    }
}

/// Whether the rank statistics are shown after `trials` completed trials.
pub fn shows_rank_stats(trials: u64) -> (r: bool)
    ensures
        r == (trials >= RANK_STATS_MIN_TRIALS),
{
    trials >= RANK_STATS_MIN_TRIALS
}


/// Number of heat-map cells per candidate.
pub const BUCKETS: usize = 100;

/// Rank quantile of a sorted sequence, `None` when empty.
pub open spec fn quantile_spec(s: Seq<u64>, q_permille: int) -> Option<u64> {
    if s.len() == 0 {
        None
    } else {
        Some(s[rank_index(s.len() as int, q_permille)])
    }
}

/// What `standing` returns for a mean at or above the best mean.
pub open spec fn standing_spec(mean: u64, best: u64) -> Standing {
    if mean == best {
        Standing::Best
    } else if best == 0 {
        Standing::Unbounded
    } else {
        Standing::Slower { tenths_percent: slower_tenths(mean as int, best as int) as u128 }
    }
}

/// One candidate's line of the report.
pub struct Row {
    pub samples: usize,
    pub mean: Option<u64>,
    /// Shown once enough trials have run.
    pub standing: Option<Standing>,
    pub p50: Option<u64>,
    pub p95: Option<u64>,
    pub p99: Option<u64>,
    /// One grey level per histogram bucket.
    pub colors: Vec<u16>,
}

/// Everything one redraw shows, derived afresh from the samples.
pub struct Report {
    pub best: Option<u64>,
    pub range_max: u64,
    pub max_count: usize,
    pub rows: Vec<Row>,
}

/// `m` is the greatest bucket count over the histograms of all candidates
/// (`n` buckets spanning `[0, hi]`), `0` when there is none.
pub open spec fn is_max_over(ss: Seq<Seq<u64>>, n: nat, hi: int, m: int) -> bool {
    &&& forall|i: int, j: int|
        0 <= i < ss.len() && 0 <= j < n ==> #[trigger] hist_spec(ss[i], n, 0, hi)[j] <= m
    &&& (m == 0 || exists|i: int, j: int|
        0 <= i < ss.len() && 0 <= j < n && #[trigger] hist_spec(ss[i], n, 0, hi)[j] == m)
}

/// `row` shows the samples `s` of one candidate: count, mean, and, when `shown`,
/// standing against `best` and the 50th, 95th and 99th rank quantiles; its
/// colours grade the histogram over `[0, range_max]` against `max_count`.
pub open spec fn row_matches(
    row: Row,
    s: Seq<u64>,
    shown: bool,
    best: Option<u64>,
    range_max: u64,
    max_count: usize,
) -> bool {
    &&& row.samples == s.len()
    &&& row.mean == if s.len() > 0 {
        Some(mean_of(s) as u64)
    } else {
        None
    }
    &&& row.standing == if shown && s.len() > 0 {
        Some(standing_spec(mean_of(s) as u64, best->0))
    } else {
        None
    }
    &&& row.p50 == if shown {
        quantile_spec(s, 500)
    } else {
        None
    }
    &&& row.p95 == if shown {
        quantile_spec(s, 950)
    } else {
        None
    }
    &&& row.p99 == if shown {
        quantile_spec(s, 990)
    } else {
        None
    }
    &&& row.colors@.len() == BUCKETS
    &&& forall|j: int|
        0 <= j < BUCKETS ==> #[trigger] row.colors@[j] == heat_color_spec(
            hist_spec(s, BUCKETS as nat, 0, range_max as int)[j] as int,
            max_count as int,
        )
}

/// Samples of every candidate, with the count of completed trials.
pub struct Bench {
    stores: Vec<SampleStore>,
    trials: u64,
}

impl View for Bench {
    type V = Seq<Seq<u64>>;

    closed spec fn view(&self) -> Seq<Seq<u64>> {
        Seq::new(self.stores@.len(), |i: int| self.stores@[i]@)
    }
}

impl Bench {
    /// The latest sample of each candidate.
    pub closed spec fn latest_spec(&self) -> Seq<Option<u64>> {
        Seq::new(self.stores@.len(), |i: int| self.stores@[i].latest_spec())
    }

    pub closed spec fn trials_spec(&self) -> u64 {
        self.trials
    }

    pub closed spec fn wf(&self) -> bool {
        &&& forall|i: int| 0 <= i < self.stores@.len() ==> (#[trigger] self.stores@[i]).wf()
        &&& total_samples(self@) == self.trials
    }

    /// Every completed trial left exactly one sample: the candidates' sample
    /// counts add up to the number of trials.
    pub proof fn lemma_counts_sum_to_trials(&self)
        requires
            self.wf(),
        ensures
            total_samples(self@) == self.trials_spec(),
    {
    }

    /// `n` candidates without samples.
    pub fn new(n: usize) -> (r: Bench)
        ensures
            r.wf(),
            r@ == Seq::new(n as nat, |i: int| Seq::<u64>::empty()),
            r.latest_spec() == Seq::new(n as nat, |i: int| None::<u64>),
            r.trials_spec() == 0,
    {
        let mut stores: Vec<SampleStore> = Vec::new();
        let mut i: usize = 0;
        while i < n
            invariant
                i <= n,
                stores@.len() == i,
                forall|k: int| 0 <= k < i ==> (#[trigger] stores@[k]).wf() && stores@[k]@
                    == Seq::<u64>::empty() && stores@[k].latest_spec() is None,
            decreases n - i,
        {
            stores.push(SampleStore::new());
            i += 1;
        }
        let r = Bench { stores, trials: 0 };
        assert(r@ =~= Seq::new(n as nat, |i: int| Seq::<u64>::empty()));
        proof {
            lemma_total_samples_empty(n as nat);
        }
        assert(r.latest_spec() =~= Seq::new(n as nat, |i: int| None::<u64>));
        r
    }

    pub fn candidates(&self) -> (r: usize)
        ensures
            r == self@.len(),
    {
        self.stores.len()
    }

    pub fn trials(&self) -> (r: u64)
        ensures
            r == self.trials_spec(),
    {
        self.trials
    }

    /// The samples of candidate `i`.
    pub fn store(&self, i: usize) -> (r: &SampleStore)
        requires
            self.wf(),
            i < self@.len(),
        ensures
            r.wf(),
            r@ == self@[i as int],
            r.latest_spec() == self.latest_spec()[i as int],
    {
        &self.stores[i]
    }

    /// Records one completed trial of candidate `i` that took `nanos`.
    pub fn record(&mut self, i: usize, nanos: u64)
        requires
            old(self).wf(),
            i < old(self)@.len(),
            old(self)@[i as int].len() < usize::MAX,
            old(self).trials_spec() < u64::MAX,
        ensures
            final(self).wf(),
            final(self)@.len() == old(self)@.len(),
            exists|p: int| crate::samples::placed_at(old(self)@[i as int], final(self)@[i as int], nanos, p),
            forall|j: int| 0 <= j < old(self)@.len() && j != i ==> final(self)@[j] == old(self)@[j],
            final(self).latest_spec() == old(self).latest_spec().update(i as int, Some(nanos)),
            final(self).trials_spec() == old(self).trials_spec() + 1,
            total_samples(final(self)@) == total_samples(old(self)@) + 1,
    {
        let ghost before = self.stores@;
        let mut store = self.stores.remove(i);
        assert(store == before[i as int]);
        store.insert(nanos);
        self.stores.insert(i, store);
        assert(self.stores@ =~= before.update(i as int, store));
        self.trials = self.trials + 1;
        proof {
            let p = choose|p: int| crate::samples::placed_at(before[i as int]@, store@, nanos, p);
            assert(self@[i as int] == store@);
            assert(crate::samples::placed_at(old(self)@[i as int], self@[i as int], nanos, p));
            assert(self@ =~= old(self)@.update(i as int, store@));
            lemma_total_samples_update(old(self)@, i as int, store@);
        }
        assert(self.latest_spec() =~= old(self).latest_spec().update(i as int, Some(nanos)));
    }

    /// Floor of the mean of candidate `i`, `None` before its first sample.
    pub fn mean(&self, i: usize) -> (r: Option<u64>)
        requires
            self.wf(),
            i < self@.len(),
        ensures
            self@[i as int].len() == 0 ==> r is None,
            self@[i as int].len() > 0 ==> r == Some(mean_of(self@[i as int]) as u64),
            r matches Some(m) ==> self@[i as int][0] <= m <= self@[i as int].last(),
    {
        self.stores[i].mean()
    }

    /// The least mean among the candidates that have samples.
    pub fn best_mean(&self) -> (r: Option<u64>)
        requires
            self.wf(),
        ensures
            is_best_mean(self@, r),
    {
        let mut best: Option<u64> = None;
        let mut i: usize = 0;
        while i < self.stores.len()
            invariant
                self.wf(),
                i <= self@.len(),
                is_best_mean(self@.take(i as int), best),
            decreases self@.len() - i,
        {
            let m = self.stores[i].mean();
            assert(self@[i as int] == self.stores@[i as int]@);
            match m {
                Some(v) => {
                    match best {
                        Some(b) => {
                            if v < b {
                                best = Some(v);
                            }
                        },
                        None => {
                            best = Some(v);
                        },
                    }
                },
                None => {},
            }
            proof {
                let prev = self@.take(i as int);
                let next = self@.take(i + 1);
                assert(next =~= prev.push(self@[i as int]));
                assert(forall|k: int| 0 <= k < i ==> next[k] == prev[k]);
                if best is Some {
                    let b = best->0;
                    if m is Some && m->0 == b {
                        assert(next[i as int].len() > 0 && mean_of(next[i as int]) == b);
                    } else {
                        let w = choose|w: int| 0 <= w < prev.len() && #[trigger] prev[w].len() > 0 && mean_of(prev[w]) == b;
                        assert(next[w].len() > 0 && mean_of(next[w]) == b);
                    }
                }
            }
            i += 1;
        }
        assert(self@.take(i as int) =~= self@);
        best
    }

    /// Upper end of the shared histogram range: the greatest of the candidates'
    /// latest samples, `0` when there is none.
    pub fn shared_max(&self) -> (r: u64)
        ensures
            is_shared_max(self.latest_spec(), r),
    {
        let mut m: u64 = 0;
        let mut i: usize = 0;
        while i < self.stores.len()
            invariant
                i <= self@.len(),
                is_shared_max(self.latest_spec().take(i as int), m),
            decreases self@.len() - i,
        {
            let l = self.stores[i].latest();
            match l {
                Some(v) => {
                    if v > m {
                        m = v;
                    }
                },
                None => {},
            }
            proof {
                let prev = self.latest_spec().take(i as int);
                let next = self.latest_spec().take(i + 1);
                assert(next =~= prev.push(l));
                assert(forall|k: int| 0 <= k < i ==> next[k] == prev[k]);
                if m != 0 {
                    if l == Some(m) {
                        assert(next[i as int] == Some(m));
                    } else {
                        let w = choose|w: int| 0 <= w < prev.len() && #[trigger] prev[w] == Some(m);
                        assert(next[w] == Some(m));
                    }
                }
            }
            i += 1;
        }
        assert(self.latest_spec().take(i as int) =~= self.latest_spec());
        m
    }

    /// Histogram of each candidate over `n` buckets spanning `[0, max]`.
    pub fn histograms(&self, n: usize, max: u64) -> (r: Vec<Vec<usize>>)
        requires
            self.wf(),
        ensures
            r@.len() == self@.len(),
            forall|i: int| 0 <= i < r@.len() ==> (#[trigger] r@[i])@.len() == n,
            forall|i: int, j: int|
                0 <= i < r@.len() && 0 <= j < n ==> #[trigger] r@[i]@[j] == hist_spec(
                    self@[i],
                    n as nat,
                    0,
                    max as int,
                )[j],
    {
        let mut out: Vec<Vec<usize>> = Vec::new();
        let mut i: usize = 0;
        while i < self.stores.len()
            invariant
                i <= self@.len(),
                out@.len() == i,
                forall|k: int| 0 <= k < i ==> (#[trigger] out@[k])@.len() == n,
                forall|k: int, j: int|
                    0 <= k < i && 0 <= j < n ==> #[trigger] out@[k]@[j] == hist_spec(
                        self@[k],
                        n as nat,
                        0,
                        max as int,
                    )[j],
            decreases self@.len() - i,
        {
            let h = hist_buckets(self.stores[i].samples(), n, 0, max);
            out.push(h);
            i += 1;
        }
        out
    }

    /// The report of one redraw: best mean, shared range, greatest bucket count
    /// and one row per candidate, in candidate order.
    pub fn report(&self) -> (r: Report)
        requires
            self.wf(),
        ensures
            is_best_mean(self@, r.best),
            is_shared_max(self.latest_spec(), r.range_max),
            is_max_over(self@, BUCKETS as nat, r.range_max as int, r.max_count as int),
            r.rows@.len() == self@.len(),
            r.range_max > 0 ==> forall|i: int|
                0 <= i < self@.len() ==> total_of(
                    #[trigger] hist_spec(self@[i], BUCKETS as nat, 0, r.range_max as int),
                ) == self@[i].len(),
            forall|i: int|
                0 <= i < self@.len() ==> row_matches(
                    #[trigger] r.rows@[i],
                    self@[i],
                    self.trials_spec() >= RANK_STATS_MIN_TRIALS,
                    r.best,
                    r.range_max,
                    r.max_count,
                ),
    {
        let best = self.best_mean();
        let range_max = self.shared_max();
        let hists = self.histograms(BUCKETS, range_max);
        let ghost hi = range_max as int;
        let mut max_count: usize = 0;
        let mut i: usize = 0;
        while i < hists.len()
            invariant
                i <= hists@.len(),
                hists@.len() == self@.len(),
                forall|k: int| 0 <= k < hists@.len() ==> (#[trigger] hists@[k])@.len() == BUCKETS,
                forall|k: int, j: int|
                    0 <= k < hists@.len() && 0 <= j < BUCKETS ==> #[trigger] hists@[k]@[j]
                        == hist_spec(self@[k], BUCKETS as nat, 0, hi)[j],
                is_max_over(self@.take(i as int), BUCKETS as nat, hi, max_count as int),
            decreases hists@.len() - i,
        {
            let m = max_bucket(&hists[i]);
            proof {
                let prev = self@.take(i as int);
                let next = self@.take(i + 1);
                assert(next =~= prev.push(self@[i as int]));
                assert(forall|k: int| 0 <= k < i ==> next[k] == prev[k]);
                assert forall|k: int, j: int|
                    0 <= k < next.len() && 0 <= j < BUCKETS implies #[trigger] hist_spec(
                        next[k],
                        BUCKETS as nat,
                        0,
                        hi,
                    )[j] <= (if m > max_count {
                        m
                    } else {
                        max_count
                    }) by {
                    if k < i {
                        assert(hist_spec(prev[k], BUCKETS as nat, 0, hi)[j] <= max_count);
                    } else {
                        assert(hists@[k]@[j] <= m);
                    }
                }
                if m > max_count {
                    let w = choose|w: int| 0 <= w < hists@[i as int]@.len() && hists@[i as int]@[w] == m;
                    assert(hist_spec(next[i as int], BUCKETS as nat, 0, hi)[w] == m);
                } else if max_count != 0 {
                    let (a, b) = choose|a: int, b: int|
                        0 <= a < prev.len() && 0 <= b < BUCKETS && #[trigger] hist_spec(
                            prev[a],
                            BUCKETS as nat,
                            0,
                            hi,
                        )[b] == max_count;
                    assert(hist_spec(next[a], BUCKETS as nat, 0, hi)[b] == max_count);
                }
            }
            if m > max_count {
                max_count = m;
            }
            i += 1;
        }
        assert(self@.take(i as int) =~= self@);
        let shown = shows_rank_stats(self.trials);
        let mut rows: Vec<Row> = Vec::new();
        let mut i: usize = 0;
        while i < self.stores.len()
            invariant
                self.wf(),
                i <= self@.len(),
                rows@.len() == i,
                hists@.len() == self@.len(),
                forall|k: int| 0 <= k < hists@.len() ==> (#[trigger] hists@[k])@.len() == BUCKETS,
                forall|k: int, j: int|
                    0 <= k < hists@.len() && 0 <= j < BUCKETS ==> #[trigger] hists@[k]@[j]
                        == hist_spec(self@[k], BUCKETS as nat, 0, hi)[j],
                is_best_mean(self@, best),
                hi == range_max,
                shown == (self.trials_spec() >= RANK_STATS_MIN_TRIALS),
                forall|k: int|
                    0 <= k < i ==> row_matches(
                        #[trigger] rows@[k],
                        self@[k],
                        shown,
                        best,
                        range_max,
                        max_count,
                    ),
            decreases self@.len() - i,
        {
            let store = self.store(i);
            let mean = store.mean();
            let standing = if shown {
                match mean {
                    Some(v) => {
                        match best {
                            Some(b) => {
                                assert(self@[i as int].len() > 0);
                                Some(standing(v, b))
                            },
                            None => None,
                        }
                    },
                    None => None,
                }
            } else {
                None
            };
            let (p50, p95, p99) = if shown {
                (store.quantile(500), store.quantile(950), store.quantile(990))
            } else {
                (None, None, None)
            };
            let mut colors: Vec<u16> = Vec::new();
            let mut j: usize = 0;
            while j < BUCKETS
                invariant
                    j <= BUCKETS,
                    i < hists@.len(),
                    hists@[i as int]@.len() == BUCKETS,
                    colors@.len() == j,
                    forall|t: int|
                        0 <= t < j ==> #[trigger] colors@[t] == heat_color_spec(
                            hists@[i as int]@[t] as int,
                            max_count as int,
                        ),
                decreases BUCKETS - j,
            {
                colors.push(heat_color(hists[i][j], max_count));
                j += 1;
            }
            let row = Row { samples: store.len(), mean, standing, p50, p95, p99, colors };
            proof {
                assert forall|t: int| 0 <= t < BUCKETS implies #[trigger] row.colors@[t] == heat_color_spec(
                    hist_spec(self@[i as int], BUCKETS as nat, 0, range_max as int)[t] as int,
                    max_count as int,
                ) by {
                    assert(hists@[i as int]@[t] == hist_spec(self@[i as int], BUCKETS as nat, 0, hi)[t]);
                }
                if shown && self@[i as int].len() > 0 {
                    assert(best is Some);
                }
            }
            rows.push(row);
            i += 1;
        }
        assert forall|i: int| range_max > 0 && 0 <= i < self@.len() implies total_of(
            #[trigger] hist_spec(self@[i], BUCKETS as nat, 0, range_max as int),
        ) == self@[i].len() by {
            lemma_hist_total(self@[i], BUCKETS as nat, 0, range_max as int);
        }
        Report { best, range_max, max_count, rows }
    }
}

} // verus!
