use vstd::prelude::*;
use crate::bench::{total_samples, Bench};
use crate::samples::placed_at;

verus! {

/// Measured trials in a full run.
pub const TRIALS: u64 = 10000;

/// Where a session stands.
#[derive(Clone, Copy, PartialEq, Eq, Structural)]
pub enum Phase {
    /// Warming up candidate `next`; each candidate runs once, in order.
    WarmUp { next: usize },
    /// Running measured trials of randomly chosen candidates.
    Measure,
    /// Every trial ran.
    Done,
    /// A run failed; nothing more runs.
    Failed,
}

/// What the driver does next.
#[derive(Clone, Copy, PartialEq, Eq, Structural)]
pub enum Action {
    /// Run candidate `candidate`, timing it when `timed`.
    Run { candidate: usize, timed: bool },
    /// Stop with success.
    Finish,
    /// Stop with failure.
    Abort,
}

/// How a run ended.
#[derive(Clone, Copy, PartialEq, Eq, Structural)]
pub enum Outcome {
    /// Exited with success after `nanos` nanoseconds.
    Succeeded { nanos: u64 },
    /// Could not be started, or exited with failure.
    Failed,
}

/// Relies on rand::Rng::gen_range on rand::thread_rng(): a value drawn from
/// `0..n`; it panics on an empty range, hence `n > 0`.
#[verifier::external_body]
fn random_below(n: usize) -> (r: usize)
    requires
        n > 0,
    ensures
        r < n,
{
    rand::Rng::gen_range(&mut rand::thread_rng(), 0..n)
}

/// A uniformly chosen candidate index below `n`.
pub fn pick_candidate(n: usize) -> (r: usize)
    requires
        n > 0,
    ensures
        r < n,
{
    random_below(n)
}

/// The decisions of a benchmark run: warm-up of each candidate in order, then
/// `target` measured trials, stopping at the first failed run.
pub struct Session {
    bench: Bench,
    phase: Phase,
    target: u64,
}

impl Session {
    pub closed spec fn bench_spec(&self) -> Bench {
        self.bench
    }

    pub closed spec fn phase_spec(&self) -> Phase {
        self.phase
    }

    pub closed spec fn target_spec(&self) -> u64 {
        self.target
    }

    pub closed spec fn wf(&self) -> bool {
        &&& self.bench.wf()
        &&& self.bench@.len() > 0
        &&& (self.target as int) < usize::MAX
        &&& self.bench.trials_spec() <= self.target
        &&& forall|i: int| 0 <= i < self.bench@.len() ==> (#[trigger] self.bench@[i]).len() <= self.bench.trials_spec()
        &&& match self.phase {
            Phase::WarmUp { next } => next < self.bench@.len() && self.bench.trials_spec() == 0,
            Phase::Measure => self.bench.trials_spec() < self.target,
            Phase::Done => self.bench.trials_spec() == self.target,
            Phase::Failed => true,
        }
    }

    /// A session over `n` candidates that will measure `target` trials.
    pub fn new(n: usize, target: u64) -> (r: Session)
        requires
            n > 0,
            (target as int) < usize::MAX,
        ensures
            r.wf(),
            r.phase_spec() == (Phase::WarmUp { next: 0 }),
            r.target_spec() == target,
            r.bench_spec()@ == Seq::new(n as nat, |i: int| Seq::<u64>::empty()),
            r.bench_spec().trials_spec() == 0,
            total_samples(r.bench_spec()@) == 0,
    {
        let r = Session { bench: Bench::new(n), phase: Phase::WarmUp { next: 0 }, target };
        proof {
            r.bench.lemma_counts_sum_to_trials();
        }
        r
    }

    pub fn bench(&self) -> (r: &Bench)
        ensures
            r == self.bench_spec(),
    {
        &self.bench
    }

    pub fn phase(&self) -> (r: Phase)
        ensures
            r == self.phase_spec(),
    {
        self.phase
    }

    /// The next step: warm-up runs the candidates in order, untimed; a measured
    /// trial runs a randomly chosen candidate; a finished or failed session stops.
    pub fn next_action(&self) -> (r: Action)
        requires
            self.wf(),
        ensures
            self.phase_spec() matches Phase::WarmUp { next } ==> r == (Action::Run {
                candidate: next,
                timed: false,
            }),
            self.phase_spec() is Measure ==> (r matches Action::Run { candidate, timed } && timed
                && candidate < self.bench_spec()@.len()),
            self.phase_spec() is Done ==> r is Finish,
            self.phase_spec() is Failed ==> r is Abort,
    {
        match self.phase {
            Phase::WarmUp { next } => Action::Run { candidate: next, timed: false },
            Phase::Measure => Action::Run {
                candidate: pick_candidate(self.bench.candidates()),
                timed: true,
            },
            Phase::Done => Action::Finish,
            Phase::Failed => Action::Abort,
        }
    }

    /// Takes the outcome of the run of `candidate` that `next_action` asked for.
    /// A failed run fails the session. A warm-up run moves on to the next
    /// candidate, then to measurement; a measured run records its duration and
    /// ends the session once `target` trials have run.
    pub fn on_outcome(&mut self, candidate: usize, outcome: Outcome)
        requires
            old(self).wf(),
            old(self).phase_spec() matches Phase::WarmUp { next } ==> candidate == next,
            old(self).phase_spec() is Measure ==> candidate < old(self).bench_spec()@.len(),
        ensures
            final(self).wf(),
            final(self).target_spec() == old(self).target_spec(),
            total_samples(final(self).bench_spec()@) == final(self).bench_spec().trials_spec(),
            old(self).phase_spec() is Done || old(self).phase_spec() is Failed ==> *final(self)
                == *old(self),
            (old(self).phase_spec() is WarmUp || old(self).phase_spec() is Measure) && outcome is Failed
                ==> final(self).phase_spec() is Failed && final(self).bench_spec() == old(self).bench_spec(),
            old(self).phase_spec() matches Phase::WarmUp { next } ==> outcome is Succeeded ==> {
                &&& final(self).bench_spec() == old(self).bench_spec()
                &&& final(self).phase_spec() == if next + 1 < old(self).bench_spec()@.len() {
                    Phase::WarmUp { next: (next + 1) as usize }
                } else if old(self).target_spec() == 0 {
                    Phase::Done
                } else {
                    Phase::Measure
                }
            },
            outcome matches Outcome::Succeeded { nanos } ==> old(self).phase_spec() is Measure ==> {
                let (b0, b1) = (old(self).bench_spec(), final(self).bench_spec());
                &&& b1@.len() == b0@.len()
                &&& exists|p: int| placed_at(b0@[candidate as int], b1@[candidate as int], nanos, p)
                &&& forall|j: int| 0 <= j < b0@.len() && j != candidate ==> b1@[j] == b0@[j]
                &&& b1.latest_spec() == b0.latest_spec().update(candidate as int, Some(nanos))
                &&& b1.trials_spec() == b0.trials_spec() + 1
                &&& final(self).phase_spec() == if b1.trials_spec() == old(self).target_spec() {
                    Phase::Done
                } else {
                    Phase::Measure
                }
            },
    {
        match self.phase {
            Phase::WarmUp { next } => {
                match outcome {
                    Outcome::Failed => {
                        self.phase = Phase::Failed;
                    },
                    Outcome::Succeeded { .. } => {
                        let n = self.bench.candidates();
                        if next < n - 1 {
                            self.phase = Phase::WarmUp { next: next + 1 };
                        } else if self.target == 0 {
                            self.phase = Phase::Done;
                        } else {
                            self.phase = Phase::Measure;
                        }
                    },
                }
            },
            Phase::Measure => {
                match outcome {
                    Outcome::Failed => {
                        self.phase = Phase::Failed;
                    },
                    Outcome::Succeeded { nanos } => {
                        let ghost before = self.bench@;
                        assert(before[candidate as int].len() <= self.bench.trials_spec());
                        self.bench.record(candidate, nanos);
                        assert forall|i: int| 0 <= i < self.bench@.len() implies (#[trigger] self.bench@[i]).len()
                            <= self.bench.trials_spec() by {
                            if i != candidate {
                                assert(self.bench@[i] == before[i]);
                            } else {
                                let p = choose|p: int| placed_at(before[i], self.bench@[i], nanos, p);
                                assert(self.bench@[i].len() == before[i].len() + 1);
                            }
                        }
                        if self.bench.trials() == self.target {
                            self.phase = Phase::Done;
                        }
                    },
                }
            },
            Phase::Done => {},
            Phase::Failed => {},
        }
        proof {
            self.bench.lemma_counts_sum_to_trials();
        }
    }
}

} // verus!
