use ab::bench::Bench;
use ab::schedule::{pick_candidate, Action, Outcome, Phase, Session, TRIALS};

fn drive(session: &mut Session, mut duration: impl FnMut(usize) -> Outcome) -> Action {
    loop {
        match session.next_action() {
            Action::Run { candidate, .. } => session.on_outcome(candidate, duration(candidate)),
            other => return other,
        }
    }
}

#[test]
fn full_run_counts_every_trial() {
    let mut session = Session::new(2, TRIALS);
    let end = drive(&mut session, |c| Outcome::Succeeded { nanos: 1_000_000 + c as u64 * 1000 });
    assert!(matches!(end, Action::Finish));
    assert!(matches!(session.phase(), Phase::Done));
    let bench: &Bench = session.bench();
    assert_eq!(bench.trials(), 10_000);
    assert_eq!(bench.store(0).len() + bench.store(1).len(), 10_000);
    for i in 0..2 {
        if bench.store(i).len() > 0 {
            assert!(bench.mean(i).unwrap() > 0);
        }
    }
    assert_eq!(bench.mean(1), Some(1_001_000));
}

#[test]
fn warm_up_failure_aborts_before_any_trial() {
    let mut session = Session::new(2, TRIALS);
    assert!(matches!(session.next_action(), Action::Run { candidate: 0, timed: false }));
    session.on_outcome(0, Outcome::Succeeded { nanos: 5 });
    assert!(matches!(session.next_action(), Action::Run { candidate: 1, timed: false }));
    session.on_outcome(1, Outcome::Failed);
    assert!(matches!(session.next_action(), Action::Abort));
    assert_eq!(session.bench().trials(), 0);
    assert_eq!(session.bench().store(0).len(), 0);
}

#[test]
fn measurement_failure_aborts() {
    let mut session = Session::new(1, 5);
    session.on_outcome(0, Outcome::Succeeded { nanos: 1 });
    assert!(matches!(session.phase(), Phase::Measure));
    session.on_outcome(0, Outcome::Succeeded { nanos: 7 });
    session.on_outcome(0, Outcome::Failed);
    assert!(matches!(session.next_action(), Action::Abort));
    assert_eq!(session.bench().trials(), 1);
    session.on_outcome(0, Outcome::Succeeded { nanos: 9 });
    assert_eq!(session.bench().trials(), 1);
}

#[test]
fn zero_target_finishes_after_warm_up() {
    let mut session = Session::new(1, 0);
    let end = drive(&mut session, |_| Outcome::Succeeded { nanos: 3 });
    assert!(matches!(end, Action::Finish));
    assert_eq!(session.bench().trials(), 0);
}

#[test]
fn pick_candidate_in_range_and_roughly_uniform() {
    let mut counts = [0usize; 4];
    for _ in 0..4000 {
        let c = pick_candidate(4);
        assert!(c < 4);
        counts[c] += 1;
    }
    assert!(counts.iter().all(|&n| n > 700));
    assert_eq!(pick_candidate(1), 0);
}
