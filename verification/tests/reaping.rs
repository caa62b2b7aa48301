use prux::os::linux::{SignalRequest, SignalTarget, WaitOutcome, SIGCONT, SIGTTIN, SIGTTOU};
use prux::reaper::{ChildState, ReapStep, ReapedStates, Reaper};

#[test]
fn new_reaper_tracks_running_child() {
    let reaper = Reaper::new(41);
    assert_eq!(reaper.pid(), 41);
    assert_eq!(reaper.state(), ChildState::Running);
    assert!(reaper.needs_reaping());
}

#[test]
fn refresh_takes_recorded_exit() {
    let mut table = ReapedStates::new();
    table.record(41, ChildState::Exited(7));
    let mut reaper = Reaper::new(41);
    assert_eq!(reaper.refresh(&table), ChildState::Exited(7));
    assert_eq!(reaper.state(), ChildState::Exited(7));
    assert!(!reaper.state().is_alive());
}

#[test]
fn refresh_without_record_keeps_running() {
    let mut table = ReapedStates::new();
    table.record(99, ChildState::Exited(0));
    let mut reaper = Reaper::new(41);
    assert_eq!(reaper.refresh(&table), ChildState::Running);
    assert!(reaper.state().is_alive());
}

#[test]
fn settled_state_is_kept_after_later_records() {
    let mut table = ReapedStates::new();
    table.record(41, ChildState::Stopped(19));
    let mut reaper = Reaper::new(41);
    assert_eq!(reaper.refresh(&table), ChildState::Stopped(19));
    assert!(reaper.state().is_alive());
    table.record(41, ChildState::Exited(0));
    assert_eq!(reaper.refresh(&table), ChildState::Stopped(19));
    assert!(!reaper.needs_reaping());
}

#[test]
fn refresh_twice_changes_nothing_more() {
    let mut table = ReapedStates::new();
    table.record(5, ChildState::Signaled(9));
    let mut reaper = Reaper::new(5);
    let first = reaper.refresh(&table);
    let second = reaper.refresh(&table);
    assert_eq!(first, second);
}

#[test]
fn absorbing_an_exit_records_it() {
    let mut table = ReapedStates::new();
    let step = table.absorb(WaitOutcome::Changed(12, ChildState::Exited(3)));
    assert_eq!(step, ReapStep::Recorded);
    assert_eq!(table.lookup(12), Some(ChildState::Exited(3)));
    assert_eq!(table.lookup(13), None);
}

#[test]
fn absorbing_a_stop_asks_for_sigcont_first() {
    let mut table = ReapedStates::new();
    let step = table.absorb(WaitOutcome::Changed(12, ChildState::Stopped(19)));
    assert_eq!(
        step,
        ReapStep::ResumeThenRecord {
            pid: 12,
            stop_signal: 19,
            resume: Some(SignalRequest {
                target: SignalTarget::GroupOrProcess(12),
                signal: SIGCONT
            }),
        }
    );
    assert_eq!(table.lookup(12), None);
}

#[test]
fn terminal_stops_are_not_resumed() {
    let mut table = ReapedStates::new();
    for sig in [SIGTTIN, SIGTTOU] {
        match table.absorb(WaitOutcome::Changed(12, ChildState::Stopped(sig))) {
            ReapStep::ResumeThenRecord { resume, .. } => assert_eq!(resume, None),
            other => panic!("unexpected step {other:?}"),
        }
    }
}

#[test]
fn absorbing_nothing_or_a_failure_ends_reaping() {
    let mut table = ReapedStates::new();
    assert_eq!(table.absorb(WaitOutcome::NoChange), ReapStep::Finished);
    assert_eq!(table.absorb(WaitOutcome::Failed), ReapStep::Failed);
}

#[test]
fn liveness_of_each_state() {
    assert!(ChildState::Running.is_alive());
    assert!(ChildState::Stopped(19).is_alive());
    assert!(!ChildState::Exited(0).is_alive());
    assert!(!ChildState::Signaled(9).is_alive());
}

#[test]
fn failed_reaping_leaves_a_running_tracker_unchanged() {
    let mut reaper = Reaper::new(41);
    let err = prux::reaper::wait_failure("Interrupted system call (os error 4)");
    match reaper.refresh_after(Err(err)) {
        Err(prux::ProcessError::Signal(m)) => {
            assert_eq!(m, "waitpid(WAIT_ANY): Interrupted system call (os error 4)")
        }
        other => panic!("unexpected {other:?}"),
    }
    assert_eq!(reaper.state(), ChildState::Running);
    assert_eq!(reaper.pid(), 41);
}

#[test]
fn settled_tracker_ignores_reaping() {
    let mut table = ReapedStates::new();
    table.record(41, ChildState::Exited(1));
    let mut reaper = Reaper::new(41);
    assert_eq!(reaper.refresh_after(Ok(&table)).unwrap(), ChildState::Exited(1));
    let err = prux::reaper::resume_failure("No such process (os error 3)");
    assert!(matches!(err, prux::ProcessError::Signal(ref m) if m == "resume stopped child: No such process (os error 3)"));
    assert_eq!(reaper.refresh_after(Err(err)).unwrap(), ChildState::Exited(1));
}

#[test]
fn last_change_of_a_pass_wins() {
    let mut table = ReapedStates::new();
    table.record(7, ChildState::Exited(9));
    for (pid, state) in [(1, ChildState::Stopped(19)), (2, ChildState::Exited(0)), (1, ChildState::Exited(2))] {
        let _ = table.absorb(prux::os::linux::WaitOutcome::Changed(pid, state));
        if let ChildState::Stopped(s) = state {
            table.record(pid, ChildState::Stopped(s));
        }
    }
    assert_eq!(table.lookup(1), Some(ChildState::Exited(2)));
    assert_eq!(table.lookup(2), Some(ChildState::Exited(0)));
    assert_eq!(table.lookup(7), Some(ChildState::Exited(9)));
}
