use prux::os::linux::{ProcSummary, SignalRequest, SignalTarget, SIGCONT_SIGNAL, SIGHUP_SIGNAL, SIGKILL, SIGTERM};
use prux::session::{
    default_shell_config, interrupted_process_group, retry_current_dir, CleanupAction,
    InterruptCleanup, LivenessCheck, TerminateAction, Termination,
};
use prux::spawn::SpawnMode;
use prux::ProcessError;

fn group(group: i32, signal: i32) -> SignalRequest {
    SignalRequest {
        target: SignalTarget::Group(group),
        signal,
    }
}

#[test]
fn dead_child_needs_no_termination() {
    let mut t = Termination::new(10);
    assert!(matches!(t.observe(LivenessCheck::Alive(false)), TerminateAction::Finish(Ok(()))));
}

#[test]
fn termination_sends_term_then_kill_then_gives_up() {
    let mut t = Termination::new(10);
    match t.observe(LivenessCheck::Alive(true)) {
        TerminateAction::SignalAndWait { request, wait_ms } => {
            assert_eq!(request, SignalRequest { target: SignalTarget::GroupOrProcess(10), signal: SIGTERM });
            assert_eq!(wait_ms, 2000);
        }
        other => panic!("unexpected {other:?}"),
    }
    assert!(matches!(t.observe(LivenessCheck::Alive(true)), TerminateAction::Sleep(20)));
    match t.observe(LivenessCheck::DeadlinePassed) {
        TerminateAction::SignalAndWait { request, wait_ms } => {
            assert_eq!(request, SignalRequest { target: SignalTarget::GroupOrProcess(10), signal: SIGKILL });
            assert_eq!(wait_ms, 1000);
        }
        other => panic!("unexpected {other:?}"),
    }
    assert!(matches!(t.observe(LivenessCheck::Alive(true)), TerminateAction::Sleep(10)));
    match t.observe(LivenessCheck::DeadlinePassed) {
        TerminateAction::Finish(Err(ProcessError::Signal(m))) => {
            assert_eq!(m, "terminate: process did not exit after SIGTERM/SIGKILL")
        }
        other => panic!("unexpected {other:?}"),
    }
}

#[test]
fn termination_succeeds_once_child_is_gone_after_term() {
    let mut t = Termination::new(10);
    let _ = t.observe(LivenessCheck::Alive(true));
    assert!(matches!(t.observe(LivenessCheck::Alive(false)), TerminateAction::Finish(Ok(()))));
}

#[test]
fn interrupt_reaches_foreground_group_other_than_shell() {
    assert_eq!(interrupted_process_group(100, Some(200)), Some(200));
    assert_eq!(interrupted_process_group(100, Some(100)), None);
    assert_eq!(interrupted_process_group(100, None), None);
}

#[test]
fn current_dir_lookup_retries_only_its_own_failures_before_deadline() {
    let lookup = ProcessError::CurrentDir("current_dir: not found".to_string());
    let other = ProcessError::Io("read: x".to_string());
    assert!(retry_current_dir(&lookup, true));
    assert!(!retry_current_dir(&lookup, false));
    assert!(!retry_current_dir(&other, true));
}

#[test]
fn cleanup_gives_up_after_six_quiet_probes() {
    let (mut c, first) = InterruptCleanup::new(100, 200);
    assert_eq!(first, CleanupAction::Probe { delay_ms: 25 });
    let mut probes = 1;
    loop {
        match c.observe_probe(Some(100), &[], &[]) {
            CleanupAction::Probe { delay_ms } => {
                assert_eq!(delay_ms, 25);
                probes += 1;
            }
            CleanupAction::Finish { last } => {
                assert_eq!(last, None);
                break;
            }
            other => panic!("unexpected {other:?}"),
        }
    }
    assert_eq!(probes, 6);
}

#[test]
fn cleanup_waits_while_shell_is_not_foreground() {
    let (mut c, _) = InterruptCleanup::new(100, 200);
    let attached = vec![ProcSummary { pid: 201, process_group_id: 200 }];
    assert_eq!(c.observe_probe(Some(200), &[], &attached), CleanupAction::Probe { delay_ms: 25 });
    assert_eq!(c.observe_probe(None, &[], &attached), CleanupAction::Probe { delay_ms: 25 });
}

#[test]
fn cleanup_hangs_up_lingering_group_then_terminates_it() {
    let (mut c, _) = InterruptCleanup::new(100, 200);
    let attached = vec![ProcSummary { pid: 201, process_group_id: 200 }];
    assert_eq!(
        c.observe_probe(Some(100), &[], &attached),
        CleanupAction::Recheck {
            hangup: group(200, SIGHUP_SIGNAL),
            resume: group(200, SIGCONT_SIGNAL),
            delay_ms: 50
        }
    );
    assert_eq!(
        c.observe_recheck(&[], &attached),
        CleanupAction::Finish { last: Some(group(200, SIGTERM)) }
    );
}

#[test]
fn cleanup_ends_quietly_when_hangup_sufficed() {
    let (mut c, _) = InterruptCleanup::new(100, 200);
    let attached = vec![ProcSummary { pid: 201, process_group_id: 200 }];
    let _ = c.observe_probe(Some(100), &[], &attached);
    assert_eq!(c.observe_recheck(&[], &[]), CleanupAction::Finish { last: None });
}

#[test]
fn default_shell_config_runs_bin_sh() {
    let config = default_shell_config(b"/tmp/work");
    assert_eq!(config.program, b"/bin/sh".to_vec());
    assert!(config.args.is_empty());
    assert_eq!(config.initial_cwd, b"/tmp/work".to_vec());
    assert!(config.debug_log_path.is_none());
    assert!(config.env.is_empty());
    let spawn = config.into_spawn_config(None);
    assert_eq!(spawn.mode, SpawnMode::ExplicitArgv);
    assert_eq!(spawn.program, b"/bin/sh".to_vec());
    assert_eq!(spawn.cwd, b"/tmp/work".to_vec());
}
