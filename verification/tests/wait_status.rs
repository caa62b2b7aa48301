use prux::os::linux::{decode_wait_status, reap_any_outcome, wait_pid_outcome, WaitOutcome, ECHILD};
use prux::reaper::ChildState;

#[test]
fn exit_code_is_decoded_from_second_byte() {
    assert_eq!(decode_wait_status(7 << 8), ChildState::Exited(7));
    assert_eq!(decode_wait_status(0), ChildState::Exited(0));
}

#[test]
fn stop_signal_is_decoded() {
    assert_eq!(decode_wait_status((19 << 8) | 0x7f), ChildState::Stopped(19));
}

#[test]
fn terminating_signal_is_decoded_with_or_without_core() {
    assert_eq!(decode_wait_status(9), ChildState::Signaled(9));
    assert_eq!(decode_wait_status(0x80 | 11), ChildState::Signaled(11));
}

#[test]
fn waitpid_results_are_interpreted() {
    assert_eq!(wait_pid_outcome(-1, 0), WaitOutcome::Failed);
    assert_eq!(wait_pid_outcome(0, 0), WaitOutcome::NoChange);
    assert_eq!(wait_pid_outcome(42, 3 << 8), WaitOutcome::Changed(42, ChildState::Exited(3)));
    assert_eq!(reap_any_outcome(-1, Some(ECHILD), 0), WaitOutcome::NoChange);
    assert_eq!(reap_any_outcome(-1, Some(4), 0), WaitOutcome::Failed);
    assert_eq!(reap_any_outcome(-1, None, 0), WaitOutcome::Failed);
}
