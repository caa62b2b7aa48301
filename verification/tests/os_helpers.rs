use prux::error::OsErrorKind;
use prux::os::linux::{
    child_terminal_settings, effective_interrupt_byte, io_error_from_errno, is_pty_eio, poll_step,
    resume_process_group_if_needed, shell_argv0, shell_path_from_env, signals_to_reset, ErrnoReport,
    PollStep, SavedTermios, SigSet, SignalRequest, SignalTarget, Termios, IUTF8,
};
use prux::ProcessError;

fn termios(fill: u8) -> Termios {
    Termios {
        c_iflag: 0o1,
        c_oflag: 2,
        c_cflag: 3,
        c_lflag: 4,
        c_line: 5,
        c_cc: [fill; 32],
        c_ispeed: 38400,
        c_ospeed: 38400,
    }
}

#[test]
fn signals_reset_in_child() {
    assert_eq!(signals_to_reset(false), vec![13, 20]);
    assert_eq!(signals_to_reset(true), vec![13, 20, 2, 3, 1, 17, 18, 15, 10, 12, 28]);
}

#[test]
fn stopped_child_is_resumed_unless_waiting_for_terminal() {
    assert_eq!(
        resume_process_group_if_needed(40, 19),
        Some(SignalRequest { target: SignalTarget::GroupOrProcess(40), signal: 18 })
    );
    assert_eq!(resume_process_group_if_needed(40, 21), None);
    assert_eq!(resume_process_group_if_needed(40, 22), None);
}

#[test]
fn errno_is_classified() {
    assert_eq!(io_error_from_errno(4), ErrnoReport::Interrupted);
    assert_eq!(io_error_from_errno(11), ErrnoReport::WouldBlock);
    assert_eq!(io_error_from_errno(5), ErrnoReport::Raw);
    assert!(is_pty_eio(Some(5)));
    assert!(!is_pty_eio(Some(4)));
    assert!(!is_pty_eio(None));
    let _ = OsErrorKind::Other;
}

#[test]
fn poll_results_are_classified() {
    assert_eq!(poll_step(1, 0), PollStep::Ready);
    assert_eq!(poll_step(0, 0), PollStep::Retry);
    assert_eq!(poll_step(-1, 4), PollStep::Retry);
    assert_eq!(poll_step(-1, 9), PollStep::Fail);
}

#[test]
fn interrupt_byte_defaults_to_ctrl_c() {
    assert_eq!(effective_interrupt_byte(0), 3);
    assert_eq!(effective_interrupt_byte(0x1c), 0x1c);
}

#[test]
fn child_terminal_takes_template_characters_utf8_and_del_erase() {
    let current = termios(1);
    let template = SavedTermios::new(termios(9));
    let settings = child_terminal_settings(current, Some(&template));
    assert_eq!(settings.c_iflag, 0o1 | IUTF8);
    assert_eq!(settings.c_oflag, 2);
    assert_eq!(settings.c_cc[0], 9);
    assert_eq!(settings.c_cc[2], 0x7f);
    assert_eq!(settings.c_cc[31], 9);
    let plain = child_terminal_settings(current, None);
    assert_eq!(plain.c_cc[0], 1);
    assert_eq!(plain.c_cc[2], 0x7f);
    assert_eq!(template.termios().c_cc[5], 9);
}

#[test]
fn shell_names_are_derived_from_path() {
    assert_eq!(shell_argv0("/bin/bash", false), Some("bash".to_string()));
    assert_eq!(shell_argv0("/bin/bash", true), Some("-bash".to_string()));
    assert_eq!(shell_argv0("zsh", true), Some("-zsh".to_string()));
    assert_eq!(shell_argv0("/usr/bin/", false), Some(String::new()));
    assert_eq!(shell_argv0("/bin/b\0sh", false), None);
    assert_eq!(shell_path_from_env(None), "/bin/sh");
    assert_eq!(shell_path_from_env(Some("/bin/fish".to_string())), "/bin/fish");
}

#[test]
fn empty_signal_set_is_all_zero() {
    assert_eq!(SigSet::empty().words, [0u64; 16]);
}

#[test]
fn error_constructors_prefix_the_context() {
    let e = ProcessError::spawn_io("forkpty", "Resource temporarily unavailable (os error 11)");
    assert!(matches!(e, ProcessError::Spawn(_)));
    assert_eq!(e.message(), "forkpty: Resource temporarily unavailable (os error 11)");
    assert!(matches!(ProcessError::io("read", "x"), ProcessError::Io(ref m) if m == "read: x"));
    assert!(matches!(ProcessError::signal("kill", "y"), ProcessError::Signal(ref m) if m == "kill: y"));
    assert!(matches!(
        ProcessError::current_dir("tcgetpgrp", "z"),
        ProcessError::CurrentDir(ref m) if m == "tcgetpgrp: z"
    ));
    let as_signal = ProcessError::Io("write: closed".to_string()).as_signal();
    assert!(matches!(as_signal, ProcessError::Signal(ref m) if m == "write: closed"));
}
