use prux::error::{OsError, OsErrorKind};
use prux::introspection::{proc_cwd_link, CwdLookup, CwdStep};
use prux::paths::paths_equal;
use prux::ProcessError;

fn failure(message: &str) -> OsError {
    OsError {
        kind: OsErrorKind::Other,
        raw_os_error: Some(2),
        message: message.to_string(),
    }
}

#[test]
fn cwd_link_paths_name_the_process() {
    assert_eq!(proc_cwd_link(1234), b"/proc/1234/cwd".to_vec());
    assert_eq!(proc_cwd_link(0), b"/proc/0/cwd".to_vec());
    assert_eq!(proc_cwd_link(-7), b"/proc/-7/cwd".to_vec());
    assert_eq!(proc_cwd_link(i32::MIN), format!("/proc/{}/cwd", i32::MIN).into_bytes());
    assert_eq!(proc_cwd_link(i32::MAX), format!("/proc/{}/cwd", i32::MAX).into_bytes());
}

#[test]
fn cwd_lookup_reads_foreground_group_first() {
    let (mut lookup, step) = CwdLookup::new(Ok(300));
    assert!(matches!(step, CwdStep::ReadLink(ref p) if p == b"/proc/300/cwd"));
    assert!(matches!(lookup.after_read(Ok(b"/home/u".to_vec())), CwdStep::Found(ref t) if t == b"/home/u"));
}

#[test]
fn cwd_lookup_falls_back_on_session() {
    let (mut lookup, _) = CwdLookup::new(Ok(300));
    assert!(matches!(lookup.after_read(Err(failure("gone"))), CwdStep::QuerySession));
    assert!(matches!(lookup.after_session(Some(42)), CwdStep::ReadLink(ref p) if p == b"/proc/42/cwd"));
    assert!(matches!(lookup.after_read(Ok(b"/srv".to_vec())), CwdStep::Found(ref t) if t == b"/srv"));
}

#[test]
fn cwd_lookup_reports_not_found() {
    let expected = "current_dir: unable to resolve current working directory for PTY foreground process";
    let (mut lookup, _) = CwdLookup::new(Ok(300));
    let _ = lookup.after_read(Err(failure("gone")));
    match lookup.after_session(None) {
        CwdStep::Failed(ProcessError::CurrentDir(m)) => assert_eq!(m, expected),
        other => panic!("unexpected {other:?}"),
    }
    let (mut lookup, _) = CwdLookup::new(Ok(300));
    let _ = lookup.after_read(Err(failure("gone")));
    let _ = lookup.after_session(Some(1));
    match lookup.after_read(Err(failure("gone"))) {
        CwdStep::Failed(ProcessError::CurrentDir(m)) => assert_eq!(m, expected),
        other => panic!("unexpected {other:?}"),
    }
}

#[test]
fn cwd_lookup_without_foreground_group_fails_with_its_error() {
    match CwdLookup::new(Err(failure("Inappropriate ioctl for device (os error 25)"))).1 {
        CwdStep::Failed(ProcessError::CurrentDir(m)) => {
            assert_eq!(m, "current_dir: Inappropriate ioctl for device (os error 25)")
        }
        other => panic!("unexpected {other:?}"),
    }
}

#[test]
fn paths_compare_by_components() {
    assert!(paths_equal(b"/dev/pts/3", b"/dev/pts/3"));
    assert!(paths_equal(b"/dev/pts/3", b"/dev//pts/3/"));
    assert!(paths_equal(b"/dev/./pts/3", b"/dev/pts/3"));
    assert!(!paths_equal(b"/dev/pts/3", b"/dev/pts/4"));
    assert!(!paths_equal(b"/dev/pts/3", b"dev/pts/3"));
    assert!(!paths_equal(b"./a", b"a"));
    assert!(paths_equal(b"./a", b"./a/"));
    assert!(paths_equal(b"a/.", b"a"));
    assert!(!paths_equal(b"a/..", b"a"));
    assert!(paths_equal(b"", b""));
    assert!(paths_equal(b"/", b"//"));
    for (a, b) in [
        ("/dev/pts/3", "/dev//pts/3/"),
        ("./a", "a"),
        ("a/.", "a"),
        ("/./x", "/x"),
        (".", ""),
        ("..", "."),
        ("/a/b", "/a/bc"),
    ] {
        assert_eq!(
            paths_equal(a.as_bytes(), b.as_bytes()),
            std::path::Path::new(a) == std::path::Path::new(b),
            "{a} vs {b}"
        );
    }
}
