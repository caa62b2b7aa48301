use prux::error::{OsError, OsErrorKind};
use prux::spawn::{
    build_environment, exec_plan, merge_environment, prepare_argv, ChdirFallback, ChdirStep,
    ExecPlan, SpawnMode,
};
use prux::ProcessError;

fn strings(items: &[&str]) -> Vec<String> {
    items.iter().map(|s| s.to_string()).collect()
}

fn pairs(items: &[(&str, &str)]) -> Vec<(String, String)> {
    items.iter().map(|(k, v)| (k.to_string(), v.to_string())).collect()
}

fn failure() -> OsError {
    OsError {
        kind: OsErrorKind::Other,
        raw_os_error: Some(2),
        message: "No such file or directory (os error 2)".to_string(),
    }
}

#[test]
fn argv_is_program_then_arguments() {
    let argv = prepare_argv(b"/bin/sh", &strings(&["-c", "exit 7"]), b"/tmp").unwrap();
    assert_eq!(argv, vec![b"/bin/sh".to_vec(), b"-c".to_vec(), b"exit 7".to_vec()]);
}

#[test]
fn nul_in_program_or_cwd_is_refused_first() {
    match prepare_argv(b"/bin/\0sh", &strings(&["a\0"]), b"/t\0") {
        Err(ProcessError::Spawn(m)) => assert_eq!(m, "program path contains NUL: path contains NUL"),
        other => panic!("unexpected {other:?}"),
    }
    match prepare_argv(b"/bin/sh", &strings(&["a\0"]), b"/t\0") {
        Err(ProcessError::Spawn(m)) => assert_eq!(m, "cwd contains NUL: path contains NUL"),
        other => panic!("unexpected {other:?}"),
    }
}

#[test]
fn first_argument_with_nul_is_refused_with_its_position() {
    match prepare_argv(b"/bin/sh", &strings(&["ok", "abc\0d", "\0"]), b"/tmp") {
        Err(ProcessError::Spawn(m)) => assert_eq!(
            m,
            "argument contains NUL: nul byte found in provided data at position: 3"
        ),
        other => panic!("unexpected {other:?}"),
    }
}

#[test]
fn nul_position_counts_bytes_and_many_digits() {
    let arg = format!("é{}\0", "x".repeat(120));
    match prepare_argv(b"p", &vec![arg], b"/") {
        Err(ProcessError::Spawn(m)) => assert_eq!(
            m,
            "argument contains NUL: nul byte found in provided data at position: 122"
        ),
        other => panic!("unexpected {other:?}"),
    }
}

#[test]
fn environment_is_sorted_with_pwd_and_overrides() {
    let inherited = pairs(&[("PATH", "/bin"), ("HOME", "/root"), ("PWD", "/old"), ("LANG", "C")]);
    let extra = pairs(&[("LANG", "en_US.UTF-8"), ("PS1", "$ "), ("LANG", "fr_FR.UTF-8")]);
    let env = build_environment("/work", &inherited, &extra).unwrap();
    let text: Vec<String> = env.into_iter().map(|b| String::from_utf8(b).unwrap()).collect();
    assert_eq!(
        text,
        strings(&["HOME=/root", "LANG=fr_FR.UTF-8", "PATH=/bin", "PS1=$ ", "PWD=/work"])
    );
}

#[test]
fn environment_order_matches_btreemap() {
    let inherited = pairs(&[("b", "1"), ("B", "2"), ("ä", "3"), ("a_", "4"), ("a", "5"), ("z", "6")]);
    let merged = merge_environment("/", &inherited, &Vec::new());
    let mut expected = std::collections::BTreeMap::new();
    for (k, v) in &inherited {
        expected.insert(k.clone(), v.clone());
    }
    expected.insert("PWD".to_string(), "/".to_string());
    let expected: Vec<(String, String)> = expected.into_iter().collect();
    assert_eq!(merged, expected);
}

#[test]
fn environment_entry_with_nul_is_refused() {
    let inherited = pairs(&[("A", "ok"), ("B", "x\0y")]);
    match build_environment("/", &inherited, &Vec::new()) {
        Err(ProcessError::Spawn(m)) => assert_eq!(
            m,
            "environment contains NUL: nul byte found in provided data at position: 3"
        ),
        other => panic!("unexpected {other:?}"),
    }
}

#[test]
fn explicit_argv_searches_path_for_program() {
    let argv = vec![b"sh".to_vec(), b"-i".to_vec()];
    match exec_plan(SpawnMode::ExplicitArgv, argv.clone(), &strings(&["-i"]), None) {
        ExecPlan::SearchPath { file, argv: v } => {
            assert_eq!(file, b"sh".to_vec());
            assert_eq!(v, argv);
        }
        other => panic!("unexpected {other:?}"),
    }
}

#[test]
fn shell_command_runs_single_argument_with_dash_c() {
    let argv = vec![b"ignored".to_vec(), b"printf hi".to_vec()];
    match exec_plan(SpawnMode::ShellCommand, argv, &strings(&["printf hi"]), Some("/usr/bin/zsh".to_string())) {
        ExecPlan::Direct { path, argv } => {
            assert_eq!(path, b"/usr/bin/zsh".to_vec());
            assert_eq!(argv, vec![b"zsh".to_vec(), b"-c".to_vec(), b"printf hi".to_vec()]);
        }
        other => panic!("unexpected {other:?}"),
    }
}

#[test]
fn shell_command_needs_exactly_one_argument() {
    let argv = vec![b"ignored".to_vec()];
    assert!(matches!(
        exec_plan(SpawnMode::ShellCommand, argv.clone(), &Vec::new(), None),
        ExecPlan::Exit(127)
    ));
    assert!(matches!(
        exec_plan(SpawnMode::ShellCommand, argv, &strings(&["a", "b"]), None),
        ExecPlan::Exit(127)
    ));
}

#[test]
fn login_shell_runs_dash_prefixed_name() {
    match exec_plan(SpawnMode::LoginShell, vec![b"x".to_vec()], &Vec::new(), None) {
        ExecPlan::Direct { path, argv } => {
            assert_eq!(path, b"/bin/sh".to_vec());
            assert_eq!(argv, vec![b"-sh".to_vec()]);
        }
        other => panic!("unexpected {other:?}"),
    }
    assert!(matches!(
        exec_plan(SpawnMode::LoginShell, vec![b"x".to_vec()], &Vec::new(), Some("/bin/b\0sh".to_string())),
        ExecPlan::Exit(127)
    ));
}

#[test]
fn cwd_fallback_prefers_requested_directory() {
    let (mut f, first) = ChdirFallback::new(b"/work".to_vec(), Some("/home/u".to_string()));
    assert!(matches!(first, ChdirStep::Attempt(ref d) if d == b"/work"));
    assert!(matches!(f.after_attempt(Ok(())), ChdirStep::Settled(ref p) if p == "/work"));
}

#[test]
fn cwd_fallback_tries_home_then_root() {
    let (mut f, _) = ChdirFallback::new(b"/gone".to_vec(), Some("/home/u".to_string()));
    assert!(matches!(f.after_attempt(Err(failure())), ChdirStep::Attempt(ref d) if d == b"/home/u"));
    assert!(matches!(f.after_attempt(Err(failure())), ChdirStep::Attempt(ref d) if d == b"/"));
    assert!(matches!(f.after_attempt(Ok(())), ChdirStep::Settled(ref p) if p == "/"));

    let (mut g, _) = ChdirFallback::new(b"/gone".to_vec(), Some("/home/u".to_string()));
    let _ = g.after_attempt(Err(failure()));
    assert!(matches!(g.after_attempt(Ok(())), ChdirStep::Settled(ref p) if p == "/home/u"));
}

#[test]
fn cwd_fallback_without_home_goes_to_root_and_reports_its_failure() {
    let (mut f, _) = ChdirFallback::new(b"/gone".to_vec(), None);
    assert!(matches!(f.after_attempt(Err(failure())), ChdirStep::Attempt(ref d) if d == b"/"));
    match f.after_attempt(Err(failure())) {
        ChdirStep::Failed(ProcessError::Spawn(m)) => {
            assert_eq!(m, "prepare cwd: No such file or directory (os error 2)")
        }
        other => panic!("unexpected {other:?}"),
    }
}

#[test]
fn cwd_fallback_refuses_home_with_nul() {
    let (mut f, _) = ChdirFallback::new(b"/gone".to_vec(), Some("/ho\0me".to_string()));
    match f.after_attempt(Err(failure())) {
        ChdirStep::Failed(ProcessError::Spawn(m)) => assert_eq!(m, "prepare cwd: HOME contains NUL"),
        other => panic!("unexpected {other:?}"),
    }
}

#[test]
fn settled_requested_directory_is_decoded_lossily() {
    let (mut f, _) = ChdirFallback::new(vec![b'/', 0xff, b'a'], None);
    assert!(matches!(f.after_attempt(Ok(())), ChdirStep::Settled(ref p) if p == "/\u{fffd}a"));
}

#[test]
fn pwd_added_with_nul_is_replaced_by_cwd() {
    let extra = pairs(&[("PWD", "bad\0")]);
    let env = build_environment("/work", &Vec::new(), &extra).unwrap();
    assert_eq!(env, vec![b"PWD=/work".to_vec()]);
}
