//! The decisions of spawning a program on a PTY: what the child runs, with
//! which arguments and environment, and in which directory.
use vstd::prelude::*;

use crate::error::{with_context, OsError, ProcessError};
use crate::os::linux::{
    has_nul,
    shell_argv0,
    shell_argv0_spec,
    shell_path_from_env,
    SavedTermios,
};
use crate::text::{append_decimal, chars_of, decimal_digits};
use vstd::utf8::{decode_utf8, encode_utf8, valid_utf8};

verus! {

/// How the child starts its program.
#[derive(Debug, Clone, Copy, PartialEq, Eq, Structural)]
pub enum SpawnMode {
    /// Run the program with the given arguments, searching `PATH`.
    ExplicitArgv,
    /// Run the single argument as a command of the user's shell.
    ShellCommand,
    /// Run the user's shell as a login shell.
    LoginShell,
}

/// Everything a spawn needs. Paths are byte strings, as the kernel takes
/// them.
pub struct SpawnConfig {
    pub program: Vec<u8>,
    pub args: Vec<String>,
    pub cwd: Vec<u8>,
    /// Variables added to the inherited environment; a later entry for the
    /// same name replaces an earlier one.
    pub env: Vec<(String, String)>,
    pub termios_template: Option<SavedTermios>,
    pub mode: SpawnMode,
}


// ---------------------------------------------------------------------------
// C strings
// ---------------------------------------------------------------------------

/// Whether `i` is the first position of a zero byte in `bytes`.
pub open spec fn is_first_nul(bytes: Seq<u8>, i: int) -> bool {
    0 <= i < bytes.len() && bytes[i] == 0 && forall|j: int| 0 <= j < i ==> bytes[j] != 0
}

/// Where the first zero byte of `bytes` is, if it has one: a C string
/// cannot be made of bytes that hold one.
pub open spec fn first_nul(bytes: Seq<u8>) -> Option<int> {
    if bytes.contains(0u8) {
        Some(choose|i: int| is_first_nul(bytes, i))
    } else {
        None
    }
}

/// The position found is a zero byte with none before it; where there is
/// no position, there is no zero byte.
pub proof fn lemma_first_nul_is_first_zero(bytes: Seq<u8>)
    ensures
        first_nul(bytes) matches Some(i) ==> 0 <= i < bytes.len() && bytes[i] == 0 && forall|j: int|
            0 <= j < i ==> bytes[j] != 0,
        first_nul(bytes) is None ==> forall|j: int| 0 <= j < bytes.len() ==> bytes[j] != 0,
{
    if bytes.contains(0u8) {
        let z = choose|z: int| 0 <= z < bytes.len() && bytes[z] == 0u8;
        lemma_some_first_zero(bytes, z);
    } else {
        assert forall|j: int| 0 <= j < bytes.len() implies bytes[j] != 0 by {
            if bytes[j] == 0 {
                assert(bytes.contains(0u8));
            }
        }
    }
}

proof fn lemma_some_first_zero(bytes: Seq<u8>, z: int)
    requires
        0 <= z < bytes.len(),
        bytes[z] == 0,
    ensures
        exists|i: int| is_first_nul(bytes, i),
    decreases z,
{
    if exists|j: int| 0 <= j < z && bytes[j] == 0 {
        let j = choose|j: int| 0 <= j < z && bytes[j] == 0;
        lemma_some_first_zero(bytes, j);
    } else {
        assert(is_first_nul(bytes, z));
    }
}

pub fn find_nul(bytes: &[u8]) -> (pos: Option<usize>)
    ensures
        pos matches Some(p) ==> first_nul(bytes@) == Some(p as int),
        pos is None ==> first_nul(bytes@) is None,
{
    let mut i: usize = 0;
    while i < bytes.len()
        invariant
            i <= bytes@.len(),
            forall|j: int| 0 <= j < i ==> bytes@[j] != 0,
        decreases bytes@.len() - i,
    {
        if bytes[i] == 0 {
            proof {
                assert(is_first_nul(bytes@, i as int));
                assert(bytes@.contains(0u8));
                let k = choose|k: int| is_first_nul(bytes@, k);
                if k < i {
                    assert(bytes@[k] != 0);
                } else if k > i {
                    assert(bytes@[i as int] != 0);
                }
            }
            return Some(i);
        }
        i = i + 1;
    }
    proof {
        if bytes@.contains(0u8) {
            let k = choose|k: int| 0 <= k < bytes@.len() && bytes@[k] == 0u8;
            assert(bytes@[k] != 0);
        }
    }
    None
}

/// The text of the error that refuses bytes with a zero byte at `pos` as a
/// C string.
pub open spec fn nul_error_text(pos: nat) -> Seq<char> {
    "nul byte found in provided data at position: "@ + decimal_digits(pos)
}

/// A spawn error for data with a zero byte at `pos`: `what` and then the
/// text of the refusal.
pub fn nul_spawn_error(what: &str, pos: usize) -> (e: ProcessError)
    ensures
        e is Spawn,
        e.message_spec() == what@ + ": "@ + nul_error_text(pos as nat),
{
    let mut message = String::from_str(what);
    message.append(": ");
    message.append("nul byte found in provided data at position: ");
    append_decimal(&mut message, pos);
    assert(message@ =~= what@ + ": "@ + nul_error_text(pos as nat));
    ProcessError::Spawn(message)
}

fn copy_bytes(bytes: &[u8]) -> (v: Vec<u8>)
    ensures
        v@ == bytes@,
{
    let mut v: Vec<u8> = Vec::new();
    let mut i: usize = 0;
    while i < bytes.len()
        invariant
            i <= bytes@.len(),
            v@ == bytes@.take(i as int),
        decreases bytes@.len() - i,
    {
        v.push(bytes[i]);
        assert(bytes@.take(i + 1) =~= bytes@.take(i as int).push(bytes@[i as int]));
        i = i + 1;
    }
    assert(bytes@.take(bytes@.len() as int) =~= bytes@);
    v
}

// ---------------------------------------------------------------------------
// Arguments
// ---------------------------------------------------------------------------

/// The first argument whose bytes hold a zero byte: its index and the
/// position of that byte.
pub open spec fn first_arg_nul(args: Seq<Seq<char>>) -> Option<(int, int)>
    decreases args.len(),
{
    if args.len() == 0 {
        None
    } else {
        match first_nul(encode_utf8(args[0])) {
            Some(p) => Some((0, p)),
            None => match first_arg_nul(args.drop_first()) {
                Some((i, p)) => Some((i + 1, p)),
                None => None,
            },
        }
    }
}

proof fn lemma_first_arg_nul(args: Seq<Seq<char>>, i: int)
    requires
        0 <= i <= args.len(),
        forall|k: int| 0 <= k < i ==> first_nul(encode_utf8(#[trigger] args[k])) is None,
    ensures
        i < args.len() && first_nul(encode_utf8(args[i])) is Some ==> first_arg_nul(args) == Some(
            (i, first_nul(encode_utf8(args[i]))->0),
        ),
        i == args.len() ==> first_arg_nul(args) is None,
    decreases i,
{
    if i > 0 {
        let rest = args.drop_first();
        assert forall|k: int| 0 <= k < i - 1 implies first_nul(encode_utf8(#[trigger] rest[k])) is None by {
            assert(rest[k] == args[k + 1]);
        }
        lemma_first_arg_nul(rest, i - 1);
        assert(first_nul(encode_utf8(args[0])) is None);
        if i < args.len() {
            assert(rest[i - 1] == args[i]);
        }
    }
}

/// The argument vector of an explicit spawn, as byte strings: the program,
/// then its arguments. The program and then the working directory are
/// refused if they hold a zero byte, then the first argument that holds one.
pub fn prepare_argv(program: &[u8], args: &Vec<String>, cwd: &[u8]) -> (argv: Result<
    Vec<Vec<u8>>,
    ProcessError,
>)
    ensures
        program@.contains(0u8) ==> (argv matches Err(e) && e is Spawn && e.message_spec()
            == "program path contains NUL: path contains NUL"@),
        !program@.contains(0u8) && cwd@.contains(0u8) ==> (argv matches Err(e) && e is Spawn
            && e.message_spec() == "cwd contains NUL: path contains NUL"@),
        !program@.contains(0u8) && !cwd@.contains(0u8) ==> match first_arg_nul(args.deep_view()) {
            Some((_, pos)) => argv matches Err(e) && e is Spawn && e.message_spec()
                == "argument contains NUL: "@ + nul_error_text(pos as nat),
            None => argv is Ok,
        },
        argv matches Ok(v) ==> {
            &&& v@.len() == args@.len() + 1
            &&& v@[0]@ == program@
            &&& forall|i: int| 0 <= i < args@.len() ==> (#[trigger] v@[i + 1])@ == encode_utf8(args@[i]@)
        },
{
    proof {
        reveal_strlit("program path contains NUL: path contains NUL");
    }
    if find_nul(program).is_some() {
        return Err(ProcessError::Spawn(String::from_str("program path contains NUL: path contains NUL")));
    }
    if find_nul(cwd).is_some() {
        return Err(ProcessError::Spawn(String::from_str("cwd contains NUL: path contains NUL")));
    }
    let mut argv: Vec<Vec<u8>> = Vec::new();
    argv.push(copy_bytes(program));
    let mut i: usize = 0;
    while i < args.len()
        invariant
            i <= args@.len(),
            !program@.contains(0u8),
            !cwd@.contains(0u8),
            argv@.len() == i + 1,
            argv@[0]@ == program@,
            forall|k: int| 0 <= k < i ==> (#[trigger] argv@[k + 1])@ == encode_utf8(args@[k]@),
            forall|k: int| 0 <= k < i ==> !encode_utf8(#[trigger] args@[k]@).contains(0u8),
        decreases args@.len() - i,
    {
        let bytes = args[i].as_str().as_bytes();
        match find_nul(bytes) {
            Some(pos) => {
                let e = nul_spawn_error("argument contains NUL", pos);
                proof {
                    reveal_strlit("argument contains NUL");
                    reveal_strlit(": ");
                    reveal_strlit("argument contains NUL: ");
                    assert(("argument contains NUL"@ + ": "@) =~= "argument contains NUL: "@);
                    let dv = args.deep_view();
                    assert forall|k: int| 0 <= k < i implies first_nul(encode_utf8(#[trigger] dv[k])) is None by {
                        assert(dv[k] == args@[k]@);
                        assert(!encode_utf8(args@[k]@).contains(0u8));
                    }
                    assert(dv[i as int] == args@[i as int]@);
                    lemma_first_arg_nul(dv, i as int);
                    assert(bytes@ == encode_utf8(dv[i as int]));
                    assert(first_nul(bytes@) == Some(pos as int));
                    assert(first_arg_nul(dv) == Some((i as int, pos as int)));
                    assert(e.message_spec() == "argument contains NUL: "@ + nul_error_text(pos as nat));
                }
                return Err(e);
            },
            None => {},
        }
        argv.push(copy_bytes(bytes));
        i = i + 1;
    }
    proof {
        let dv = args.deep_view();
        assert forall|k: int| 0 <= k < args@.len() implies first_nul(encode_utf8(#[trigger] dv[k])) is None by {
            assert(dv[k] == args@[k]@);
            assert(!encode_utf8(args@[k]@).contains(0u8));
        }
        lemma_first_arg_nul(dv, args@.len() as int);
    }
    Ok(argv)
}


// ---------------------------------------------------------------------------
// What the child runs
// ---------------------------------------------------------------------------

/// The status a child exits with when it cannot run its program.
pub const EXEC_FAILED_STATUS: i32 = 127;

/// What the child does once its signals, terminal and descriptors are
/// prepared.
#[derive(Debug)]
pub enum ExecPlan {
    /// `execvpe(file, argv, envp)`: run `file`, searching `PATH`.
    SearchPath { file: Vec<u8>, argv: Vec<Vec<u8>> },
    /// `execve(path, argv, envp)`: run the program at `path`.
    Direct { path: Vec<u8>, argv: Vec<Vec<u8>> },
    /// Exit at once with this status.
    Exit(i32),
}

/// The bytes of a string.
fn string_bytes(s: &str) -> (bytes: Vec<u8>)
    ensures
        bytes@ == encode_utf8(s@),
{
    s.as_bytes_vec()
}

/// Decides what the child runs. `argv` is the argument vector from
/// [`prepare_argv`], `args` the configured arguments, and `shell_var` the
/// value of `SHELL`, if set:
/// - an explicit spawn runs the program with `argv`, searching `PATH`;
/// - a shell command needs exactly one argument and runs the shell as
///   `<shell name> -c <argument>`;
/// - a login shell runs the shell as `-<shell name>`.
///
/// The child exits with [`EXEC_FAILED_STATUS`] where these cannot be made
/// into C strings.
pub fn exec_plan(mode: SpawnMode, argv: Vec<Vec<u8>>, args: &Vec<String>, shell_var: Option<String>) -> (plan: ExecPlan)
    requires
        argv@.len() >= 1,
    ensures
        ({
            let shell = match shell_var {
                Some(v) => v@,
                None => "/bin/sh"@,
            };
            match mode {
                SpawnMode::ExplicitArgv => plan matches ExecPlan::SearchPath { file, argv: v } && file@
                    == argv@[0]@ && v == argv,
                SpawnMode::ShellCommand => if args@.len() != 1 || encode_utf8(shell).contains(0u8)
                    || has_nul(shell_argv0_spec(shell, false)) || encode_utf8(args@[0]@).contains(
                    0u8,
                ) {
                    plan == ExecPlan::Exit(EXEC_FAILED_STATUS)
                } else {
                    plan matches ExecPlan::Direct { path, argv: v } && path@ == encode_utf8(shell)
                        && v@.len() == 3 && v@[0]@ == encode_utf8(shell_argv0_spec(shell, false))
                        && v@[1]@ == encode_utf8("-c"@) && v@[2]@ == encode_utf8(args@[0]@)
                },
                SpawnMode::LoginShell => if encode_utf8(shell).contains(0u8) || has_nul(
                    shell_argv0_spec(shell, true),
                ) {
                    plan == ExecPlan::Exit(EXEC_FAILED_STATUS)
                } else {
                    plan matches ExecPlan::Direct { path, argv: v } && path@ == encode_utf8(shell)
                        && v@.len() == 1 && v@[0]@ == encode_utf8(shell_argv0_spec(shell, true))
                },
            }
        }),
{
    match mode {
        SpawnMode::ExplicitArgv => {
            let file = copy_bytes(argv[0].as_slice());
            ExecPlan::SearchPath { file, argv }
        },
        SpawnMode::ShellCommand => {
            if args.len() != 1 {
                return ExecPlan::Exit(EXEC_FAILED_STATUS);
            }
            let shell = shell_path_from_env(shell_var);
            let path = string_bytes(shell.as_str());
            if find_nul(path.as_slice()).is_some() {
                return ExecPlan::Exit(EXEC_FAILED_STATUS);
            }
            let argv0 = match shell_argv0(shell.as_str(), false) {
                Some(name) => name,
                None => {
                    return ExecPlan::Exit(EXEC_FAILED_STATUS);
                },
            };
            let command = string_bytes(args[0].as_str());
            if find_nul(command.as_slice()).is_some() {
                return ExecPlan::Exit(EXEC_FAILED_STATUS);
            }
            let mut shell_argv: Vec<Vec<u8>> = Vec::new();
            shell_argv.push(string_bytes(argv0.as_str()));
            shell_argv.push(string_bytes("-c"));
            shell_argv.push(command);
            ExecPlan::Direct { path, argv: shell_argv }
        },
        SpawnMode::LoginShell => {
            let shell = shell_path_from_env(shell_var);
            let path = string_bytes(shell.as_str());
            if find_nul(path.as_slice()).is_some() {
                return ExecPlan::Exit(EXEC_FAILED_STATUS);
            }
            let argv0 = match shell_argv0(shell.as_str(), true) {
                Some(name) => name,
                None => {
                    return ExecPlan::Exit(EXEC_FAILED_STATUS);
                },
            };
            let mut shell_argv: Vec<Vec<u8>> = Vec::new();
            shell_argv.push(string_bytes(argv0.as_str()));
            ExecPlan::Direct { path, argv: shell_argv }
        },
    }
}

// ---------------------------------------------------------------------------
// The child's working directory
// ---------------------------------------------------------------------------

/// Names the text that `String::from_utf8_lossy` makes of `bytes`.
pub uninterp spec fn lossy_utf8(bytes: Seq<u8>) -> Seq<char>;

/// Calls `String::from_utf8_lossy`, which decodes `bytes` as UTF-8 and puts
/// U+FFFD for each invalid sequence; the contract states that valid UTF-8 is
/// decoded as it is, and names the result otherwise.
#[verifier::external_body]
fn string_from_utf8_lossy(bytes: &[u8]) -> (s: String)
    ensures
        s@ == lossy_utf8(bytes@),
        valid_utf8(bytes@) ==> s@ == decode_utf8(bytes@),
{
    String::from_utf8_lossy(bytes).into_owned()
}

#[derive(Clone, Copy, Debug, PartialEq, Eq, Structural)]
pub enum ChdirStage {
    Requested,
    Home,
    Root,
    Done,
}

/// What to do next while choosing the child's working directory.
#[derive(Debug)]
pub enum ChdirStep {
    /// Change into the directory with these bytes.
    Attempt(Vec<u8>),
    /// The working directory is now this one, as the `PWD` it is given.
    Settled(String),
    /// No directory could be entered.
    Failed(ProcessError),
}

/// Chooses the directory a child starts in: the requested one, or else
/// `HOME`, or else `/`.
pub struct ChdirFallback {
    requested: Vec<u8>,
    home: Option<String>,
    stage: ChdirStage,
}

impl ChdirFallback {
    pub closed spec fn stage_spec(&self) -> ChdirStage {
        self.stage
    }

    /// The `HOME` stage is reached only where `HOME` is set.
    pub closed spec fn wf(&self) -> bool {
        self.stage == ChdirStage::Home ==> self.home is Some
    }

    pub closed spec fn requested_spec(&self) -> Seq<u8> {
        self.requested@
    }

    pub closed spec fn home_spec(&self) -> Option<Seq<char>> {
        match self.home {
            Some(h) => Some(h@),
            None => None,
        }
    }

    /// Starts with the requested directory; `home` is the value of `HOME`,
    /// if set.
    pub fn new(requested: Vec<u8>, home: Option<String>) -> (pair: (ChdirFallback, ChdirStep))
        ensures
            pair.0.wf(),
            pair.0.stage_spec() == ChdirStage::Requested,
            pair.0.requested_spec() == requested@,
            pair.0.home_spec() == (match home {
                Some(h) => Some(h@),
                None => None,
            }),
            pair.1 matches ChdirStep::Attempt(dir) && dir@ == requested@,
    {
        let first = copy_bytes(requested.as_slice());
        (ChdirFallback { requested, home, stage: ChdirStage::Requested }, ChdirStep::Attempt(first))
    }

    /// Takes the outcome of the last attempt. The requested directory and
    /// `HOME` are each tried once, the first success settles, and only a
    /// failure to enter `/` is reported as such; a `HOME` that holds a zero
    /// byte ends the search.
    pub fn after_attempt(&mut self, outcome: Result<(), OsError>) -> (step: ChdirStep)
        requires
            old(self).wf(),
            old(self).stage_spec() != ChdirStage::Done,
        ensures
            final(self).wf(),
            final(self).requested_spec() == old(self).requested_spec(),
            final(self).home_spec() == old(self).home_spec(),
            match (old(self).stage_spec(), outcome) {
                (ChdirStage::Requested, Ok(())) => step matches ChdirStep::Settled(pwd) && pwd@
                    == lossy_utf8(old(self).requested_spec()) && final(self).stage_spec()
                    == ChdirStage::Done,
                (ChdirStage::Requested, Err(_)) => match old(self).home_spec() {
                    Some(h) => if encode_utf8(h).contains(0u8) {
                        step matches ChdirStep::Failed(e) && e is Spawn && e.message_spec()
                            == with_context("prepare cwd"@, "HOME contains NUL"@)
                            && final(self).stage_spec() == ChdirStage::Done
                    } else {
                        step matches ChdirStep::Attempt(dir) && dir@ == encode_utf8(h)
                            && final(self).stage_spec() == ChdirStage::Home
                    },
                    None => step matches ChdirStep::Attempt(dir) && dir@ == encode_utf8("/"@)
                        && final(self).stage_spec() == ChdirStage::Root,
                },
                (ChdirStage::Home, Ok(())) => step matches ChdirStep::Settled(pwd) && Some(pwd@)
                    == old(self).home_spec() && final(self).stage_spec() == ChdirStage::Done,
                (ChdirStage::Home, Err(_)) => step matches ChdirStep::Attempt(dir) && dir@
                    == encode_utf8("/"@) && final(self).stage_spec() == ChdirStage::Root,
                (_, Ok(())) => step matches ChdirStep::Settled(pwd) && pwd@ == "/"@
                    && final(self).stage_spec() == ChdirStage::Done,
                (_, Err(err)) => step matches ChdirStep::Failed(e) && e is Spawn && e.message_spec()
                    == with_context("prepare cwd"@, err.message@) && final(self).stage_spec()
                    == ChdirStage::Done,
            },
    {
        match self.stage {
            ChdirStage::Requested => match outcome {
                Ok(()) => {
                    self.stage = ChdirStage::Done;
                    ChdirStep::Settled(string_from_utf8_lossy(self.requested.as_slice()))
                },
                Err(_) => match &self.home {
                    Some(h) => {
                        let bytes = string_bytes(h.as_str());
                        if find_nul(bytes.as_slice()).is_some() {
                            self.stage = ChdirStage::Done;
                            ChdirStep::Failed(ProcessError::spawn_io("prepare cwd", "HOME contains NUL"))
                        } else {
                            self.stage = ChdirStage::Home;
                            ChdirStep::Attempt(bytes)
                        }
                    },
                    None => {
                        self.stage = ChdirStage::Root;
                        ChdirStep::Attempt(string_bytes("/"))
                    },
                },
            },
            ChdirStage::Home => match outcome {
                Ok(()) => {
                    self.stage = ChdirStage::Done;
                    match &self.home {
                        Some(h) => ChdirStep::Settled(h.clone()),
                        None => ChdirStep::Settled(String::from_str("/")),
                    }
                },
                Err(_) => {
                    self.stage = ChdirStage::Root;
                    ChdirStep::Attempt(string_bytes("/"))
                },
            },
            _ => match outcome {
                Ok(()) => {
                    self.stage = ChdirStage::Done;
                    ChdirStep::Settled(String::from_str("/"))
                },
                Err(err) => {
                    self.stage = ChdirStage::Done;
                    ChdirStep::Failed(ProcessError::spawn_io("prepare cwd", err.message.as_str()))
                },
            },
        }
    }
}


// ---------------------------------------------------------------------------
// The child's environment
// ---------------------------------------------------------------------------

/// Strict order of variable names, character by character: the order of
/// their UTF-8 bytes, in which a `BTreeMap` of strings lists them.
pub open spec fn key_lt(a: Seq<char>, b: Seq<char>) -> bool
    decreases a.len(),
{
    if a.len() == 0 {
        b.len() > 0
    } else if b.len() == 0 {
        false
    } else if a[0] < b[0] {
        true
    } else if a[0] > b[0] {
        false
    } else {
        key_lt(a.drop_first(), b.drop_first())
    }
}

pub proof fn lemma_key_lt_irreflexive(a: Seq<char>)
    ensures
        !key_lt(a, a),
    decreases a.len(),
{
    if a.len() > 0 {
        lemma_key_lt_irreflexive(a.drop_first());
    }
}

pub proof fn lemma_key_lt_transitive(a: Seq<char>, b: Seq<char>, c: Seq<char>)
    requires
        key_lt(a, b),
        key_lt(b, c),
    ensures
        key_lt(a, c),
    decreases a.len(),
{
    if a.len() > 0 && b.len() > 0 && c.len() > 0 {
        if a[0] == b[0] && b[0] == c[0] {
            lemma_key_lt_transitive(a.drop_first(), b.drop_first(), c.drop_first());
        }
    }
}

pub proof fn lemma_key_lt_total(a: Seq<char>, b: Seq<char>)
    ensures
        a != b ==> key_lt(a, b) || key_lt(b, a),
        key_lt(a, b) ==> !key_lt(b, a),
    decreases a.len(),
{
    if a.len() > 0 && b.len() > 0 {
        lemma_key_lt_total(a.drop_first(), b.drop_first());
        if a[0] == b[0] {
            if a.drop_first() == b.drop_first() {
                assert(a =~= seq![a[0]] + a.drop_first());
                assert(b =~= seq![b[0]] + b.drop_first());
            }
        }
    } else if a.len() == 0 && b.len() == 0 {
        assert(a =~= b);
    }
}

/// A name comes before every longer name that starts with it.
pub proof fn lemma_key_lt_proper_prefix(a: Seq<char>, b: Seq<char>)
    requires
        b.len() > 0,
    ensures
        key_lt(a, a + b),
    decreases a.len(),
{
    if a.len() > 0 {
        lemma_key_lt_proper_prefix(a.drop_first(), b);
        assert((a + b).drop_first() =~= a.drop_first() + b);
        assert((a + b)[0] == a[0]);
    }
}

/// After a common start, the name with the smaller character at the first
/// difference comes first, whatever follows.
pub proof fn lemma_key_lt_first_difference(
    prefix: Seq<char>,
    c1: char,
    c2: char,
    rest1: Seq<char>,
    rest2: Seq<char>,
)
    requires
        c1 < c2,
    ensures
        key_lt(prefix + seq![c1] + rest1, prefix + seq![c2] + rest2),
    decreases prefix.len(),
{
    let a = prefix + seq![c1] + rest1;
    let b = prefix + seq![c2] + rest2;
    if prefix.len() > 0 {
        lemma_key_lt_first_difference(prefix.drop_first(), c1, c2, rest1, rest2);
        assert(a.drop_first() =~= prefix.drop_first() + seq![c1] + rest1);
        assert(b.drop_first() =~= prefix.drop_first() + seq![c2] + rest2);
        assert(a[0] == prefix[0] && b[0] == prefix[0]);
    } else {
        assert(a[0] == c1 && b[0] == c2);
    }
}

#[derive(Clone, Copy, Debug, PartialEq, Eq, Structural)]
pub enum KeyOrder {
    Less,
    Equal,
    Greater,
}

fn compare_keys(a: &Vec<char>, b: &Vec<char>) -> (order: KeyOrder)
    ensures
        order == KeyOrder::Less <==> key_lt(a@, b@),
        order == KeyOrder::Equal <==> a@ == b@,
        order == KeyOrder::Greater <==> key_lt(b@, a@),
{
    proof {
        lemma_key_lt_total(a@, b@);
        lemma_key_lt_irreflexive(a@);
    }
    let mut i: usize = 0;
    assert(a@.skip(0) =~= a@);
    assert(b@.skip(0) =~= b@);
    while i < a.len() && i < b.len() && a[i] == b[i]
        invariant
            i <= a@.len(),
            i <= b@.len(),
            a@.take(i as int) =~= b@.take(i as int),
            key_lt(a@, b@) == key_lt(a@.skip(i as int), b@.skip(i as int)),
            key_lt(b@, a@) == key_lt(b@.skip(i as int), a@.skip(i as int)),
        decreases a@.len() - i,
    {
        assert(a@.skip(i as int).drop_first() =~= a@.skip(i + 1));
        assert(b@.skip(i as int).drop_first() =~= b@.skip(i + 1));
        assert(a@.take(i + 1) =~= a@.take(i as int).push(a@[i as int]));
        assert(b@.take(i + 1) =~= b@.take(i as int).push(b@[i as int]));
        i = i + 1;
    }
    if i == a.len() && i == b.len() {
        assert(a@ =~= a@.take(i as int));
        assert(b@ =~= b@.take(i as int));
        KeyOrder::Equal
    } else if i == a.len() {
        assert(a@ != b@) by {
            assert(a@.len() != b@.len());
        }
        KeyOrder::Less
    } else if i == b.len() {
        assert(a@ != b@) by {
            assert(a@.len() != b@.len());
        }
        KeyOrder::Greater
    } else {
        assert(a@ != b@) by {
            assert(a@[i as int] != b@[i as int]);
        }
        assert(a@.skip(i as int)[0] == a@[i as int]);
        assert(b@.skip(i as int)[0] == b@[i as int]);
        if a[i] < b[i] {
            KeyOrder::Less
        } else {
            KeyOrder::Greater
        }
    }
}

/// A map after inserting each pair in order: later pairs replace earlier
/// ones with the same name.
pub open spec fn insert_all(
    m: Map<Seq<char>, Seq<char>>,
    pairs: Seq<(Seq<char>, Seq<char>)>,
) -> Map<Seq<char>, Seq<char>>
    decreases pairs.len(),
{
    if pairs.len() == 0 {
        m
    } else {
        insert_all(m, pairs.drop_last()).insert(pairs.last().0, pairs.last().1)
    }
}

pub open spec fn pairs_view(pairs: Seq<(String, String)>) -> Seq<(Seq<char>, Seq<char>)> {
    pairs.map_values(|p: (String, String)| (p.0@, p.1@))
}

/// The variables a child gets: the inherited ones, then the added ones, and
/// `PWD` set to the directory it starts in.
pub open spec fn environment_map(
    cwd: Seq<char>,
    inherited: Seq<(Seq<char>, Seq<char>)>,
    extra: Seq<(Seq<char>, Seq<char>)>,
) -> Map<Seq<char>, Seq<char>> {
    insert_all(insert_all(Map::empty(), inherited), extra).insert("PWD"@, cwd)
}

/// Whether `entries` lists the variables of `m` in strictly increasing order
/// of names, each once with its value.
pub open spec fn lists_in_order(
    entries: Seq<(Seq<char>, Seq<char>)>,
    m: Map<Seq<char>, Seq<char>>,
) -> bool {
    &&& forall|i: int, j: int|
        0 <= i < j < entries.len() ==> key_lt(#[trigger] entries[i].0, #[trigger] entries[j].0)
    &&& forall|i: int|
        0 <= i < entries.len() ==> m.contains_key(#[trigger] entries[i].0) && m[entries[i].0]
            == entries[i].1
    &&& forall|k: Seq<char>| #[trigger]
        m.contains_key(k) ==> exists|i: int| 0 <= i < entries.len() && entries[i].0 == k
}

/// Adds a variable to an ordered listing: it replaces the entry with the
/// same name, or goes in its place by order.
fn insert_variable(
    entries: &mut Vec<(String, String)>,
    keys: &mut Vec<Vec<char>>,
    key: String,
    value: String,
    Ghost(m): Ghost<Map<Seq<char>, Seq<char>>>,
)
    requires
        old(keys)@.len() == old(entries)@.len(),
        forall|i: int| 0 <= i < old(keys)@.len() ==> (#[trigger] old(keys)@[i])@ == old(entries)@[i].0@,
        lists_in_order(pairs_view(old(entries)@), m),
    ensures
        final(keys)@.len() == final(entries)@.len(),
        forall|i: int| 0 <= i < final(keys)@.len() ==> (#[trigger] final(keys)@[i])@ == final(entries)@[i].0@,
        lists_in_order(pairs_view(final(entries)@), m.insert(key@, value@)),
{
    let k = chars_of(key.as_str());
    let ghost old_view = pairs_view(entries@);
    let ghost km = key@;
    let ghost vm = value@;
    let mut p: usize = 0;
    let mut equal = false;
    loop
        invariant_except_break
            !equal,
        invariant
            keys@.len() == entries@.len(),
            forall|i: int| 0 <= i < keys@.len() ==> (#[trigger] keys@[i])@ == entries@[i].0@,
            k@ == km,
            p <= keys@.len(),
            forall|i: int| 0 <= i < p ==> key_lt((#[trigger] keys@[i])@, km),
        ensures
            p <= keys@.len(),
            forall|i: int| 0 <= i < p ==> key_lt((#[trigger] keys@[i])@, km),
            equal ==> p < keys@.len() && keys@[p as int]@ == km,
            !equal ==> p == keys@.len() || key_lt(km, keys@[p as int]@),
        decreases keys@.len() - p,
    {
        if p == keys.len() {
            break;
        }
        match compare_keys(&keys[p], &k) {
            KeyOrder::Less => {
                p = p + 1;
            },
            KeyOrder::Equal => {
                equal = true;
                break;
            },
            KeyOrder::Greater => {
                break;
            },
        }
    }
    let ghost m2 = m.insert(km, vm);
    if equal {
        let ghost ok = keys@;
        assert(old_view[p as int].0 == km);
        entries.set(p, (key, value));
        proof {
            let nv = pairs_view(entries@);
            assert(nv =~= old_view.update(p as int, (km, vm)));
            lemma_key_lt_irreflexive(km);
            assert forall|i: int, j: int| 0 <= i < j < nv.len() implies key_lt(
                #[trigger] nv[i].0,
                #[trigger] nv[j].0,
            ) by {
                assert(key_lt(old_view[i].0, old_view[j].0));
            }
            assert forall|i: int| 0 <= i < nv.len() implies m2.contains_key(#[trigger] nv[i].0)
                && m2[nv[i].0] == nv[i].1 by {
                if i != p {
                    assert(nv[i] == old_view[i]);
                    if i < p {
                        assert(key_lt(ok[i]@, km));
                        assert(ok[i]@ == old_view[i].0);
                    } else {
                        assert(key_lt(old_view[p as int].0, old_view[i].0));
                    }
                    assert(old_view[i].0 != km);
                }
            }
            assert forall|k2: Seq<char>| #[trigger] m2.contains_key(k2) implies exists|i: int|
                0 <= i < nv.len() && nv[i].0 == k2 by {
                if k2 == km {
                    assert(nv[p as int].0 == k2);
                } else {
                    let i = choose|i: int| 0 <= i < old_view.len() && old_view[i].0 == k2;
                    assert(nv[i].0 == k2);
                }
            }
        }
    } else {
        let ghost ov = old_view;
        let ghost ok = keys@;
        entries.insert(p, (key, value));
        keys.insert(p, k);
        proof {
            let nv = pairs_view(entries@);
            assert(nv =~= ov.insert(p as int, (km, vm)));
            lemma_key_lt_irreflexive(km);
            assert forall|i: int, j: int| 0 <= i < j < nv.len() implies key_lt(
                #[trigger] nv[i].0,
                #[trigger] nv[j].0,
            ) by {
                if j < p {
                    assert(key_lt(ov[i].0, ov[j].0));
                } else if j == p {
                    assert(key_lt(ok[i]@, km));
                } else if i < p {
                    assert(key_lt(ok[i]@, km));
                    if j - 1 == p {
                        assert(key_lt(km, ov[p as int].0));
                    } else {
                        assert(key_lt(km, ov[p as int].0));
                        assert(key_lt(ov[p as int].0, ov[j - 1].0));
                        lemma_key_lt_transitive(km, ov[p as int].0, ov[j - 1].0);
                    }
                    lemma_key_lt_transitive(ov[i].0, km, ov[j - 1].0);
                } else if i == p {
                    if j - 1 == p {
                        assert(key_lt(km, ov[p as int].0));
                    } else {
                        assert(key_lt(ov[p as int].0, ov[j - 1].0));
                        lemma_key_lt_transitive(km, ov[p as int].0, ov[j - 1].0);
                    }
                } else {
                    assert(key_lt(ov[i - 1].0, ov[j - 1].0));
                }
            }
            assert forall|i: int| 0 <= i < nv.len() implies m2.contains_key(#[trigger] nv[i].0)
                && m2[nv[i].0] == nv[i].1 by {
                if i < p {
                    assert(nv[i] == ov[i]);
                    assert(key_lt(ok[i]@, km));
                } else if i > p {
                    assert(nv[i] == ov[i - 1]);
                    assert(key_lt(km, ov[p as int].0));
                    if i - 1 > p {
                        assert(key_lt(ov[p as int].0, ov[i - 1].0));
                        lemma_key_lt_transitive(km, ov[p as int].0, ov[i - 1].0);
                    }
                    assert(ov[i - 1].0 != km);
                }
            }
            assert forall|k2: Seq<char>| #[trigger] m2.contains_key(k2) implies exists|i: int|
                0 <= i < nv.len() && nv[i].0 == k2 by {
                if k2 == km {
                    assert(nv[p as int].0 == k2);
                } else {
                    let i = choose|i: int| 0 <= i < ov.len() && ov[i].0 == k2;
                    if i < p {
                        assert(nv[i].0 == k2);
                    } else {
                        assert(nv[i + 1].0 == k2);
                    }
                }
            }
            assert forall|i: int| 0 <= i < keys@.len() implies (#[trigger] keys@[i])@ == entries@[i].0@ by {
                if i < p {
                } else if i > p {
                }
            }
        }
    }
}


fn insert_pairs(
    entries: &mut Vec<(String, String)>,
    keys: &mut Vec<Vec<char>>,
    pairs: &Vec<(String, String)>,
    Ghost(base): Ghost<Map<Seq<char>, Seq<char>>>,
)
    requires
        old(keys)@.len() == old(entries)@.len(),
        forall|i: int| 0 <= i < old(keys)@.len() ==> (#[trigger] old(keys)@[i])@ == old(entries)@[i].0@,
        lists_in_order(pairs_view(old(entries)@), base),
    ensures
        final(keys)@.len() == final(entries)@.len(),
        forall|i: int| 0 <= i < final(keys)@.len() ==> (#[trigger] final(keys)@[i])@ == final(entries)@[i].0@,
        lists_in_order(pairs_view(final(entries)@), insert_all(base, pairs_view(pairs@))),
{
    let ghost pv = pairs_view(pairs@);
    let mut i: usize = 0;
    assert(pv.take(0) =~= seq![]);
    while i < pairs.len()
        invariant
            pv == pairs_view(pairs@),
            i <= pairs@.len(),
            keys@.len() == entries@.len(),
            forall|j: int| 0 <= j < keys@.len() ==> (#[trigger] keys@[j])@ == entries@[j].0@,
            lists_in_order(pairs_view(entries@), insert_all(base, pv.take(i as int))),
        decreases pairs@.len() - i,
    {
        let key = pairs[i].0.clone();
        let value = pairs[i].1.clone();
        proof {
            assert(pv.take(i + 1).drop_last() =~= pv.take(i as int));
            assert(pv.take(i + 1).last() == (key@, value@));
        }
        insert_variable(entries, keys, key, value, Ghost(insert_all(base, pv.take(i as int))));
        i = i + 1;
    }
    assert(pv.take(pairs@.len() as int) =~= pv);
}

/// The variables a child gets, in order of names, each once.
pub fn merge_environment(
    cwd: &str,
    inherited: &Vec<(String, String)>,
    extra: &Vec<(String, String)>,
) -> (merged: Vec<(String, String)>)
    ensures
        lists_in_order(
            pairs_view(merged@),
            environment_map(cwd@, pairs_view(inherited@), pairs_view(extra@)),
        ),
{
    let mut entries: Vec<(String, String)> = Vec::new();
    let mut keys: Vec<Vec<char>> = Vec::new();
    let ghost empty = Map::<Seq<char>, Seq<char>>::empty();
    assert(pairs_view(entries@) =~= seq![]);
    insert_pairs(&mut entries, &mut keys, inherited, Ghost(empty));
    let ghost after_inherited = insert_all(empty, pairs_view(inherited@));
    insert_pairs(&mut entries, &mut keys, extra, Ghost(after_inherited));
    let ghost after_extra = insert_all(after_inherited, pairs_view(extra@));
    insert_variable(
        &mut entries,
        &mut keys,
        String::from_str("PWD"),
        String::from_str(cwd),
        Ghost(after_extra),
    );
    entries
}

/// The text of one variable as the child receives it: `name=value`.
pub open spec fn entry_text(entry: (Seq<char>, Seq<char>)) -> Seq<char> {
    entry.0 + "="@ + entry.1
}

pub open spec fn entry_texts(entries: Seq<(Seq<char>, Seq<char>)>) -> Seq<Seq<char>> {
    entries.map_values(|e: (Seq<char>, Seq<char>)| entry_text(e))
}

/// What becomes of a listing of variables: the bytes of each `name=value`,
/// or the refusal of the first one that holds a zero byte.
pub open spec fn environment_outcome(
    entries: Seq<(Seq<char>, Seq<char>)>,
    outcome: Result<Vec<Vec<u8>>, ProcessError>,
) -> bool {
    match first_arg_nul(entry_texts(entries)) {
        Some((_, pos)) => outcome matches Err(e) && e is Spawn && e.message_spec()
            == "environment contains NUL: "@ + nul_error_text(pos as nat),
        None => outcome matches Ok(v) && v@.len() == entries.len() && forall|i: int|
            0 <= i < entries.len() ==> (#[trigger] v@[i])@ == encode_utf8(entry_text(entries[i])),
    }
}

/// Turns a listing of variables into the byte strings of `name=value`.
pub fn environment_entries(entries: &Vec<(String, String)>) -> (outcome: Result<
    Vec<Vec<u8>>,
    ProcessError,
>)
    ensures
        environment_outcome(pairs_view(entries@), outcome),
{
    let ghost texts = entry_texts(pairs_view(entries@));
    let mut out: Vec<Vec<u8>> = Vec::new();
    let mut i: usize = 0;
    while i < entries.len()
        invariant
            texts == entry_texts(pairs_view(entries@)),
            i <= entries@.len(),
            out@.len() == i,
            forall|k: int| 0 <= k < i ==> (#[trigger] out@[k])@ == encode_utf8(texts[k]),
            forall|k: int| 0 <= k < i ==> first_nul(encode_utf8(#[trigger] texts[k])) is None,
        decreases entries@.len() - i,
    {
        let mut text = entries[i].0.clone();
        text.append("=");
        text.append(entries[i].1.as_str());
        assert(text@ == texts[i as int]);
        let bytes = string_bytes(text.as_str());
        match find_nul(bytes.as_slice()) {
            Some(pos) => {
                let e = nul_spawn_error("environment contains NUL", pos);
                proof {
                    reveal_strlit("environment contains NUL");
                    reveal_strlit(": ");
                    reveal_strlit("environment contains NUL: ");
                    assert(("environment contains NUL"@ + ": "@) =~= "environment contains NUL: "@);
                    lemma_first_arg_nul(texts, i as int);
                }
                return Err(e);
            },
            None => {},
        }
        out.push(bytes);
        i = i + 1;
    }
    proof {
        lemma_first_arg_nul(texts, entries@.len() as int);
    }
    Ok(out)
}

/// The environment of a spawned child: the inherited variables, then the
/// added ones, and `PWD` set to the directory it starts in, listed in order
/// of names as `name=value` byte strings.
pub fn build_environment(
    cwd: &str,
    inherited: &Vec<(String, String)>,
    extra: &Vec<(String, String)>,
) -> (outcome: Result<Vec<Vec<u8>>, ProcessError>)
    ensures
        exists|listing: Seq<(Seq<char>, Seq<char>)>|
            lists_in_order(
                listing,
                environment_map(cwd@, pairs_view(inherited@), pairs_view(extra@)),
            ) && environment_outcome(listing, outcome),
        (forall|k: Seq<char>| #[trigger]
            environment_map(cwd@, pairs_view(inherited@), pairs_view(extra@)).contains_key(k)
                ==> !encode_utf8(k).contains(0u8) && !encode_utf8(
                environment_map(cwd@, pairs_view(inherited@), pairs_view(extra@))[k],
            ).contains(0u8)) ==> outcome is Ok,
{
    let merged = merge_environment(cwd, inherited, extra);
    let outcome = environment_entries(&merged);
    proof {
        let m = environment_map(cwd@, pairs_view(inherited@), pairs_view(extra@));
        if forall|k: Seq<char>| #[trigger]
            m.contains_key(k) ==> !encode_utf8(k).contains(0u8) && !encode_utf8(m[k]).contains(
                0u8,
            ) {
            lemma_environment_without_nul_succeeds(pairs_view(merged@), m);
        }
    }
    assert(lists_in_order(
        pairs_view(merged@),
        environment_map(cwd@, pairs_view(inherited@), pairs_view(extra@)),
    ) && environment_outcome(pairs_view(merged@), outcome));
    outcome
}


/// Inserting pairs into `m` gives each name the value of its last pair, and
/// leaves the other names as `m` has them.
pub proof fn lemma_insert_all_lookup(
    m: Map<Seq<char>, Seq<char>>,
    pairs: Seq<(Seq<char>, Seq<char>)>,
    k: Seq<char>,
)
    ensures
        ({
            let added = insert_all(Map::empty(), pairs);
            let all = insert_all(m, pairs);
            &&& all.contains_key(k) == (added.contains_key(k) || m.contains_key(k))
            &&& added.contains_key(k) ==> all[k] == added[k]
            &&& !added.contains_key(k) && m.contains_key(k) ==> all[k] == m[k]
        }),
    decreases pairs.len(),
{
    if pairs.len() > 0 {
        lemma_insert_all_lookup(m, pairs.drop_last(), k);
    }
}

/// Inserting a pair always sets that name to that value, empty or not.
pub proof fn lemma_insert_all_push(
    m: Map<Seq<char>, Seq<char>>,
    pairs: Seq<(Seq<char>, Seq<char>)>,
    name: Seq<char>,
    value: Seq<char>,
)
    ensures
        insert_all(m, pairs.push((name, value))) == insert_all(m, pairs).insert(name, value),
        insert_all(m, pairs.push((name, value))).contains_key(name),
        insert_all(m, pairs.push((name, value)))[name] == value,
{
    assert(pairs.push((name, value)).drop_last() =~= pairs);
}

/// The last pair for a name decides its value, whatever the value is.
proof fn lemma_insert_all_last_pair(
    m: Map<Seq<char>, Seq<char>>,
    pairs: Seq<(Seq<char>, Seq<char>)>,
    i: int,
)
    requires
        0 <= i < pairs.len(),
        forall|j: int| i < j < pairs.len() ==> (#[trigger] pairs[j]).0 != pairs[i].0,
    ensures
        insert_all(m, pairs).contains_key(pairs[i].0),
        insert_all(m, pairs)[pairs[i].0] == pairs[i].1,
    decreases pairs.len(),
{
    if i < pairs.len() - 1 {
        let rest = pairs.drop_last();
        assert forall|j: int| i < j < rest.len() implies (#[trigger] rest[j]).0 != rest[i].0 by {
            assert(rest[j] == pairs[j]);
        }
        lemma_insert_all_last_pair(m, rest, i);
        assert(pairs.last().0 != pairs[i].0);
    }
}

/// Every added variable other than `PWD` reaches the child with the value
/// of its last entry, even an empty one.
pub proof fn lemma_added_variable_reaches_child(
    cwd: Seq<char>,
    inherited: Seq<(Seq<char>, Seq<char>)>,
    extra: Seq<(Seq<char>, Seq<char>)>,
    i: int,
)
    requires
        0 <= i < extra.len(),
        extra[i].0 != "PWD"@,
        forall|j: int| i < j < extra.len() ==> (#[trigger] extra[j]).0 != extra[i].0,
    ensures
        environment_map(cwd, inherited, extra).contains_key(extra[i].0),
        environment_map(cwd, inherited, extra)[extra[i].0] == extra[i].1,
{
    lemma_insert_all_last_pair(insert_all(Map::empty(), inherited), extra, i);
}

/// Every inherited variable other than `PWD` that is not added reaches the
/// child with the value of its last inherited entry, even an empty one.
pub proof fn lemma_inherited_variable_reaches_child(
    cwd: Seq<char>,
    inherited: Seq<(Seq<char>, Seq<char>)>,
    extra: Seq<(Seq<char>, Seq<char>)>,
    i: int,
)
    requires
        0 <= i < inherited.len(),
        inherited[i].0 != "PWD"@,
        forall|j: int| i < j < inherited.len() ==> (#[trigger] inherited[j]).0 != inherited[i].0,
        forall|j: int| 0 <= j < extra.len() ==> (#[trigger] extra[j]).0 != inherited[i].0,
    ensures
        environment_map(cwd, inherited, extra).contains_key(inherited[i].0),
        environment_map(cwd, inherited, extra)[inherited[i].0] == inherited[i].1,
{
    let k = inherited[i].0;
    lemma_insert_all_last_pair(Map::empty(), inherited, i);
    lemma_insert_all_lookup(insert_all(Map::empty(), inherited), extra, k);
    lemma_insert_all_absent(Map::empty(), extra, k);
}

proof fn lemma_insert_all_absent(
    m: Map<Seq<char>, Seq<char>>,
    pairs: Seq<(Seq<char>, Seq<char>)>,
    k: Seq<char>,
)
    requires
        forall|j: int| 0 <= j < pairs.len() ==> (#[trigger] pairs[j]).0 != k,
    ensures
        insert_all(m, pairs).contains_key(k) == m.contains_key(k),
    decreases pairs.len(),
{
    if pairs.len() > 0 {
        let rest = pairs.drop_last();
        assert forall|j: int| 0 <= j < rest.len() implies (#[trigger] rest[j]).0 != k by {
            assert(rest[j] == pairs[j]);
        }
        lemma_insert_all_absent(m, rest, k);
        assert(pairs.last().0 != k);
    }
}

/// The child's `PWD` is the directory it starts in, whatever was inherited
/// or added.
pub proof fn lemma_environment_sets_pwd(
    cwd: Seq<char>,
    inherited: Seq<(Seq<char>, Seq<char>)>,
    extra: Seq<(Seq<char>, Seq<char>)>,
)
    ensures
        environment_map(cwd, inherited, extra).contains_key("PWD"@),
        environment_map(cwd, inherited, extra)["PWD"@] == cwd,
{
}

/// An added variable other than `PWD` takes precedence over an inherited
/// one; a variable that is not added keeps its inherited value.
pub proof fn lemma_added_variables_take_precedence(
    cwd: Seq<char>,
    inherited: Seq<(Seq<char>, Seq<char>)>,
    extra: Seq<(Seq<char>, Seq<char>)>,
    name: Seq<char>,
)
    requires
        name != "PWD"@,
    ensures
        ({
            let env = environment_map(cwd, inherited, extra);
            let added = insert_all(Map::empty(), extra);
            let base = insert_all(Map::empty(), inherited);
            &&& added.contains_key(name) ==> env.contains_key(name) && env[name] == added[name]
            &&& !added.contains_key(name) ==> (env.contains_key(name) == base.contains_key(name))
            &&& !added.contains_key(name) && base.contains_key(name) ==> env[name] == base[name]
        }),
{
    let base = insert_all(Map::empty(), inherited);
    lemma_insert_all_lookup(base, extra, name);
    lemma_insert_all_lookup(Map::empty(), inherited, name);
}

/// A map has one listing in order of names: two such listings are equal.
pub proof fn lemma_listing_is_unique(
    a: Seq<(Seq<char>, Seq<char>)>,
    b: Seq<(Seq<char>, Seq<char>)>,
    m: Map<Seq<char>, Seq<char>>,
)
    requires
        lists_in_order(a, m),
        lists_in_order(b, m),
    ensures
        a == b,
    decreases a.len(),
{
    if a.len() == 0 {
        if b.len() > 0 {
            assert(m.contains_key(b[0].0));
        }
        assert(a =~= b);
    } else {
        assert(m.contains_key(a[0].0));
        assert(b.len() > 0);
        let k0 = a[0].0;
        let j = choose|j: int| 0 <= j < b.len() && b[j].0 == k0;
        assert(m.contains_key(b[0].0));
        let i = choose|i: int| 0 <= i < a.len() && a[i].0 == b[0].0;
        if j > 0 {
            assert(key_lt(b[0].0, b[j].0));
            if i > 0 {
                assert(key_lt(a[0].0, a[i].0));
                lemma_key_lt_total(b[0].0, k0);
            } else {
                lemma_key_lt_irreflexive(k0);
            }
        }
        assert(b[0].0 == k0);
        assert(a[0] == b[0]);
        let m2 = m.remove(k0);
        let a2 = a.drop_first();
        let b2 = b.drop_first();
        lemma_key_lt_irreflexive(k0);
        assert(lists_in_order(a2, m2)) by {
            assert forall|x: int, y: int| 0 <= x < y < a2.len() implies key_lt(
                #[trigger] a2[x].0,
                #[trigger] a2[y].0,
            ) by {
                assert(key_lt(a[x + 1].0, a[y + 1].0));
            }
            assert forall|x: int| 0 <= x < a2.len() implies m2.contains_key(#[trigger] a2[x].0)
                && m2[a2[x].0] == a2[x].1 by {
                assert(key_lt(a[0].0, a[x + 1].0));
            }
            assert forall|k: Seq<char>| #[trigger] m2.contains_key(k) implies exists|x: int|
                0 <= x < a2.len() && a2[x].0 == k by {
                let x = choose|x: int| 0 <= x < a.len() && a[x].0 == k;
                assert(a2[x - 1].0 == k);
            }
        }
        assert(lists_in_order(b2, m2)) by {
            assert forall|x: int, y: int| 0 <= x < y < b2.len() implies key_lt(
                #[trigger] b2[x].0,
                #[trigger] b2[y].0,
            ) by {
                assert(key_lt(b[x + 1].0, b[y + 1].0));
            }
            assert forall|x: int| 0 <= x < b2.len() implies m2.contains_key(#[trigger] b2[x].0)
                && m2[b2[x].0] == b2[x].1 by {
                assert(key_lt(b[0].0, b[x + 1].0));
            }
            assert forall|k: Seq<char>| #[trigger] m2.contains_key(k) implies exists|x: int|
                0 <= x < b2.len() && b2[x].0 == k by {
                let x = choose|x: int| 0 <= x < b.len() && b[x].0 == k;
                assert(b2[x - 1].0 == k);
            }
        }
        lemma_listing_is_unique(a2, b2, m2);
        assert(a =~= seq![a[0]] + a2);
        assert(b =~= seq![b[0]] + b2);
    }
}


/// The UTF-8 bytes of two strings one after the other are the bytes of each,
/// one after the other.
pub proof fn lemma_encode_utf8_concat(a: Seq<char>, b: Seq<char>)
    ensures
        encode_utf8(a + b) == encode_utf8(a) + encode_utf8(b),
    decreases a.len(),
{
    if a.len() == 0 {
        assert(a + b =~= b);
    } else {
        lemma_encode_utf8_concat(a.drop_first(), b);
        assert((a + b).drop_first() =~= a.drop_first() + b);
        assert((a + b)[0] == a[0]);
    }
}

/// Where no name and no value of the child's variables holds a zero byte,
/// every `name=value` can be passed to it: building the environment
/// succeeds.
pub proof fn lemma_environment_without_nul_succeeds(
    listing: Seq<(Seq<char>, Seq<char>)>,
    m: Map<Seq<char>, Seq<char>>,
)
    requires
        lists_in_order(listing, m),
        forall|k: Seq<char>| #[trigger]
            m.contains_key(k) ==> !encode_utf8(k).contains(0u8) && !encode_utf8(m[k]).contains(
                0u8,
            ),
    ensures
        first_arg_nul(entry_texts(listing)) is None,
{
    let texts = entry_texts(listing);
    reveal_strlit("=");
    let eq: Seq<char> = "="@;
    assert(eq =~= seq!['=']);
    assert(eq.drop_first() =~= Seq::<char>::empty());
    assert(('=' as u32) == 0x3du32);
    assert((0x3du32 & 0x7f) as u8 == 0x3du8) by (bit_vector);
    assert(eq[0] == '=');
    assert(encode_utf8(eq.drop_first()) =~= Seq::<u8>::empty());
    assert(vstd::utf8::has_width_1_encoding(0x3du32));
    assert(vstd::utf8::encode_scalar(0x3du32) =~= seq![0x3du8]);
    assert(encode_utf8(eq) == vstd::utf8::encode_scalar(eq[0] as u32) + encode_utf8(eq.drop_first()));
    assert(encode_utf8(eq) =~= seq![0x3du8]);
    assert forall|i: int| 0 <= i < texts.len() implies first_nul(encode_utf8(#[trigger] texts[i]))
        is None by {
        let (k, v) = listing[i];
        assert(m.contains_key(k) && m[k] == v);
        lemma_encode_utf8_concat(k, eq);
        lemma_encode_utf8_concat(k + eq, v);
        let bytes = encode_utf8(k) + seq![0x3du8] + encode_utf8(v);
        assert(texts[i] == k + eq + v);
        assert(encode_utf8(texts[i]) == bytes);
        if bytes.contains(0u8) {
            let j = choose|j: int| 0 <= j < bytes.len() && bytes[j] == 0u8;
            if j < encode_utf8(k).len() {
                assert(encode_utf8(k)[j] == 0u8);
            } else if j == encode_utf8(k).len() {
            } else {
                assert(encode_utf8(v)[j - encode_utf8(k).len() - 1] == 0u8);
            }
        }
    }
    lemma_first_arg_nul(texts, texts.len() as int);
}

} // verus!
