use vstd::prelude::*;

verus! {

/// Why an operation on a process session failed; each variant carries the
/// message shown to the caller.
#[derive(Debug)]
pub enum ProcessError {
    Spawn(String),
    Io(String),
    Signal(String),
    CurrentDir(String),
    Unsupported(String),
}

/// A message that names the operation before the detail of what went wrong:
/// `context: detail`.
pub open spec fn with_context(context: Seq<char>, detail: Seq<char>) -> Seq<char> {
    context + seq![':', ' '] + detail
}

pub fn join_context(context: &str, detail: &str) -> (message: String)
    ensures
        message@ == with_context(context@, detail@),
{
    let mut message = String::from_str(context);
    message.append(": ");
    proof {
        reveal_strlit(": ");
    }
    message.append(detail);
    assert(message@ =~= with_context(context@, detail@));
    message
}

/// How a failed system call's error is classified by the callers that retry
/// or stop on it.
#[derive(Clone, Copy, Debug, PartialEq, Eq, Structural)]
pub enum OsErrorKind {
    Interrupted,
    WouldBlock,
    Other,
}

/// A failed system call: its kind, the OS error number where it has one, and
/// its displayed text.
#[derive(Debug)]
pub struct OsError {
    pub kind: OsErrorKind,
    pub raw_os_error: Option<i32>,
    pub message: String,
}

impl ProcessError {
    /// The message the error carries, whatever its variant.
    pub open spec fn message_spec(&self) -> Seq<char> {
        match self {
            ProcessError::Spawn(m) => m@,
            ProcessError::Io(m) => m@,
            ProcessError::Signal(m) => m@,
            ProcessError::CurrentDir(m) => m@,
            ProcessError::Unsupported(m) => m@,
        }
    }

    /// The text of the error, as it is displayed.
    pub fn message(&self) -> (message: &String)
        ensures
            message@ == self.message_spec(),
    {
        match self {
            ProcessError::Spawn(m) => m,
            ProcessError::Io(m) => m,
            ProcessError::Signal(m) => m,
            ProcessError::CurrentDir(m) => m,
            ProcessError::Unsupported(m) => m,
        }
    }

    /// The same message, reported as a failure to signal.
    pub fn as_signal(&self) -> (e: ProcessError)
        ensures
            e is Signal,
            e.message_spec() == self.message_spec(),
    {
        ProcessError::Signal(self.message().clone())
    }

    /// A failure to spawn, from an OS error met during `context`.
    pub fn spawn_io(context: &str, detail: &str) -> (e: ProcessError)
        ensures
            e is Spawn,
            e.message_spec() == with_context(context@, detail@),
    {
        ProcessError::Spawn(join_context(context, detail))
    }

    /// A failed read, write or terminal operation.
    pub fn io(context: &str, detail: &str) -> (e: ProcessError)
        ensures
            e is Io,
            e.message_spec() == with_context(context@, detail@),
    {
        ProcessError::Io(join_context(context, detail))
    }

    /// A failure to wait for, signal or resume a process.
    pub fn signal(context: &str, detail: &str) -> (e: ProcessError)
        ensures
            e is Signal,
            e.message_spec() == with_context(context@, detail@),
    {
        ProcessError::Signal(join_context(context, detail))
    }

    /// A failure to find the working directory of the terminal's workload.
    pub fn current_dir(context: &str, detail: &str) -> (e: ProcessError)
        ensures
            e is CurrentDir,
            e.message_spec() == with_context(context@, detail@),
    {
        ProcessError::CurrentDir(join_context(context, detail))
    }
}

} // verus!
