//! The decisions of a process session: its configuration, how it stops its
//! child, and how it tidies up after an interrupt.
use vstd::prelude::*;

use crate::error::ProcessError;
use crate::os::linux::{
    is_lingering,
    lingering_tty_processes_for_interrupted_group,
    ProcSummary,
    SavedTermios,
    SignalRequest,
    SignalTarget,
    SIGCONT_SIGNAL,
    SIGHUP_SIGNAL,
    SIGKILL,
    SIGTERM,
};
use crate::spawn::{SpawnConfig, SpawnMode};

verus! {

/// What a session runs: the program and its arguments, the directory it
/// starts in, and the variables added to its environment. Paths are byte
/// strings, as the kernel takes them.
#[derive(Debug, Clone)]
pub struct ProcessSessionConfig {
    pub program: Vec<u8>,
    pub args: Vec<String>,
    pub initial_cwd: Vec<u8>,
    /// Accepted for callers that pass it; the session does not use it.
    pub debug_log_path: Option<Vec<u8>>,
    /// Variables added to the inherited environment; a later entry for the
    /// same name replaces an earlier one.
    pub env: Vec<(String, String)>,
}

/// A session running `/bin/sh` in `cwd`, with no arguments and no added
/// variables.
pub fn default_shell_config(cwd: &[u8]) -> (config: ProcessSessionConfig)
    ensures
        config.program@ == vstd::utf8::encode_utf8("/bin/sh"@),
        config.args@.len() == 0,
        config.initial_cwd@ == cwd@,
        config.debug_log_path is None,
        config.env@.len() == 0,
{
    let program = "/bin/sh".as_bytes_vec();
    let mut initial_cwd: Vec<u8> = Vec::new();
    let mut i: usize = 0;
    while i < cwd.len()
        invariant
            i <= cwd@.len(),
            initial_cwd@ == cwd@.take(i as int),
        decreases cwd@.len() - i,
    {
        initial_cwd.push(cwd[i]);
        assert(cwd@.take(i + 1) =~= cwd@.take(i as int).push(cwd@[i as int]));
        i = i + 1;
    }
    assert(cwd@.take(cwd@.len() as int) =~= cwd@);
    ProcessSessionConfig {
        program,
        args: Vec::new(),
        initial_cwd,
        debug_log_path: None,
        env: Vec::new(),
    }
}

impl ProcessSessionConfig {
    /// How a session spawns its program: the program itself with the given
    /// arguments, in the initial directory, with the caller's terminal
    /// settings as the template.
    pub fn into_spawn_config(self, termios_template: Option<SavedTermios>) -> (config: SpawnConfig)
        ensures
            config.program == self.program,
            config.args == self.args,
            config.cwd == self.initial_cwd,
            config.env == self.env,
            config.termios_template == termios_template,
            config.mode == SpawnMode::ExplicitArgv,
    {
        SpawnConfig {
            program: self.program,
            args: self.args,
            cwd: self.initial_cwd,
            env: self.env,
            termios_template,
            mode: SpawnMode::ExplicitArgv,
        }
    }
}

/// The process group that an interrupt reaches: the terminal's foreground
/// group, where it could be read and is not the shell's own.
pub fn interrupted_process_group(shell_process_group: i32, foreground: Option<i32>) -> (group:
    Option<i32>)
    ensures
        group == (match foreground {
            Some(g) => if g != shell_process_group {
                Some(g)
            } else {
                None
            },
            None => None,
        }),
{
    match foreground {
        Some(g) => {
            if g != shell_process_group {
                Some(g)
            } else {
                None
            }
        },
        None => None,
    }
}

/// Whether a failed lookup of the working directory is tried again: only a
/// lookup failure, and only before the deadline.
pub fn retry_current_dir(err: &ProcessError, before_deadline: bool) -> (retry: bool)
    ensures
        retry == (before_deadline && err is CurrentDir),
{
    before_deadline && match err {
        ProcessError::CurrentDir(_) => true,
        _ => false,
    }
}

/// How long a lookup of the working directory keeps trying, in milliseconds.
pub const CURRENT_DIR_DEADLINE_MS: u64 = 250;
/// The pause between two lookups of the working directory.
pub const CURRENT_DIR_RETRY_MS: u64 = 10;

// ---------------------------------------------------------------------------
// Termination
// ---------------------------------------------------------------------------

pub const TERM_GRACE_MS: u64 = 2000;
pub const TERM_POLL_MS: u64 = 20;
pub const KILL_GRACE_MS: u64 = 1000;
pub const KILL_POLL_MS: u64 = 10;

#[derive(Clone, Copy, Debug, PartialEq, Eq, Structural)]
pub enum TerminatePhase {
    /// Nothing has been sent yet.
    Start,
    /// `SIGTERM` has been sent; waiting for the child to go.
    AwaitTerm,
    /// `SIGKILL` has been sent; waiting for the child to go.
    AwaitKill,
    /// The outcome has been given.
    Done,
}

/// What the caller observed before asking for the next action: whether the
/// child is alive, or that the current wait's deadline has passed (then
/// liveness is not checked).
#[derive(Clone, Copy, Debug, PartialEq, Eq, Structural)]
pub enum LivenessCheck {
    Alive(bool),
    DeadlinePassed,
}

#[derive(Debug)]
pub enum TerminateAction {
    /// Termination is over, with this outcome.
    Finish(Result<(), ProcessError>),
    /// Sleep this many milliseconds, then check again.
    Sleep(u64),
    /// Deliver `request` (its failure is ignored), then wait at most
    /// `wait_ms` milliseconds for the child to go, checking it again.
    SignalAndWait { request: SignalRequest, wait_ms: u64 },
}

/// Stops a child politely, then forcibly: `SIGTERM` to its group (or the
/// process), a grace period, `SIGKILL`, another grace period.
pub struct Termination {
    pid: i32,
    phase: TerminatePhase,
}

pub open spec fn terminate_request(pid: i32, signal: i32) -> SignalRequest {
    SignalRequest { target: SignalTarget::GroupOrProcess(pid), signal }
}

impl Termination {
    pub closed spec fn phase_spec(&self) -> TerminatePhase {
        self.phase
    }

    pub closed spec fn pid_spec(&self) -> i32 {
        self.pid
    }

    pub fn new(pid: i32) -> (t: Termination)
        ensures
            t.pid_spec() == pid,
            t.phase_spec() == TerminatePhase::Start,
    {
        Termination { pid, phase: TerminatePhase::Start }
    }

    /// Takes the latest check of the child and says what to do next. A child
    /// found dead ends termination successfully in every phase; a live one
    /// first gets `SIGTERM`, and once the wait after it has run out,
    /// `SIGKILL`; when the wait after that runs out too, termination fails.
    pub fn observe(&mut self, check: LivenessCheck) -> (action: TerminateAction)
        requires
            old(self).phase_spec() != TerminatePhase::Done,
            old(self).phase_spec() == TerminatePhase::Start ==> check is Alive,
        ensures
            final(self).pid_spec() == old(self).pid_spec(),
            ({
                let pid = old(self).pid_spec();
                match check {
                    LivenessCheck::Alive(false) => {
                        &&& action matches TerminateAction::Finish(Ok(()))
                        &&& final(self).phase_spec() == TerminatePhase::Done
                    },
                    LivenessCheck::Alive(true) => match old(self).phase_spec() {
                        TerminatePhase::Start => {
                            &&& action == (TerminateAction::SignalAndWait {
                                request: terminate_request(pid, SIGTERM),
                                wait_ms: TERM_GRACE_MS,
                            })
                            &&& final(self).phase_spec() == TerminatePhase::AwaitTerm
                        },
                        TerminatePhase::AwaitTerm => {
                            &&& action == TerminateAction::Sleep(TERM_POLL_MS)
                            &&& final(self).phase_spec() == TerminatePhase::AwaitTerm
                        },
                        _ => {
                            &&& action == TerminateAction::Sleep(KILL_POLL_MS)
                            &&& final(self).phase_spec() == TerminatePhase::AwaitKill
                        },
                    },
                    LivenessCheck::DeadlinePassed => if old(self).phase_spec()
                        == TerminatePhase::AwaitTerm {
                        &&& action == (TerminateAction::SignalAndWait {
                            request: terminate_request(pid, SIGKILL),
                            wait_ms: KILL_GRACE_MS,
                        })
                        &&& final(self).phase_spec() == TerminatePhase::AwaitKill
                    } else {
                        &&& action matches TerminateAction::Finish(Err(e))
                        &&& e is Signal
                        &&& e.message_spec()
                            == "terminate: process did not exit after SIGTERM/SIGKILL"@
                        &&& final(self).phase_spec() == TerminatePhase::Done
                    },
                }
            }),
    {
        match check {
            LivenessCheck::Alive(false) => {
                self.phase = TerminatePhase::Done;
                TerminateAction::Finish(Ok(()))
            },
            LivenessCheck::Alive(true) => match self.phase {
                TerminatePhase::Start => {
                    self.phase = TerminatePhase::AwaitTerm;
                    TerminateAction::SignalAndWait {
                        request: SignalRequest {
                            target: SignalTarget::GroupOrProcess(self.pid),
                            signal: SIGTERM,
                        },
                        wait_ms: TERM_GRACE_MS,
                    }
                },
                TerminatePhase::AwaitTerm => TerminateAction::Sleep(TERM_POLL_MS),
                _ => TerminateAction::Sleep(KILL_POLL_MS),
            },
            LivenessCheck::DeadlinePassed => {
                if self.phase == TerminatePhase::AwaitTerm {
                    self.phase = TerminatePhase::AwaitKill;
                    TerminateAction::SignalAndWait {
                        request: SignalRequest {
                            target: SignalTarget::GroupOrProcess(self.pid),
                            signal: SIGKILL,
                        },
                        wait_ms: KILL_GRACE_MS,
                    }
                } else {
                    self.phase = TerminatePhase::Done;
                    TerminateAction::Finish(
                        Err(
                            ProcessError::Signal(
                                String::from_str(
                                    "terminate: process did not exit after SIGTERM/SIGKILL",
                                ),
                            ),
                        ),
                    )
                }
            },
        }
    }
}

// ---------------------------------------------------------------------------
// Cleanup after an interrupt
// ---------------------------------------------------------------------------

/// How many times the terminal is inspected after an interrupt.
pub const CLEANUP_PROBES: u8 = 6;
pub const CLEANUP_PROBE_DELAY_MS: u64 = 25;
pub const CLEANUP_RECHECK_DELAY_MS: u64 = 50;

#[derive(Clone, Copy, Debug, PartialEq, Eq, Structural)]
pub enum CleanupPhase {
    Probing,
    Rechecking,
    Done,
}

#[derive(Debug, PartialEq, Eq, Structural)]
pub enum CleanupAction {
    /// Sleep `delay_ms`, then read the terminal's foreground group, the
    /// shell's descendants and the processes on its terminal, and hand them
    /// to [`InterruptCleanup::observe_probe`].
    Probe { delay_ms: u64 },
    /// Deliver `hangup`, then `resume`, sleep `delay_ms`, read the
    /// descendants and the processes on the terminal again, and hand them to
    /// [`InterruptCleanup::observe_recheck`].
    Recheck { hangup: SignalRequest, resume: SignalRequest, delay_ms: u64 },
    /// Cleanup is over, after delivering `last` if there is one.
    Finish { last: Option<SignalRequest> },
}

/// After an interrupt, processes of the interrupted group may linger on the
/// shell's terminal outside the shell's own tree and keep changing its
/// settings. Once the shell is back in the foreground, such processes are
/// sent `SIGHUP` and `SIGCONT`, and `SIGTERM` if they are still there.
pub struct InterruptCleanup {
    shell_pid: i32,
    interrupted_group: i32,
    probes: u8,
    phase: CleanupPhase,
}

pub open spec fn group_signal(group: i32, signal: i32) -> SignalRequest {
    SignalRequest { target: SignalTarget::Group(group), signal }
}

/// The lingering processes, as the shell's pid also names its process group.
pub open spec fn lingering_spec(
    shell_pid: i32,
    interrupted_group: i32,
    descendants: Seq<i32>,
    attached: Seq<ProcSummary>,
) -> Seq<ProcSummary> {
    attached.filter(|s: ProcSummary| is_lingering(s, shell_pid, shell_pid, interrupted_group, descendants))
}

impl InterruptCleanup {
    pub closed spec fn phase_spec(&self) -> CleanupPhase {
        self.phase
    }

    /// How many inspections have been made.
    pub closed spec fn probes_spec(&self) -> u8 {
        self.probes
    }

    pub closed spec fn shell_pid_spec(&self) -> i32 {
        self.shell_pid
    }

    pub closed spec fn interrupted_group_spec(&self) -> i32 {
        self.interrupted_group
    }

    pub closed spec fn wf(&self) -> bool {
        self.probes <= CLEANUP_PROBES && (self.phase == CleanupPhase::Probing ==> self.probes
            < CLEANUP_PROBES)
    }

    /// Starts the cleanup for the shell `shell_pid` after an interrupt of
    /// `interrupted_group`; the first action is to wait and inspect.
    pub fn new(shell_pid: i32, interrupted_group: i32) -> (pair: (InterruptCleanup, CleanupAction))
        ensures
            pair.0.wf(),
            pair.0.shell_pid_spec() == shell_pid,
            pair.0.interrupted_group_spec() == interrupted_group,
            pair.0.probes_spec() == 0,
            pair.0.phase_spec() == CleanupPhase::Probing,
            pair.1 == (CleanupAction::Probe { delay_ms: CLEANUP_PROBE_DELAY_MS }),
    {
        (
            InterruptCleanup { shell_pid, interrupted_group, probes: 0, phase: CleanupPhase::Probing },
            CleanupAction::Probe { delay_ms: CLEANUP_PROBE_DELAY_MS },
        )
    }

    /// Takes one inspection: while the shell is not in the foreground, or
    /// nothing lingers, inspect again, up to the limit; otherwise hang up and
    /// continue the interrupted group.
    pub fn observe_probe(
        &mut self,
        foreground: Option<i32>,
        descendants: &[i32],
        attached: &[ProcSummary],
    ) -> (action: CleanupAction)
        requires
            old(self).wf(),
            old(self).phase_spec() == CleanupPhase::Probing,
        ensures
            final(self).wf(),
            final(self).shell_pid_spec() == old(self).shell_pid_spec(),
            final(self).interrupted_group_spec() == old(self).interrupted_group_spec(),
            final(self).probes_spec() == old(self).probes_spec() + 1,
            ({
                let shell = old(self).shell_pid_spec();
                let group = old(self).interrupted_group_spec();
                let lingering = lingering_spec(shell, group, descendants@, attached@);
                if foreground == Some(shell) && lingering.len() > 0 {
                    &&& action == (CleanupAction::Recheck {
                        hangup: group_signal(group, SIGHUP_SIGNAL),
                        resume: group_signal(group, SIGCONT_SIGNAL),
                        delay_ms: CLEANUP_RECHECK_DELAY_MS,
                    })
                    &&& final(self).phase_spec() == CleanupPhase::Rechecking
                } else if old(self).probes_spec() + 1 < CLEANUP_PROBES {
                    &&& action == (CleanupAction::Probe { delay_ms: CLEANUP_PROBE_DELAY_MS })
                    &&& final(self).phase_spec() == CleanupPhase::Probing
                } else {
                    &&& action == (CleanupAction::Finish { last: None })
                    &&& final(self).phase_spec() == CleanupPhase::Done
                }
            }),
    {
        self.probes = self.probes + 1;
        let lingering = lingering_tty_processes_for_interrupted_group(
            self.shell_pid,
            self.shell_pid,
            self.interrupted_group,
            descendants,
            attached,
        );
        let shell_is_foreground = match foreground {
            Some(g) => g == self.shell_pid,
            None => false,
        };
        if shell_is_foreground && lingering.len() > 0 {
            self.phase = CleanupPhase::Rechecking;
            CleanupAction::Recheck {
                hangup: SignalRequest {
                    target: SignalTarget::Group(self.interrupted_group),
                    signal: SIGHUP_SIGNAL,
                },
                resume: SignalRequest {
                    target: SignalTarget::Group(self.interrupted_group),
                    signal: SIGCONT_SIGNAL,
                },
                delay_ms: CLEANUP_RECHECK_DELAY_MS,
            }
        } else if self.probes < CLEANUP_PROBES {
            CleanupAction::Probe { delay_ms: CLEANUP_PROBE_DELAY_MS }
        } else {
            self.phase = CleanupPhase::Done;
            CleanupAction::Finish { last: None }
        }
    }

    /// Takes the inspection after the hang-up: processes still lingering are
    /// sent `SIGTERM`; either way the cleanup is over.
    pub fn observe_recheck(&mut self, descendants: &[i32], attached: &[ProcSummary]) -> (action:
        CleanupAction)
        requires
            old(self).wf(),
            old(self).phase_spec() == CleanupPhase::Rechecking,
        ensures
            final(self).wf(),
            final(self).shell_pid_spec() == old(self).shell_pid_spec(),
            final(self).interrupted_group_spec() == old(self).interrupted_group_spec(),
            final(self).probes_spec() == old(self).probes_spec(),
            final(self).phase_spec() == CleanupPhase::Done,
            ({
                let group = old(self).interrupted_group_spec();
                let still = lingering_spec(
                    old(self).shell_pid_spec(),
                    group,
                    descendants@,
                    attached@,
                );
                action == (CleanupAction::Finish {
                    last: if still.len() > 0 {
                        Some(group_signal(group, SIGTERM))
                    } else {
                        None
                    },
                })
            }),
    {
        let still = lingering_tty_processes_for_interrupted_group(
            self.shell_pid,
            self.shell_pid,
            self.interrupted_group,
            descendants,
            attached,
        );
        self.phase = CleanupPhase::Done;
        if still.len() > 0 {
            CleanupAction::Finish {
                last: Some(
                    SignalRequest { target: SignalTarget::Group(self.interrupted_group), signal: SIGTERM },
                ),
            }
        } else {
            CleanupAction::Finish { last: None }
        }
    }
}

} // verus!
