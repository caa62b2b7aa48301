use std::collections::HashMap;
use vstd::prelude::*;

use crate::error::{with_context, ProcessError};

use crate::os::linux::{resume_process_group_if_needed, resumes_after_stop, SignalRequest, SignalTarget, SIGCONT, WaitOutcome};

verus! {

broadcast use vstd::std_specs::hash::group_hash_axioms;

/// What is known of a child process: still running, or the last change that
/// `waitpid` reported for it.
#[derive(Clone, Copy, Debug, PartialEq, Eq, Structural)]
pub enum ChildState {
    Running,
    Exited(i32),
    Signaled(i32),
    Stopped(i32),
}

impl ChildState {
    /// A running or stopped child still exists; an exited or killed one does
    /// not.
    pub open spec fn alive(self) -> bool {
        self is Running || self is Stopped
    }

    #[verifier::when_used_as_spec(alive)]
    pub fn is_alive(self) -> (alive: bool)
        ensures
            alive == self.alive(),
            alive == match self {
                ChildState::Running => true,
                ChildState::Stopped(_) => true,
                ChildState::Exited(_) => false,
                ChildState::Signaled(_) => false,
            },
    {
        match self {
            ChildState::Running | ChildState::Stopped(_) => true,
            _ => false,
        }
    }
}

/// The states that reaping has recorded, by pid: the last report for each
/// child that `waitpid` returned.
pub struct ReapedStates {
    states: HashMap<i32, ChildState>,
}

impl View for ReapedStates {
    type V = Map<i32, ChildState>;

    closed spec fn view(&self) -> Map<i32, ChildState> {
        self.states@
    }
}

/// What to do after one call of `waitpid(WAIT_ANY, WNOHANG | WUNTRACED)`.
#[derive(Clone, Copy, Debug, PartialEq, Eq, Structural)]
pub enum ReapStep {
    /// No further child has changed state: reaping is over.
    Finished,
    /// The call failed: reaping ends with its error.
    Failed,
    /// The change was recorded; call again.
    Recorded,
    /// The child stopped: deliver `resume` if there is one, then record the
    /// stop with [`ReapedStates::record`] and call again. A failed delivery
    /// ends reaping with its error, and the stop is not recorded.
    ResumeThenRecord { pid: i32, stop_signal: i32, resume: Option<SignalRequest> },
}

impl ReapedStates {
    pub fn new() -> (table: ReapedStates)
        ensures
            table@ == Map::<i32, ChildState>::empty(),
    {
        ReapedStates { states: HashMap::new() }
    }

    /// Records the last reported state of `pid`.
    pub fn record(&mut self, pid: i32, state: ChildState)
        ensures
            final(self)@ == old(self)@.insert(pid, state),
    {
        self.states.insert(pid, state);
    }

    /// The last recorded state of `pid`, if any was recorded.
    pub fn lookup(&self, pid: i32) -> (state: Option<ChildState>)
        ensures
            state == (if self@.contains_key(pid) {
                Some(self@[pid])
            } else {
                None
            }),
    {
        match self.states.get(&pid) {
            Some(s) => Some(*s),
            None => None,
        }
    }

    /// Takes what one nonblocking `waitpid` call reported and says what to do
    /// next.
    pub fn absorb(&mut self, outcome: WaitOutcome) -> (step: ReapStep)
        ensures
            match outcome {
                WaitOutcome::Failed => step == ReapStep::Failed && final(self)@ == old(self)@,
                WaitOutcome::NoChange => step == ReapStep::Finished && final(self)@ == old(self)@,
                WaitOutcome::Changed(pid, ChildState::Stopped(signal)) => {
                    &&& step == ReapStep::ResumeThenRecord {
                        pid,
                        stop_signal: signal,
                        resume: if resumes_after_stop(signal) {
                            Some(
                                SignalRequest {
                                    target: SignalTarget::GroupOrProcess(pid),
                                    signal: SIGCONT,
                                },
                            )
                        } else {
                            None
                        },
                    }
                    &&& final(self)@ == old(self)@
                },
                WaitOutcome::Changed(pid, state) => {
                    &&& step == ReapStep::Recorded
                    &&& final(self)@ == old(self)@.insert(pid, state)
                },
            },
    {
        match outcome {
            WaitOutcome::Failed => ReapStep::Failed,
            WaitOutcome::NoChange => ReapStep::Finished,
            WaitOutcome::Changed(pid, ChildState::Stopped(signal)) => ReapStep::ResumeThenRecord {
                pid,
                stop_signal: signal,
                resume: resume_process_group_if_needed(pid, signal),
            },
            WaitOutcome::Changed(pid, state) => {
                self.record(pid, state);
                ReapStep::Recorded
            },
        }
    }
}

/// The error that ends reaping when `waitpid(WAIT_ANY)` fails with the OS
/// error `detail`.
pub fn wait_failure(detail: &str) -> (e: ProcessError)
    ensures
        e is Signal,
        e.message_spec() == with_context("waitpid(WAIT_ANY)"@, detail@),
{
    ProcessError::signal("waitpid(WAIT_ANY)", detail)
}

/// The error that ends reaping when continuing a stopped child fails with
/// the OS error `detail`; the stop is then not recorded.
pub fn resume_failure(detail: &str) -> (e: ProcessError)
    ensures
        e is Signal,
        e.message_spec() == with_context("resume stopped child"@, detail@),
{
    ProcessError::signal("resume stopped child", detail)
}

/// The record after a reaping pass that met `changes` in order: each change
/// is recorded over what came before, so the last change of a pid wins.
pub open spec fn record_all(
    record: Map<i32, ChildState>,
    changes: Seq<(i32, ChildState)>,
) -> Map<i32, ChildState>
    decreases changes.len(),
{
    if changes.len() == 0 {
        record
    } else {
        record_all(record, changes.drop_last()).insert(changes.last().0, changes.last().1)
    }
}

/// One more recorded change extends the pass: what `record` and `absorb`
/// do to the record is exactly `record_all` with that change appended.
pub proof fn lemma_record_all_step(
    record: Map<i32, ChildState>,
    changes: Seq<(i32, ChildState)>,
    change: (i32, ChildState),
)
    ensures
        record_all(record, changes.push(change)) == record_all(record, changes).insert(
            change.0,
            change.1,
        ),
{
    assert(changes.push(change).drop_last() =~= changes);
}

/// The last state that `changes` reports for `pid`, if any reports it.
pub open spec fn last_change(changes: Seq<(i32, ChildState)>, pid: i32) -> Option<ChildState>
    decreases changes.len(),
{
    if changes.len() == 0 {
        None
    } else if changes.last().0 == pid {
        Some(changes.last().1)
    } else {
        last_change(changes.drop_last(), pid)
    }
}

/// After a reaping pass, a pid that changed holds its last reported state,
/// and every other pid keeps what the record held before.
pub proof fn lemma_reaping_pass_keeps_last_change(
    record: Map<i32, ChildState>,
    changes: Seq<(i32, ChildState)>,
    pid: i32,
)
    ensures
        match last_change(changes, pid) {
            Some(state) => record_all(record, changes).contains_key(pid) && record_all(
                record,
                changes,
            )[pid] == state,
            None => record_all(record, changes).contains_key(pid) == record.contains_key(pid)
                && (record.contains_key(pid) ==> record_all(record, changes)[pid] == record[pid]),
        },
    decreases changes.len(),
{
    if changes.len() > 0 {
        lemma_reaping_pass_keeps_last_change(record, changes.drop_last(), pid);
    }
}

/// The state a child's tracker holds after a refresh against `table`: a
/// child that has settled (exited, been killed or stopped) keeps its state;
/// a running one takes what reaping recorded for its pid, if anything.
pub open spec fn refreshed_state(state: ChildState, pid: i32, table: Map<i32, ChildState>) -> ChildState {
    if !(state is Running) {
        state
    } else if table.contains_key(pid) {
        table[pid]
    } else {
        ChildState::Running
    }
}

/// Tracks one child process by pid.
pub struct Reaper {
    pid: i32,
    state: ChildState,
}

impl Reaper {
    pub closed spec fn pid_spec(&self) -> i32 {
        self.pid
    }

    pub closed spec fn state_spec(&self) -> ChildState {
        self.state
    }

    pub fn new(pid: i32) -> (reaper: Reaper)
        ensures
            reaper.pid_spec() == pid,
            reaper.state_spec() == ChildState::Running,
    {
        Reaper { pid, state: ChildState::Running }
    }

    pub fn pid(&self) -> (pid: i32)
        ensures
            pid == self.pid_spec(),
    {
        self.pid
    }

    pub fn state(&self) -> (state: ChildState)
        ensures
            state == self.state_spec(),
    {
        self.state
    }

    /// Whether the child is still running, so that reaping can change what
    /// is known of it.
    pub fn needs_reaping(&self) -> (needed: bool)
        ensures
            needed == (self.state_spec() is Running),
    {
        match self.state {
            ChildState::Running => true,
            _ => false,
        }
    }

    /// Brings the tracked state up to date with what reaping recorded, and
    /// returns it.
    pub fn refresh(&mut self, reaped: &ReapedStates) -> (state: ChildState)
        ensures
            final(self).pid_spec() == old(self).pid_spec(),
            final(self).state_spec() == refreshed_state(
                old(self).state_spec(),
                old(self).pid_spec(),
                reaped@,
            ),
            state == final(self).state_spec(),
            old(self).state_spec() is Running && reaped@.contains_key(old(self).pid_spec())
                ==> state == reaped@[old(self).pid_spec()],
            old(self).state_spec() is Running && !reaped@.contains_key(old(self).pid_spec())
                ==> state == ChildState::Running,
            !(old(self).state_spec() is Running) ==> state == old(self).state_spec(),
    {
        if !self.needs_reaping() {
            return self.state;
        }
        match reaped.lookup(self.pid) {
            Some(state) => {
                self.state = state;
            },
            None => {},
        }
        self.state
    }
}

impl Reaper {
    /// Brings the tracked state up to date after a reaping pass: `reaping`
    /// is the record that the pass left, or the error that ended it. A
    /// settled child keeps its state without reaping; a running child
    /// reports a failed pass and is left as it was.
    pub fn refresh_after(&mut self, reaping: Result<&ReapedStates, ProcessError>) -> (outcome:
        Result<ChildState, ProcessError>)
        ensures
            final(self).pid_spec() == old(self).pid_spec(),
            !(old(self).state_spec() is Running) ==> final(self).state_spec()
                == old(self).state_spec() && outcome == Ok::<ChildState, ProcessError>(
                old(self).state_spec(),
            ),
            old(self).state_spec() is Running ==> match reaping {
                Ok(table) => {
                    &&& final(self).state_spec() == refreshed_state(
                        old(self).state_spec(),
                        old(self).pid_spec(),
                        table@,
                    )
                    &&& outcome == Ok::<ChildState, ProcessError>(final(self).state_spec())
                },
                Err(e) => {
                    &&& final(self).state_spec() == old(self).state_spec()
                    &&& outcome == Err::<ChildState, ProcessError>(e)
                },
            },
    {
        if !self.needs_reaping() {
            return Ok(self.state);
        }
        match reaping {
            Ok(table) => Ok(self.refresh(table)),
            Err(e) => Err(e),
        }
    }
}

/// A running child whose pid has a recorded state takes exactly that state,
/// whatever it is: a child killed by a signal stays killed by that signal,
/// an exit keeps its code, a stop keeps its signal.
pub proof fn lemma_running_child_takes_recorded_state(pid: i32, table: Map<i32, ChildState>)
    requires
        table.contains_key(pid),
    ensures
        refreshed_state(ChildState::Running, pid, table) == table[pid],
        forall|s: i32| table[pid] == ChildState::Signaled(s) ==> refreshed_state(ChildState::Running, pid, table) == ChildState::Signaled(s),
        forall|c: i32| table[pid] == ChildState::Exited(c) ==> refreshed_state(ChildState::Running, pid, table) == ChildState::Exited(c),
{
}

/// A running or stopped child is alive, whatever stopped it; one that has
/// exited or been killed is not.
pub proof fn lemma_alive_states()
    ensures
        ChildState::Running.alive(),
        forall|s: i32| #[trigger] ChildState::Stopped(s).alive(),
        forall|c: i32| !#[trigger] ChildState::Exited(c).alive(),
        forall|s: i32| !#[trigger] ChildState::Signaled(s).alive(),
{
}

/// A child that has exited, been killed or stopped keeps that state, whatever
/// reaping records later.
pub proof fn lemma_settled_state_is_kept(state: ChildState, pid: i32, table: Map<i32, ChildState>)
    requires
        !(state is Running),
    ensures
        refreshed_state(state, pid, table) == state,
{
}

/// Refreshing twice against the same records changes nothing the second time.
pub proof fn lemma_refresh_is_idempotent(state: ChildState, pid: i32, table: Map<i32, ChildState>)
    ensures
        refreshed_state(refreshed_state(state, pid, table), pid, table) == refreshed_state(
            state,
            pid,
            table,
        ),
{
}

/// A running child whose exit was recorded is no longer alive after a
/// refresh; one with nothing recorded is still alive.
pub proof fn lemma_refresh_liveness(pid: i32, table: Map<i32, ChildState>)
    ensures
        refreshed_state(ChildState::Running, pid, table).alive() <==> !table.contains_key(pid)
            || table[pid].alive(),
{
}

} // verus!
