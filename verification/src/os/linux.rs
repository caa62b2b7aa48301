use vstd::prelude::*;

use crate::reaper::ChildState;
use crate::text::{
    chars_of,
    parse_i32,
    parse_i32_str,
    parse_i32_spec,
    split_fields,
    ws_fields,
};

verus! {

pub const SIGINT: i32 = 2;
pub const SIGKILL: i32 = 9;
pub const SIGTERM: i32 = 15;
pub const SIGHUP_SIGNAL: i32 = 1;
pub const SIGCONT_SIGNAL: i32 = 18;
pub const DEFAULT_INTR_BYTE: u8 = 0x03;

pub const EINTR: i32 = 4;
pub const EAGAIN: i32 = 11;
pub const EIO: i32 = 5;
pub const ECHILD: i32 = 10;

pub const SIGHUP: i32 = 1;
pub const SIGQUIT: i32 = 3;
pub const SIGPIPE: i32 = 13;
pub const SIGCHLD: i32 = 17;
pub const SIGCONT: i32 = 18;
pub const SIGTSTP: i32 = 20;
pub const SIGTTIN: i32 = 21;
pub const SIGTTOU: i32 = 22;
pub const SIGUSR1: i32 = 10;
pub const SIGUSR2: i32 = 12;
pub const SIGWINCH: i32 = 28;

/// Index of the erase character in a terminal's control-character table.
pub const VERASE_INDEX: usize = 2;
/// Index of the interrupt character in a terminal's control-character table.
pub const VINTR_INDEX: usize = 0;
/// Input flag that marks the terminal's input as UTF-8.
pub const IUTF8: u32 = 0o040000;

// ---------------------------------------------------------------------------
// Wait statuses
// ---------------------------------------------------------------------------

/// The state that a raw `waitpid` status word describes: the low seven bits
/// hold the terminating signal (zero for a normal exit), a low byte of
/// `0x7f` marks a stopped child, and the second byte holds the exit code or
/// the stop signal.
pub open spec fn wait_status_meaning(status: int) -> ChildState {
    let term_signal = status % 128;
    let low_byte = status % 256;
    let high_byte = (status / 256) % 256;
    if term_signal == 0 {
        ChildState::Exited(high_byte as i32)
    } else if low_byte == 0x7f {
        ChildState::Stopped(high_byte as i32)
    } else {
        ChildState::Signaled(term_signal as i32)
    }
}

pub fn decode_wait_status(status: i32) -> (state: ChildState)
    ensures
        state == wait_status_meaning(status as int),
{
    assert((status & 0x7f) as int == (status as int) % 128) by (bit_vector);
    assert((status & 0xff) as int == (status as int) % 256) by (bit_vector);
    assert(((status >> 8) & 0xff) as int == ((status as int) / 256) % 256) by (bit_vector);
    if (status & 0x7f) == 0 {
        ChildState::Exited((status >> 8) & 0xff)
    } else if (status & 0xff) == 0x7f {
        ChildState::Stopped((status >> 8) & 0xff)
    } else {
        ChildState::Signaled(status & 0x7f)
    }
}

/// A status word for a normal exit with `code` decodes to that exit.
pub proof fn lemma_exit_status_round_trip(code: u8)
    ensures
        wait_status_meaning(code as int * 256) == ChildState::Exited(code as i32),
{
}

/// A status word for a stop by `signal` decodes to that stop.
pub proof fn lemma_stop_status_round_trip(signal: u8)
    ensures
        wait_status_meaning(signal as int * 256 + 0x7f) == ChildState::Stopped(signal as i32),
{
}

/// A status word for a death by `signal`, with or without the core-dump flag,
/// decodes to that signal.
pub proof fn lemma_signal_status_round_trip(signal: u8, core_dumped: bool)
    requires
        1 <= signal < 0x7f,
    ensures
        wait_status_meaning(signal as int + if core_dumped { 0x80int } else { 0 })
            == ChildState::Signaled(signal as i32),
{
}

/// Every decoded exit code and signal number lies in `0..=255`.
pub proof fn lemma_decoded_values_in_byte_range(status: int)
    ensures
        match wait_status_meaning(status) {
            ChildState::Exited(v) | ChildState::Stopped(v) | ChildState::Signaled(v) => 0 <= v
                <= 255,
            ChildState::Running => false,
        },
{
}

/// What one nonblocking `waitpid` call reported.
#[derive(Clone, Copy, Debug, PartialEq, Eq, Structural)]
pub enum WaitOutcome {
    /// The call failed; the caller reports the OS error.
    Failed,
    /// No child changed state.
    NoChange,
    /// The child with this pid changed to this state.
    Changed(i32, ChildState),
}

/// Interprets `waitpid(pid, WNOHANG | WUNTRACED)` for one child: its return
/// value `rc` and the status word it filled in.
pub fn wait_pid_outcome(rc: i32, status: i32) -> (out: WaitOutcome)
    ensures
        rc < 0 ==> out == WaitOutcome::Failed,
        rc == 0 ==> out == WaitOutcome::NoChange,
        rc > 0 ==> out == WaitOutcome::Changed(rc, wait_status_meaning(status as int)),
{
    if rc < 0 {
        WaitOutcome::Failed
    } else if rc == 0 {
        WaitOutcome::NoChange
    } else {
        WaitOutcome::Changed(rc, decode_wait_status(status))
    }
}

/// Interprets `waitpid(WAIT_ANY, WNOHANG | WUNTRACED)`: having no children
/// at all (`ECHILD`) counts as nothing to reap.
pub fn reap_any_outcome(rc: i32, raw_os_error: Option<i32>, status: i32) -> (out: WaitOutcome)
    ensures
        rc < 0 && raw_os_error == Some(ECHILD) ==> out == WaitOutcome::NoChange,
        rc < 0 && raw_os_error != Some(ECHILD) ==> out == WaitOutcome::Failed,
        rc == 0 ==> out == WaitOutcome::NoChange,
        rc > 0 ==> out == WaitOutcome::Changed(rc, wait_status_meaning(status as int)),
{
    if rc < 0 {
        match raw_os_error {
            Some(code) => {
                if code == ECHILD {
                    WaitOutcome::NoChange
                } else {
                    WaitOutcome::Failed
                }
            },
            None => WaitOutcome::Failed,
        }
    } else {
        wait_pid_outcome(rc, status)
    }
}

// ---------------------------------------------------------------------------
// Signals
// ---------------------------------------------------------------------------

/// Whom a signal is sent to.
#[derive(Clone, Copy, Debug, PartialEq, Eq, Structural)]
pub enum SignalTarget {
    /// The process group with this id (`killpg`).
    Group(i32),
    /// The process group with this id, and if that fails the process with
    /// the same id (`killpg`, then `kill`).
    GroupOrProcess(i32),
}

/// A signal to deliver.
#[derive(Clone, Copy, Debug, PartialEq, Eq, Structural)]
pub struct SignalRequest {
    pub target: SignalTarget,
    pub signal: i32,
}

/// A child stopped by `stop_signal` is continued unless it stopped for
/// terminal input or output (`SIGTTIN`, `SIGTTOU`): then it waits for the
/// terminal.
pub open spec fn resumes_after_stop(stop_signal: i32) -> bool {
    stop_signal != SIGTTIN && stop_signal != SIGTTOU
}

/// Every stop is followed by `SIGCONT` (18) except a stop for terminal input
/// (`SIGTTIN`, 21) or output (`SIGTTOU`, 22): a child stopped by `SIGTSTP`,
/// `SIGSTOP` or any other signal is continued.
pub proof fn lemma_only_terminal_stops_stay_stopped(stop_signal: i32)
    ensures
        resumes_after_stop(stop_signal) <==> (stop_signal != 21 && stop_signal != 22),
{
}

/// The `SIGCONT` that continues a stopped child, if one is owed.
pub fn resume_process_group_if_needed(pid: i32, stop_signal: i32) -> (request: Option<
    SignalRequest,
>)
    ensures
        request == (if resumes_after_stop(stop_signal) {
            Some(SignalRequest { target: SignalTarget::GroupOrProcess(pid), signal: SIGCONT })
        } else {
            None
        }),
        stop_signal != 21 && stop_signal != 22 ==> request == Some(
            SignalRequest { target: SignalTarget::GroupOrProcess(pid), signal: 18 },
        ),
        stop_signal == 21 || stop_signal == 22 ==> request is None,
{
    if stop_signal == SIGTTIN || stop_signal == SIGTTOU {
        return None;
    }
    Some(SignalRequest { target: SignalTarget::GroupOrProcess(pid), signal: SIGCONT })
}

/// The signals whose handlers a child resets to their defaults before it
/// runs the new program: `SIGPIPE` and `SIGTSTP` always, and with `defaults`
/// also the ones the parent may have caught.
pub open spec fn signals_to_reset_spec(defaults: bool) -> Seq<i32> {
    if defaults {
        seq![
            SIGPIPE,
            SIGTSTP,
            SIGINT,
            SIGQUIT,
            SIGHUP,
            SIGCHLD,
            SIGCONT,
            SIGTERM,
            SIGUSR1,
            SIGUSR2,
            SIGWINCH,
        ]
    } else {
        seq![SIGPIPE, SIGTSTP]
    }
}

pub fn signals_to_reset(defaults: bool) -> (signals: Vec<i32>)
    ensures
        signals@ == signals_to_reset_spec(defaults),
{
    let mut signals: Vec<i32> = Vec::new();
    signals.push(SIGPIPE);
    signals.push(SIGTSTP);
    if defaults {
        signals.push(SIGINT);
        signals.push(SIGQUIT);
        signals.push(SIGHUP);
        signals.push(SIGCHLD);
        signals.push(SIGCONT);
        signals.push(SIGTERM);
        signals.push(SIGUSR1);
        signals.push(SIGUSR2);
        signals.push(SIGWINCH);
    }
    assert(signals@ =~= signals_to_reset_spec(defaults));
    signals
}

/// A signal mask, as `sigprocmask` reads and writes it.
#[derive(Clone, Copy)]
pub struct SigSet {
    pub words: [u64; 16],
}

impl SigSet {
    /// The mask with no signal in it.
    pub fn empty() -> (set: SigSet)
        ensures
            forall|i: int| 0 <= i < 16 ==> set.words@[i] == 0,
    {
        SigSet { words: [0u64; 16] }
    }
}

// ---------------------------------------------------------------------------
// Errors of system calls
// ---------------------------------------------------------------------------

/// How a failed call's `errno` is reported.
#[derive(Clone, Copy, Debug, PartialEq, Eq, Structural)]
pub enum ErrnoReport {
    /// As an interrupted call, to be retried.
    Interrupted,
    /// As a call that would block.
    WouldBlock,
    /// As the OS error itself.
    Raw,
}

pub fn io_error_from_errno(errno: i32) -> (report: ErrnoReport)
    ensures
        report == (if errno == EINTR {
            ErrnoReport::Interrupted
        } else if errno == EAGAIN {
            ErrnoReport::WouldBlock
        } else {
            ErrnoReport::Raw
        }),
{
    if errno == EINTR {
        ErrnoReport::Interrupted
    } else if errno == EAGAIN {
        ErrnoReport::WouldBlock
    } else {
        ErrnoReport::Raw
    }
}

/// Whether an error carries `EIO`, which a PTY master reports once the child
/// side has closed.
pub fn is_pty_eio(raw_os_error: Option<i32>) -> (eio: bool)
    ensures
        eio == (raw_os_error == Some(EIO)),
{
    match raw_os_error {
        Some(code) => code == EIO,
        None => false,
    }
}

/// What to do after one `poll` call while waiting on a descriptor.
#[derive(Clone, Copy, Debug, PartialEq, Eq, Structural)]
pub enum PollStep {
    Ready,
    Retry,
    Fail,
}

/// `rc` is what `poll` returned and `errno` the error it left when `rc < 0`:
/// a ready descriptor ends the wait, a timeout or an interruption polls
/// again, any other error ends it with that error.
pub fn poll_step(rc: i32, errno: i32) -> (step: PollStep)
    ensures
        rc > 0 ==> step == PollStep::Ready,
        rc == 0 ==> step == PollStep::Retry,
        rc < 0 && errno == EINTR ==> step == PollStep::Retry,
        rc < 0 && errno != EINTR ==> step == PollStep::Fail,
{
    if rc > 0 {
        PollStep::Ready
    } else if rc == 0 {
        PollStep::Retry
    } else {
        match io_error_from_errno(errno) {
            ErrnoReport::Interrupted => PollStep::Retry,
            _ => PollStep::Fail,
        }
    }
}


// ---------------------------------------------------------------------------
// Processes under /proc
// ---------------------------------------------------------------------------

/// A process and the process group it belongs to.
#[derive(Debug, Clone, PartialEq, Eq, PartialOrd, Ord, Structural)]
pub struct ProcSummary {
    pub pid: i32,
    pub process_group_id: i32,
}

/// Whether `s[i..i + 2]` is `") "`, which closes the command name in a
/// `/proc/<pid>/stat` line.
pub open spec fn closes_command(s: Seq<char>, i: int) -> bool {
    0 <= i && i + 1 < s.len() && s[i] == ')' && s[i + 1] == ' '
}

/// Whether `i` is the last position where the command name is closed.
pub open spec fn last_command_close(s: Seq<char>, i: int) -> bool {
    closes_command(s, i) && forall|j: int| j > i ==> !#[trigger] closes_command(s, j)
}

/// The process group id in a `/proc/<pid>/stat` line: the third
/// whitespace-separated field after the last `") "`, if it parses as an
/// `i32`.
pub open spec fn stat_process_group(stat: Seq<char>) -> Option<i32> {
    if exists|i: int| closes_command(stat, i) {
        let i = choose|i: int| last_command_close(stat, i);
        let fields = ws_fields(stat.skip(i + 2));
        if fields.len() >= 3 {
            parse_i32_spec(fields[2])
        } else {
            None
        }
    } else {
        None
    }
}

/// Copies `v[from..]` into a new vector.
fn tail_of(v: &Vec<char>, from: usize) -> (t: Vec<char>)
    requires
        from <= v@.len(),
    ensures
        t@ == v@.skip(from as int),
{
    let mut t: Vec<char> = Vec::new();
    let mut i = from;
    while i < v.len()
        invariant
            from <= i <= v@.len(),
            t@ == v@.subrange(from as int, i as int),
        decreases v@.len() - i,
    {
        t.push(v[i]);
        i = i + 1;
    }
    assert(t@ =~= v@.skip(from as int));
    t
}

/// Reads the summary of process `pid` from the text of its
/// `/proc/<pid>/stat` file.
pub fn describe_process(pid: i32, stat: &str) -> (summary: Option<ProcSummary>)
    ensures
        summary == (match stat_process_group(stat@) {
            Some(group) => Some(ProcSummary { pid, process_group_id: group }),
            None => None,
        }),
{
    let chars = chars_of(stat);
    if chars.len() < 2 {
        assert(!exists|i: int| closes_command(stat@, i));
        return None;
    }
    let mut i = chars.len() - 2;
    let found: bool;
    loop
        invariant
            chars@ == stat@,
            chars@.len() >= 2,
            i + 2 <= chars.len(),
            forall|j: int| j > i ==> !#[trigger] closes_command(stat@, j),
        ensures
            found ==> last_command_close(stat@, i as int),
            !found ==> forall|j: int| !#[trigger] closes_command(stat@, j),
        decreases i,
    {
        if chars[i] == ')' && chars[i + 1] == ' ' {
            found = true;
            break;
        }
        if i == 0 {
            assert forall|j: int| !#[trigger] closes_command(stat@, j) by {
                if j == 0 {
                    assert(!closes_command(stat@, 0));
                }
            }
            found = false;
            break;
        }
        i = i - 1;
    }
    if !found {
        return None;
    }
    proof {
        let k = choose|k: int| last_command_close(stat@, k);
        assert(last_command_close(stat@, k));
        if k != i {
            if k > i {
                assert(!closes_command(stat@, k));
            } else {
                assert(!closes_command(stat@, i as int));
            }
        }
    }
    let rest = tail_of(&chars, i + 2);
    let fields = split_fields(&rest);
    if fields.len() < 3 {
        return None;
    }
    let (from, to) = fields[2];
    match parse_i32(&rest, from, to) {
        Some(group) => Some(ProcSummary { pid, process_group_id: group }),
        None => None,
    }
}

/// The integers among a list of fields, in order: the fields that do not
/// parse are skipped.
pub open spec fn parsed_fields(fields: Seq<Seq<char>>) -> Seq<i32>
    decreases fields.len(),
{
    if fields.len() == 0 {
        seq![]
    } else {
        let rest = parsed_fields(fields.drop_last());
        match parse_i32_spec(fields.last()) {
            Some(v) => rest.push(v),
            None => rest,
        }
    }
}

/// The pids listed in a `/proc/<pid>/task/<pid>/children` file, in order.
pub fn child_pids(text: &str) -> (pids: Vec<i32>)
    ensures
        pids@ == parsed_fields(ws_fields(text@)),
{
    let chars = chars_of(text);
    let fields = split_fields(&chars);
    let ghost all = ws_fields(text@);
    let mut pids: Vec<i32> = Vec::new();
    let mut k: usize = 0;
    assert(all.take(0) =~= seq![]);
    while k < fields.len()
        invariant
            chars@ == text@,
            all == ws_fields(chars@),
            fields@.len() == all.len(),
            forall|m: int|
                0 <= m < fields@.len() ==> {
                    &&& (#[trigger] fields@[m]).0 < fields@[m].1 <= chars@.len()
                    &&& chars@.subrange(fields@[m].0 as int, fields@[m].1 as int) == all[m]
                },
            k <= fields@.len(),
            pids@ == parsed_fields(all.take(k as int)),
        decreases fields@.len() - k,
    {
        let (from, to) = fields[k];
        let parsed = parse_i32(&chars, from, to);
        proof {
            let prefix = all.take(k + 1);
            assert(prefix.drop_last() =~= all.take(k as int));
            assert(prefix.last() == all[k as int]);
        }
        match parsed {
            Some(pid) => pids.push(pid),
            None => {},
        }
        k = k + 1;
    }
    assert(all.take(fields@.len() as int) =~= all);
    pids
}

/// The processes on the shell's terminal that an interrupt left behind:
/// those of `attached` that are not the shell, not in the shell's process
/// group, in the interrupted group, and not descendants of the shell.
pub open spec fn is_lingering(
    summary: ProcSummary,
    shell_pid: i32,
    shell_process_group_id: i32,
    interrupted_process_group_id: i32,
    descendants: Seq<i32>,
) -> bool {
    &&& summary.pid != shell_pid
    &&& summary.process_group_id != shell_process_group_id
    &&& summary.process_group_id == interrupted_process_group_id
    &&& !descendants.contains(summary.pid)
}

/// A lingering process is one of the processes on the terminal, never the
/// shell nor a member of its group, and always of the interrupted group.
pub proof fn lemma_lingering_processes_are_interrupted_strangers(
    shell_pid: i32,
    shell_process_group_id: i32,
    interrupted_process_group_id: i32,
    descendants: Seq<i32>,
    attached: Seq<ProcSummary>,
)
    ensures
        ({
            let lingering = attached.filter(
                |s: ProcSummary|
                    is_lingering(
                        s,
                        shell_pid,
                        shell_process_group_id,
                        interrupted_process_group_id,
                        descendants,
                    ),
            );
            forall|i: int|
                0 <= i < lingering.len() ==> {
                    &&& attached.contains(#[trigger] lingering[i])
                    &&& lingering[i].pid != shell_pid
                    &&& lingering[i].process_group_id != shell_process_group_id
                    &&& lingering[i].process_group_id == interrupted_process_group_id
                    &&& !descendants.contains(lingering[i].pid)
                }
        }),
        forall|s: ProcSummary|
            #![trigger attached.contains(s)]
            attached.contains(s) && s.pid != shell_pid && s.process_group_id
                != shell_process_group_id && s.process_group_id == interrupted_process_group_id
                && !descendants.contains(s.pid) ==> attached.filter(
                |x: ProcSummary|
                    is_lingering(
                        x,
                        shell_pid,
                        shell_process_group_id,
                        interrupted_process_group_id,
                        descendants,
                    ),
            ).contains(s),
{
    let keep = |s: ProcSummary|
        is_lingering(s, shell_pid, shell_process_group_id, interrupted_process_group_id, descendants);
    let lingering = attached.filter(keep);
    assert forall|s: ProcSummary|
        #![trigger attached.contains(s)]
        attached.contains(s) && keep(s) implies attached.filter(keep).contains(s) by {
        attached.lemma_filter_contains(keep, choose|i: int| 0 <= i < attached.len() && attached[i] == s);
    }
    assert forall|i: int| 0 <= i < lingering.len() implies attached.contains(#[trigger] lingering[i])
        && keep(lingering[i]) by {
        attached.lemma_filter_pred(keep, i);
        attached.lemma_filter_contains_rev(keep, lingering[i]);
    }
}

/// From processes listed in order with distinct pids (as the entries of
/// `/proc` are), the lingering ones come out strictly ascending by pid, so
/// none is listed twice.
pub proof fn lemma_lingering_processes_ascend(
    shell_pid: i32,
    shell_process_group_id: i32,
    interrupted_process_group_id: i32,
    descendants: Seq<i32>,
    attached: Seq<ProcSummary>,
)
    requires
        summaries_sorted(attached),
        forall|i: int, j: int|
            0 <= i < j < attached.len() ==> #[trigger] attached[i].pid != #[trigger] attached[j].pid,
    ensures
        ({
            let lingering = attached.filter(
                |s: ProcSummary|
                    is_lingering(
                        s,
                        shell_pid,
                        shell_process_group_id,
                        interrupted_process_group_id,
                        descendants,
                    ),
            );
            forall|i: int, j: int|
                0 <= i < j < lingering.len() ==> #[trigger] lingering[i].pid
                    < #[trigger] lingering[j].pid
        }),
    decreases attached.len(),
{
    let keep = |s: ProcSummary|
        is_lingering(s, shell_pid, shell_process_group_id, interrupted_process_group_id, descendants);
    if attached.len() > 0 {
        let rest = attached.drop_last();
        let last = attached.last();
        let n = attached.len() - 1;
        assert(summaries_sorted(rest)) by {
            assert forall|i: int, j: int| 0 <= i < j < rest.len() implies summary_le(
                #[trigger] rest[i],
                #[trigger] rest[j],
            ) by {
                assert(summary_le(attached[i], attached[j]));
            }
        }
        assert forall|i: int, j: int| 0 <= i < j < rest.len() implies #[trigger] rest[i].pid
            != #[trigger] rest[j].pid by {
            assert(attached[i].pid != attached[j].pid);
        }
        lemma_lingering_processes_ascend(
            shell_pid,
            shell_process_group_id,
            interrupted_process_group_id,
            descendants,
            rest,
        );
        let fr = rest.filter(keep);
        reveal(Seq::filter);
        assert(attached.filter(keep) == if keep(last) {
            fr.push(last)
        } else {
            fr
        });
        if keep(last) {
            assert forall|i: int| 0 <= i < fr.len() implies #[trigger] fr[i].pid < last.pid by {
                assert(fr.contains(fr[i]));
                rest.lemma_filter_contains_rev(keep, fr[i]);
                let k = choose|k: int| 0 <= k < rest.len() && rest[k] == fr[i];
                assert(summary_le(attached[k], attached[n]));
                assert(attached[k].pid != attached[n].pid);
            }
            let l = fr.push(last);
            assert forall|i: int, j: int| 0 <= i < j < l.len() implies #[trigger] l[i].pid
                < #[trigger] l[j].pid by {
                if j < fr.len() {
                    assert(l[i] == fr[i] && l[j] == fr[j]);
                } else {
                    assert(l[i] == fr[i]);
                }
            }
        }
    }
}

pub fn lingering_tty_processes_for_interrupted_group(
    shell_pid: i32,
    shell_process_group_id: i32,
    interrupted_process_group_id: i32,
    descendants: &[i32],
    attached: &[ProcSummary],
) -> (lingering: Vec<ProcSummary>)
    ensures
        lingering@ == attached@.filter(
            |s: ProcSummary|
                is_lingering(
                    s,
                    shell_pid,
                    shell_process_group_id,
                    interrupted_process_group_id,
                    descendants@,
                ),
        ),
{
    let ghost keep = |s: ProcSummary|
        is_lingering(s, shell_pid, shell_process_group_id, interrupted_process_group_id, descendants@);
    let mut lingering: Vec<ProcSummary> = Vec::new();
    let mut k: usize = 0;
    assert(attached@.take(0) =~= seq![]);
    while k < attached.len()
        invariant
            k <= attached@.len(),
            keep == (|s: ProcSummary|
                is_lingering(
                    s,
                    shell_pid,
                    shell_process_group_id,
                    interrupted_process_group_id,
                    descendants@,
                )),
            lingering@ == attached@.take(k as int).filter(keep),
        decreases attached@.len() - k,
    {
        let summary = &attached[k];
        let mut in_descendants = false;
        let mut d: usize = 0;
        while d < descendants.len()
            invariant
                d <= descendants@.len(),
                in_descendants == exists|m: int| 0 <= m < d && descendants@[m] == summary.pid,
            decreases descendants@.len() - d,
        {
            if descendants[d] == summary.pid {
                in_descendants = true;
            }
            d = d + 1;
        }
        proof {
            assert(in_descendants == descendants@.contains(summary.pid));
            let prefix = attached@.take(k + 1);
            assert(prefix.drop_last() =~= attached@.take(k as int));
            reveal(Seq::filter);
            assert(prefix.filter(keep) == if keep(prefix.last()) {
                prefix.drop_last().filter(keep).push(prefix.last())
            } else {
                prefix.drop_last().filter(keep)
            });
        }
        if summary.pid != shell_pid && summary.process_group_id != shell_process_group_id
            && summary.process_group_id == interrupted_process_group_id && !in_descendants {
            lingering.push(ProcSummary {
                pid: summary.pid,
                process_group_id: summary.process_group_id,
            });
        }
        k = k + 1;
    }
    assert(attached@.take(attached@.len() as int) =~= attached@);
    lingering
}


/// The order that `ProcSummary` derives: by pid, then by process group.
pub open spec fn summary_le(a: ProcSummary, b: ProcSummary) -> bool {
    a.pid < b.pid || (a.pid == b.pid && a.process_group_id <= b.process_group_id)
}

/// Summaries are ordered by pid first, and by process group among equal
/// pids, as the derived order of `ProcSummary` compares its fields.
pub proof fn lemma_summary_order_is_by_pid_then_group(a: ProcSummary, b: ProcSummary)
    ensures
        a.pid < b.pid ==> summary_le(a, b) && !summary_le(b, a),
        a.pid == b.pid ==> (summary_le(a, b) <==> a.process_group_id <= b.process_group_id),
        summary_le(a, b) || summary_le(b, a),
        summary_le(a, b) && summary_le(b, a) ==> a == b,
{
}

pub open spec fn summaries_sorted(s: Seq<ProcSummary>) -> bool {
    forall|i: int, j: int| 0 <= i < j < s.len() ==> summary_le(#[trigger] s[i], #[trigger] s[j])
}

/// Sorts process summaries into the order that `ProcSummary` derives.
pub fn sort_summaries(summaries: Vec<ProcSummary>) -> (sorted: Vec<ProcSummary>)
    ensures
        summaries_sorted(sorted@),
        sorted@.to_multiset() == summaries@.to_multiset(),
{
    broadcast use vstd::seq_lib::group_to_multiset_ensures;

    let mut sorted: Vec<ProcSummary> = Vec::new();
    let mut k: usize = 0;
    while k < summaries.len()
        invariant
            k <= summaries@.len(),
            summaries_sorted(sorted@),
            sorted@.to_multiset() == summaries@.take(k as int).to_multiset(),
        decreases summaries@.len() - k,
    {
        let x = ProcSummary { pid: summaries[k].pid, process_group_id: summaries[k].process_group_id };
        assert(x == summaries@[k as int]);
        let mut p: usize = 0;
        while p < sorted.len() && summary_le_exec(&sorted[p], &x)
            invariant
                p <= sorted@.len(),
                forall|m: int| 0 <= m < p ==> summary_le(#[trigger] sorted@[m], x),
            decreases sorted@.len() - p,
        {
            p = p + 1;
        }
        let ghost before = sorted@;
        sorted.insert(p, x);
        proof {
            assert(sorted@ == before.insert(p as int, x));
            assert(summaries@.take(k + 1) =~= summaries@.take(k as int).push(x));
            vstd::seq_lib::to_multiset_insert(before, p as int, x);
            vstd::seq_lib::to_multiset_build(summaries@.take(k as int), x);
            assert forall|i: int, j: int| 0 <= i < j < sorted@.len() implies summary_le(
                #[trigger] sorted@[i],
                #[trigger] sorted@[j],
            ) by {
                if p < before.len() {
                    assert(!summary_le(before[p as int], x));
                }
                if i < p && j == p {
                } else if i < p && j > p {
                    assert(summary_le(before[i], before[j - 1]));
                    if p < before.len() {
                        assert(summary_le(before[p as int], before[j - 1]));
                    }
                } else if i == p {
                    assert(summary_le(before[p as int], before[j - 1]));
                } else if i > p {
                    assert(summary_le(before[i - 1], before[j - 1]));
                } else {
                    assert(summary_le(before[i], before[j]));
                }
            }
        }
        k = k + 1;
    }
    assert(summaries@.take(summaries@.len() as int) =~= summaries@);
    sorted
}

fn summary_le_exec(a: &ProcSummary, b: &ProcSummary) -> (le: bool)
    ensures
        le == summary_le(*a, *b),
{
    a.pid < b.pid || (a.pid == b.pid && a.process_group_id <= b.process_group_id)
}

/// The descriptor numbers among the entry names of `/proc/self/fd` that a
/// child closes: those that parse as numbers above 2.
pub open spec fn closable_fds(names: Seq<Seq<char>>) -> Seq<i32>
    decreases names.len(),
{
    if names.len() == 0 {
        seq![]
    } else {
        let rest = closable_fds(names.drop_last());
        match parse_i32_spec(names.last()) {
            Some(fd) => if fd > 2 {
                rest.push(fd)
            } else {
                rest
            },
            None => rest,
        }
    }
}

pub open spec fn strictly_increasing(s: Seq<i32>) -> bool {
    forall|i: int, j: int| 0 <= i < j < s.len() ==> #[trigger] s[i] < #[trigger] s[j]
}

proof fn lemma_push_to_set(s: Seq<i32>, a: i32)
    ensures
        s.push(a).to_set() == s.to_set().insert(a),
{
    assert forall|v: i32| s.push(a).to_set().contains(v) <==> s.to_set().insert(a).contains(v) by {
        if s.push(a).contains(v) && v != a {
            let m = choose|m: int| 0 <= m < s.push(a).len() && s.push(a)[m] == v;
            assert(s[m] == v);
        }
        if s.contains(v) {
            let m = choose|m: int| 0 <= m < s.len() && s[m] == v;
            assert(s.push(a)[m] == v);
        }
        if v == a {
            assert(s.push(a)[s.len() as int] == a);
        }
    }
    assert(s.push(a).to_set() =~= s.to_set().insert(a));
}

/// Every descriptor that a child closes is above the three standard ones.
pub proof fn lemma_closable_fds_above_stderr(names: Seq<Seq<char>>)
    ensures
        forall|i: int| 0 <= i < closable_fds(names).len() ==> #[trigger] closable_fds(names)[i] > 2,
    decreases names.len(),
{
    if names.len() > 0 {
        let rest = closable_fds(names.drop_last());
        lemma_closable_fds_above_stderr(names.drop_last());
        assert forall|i: int| 0 <= i < closable_fds(names).len() implies #[trigger] closable_fds(
            names,
        )[i] > 2 by {
            if i < rest.len() {
                assert(closable_fds(names)[i] == rest[i]);
            }
        }
    }
}

/// Every name that parses as a descriptor above 2 is closed, and only
/// those are.
pub proof fn lemma_closable_fds_are_the_parsed_names(names: Seq<Seq<char>>)
    ensures
        forall|i: int|
            0 <= i < names.len() ==> match parse_i32_spec(#[trigger] names[i]) {
                Some(fd) => fd > 2 ==> closable_fds(names).contains(fd),
                None => true,
            },
        forall|fd: i32|
            #[trigger] closable_fds(names).contains(fd) ==> fd > 2 && exists|i: int|
                0 <= i < names.len() && parse_i32_spec(names[i]) == Some(fd),
    decreases names.len(),
{
    if names.len() > 0 {
        let rest = names.drop_last();
        lemma_closable_fds_are_the_parsed_names(rest);
        let cr = closable_fds(rest);
        let c = closable_fds(names);
        assert forall|i: int|
            0 <= i < names.len() implies match parse_i32_spec(#[trigger] names[i]) {
                Some(fd) => fd > 2 ==> c.contains(fd),
                None => true,
            } by {
            if parse_i32_spec(names[i]) is Some && parse_i32_spec(names[i])->0 > 2 {
            let fd = parse_i32_spec(names[i])->0;
            if i < rest.len() {
                assert(rest[i] == names[i]);
                assert(cr.contains(fd));
                let k = choose|k: int| 0 <= k < cr.len() && cr[k] == fd;
                match parse_i32_spec(names.last()) {
                    Some(v) => if v > 2 {
                        assert(c[k] == fd);
                    },
                    None => {},
                }
            } else {
                assert(c == cr.push(fd));
                assert(c[cr.len() as int] == fd);
            }
            }
        }
        assert forall|fd: i32| #[trigger] c.contains(fd) implies fd > 2 && exists|i: int|
            0 <= i < names.len() && parse_i32_spec(names[i]) == Some(fd) by {
            let k = choose|k: int| 0 <= k < c.len() && c[k] == fd;
            if k < cr.len() && (c == cr || c == cr.push(c.last())) {
                if c != cr {
                    assert(c[k] == cr[k]);
                }
                assert(cr.contains(fd));
                let i = choose|i: int| 0 <= i < rest.len() && parse_i32_spec(rest[i]) == Some(fd);
                assert(names[i] == rest[i]);
            } else {
                assert(parse_i32_spec(names[names.len() - 1]) == Some(fd));
            }
        }
    }
}

/// The descriptors to close, in increasing order and each once.
pub fn fds_to_close(names: &Vec<String>) -> (fds: Vec<i32>)
    ensures
        strictly_increasing(fds@),
        fds@.to_set() == closable_fds(names.deep_view()).to_set(),
{
    let ghost all = names.deep_view();
    let mut fds: Vec<i32> = Vec::new();
    let mut k: usize = 0;
    assert(all.take(0) =~= seq![]);
    while k < names.len()
        invariant
            all == names.deep_view(),
            k <= names@.len(),
            strictly_increasing(fds@),
            fds@.to_set() == closable_fds(all.take(k as int)).to_set(),
        decreases names@.len() - k,
    {
        let parsed = parse_i32_str(names[k].as_str());
        proof {
            let prefix = all.take(k + 1);
            assert(prefix.drop_last() =~= all.take(k as int));
            assert(prefix.last() == names@[k as int]@);
            let cand = closable_fds(all.take(k as int));
            match parse_i32_spec(all[k as int]) {
                Some(v) => {
                    if v > 2 {
                        assert(closable_fds(prefix) == cand.push(v));
                        lemma_push_to_set(cand, v);
                    } else {
                        assert(closable_fds(prefix) == cand);
                    }
                },
                None => {
                    assert(closable_fds(prefix) == cand);
                },
            }
        }
        let ghost before = fds@;
        match parsed {
            Some(fd) => {
                if fd > 2 {
                    let mut p: usize = 0;
                    while p < fds.len() && fds[p] < fd
                        invariant
                            p <= fds@.len(),
                            forall|m: int| 0 <= m < p ==> #[trigger] fds@[m] < fd,
                        decreases fds@.len() - p,
                    {
                        p = p + 1;
                    }
                    if p < fds.len() && fds[p] == fd {
                        assert(fds@.to_set() == fds@.to_set().insert(fd)) by {
                            assert(fds@.to_set().contains(fd)) by {
                                assert(fds@.contains(fd));
                            }
                        }
                    } else {
                        fds.insert(p, fd);
                        proof {
                            assert(fds@ == before.insert(p as int, fd));
                            assert(fds@.to_set() =~= before.to_set().insert(fd)) by {
                                assert forall|v: i32| fds@.to_set().contains(v) <==> before.to_set().insert(fd).contains(v) by {
                                    if fds@.contains(v) {
                                        let m = choose|m: int| 0 <= m < fds@.len() && fds@[m] == v;
                                        if m < p {
                                            assert(before[m] == v);
                                        } else if m > p {
                                            assert(before[m - 1] == v);
                                        }
                                    }
                                    if before.contains(v) {
                                        let m = choose|m: int| 0 <= m < before.len() && before[m] == v;
                                        if m < p {
                                            assert(fds@[m] == v);
                                        } else {
                                            assert(fds@[m + 1] == v);
                                        }
                                    }
                                    if v == fd {
                                        assert(fds@[p as int] == v);
                                    }
                                }
                            }
                            assert forall|i: int, j: int| 0 <= i < j < fds@.len() implies #[trigger] fds@[i] < #[trigger] fds@[j] by {
                                if p < before.len() {
                                    assert(before[p as int] > fd);
                                }
                                if i < p && j == p {
                                } else if i < p && j > p {
                                    assert(before[i] < before[j - 1]);
                                } else if i == p {
                                    if p < before.len() {
                                        assert(before[p as int] <= before[j - 1]);
                                    }
                                } else if i > p {
                                    assert(before[i - 1] < before[j - 1]);
                                } else {
                                    assert(before[i] < before[j]);
                                }
                            }
                        }
                    }
                }
            },
            None => {},
        }
        k = k + 1;
    }
    assert(all.take(names@.len() as int) =~= all);
    fds
}

/// A walk over the descendants of a process, in the order of a depth-first
/// visit that lists each child before its own descendants.
///
/// The walk asks for one process's children at a time
/// ([`DescendantWalk::next_request`]); the caller reads them and hands them
/// back ([`DescendantWalk::feed`]).
pub struct DescendantWalk {
    found: Vec<i32>,
    pending: Vec<i32>,
    next: Option<i32>,
}

impl DescendantWalk {
    pub closed spec fn found_spec(&self) -> Seq<i32> {
        self.found@
    }

    /// The processes still to visit; the next one is last.
    pub closed spec fn pending_spec(&self) -> Seq<i32> {
        self.pending@
    }

    pub closed spec fn next_spec(&self) -> Option<i32> {
        self.next
    }

    /// Starts a walk below `root_pid`, which itself is not listed.
    pub fn new(root_pid: i32) -> (walk: DescendantWalk)
        ensures
            walk.found_spec() == Seq::<i32>::empty(),
            walk.pending_spec() == Seq::<i32>::empty(),
            walk.next_spec() == Some(root_pid),
    {
        DescendantWalk { found: Vec::new(), pending: Vec::new(), next: Some(root_pid) }
    }

    /// The process whose children are to be read next, or `None` once the
    /// walk is complete.
    pub fn next_request(&self) -> (pid: Option<i32>)
        ensures
            pid == self.next_spec(),
    {
        self.next
    }

    /// The descendants found so far.
    pub fn found(&self) -> (found: &Vec<i32>)
        ensures
            found@ == self.found_spec(),
    {
        &self.found
    }

    /// Takes the children of the process named by `next_request`: they are
    /// queued in order, and the first one still queued is visited next.
    pub fn feed(&mut self, children: Vec<i32>)
        requires
            old(self).next_spec() is Some,
        ensures
            ({
                let queue = old(self).pending_spec() + children@.reverse();
                if queue.len() > 0 {
                    &&& final(self).found_spec() == old(self).found_spec().push(queue.last())
                    &&& final(self).pending_spec() == queue.drop_last()
                    &&& final(self).next_spec() == Some(queue.last())
                } else {
                    &&& final(self).found_spec() == old(self).found_spec()
                    &&& final(self).pending_spec() == queue
                    &&& final(self).next_spec() == None::<i32>
                }
            }),
    {
        let ghost queue = self.pending@ + children@.reverse();
        let mut k = children.len();
        while k > 0
            invariant
                k <= children@.len(),
                queue == old(self).pending_spec() + children@.reverse(),
                self.pending@ == old(self).pending_spec() + children@.subrange(
                    k as int,
                    children@.len() as int,
                ).reverse(),
                self.found@ == old(self).found_spec(),
            decreases k,
        {
            k = k - 1;
            let ghost before = self.pending@;
            self.pending.push(children[k]);
            assert(children@.subrange(k as int, children@.len() as int).reverse() =~= children@.subrange(
                (k + 1) as int,
                children@.len() as int,
            ).reverse().push(children@[k as int]));
        }
        assert(children@.subrange(0, children@.len() as int) =~= children@);
        match self.pending.pop() {
            Some(pid) => {
                self.found.push(pid);
                self.next = Some(pid);
            },
            None => {
                self.next = None;
            },
        }
    }
}


// ---------------------------------------------------------------------------
// Terminal settings
// ---------------------------------------------------------------------------

/// A terminal's settings, as `tcgetattr` fills them in.
#[derive(Clone, Copy)]
pub struct Termios {
    pub c_iflag: u32,
    pub c_oflag: u32,
    pub c_cflag: u32,
    pub c_lflag: u32,
    pub c_line: u8,
    pub c_cc: [u8; 32],
    pub c_ispeed: u32,
    pub c_ospeed: u32,
}

/// Terminal settings captured from the caller's terminal, whose control
/// characters a spawned child takes over.
#[derive(Clone, Copy)]
pub struct SavedTermios {
    termios: Termios,
}

impl SavedTermios {
    pub closed spec fn settings(&self) -> Termios {
        self.termios
    }

    pub fn new(termios: Termios) -> (saved: SavedTermios)
        ensures
            saved.settings() == termios,
    {
        SavedTermios { termios }
    }

    pub fn termios(&self) -> (termios: Termios)
        ensures
            termios == self.settings(),
    {
        self.termios
    }
}

/// The settings a child gives its terminal before it runs the new program:
/// the control characters of `template` where there is one, UTF-8 input, and
/// `DEL` as the erase character; everything else as `current` has it.
pub fn child_terminal_settings(current: Termios, template: Option<&SavedTermios>) -> (settings:
    Termios)
    ensures
        settings.c_iflag == current.c_iflag | IUTF8,
        settings.c_oflag == current.c_oflag,
        settings.c_cflag == current.c_cflag,
        settings.c_lflag == current.c_lflag,
        settings.c_line == current.c_line,
        settings.c_ispeed == current.c_ispeed,
        settings.c_ospeed == current.c_ospeed,
        settings.c_cc@ == (match template {
            Some(t) => t.settings().c_cc@,
            None => current.c_cc@,
        }).update(VERASE_INDEX as int, 0x7fu8),
{
    let mut settings = current;
    match template {
        Some(t) => {
            settings.c_cc = t.termios.c_cc;
        },
        None => {},
    }
    settings.c_iflag = settings.c_iflag | IUTF8;
    settings.c_cc[VERASE_INDEX] = 0x7f;
    settings
}

/// The byte that interrupts the terminal's foreground job: its `VINTR`
/// character, or `^C` where that is unset.
pub fn effective_interrupt_byte(configured: u8) -> (byte: u8)
    ensures
        byte == (if configured == 0 {
            DEFAULT_INTR_BYTE
        } else {
            configured
        }),
{
    if configured == 0 {
        DEFAULT_INTR_BYTE
    } else {
        configured
    }
}

// ---------------------------------------------------------------------------
// Shells
// ---------------------------------------------------------------------------

/// The shell to run: the value of `SHELL` where it is set, else `/bin/sh`.
pub fn shell_path_from_env(shell_var: Option<String>) -> (shell: String)
    ensures
        shell@ == (match shell_var {
            Some(v) => v@,
            None => "/bin/sh"@,
        }),
{
    match shell_var {
        Some(v) => v,
        None => String::from_str("/bin/sh"),
    }
}

/// The last component of a path: what follows its last `/`, or the whole
/// path where it has none.
pub open spec fn path_tail(s: Seq<char>) -> Seq<char>
    decreases s.len(),
{
    if s.len() == 0 {
        s
    } else if s.last() == '/' {
        seq![]
    } else {
        path_tail(s.drop_last()).push(s.last())
    }
}

/// The last component of a path holds no `/` and ends the path, and what
/// comes before it is empty or ends with `/`.
pub proof fn lemma_path_tail_is_last_component(s: Seq<char>)
    ensures
        forall|i: int| 0 <= i < path_tail(s).len() ==> path_tail(s)[i] != '/',
        path_tail(s).len() <= s.len(),
        s.subrange(s.len() - path_tail(s).len(), s.len() as int) == path_tail(s),
        path_tail(s).len() < s.len() ==> s[s.len() - path_tail(s).len() - 1] == '/',
    decreases s.len(),
{
    if s.len() > 0 && s.last() != '/' {
        let r = s.drop_last();
        lemma_path_tail_is_last_component(r);
        let t = path_tail(r);
        assert(path_tail(s) == t.push(s.last()));
        assert forall|i: int| 0 <= i < path_tail(s).len() implies path_tail(s)[i] != '/' by {
            if i < t.len() {
                assert(path_tail(s)[i] == t[i]);
            }
        }
        assert(s.subrange(s.len() - path_tail(s).len(), s.len() as int) =~= r.subrange(
            r.len() - t.len(),
            r.len() as int,
        ).push(s.last()));
        if path_tail(s).len() < s.len() {
            assert(s[s.len() - path_tail(s).len() - 1] == r[r.len() - t.len() - 1]);
        }
    } else if s.len() > 0 {
        assert(s.subrange(s.len() as int, s.len() as int) =~= path_tail(s));
    } else {
        assert(s.subrange(0, 0) =~= path_tail(s));
    }
}

/// The name a shell is started under: the last component of its path, with
/// a leading `-` for a login shell.
pub open spec fn shell_argv0_spec(shell_path: Seq<char>, login: bool) -> Seq<char> {
    if login {
        seq!['-'] + path_tail(shell_path)
    } else {
        path_tail(shell_path)
    }
}

/// Whether a string holds a NUL character, which no C string can carry.
pub open spec fn has_nul(s: Seq<char>) -> bool {
    s.contains('\0')
}

pub fn contains_nul(s: &str) -> (found: bool)
    ensures
        found == has_nul(s@),
{
    let chars = chars_of(s);
    let mut i: usize = 0;
    while i < chars.len()
        invariant
            chars@ == s@,
            i <= chars@.len(),
            forall|k: int| 0 <= k < i ==> chars@[k] != '\0',
        decreases chars@.len() - i,
    {
        if chars[i] == '\0' {
            assert(s@[i as int] == '\0');
            return true;
        }
        i = i + 1;
    }
    false
}

/// A login shell's name is its plain name after a `-`; the plain name is the
/// last component of its path.
pub proof fn lemma_login_name_is_dashed_plain_name(shell_path: Seq<char>)
    ensures
        shell_argv0_spec(shell_path, true) == seq!['-'] + shell_argv0_spec(shell_path, false),
        shell_argv0_spec(shell_path, false) == path_tail(shell_path),
        shell_argv0_spec(shell_path, true).len() == path_tail(shell_path).len() + 1,
        shell_argv0_spec(shell_path, true)[0] == '-',
{
}

/// The name a shell is started under, or `None` where it holds a NUL.
pub fn shell_argv0(shell_path: &str, login: bool) -> (argv0: Option<String>)
    ensures
        argv0 is Some <==> !has_nul(shell_argv0_spec(shell_path@, login)),
        argv0 matches Some(name) ==> name@ == shell_argv0_spec(shell_path@, login),
{
    let chars = chars_of(shell_path);
    let n = chars.len();
    let mut i = n;
    assert(chars@.take(n as int) =~= chars@);
    assert(chars@.subrange(n as int, n as int) =~= seq![]);
    assert(path_tail(chars@) =~= path_tail(chars@.take(n as int)) + chars@.subrange(n as int, n as int));
    while i > 0 && chars[i - 1] != '/'
        invariant
            chars@ == shell_path@,
            i <= n == chars@.len(),
            path_tail(chars@) == path_tail(chars@.take(i as int)) + chars@.subrange(
                i as int,
                n as int,
            ),
        decreases i,
    {
        proof {
            let pre = chars@.take(i as int);
            assert(pre.drop_last() =~= chars@.take(i - 1));
            assert(pre.last() == chars@[i - 1]);
            assert(chars@.subrange(i - 1, n as int) =~= seq![chars@[i - 1]] + chars@.subrange(
                i as int,
                n as int,
            ));
        }
        i = i - 1;
    }
    proof {
        let pre = chars@.take(i as int);
        if i > 0 {
            assert(pre.last() == '/');
        }
        assert(path_tail(pre) =~= seq![]);
        assert(path_tail(chars@) =~= chars@.subrange(i as int, n as int));
    }
    let tail = shell_path.substring_char(i, n);
    let mut name = if login {
        let mut dash = String::from_str("-");
        proof {
            reveal_strlit("-");
        }
        dash.append(tail);
        dash
    } else {
        String::from_str(tail)
    };
    assert(name@ =~= shell_argv0_spec(shell_path@, login));
    if contains_nul(name.as_str()) {
        None
    } else {
        Some(name)
    }
}


// ---------------------------------------------------------------------------
// The order of a whole descendant walk
// ---------------------------------------------------------------------------

/// The descendants of `pid` in pre-order (each child, then its own
/// descendants, children in the order `children` lists them), down to
/// `depth` levels below `pid`.
pub open spec fn preorder_below(children: spec_fn(i32) -> Seq<i32>, pid: i32, depth: nat) -> Seq<
    i32,
>
    decreases depth, 0nat,
{
    if depth == 0 {
        seq![]
    } else {
        preorder_of_list(children, children(pid), (depth - 1) as nat)
    }
}

/// Each pid of `list`, followed by its descendants down to `depth` levels
/// below it, in order.
pub open spec fn preorder_of_list(
    children: spec_fn(i32) -> Seq<i32>,
    list: Seq<i32>,
    depth: nat,
) -> Seq<i32>
    decreases depth, list.len(),
{
    if list.len() == 0 {
        seq![]
    } else {
        seq![list[0]] + preorder_below(children, list[0], depth) + preorder_of_list(
            children,
            list.drop_first(),
            depth,
        )
    }
}

/// Whether every process below `pid` lies within `depth` levels of it: the
/// children relation has no cycle under `pid`, and a process at the last
/// level has no children.
pub open spec fn within_depth(children: spec_fn(i32) -> Seq<i32>, pid: i32, depth: nat) -> bool
    decreases depth, 0nat,
{
    depth > 0 && all_within_depth(children, children(pid), (depth - 1) as nat)
}

pub open spec fn all_within_depth(
    children: spec_fn(i32) -> Seq<i32>,
    list: Seq<i32>,
    depth: nat,
) -> bool
    decreases depth, list.len(),
{
    list.len() == 0 || (within_depth(children, list[0], depth) && all_within_depth(
        children,
        list.drop_first(),
        depth,
    ))
}

/// What the queued processes still owe to the walk's output: each, from the
/// next one down, followed by its descendants.
pub open spec fn pending_output(
    children: spec_fn(i32) -> Seq<i32>,
    pending: Seq<i32>,
    depths: Seq<nat>,
) -> Seq<i32>
    decreases pending.len(),
{
    if pending.len() == 0 || depths.len() != pending.len() {
        seq![]
    } else {
        seq![pending.last()] + preorder_below(children, pending.last(), depths.last())
            + pending_output(children, pending.drop_last(), depths.drop_last())
    }
}

/// The state of a walk below `root` whose steps were each fed the children
/// of the process it asked for: what is found, followed by what is still
/// owed, is the pre-order of `root`'s descendants; once nothing is asked
/// for, what is found is exactly that pre-order.
pub open spec fn walk_invariant(
    children: spec_fn(i32) -> Seq<i32>,
    root: i32,
    depth: nat,
    found: Seq<i32>,
    pending: Seq<i32>,
    depths: Seq<nat>,
    next: Option<i32>,
    next_depth: nat,
) -> bool {
    &&& pending.len() == depths.len()
    &&& forall|i: int| 0 <= i < pending.len() ==> within_depth(children, #[trigger] pending[i], depths[i])
    &&& match next {
        Some(p) => within_depth(children, p, next_depth) && found + preorder_below(children, p, next_depth)
            + pending_output(children, pending, depths) == preorder_below(children, root, depth),
        None => pending.len() == 0 && found == preorder_below(children, root, depth),
    }
}

proof fn lemma_all_within_depth_each(children: spec_fn(i32) -> Seq<i32>, list: Seq<i32>, depth: nat)
    requires
        all_within_depth(children, list, depth),
    ensures
        forall|i: int| 0 <= i < list.len() ==> within_depth(children, #[trigger] list[i], depth),
    decreases list.len(),
{
    if list.len() > 0 {
        lemma_all_within_depth_each(children, list.drop_first(), depth);
        assert forall|i: int| 0 <= i < list.len() implies within_depth(children, #[trigger] list[i], depth) by {
            if i > 0 {
                assert(list[i] == list.drop_first()[i - 1]);
            }
        }
    }
}

/// Queuing a list of children, the first on top, owes each of them with
/// its descendants, before what was owed already.
proof fn lemma_queue_children(
    children: spec_fn(i32) -> Seq<i32>,
    pending: Seq<i32>,
    depths: Seq<nat>,
    list: Seq<i32>,
    depth: nat,
)
    requires
        pending.len() == depths.len(),
    ensures
        pending_output(
            children,
            pending + list.reverse(),
            depths + Seq::new(list.len(), |i: int| depth),
        ) == preorder_of_list(children, list, depth) + pending_output(children, pending, depths),
    decreases list.len(),
{
    let dl = Seq::new(list.len(), |i: int| depth);
    if list.len() == 0 {
        assert(pending + list.reverse() =~= pending);
        assert(depths + dl =~= depths);
        assert(preorder_of_list(children, list, depth) =~= seq![]);
    } else {
        let rest = list.drop_first();
        lemma_queue_children(children, pending, depths, rest, depth);
        let dr = Seq::new(rest.len(), |i: int| depth);
        let q = pending + list.reverse();
        let qd = depths + dl;
        assert(q.drop_last() =~= pending + rest.reverse());
        assert(qd.drop_last() =~= depths + dr);
        assert(q.last() == list[0]);
        assert(qd.last() == depth);
        assert(pending_output(children, q, qd) =~= seq![list[0]] + preorder_below(
            children,
            list[0],
            depth,
        ) + pending_output(children, pending + rest.reverse(), depths + dr));
    }
}

/// A new walk below `root` meets the invariant.
pub proof fn lemma_walk_starts(children: spec_fn(i32) -> Seq<i32>, root: i32, depth: nat)
    requires
        within_depth(children, root, depth),
    ensures
        walk_invariant(children, root, depth, seq![], seq![], seq![], Some(root), depth),
{
    assert(seq![] + preorder_below(children, root, depth) + pending_output(children, seq![], seq![])
        =~= preorder_below(children, root, depth));
}

/// Feeding a walk the children of the process it asked for keeps the
/// invariant, with the step that [`DescendantWalk::feed`] makes: the
/// children are queued, the first one on top, and the top of the queue is
/// visited next.
pub proof fn lemma_walk_step(
    children: spec_fn(i32) -> Seq<i32>,
    root: i32,
    depth: nat,
    found: Seq<i32>,
    pending: Seq<i32>,
    depths: Seq<nat>,
    next: i32,
    next_depth: nat,
)
    requires
        walk_invariant(children, root, depth, found, pending, depths, Some(next), next_depth),
    ensures
        ({
            let fed = children(next);
            let queue = pending + fed.reverse();
            let queue_depths = depths + Seq::new(fed.len(), |i: int| (next_depth - 1) as nat);
            if queue.len() > 0 {
                walk_invariant(
                    children,
                    root,
                    depth,
                    found.push(queue.last()),
                    queue.drop_last(),
                    queue_depths.drop_last(),
                    Some(queue.last()),
                    queue_depths.last(),
                )
            } else {
                walk_invariant(children, root, depth, found, queue, queue_depths, None, 0)
            }
        }),
{
    let fed = children(next);
    let d = (next_depth - 1) as nat;
    let dl = Seq::new(fed.len(), |i: int| d);
    let queue = pending + fed.reverse();
    let qd = depths + dl;
    lemma_queue_children(children, pending, depths, fed, d);
    lemma_all_within_depth_each(children, fed, d);
    assert(preorder_below(children, next, next_depth) == preorder_of_list(children, fed, d));
    assert forall|i: int| 0 <= i < queue.len() implies within_depth(children, #[trigger] queue[i], qd[i]) by {
        if i >= pending.len() {
            let k = fed.len() - 1 - (i - pending.len());
            assert(queue[i] == fed[k]);
            assert(qd[i] == d);
        } else {
            assert(queue[i] == pending[i]);
            assert(qd[i] == depths[i]);
        }
    }
    let target = preorder_below(children, root, depth);
    assert(found + pending_output(children, queue, qd) == target) by {
        assert(found + preorder_of_list(children, fed, d) + pending_output(children, pending, depths)
            =~= found + (preorder_of_list(children, fed, d) + pending_output(children, pending, depths)));
    }
    if queue.len() > 0 {
        let top = queue.last();
        let rest = queue.drop_last();
        let rd = qd.drop_last();
        assert(within_depth(children, top, qd.last()));
        assert(pending_output(children, queue, qd) == seq![top] + preorder_below(children, top, qd.last())
            + pending_output(children, rest, rd));
        assert(found.push(top) + preorder_below(children, top, qd.last()) + pending_output(children, rest, rd)
            =~= found + pending_output(children, queue, qd));
        assert forall|i: int| 0 <= i < rest.len() implies within_depth(children, #[trigger] rest[i], rd[i]) by {
            assert(rest[i] == queue[i] && rd[i] == qd[i]);
        }
    } else {
        assert(pending_output(children, queue, qd) =~= seq![]);
        assert(found + seq![] =~= found);
    }
}

/// Once the walk asks for nothing more, what it found is the pre-order of
/// `root`'s descendants.
pub proof fn lemma_walk_ends_in_preorder(
    children: spec_fn(i32) -> Seq<i32>,
    root: i32,
    depth: nat,
    found: Seq<i32>,
    pending: Seq<i32>,
    depths: Seq<nat>,
    next_depth: nat,
)
    requires
        walk_invariant(children, root, depth, found, pending, depths, None, next_depth),
    ensures
        found == preorder_below(children, root, depth),
{
}

} // verus!
