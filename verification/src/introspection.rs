//! Finding the working directory of the workload on a PTY: the foreground
//! process group's, or else the session's.
use vstd::prelude::*;

use crate::error::{with_context, OsError, ProcessError};
use crate::text::{append_i32, signed_decimal};
use vstd::utf8::encode_utf8;

verus! {

/// The path of the link to the working directory of process `pid`:
/// `/proc/<pid>/cwd`.
pub open spec fn proc_cwd_path(pid: i32) -> Seq<u8> {
    encode_utf8("/proc/"@ + signed_decimal(pid as int) + "/cwd"@)
}

pub fn proc_cwd_link(pid: i32) -> (path: Vec<u8>)
    ensures
        path@ == proc_cwd_path(pid),
{
    let mut text = String::from_str("/proc/");
    append_i32(&mut text, pid);
    text.append("/cwd");
    text.as_str().as_bytes_vec()
}

/// What is reported when neither link can be read.
pub open spec fn cwd_not_found_text() -> Seq<char> {
    "unable to resolve current working directory for PTY foreground process"@
}

/// What to do next while looking up the working directory.
#[derive(Debug)]
pub enum CwdStep {
    /// Read the symbolic link at this path.
    ReadLink(Vec<u8>),
    /// Ask the terminal for its session id (`TIOCGSID`).
    QuerySession,
    /// The working directory, as the link's target.
    Found(Vec<u8>),
    /// The lookup failed.
    Failed(ProcessError),
}

#[derive(Clone, Copy, Debug, PartialEq, Eq, Structural)]
pub enum CwdStage {
    ReadingForeground,
    AwaitingSession,
    ReadingSession,
    Done,
}

/// Looks up the working directory of the terminal's foreground process
/// group, and falls back on the terminal's session.
pub struct CwdLookup {
    stage: CwdStage,
}

impl CwdLookup {
    pub closed spec fn stage_spec(&self) -> CwdStage {
        self.stage
    }

    /// Starts from the terminal's foreground process group, as `tcgetpgrp`
    /// reported it: a failure ends the lookup, otherwise the group's link is
    /// read first.
    pub fn new(foreground: Result<i32, OsError>) -> (pair: (CwdLookup, CwdStep))
        ensures
            match foreground {
                Ok(group) => pair.0.stage_spec() == CwdStage::ReadingForeground && (pair.1 matches CwdStep::ReadLink(path)
                    && path@ == proc_cwd_path(group)),
                Err(err) => pair.0.stage_spec() == CwdStage::Done && (pair.1 matches CwdStep::Failed(e)
                    && e is CurrentDir && e.message_spec() == with_context(
                    "current_dir"@,
                    err.message@,
                )),
            },
    {
        match foreground {
            Ok(group) => (
                CwdLookup { stage: CwdStage::ReadingForeground },
                CwdStep::ReadLink(proc_cwd_link(group)),
            ),
            Err(err) => (
                CwdLookup { stage: CwdStage::Done },
                CwdStep::Failed(ProcessError::current_dir("current_dir", err.message.as_str())),
            ),
        }
    }

    /// Takes the outcome of reading a link: its target is the answer; after
    /// the foreground group's link fails the session is asked for, and after
    /// the session's link fails the lookup ends.
    pub fn after_read(&mut self, link: Result<Vec<u8>, OsError>) -> (step: CwdStep)
        requires
            old(self).stage_spec() == CwdStage::ReadingForeground || old(self).stage_spec()
                == CwdStage::ReadingSession,
        ensures
            match link {
                Ok(target) => final(self).stage_spec() == CwdStage::Done && (step matches CwdStep::Found(t)
                    && t@ == target@),
                Err(_) => if old(self).stage_spec() == CwdStage::ReadingForeground {
                    final(self).stage_spec() == CwdStage::AwaitingSession && step is QuerySession
                } else {
                    final(self).stage_spec() == CwdStage::Done && (step matches CwdStep::Failed(e)
                        && e is CurrentDir && e.message_spec() == with_context(
                        "current_dir"@,
                        cwd_not_found_text(),
                    ))
                },
            },
    {
        match link {
            Ok(target) => {
                self.stage = CwdStage::Done;
                CwdStep::Found(target)
            },
            Err(_) => {
                if self.stage == CwdStage::ReadingForeground {
                    self.stage = CwdStage::AwaitingSession;
                    CwdStep::QuerySession
                } else {
                    self.stage = CwdStage::Done;
                    CwdStep::Failed(not_found())
                }
            },
        }
    }

    /// Takes the terminal's session id, if it could be read: its link is
    /// read next, otherwise the lookup ends.
    pub fn after_session(&mut self, session: Option<i32>) -> (step: CwdStep)
        requires
            old(self).stage_spec() == CwdStage::AwaitingSession,
        ensures
            match session {
                Some(sid) => final(self).stage_spec() == CwdStage::ReadingSession && (step matches CwdStep::ReadLink(path)
                    && path@ == proc_cwd_path(sid)),
                None => final(self).stage_spec() == CwdStage::Done && (step matches CwdStep::Failed(e)
                    && e is CurrentDir && e.message_spec() == with_context(
                    "current_dir"@,
                    cwd_not_found_text(),
                )),
            },
    {
        match session {
            Some(sid) => {
                self.stage = CwdStage::ReadingSession;
                CwdStep::ReadLink(proc_cwd_link(sid))
            },
            None => {
                self.stage = CwdStage::Done;
                CwdStep::Failed(not_found())
            },
        }
    }
}

fn not_found() -> (e: ProcessError)
    ensures
        e is CurrentDir,
        e.message_spec() == with_context("current_dir"@, cwd_not_found_text()),
{
    ProcessError::current_dir(
        "current_dir",
        "unable to resolve current working directory for PTY foreground process",
    )
}

} // verus!
