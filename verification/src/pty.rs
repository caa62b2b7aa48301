//! The loops that move bytes through a PTY master: each step takes what one
//! `read` or `write` call reported and says what to do next.
use vstd::prelude::*;

use crate::error::{with_context, OsError, OsErrorKind, ProcessError};
use crate::os::linux::{is_pty_eio, EIO};

verus! {

/// The size of the buffer that each `read` fills.
pub const READ_CHUNK: usize = 4096;

/// Progress of writing a whole buffer to a nonblocking descriptor.
pub struct WriteAll {
    total: usize,
    written: usize,
    accepted: Ghost<Seq<usize>>,
}

/// The sum of the counts that the descriptor accepted.
pub open spec fn total_of(counts: Seq<usize>) -> int
    decreases counts.len(),
{
    if counts.len() == 0 {
        0
    } else {
        total_of(counts.drop_last()) + counts.last()
    }
}

/// The chunks of `bytes` that writes accepted, in order: each starts where
/// the previous one ended and is as long as its count.
pub open spec fn chunks_of(bytes: Seq<u8>, counts: Seq<usize>) -> Seq<u8>
    decreases counts.len(),
{
    if counts.len() == 0 {
        seq![]
    } else {
        let start = total_of(counts.drop_last());
        chunks_of(bytes, counts.drop_last()) + bytes.subrange(start, start + counts.last())
    }
}

/// The accepted chunks of a buffer are its first bytes, each written once
/// and in order; once the counts add up to the whole buffer, they make up
/// exactly the buffer.
pub proof fn lemma_accepted_chunks_make_up_buffer(bytes: Seq<u8>, counts: Seq<usize>)
    requires
        total_of(counts) <= bytes.len(),
    ensures
        total_of(counts) >= 0,
        chunks_of(bytes, counts) == bytes.take(total_of(counts)),
        total_of(counts) == bytes.len() ==> chunks_of(bytes, counts) == bytes,
    decreases counts.len(),
{
    if counts.len() > 0 {
        lemma_accepted_chunks_make_up_buffer(bytes, counts.drop_last());
        let start = total_of(counts.drop_last());
        assert(bytes.take(start) + bytes.subrange(start, start + counts.last()) =~= bytes.take(
            total_of(counts),
        ));
    }
    if total_of(counts) == bytes.len() {
        assert(bytes.take(total_of(counts)) =~= bytes);
    }
}

/// What to do after one `write` call.
#[derive(Debug)]
pub enum WriteReaction {
    /// Write the rest again.
    Again,
    /// Wait until the descriptor accepts more, then write the rest.
    WaitWritable,
    /// Stop with this error.
    Fail(ProcessError),
}

impl WriteAll {
    pub closed spec fn total_spec(&self) -> usize {
        self.total
    }

    /// How many bytes the descriptor has accepted so far.
    pub closed spec fn written_spec(&self) -> usize {
        self.written
    }

    /// The counts of the writes that the descriptor accepted, in order.
    pub closed spec fn accepted_spec(&self) -> Seq<usize> {
        self.accepted@
    }

    /// The bytes accepted so far are the sum of the accepted counts.
    pub closed spec fn wf(&self) -> bool {
        self.written == total_of(self.accepted@)
    }

    /// Starts writing a buffer of `total` bytes.
    pub fn new(total: usize) -> (w: WriteAll)
        ensures
            w.wf(),
            w.total_spec() == total,
            w.written_spec() == 0,
            w.accepted_spec() == Seq::<usize>::empty(),
    {
        WriteAll { total, written: 0, accepted: Ghost(Seq::empty()) }
    }

    /// The bytes written so far are the sum of the accepted counts.
    pub proof fn lemma_written_is_total(&self)
        requires
            self.wf(),
        ensures
            self.written_spec() == total_of(self.accepted_spec()),
    {
    }

    /// Where the next `write` starts in the buffer, or `None` once every byte
    /// has been accepted.
    pub fn next_offset(&self) -> (offset: Option<usize>)
        ensures
            offset == (if self.written_spec() < self.total_spec() {
                Some(self.written_spec())
            } else {
                None
            }),
    {
        if self.written < self.total {
            Some(self.written)
        } else {
            None
        }
    }

    /// Takes what a `write` of the rest of the buffer reported: a count of
    /// zero means the PTY has closed, a positive count advances, an
    /// interruption retries, a full descriptor waits, and any other error
    /// stops.
    pub fn on_write(&mut self, outcome: Result<usize, OsError>) -> (reaction: WriteReaction)
        requires
            old(self).wf(),
            outcome matches Ok(n) ==> old(self).written_spec() + n <= usize::MAX,
        ensures
            final(self).wf(),
            final(self).total_spec() == old(self).total_spec(),
            final(self).accepted_spec() == (match outcome {
                Ok(n) => if n > 0 {
                    old(self).accepted_spec().push(n)
                } else {
                    old(self).accepted_spec()
                },
                Err(_) => old(self).accepted_spec(),
            }),
            match outcome {
                Ok(n) => if n == 0 {
                    &&& final(self).written_spec() == old(self).written_spec()
                    &&& reaction matches WriteReaction::Fail(e)
                    &&& e is Io
                    &&& e.message_spec() == "write_all: PTY closed while writing"@
                } else {
                    &&& final(self).written_spec() == old(self).written_spec() + n
                    &&& reaction is Again
                },
                Err(err) => {
                    &&& final(self).written_spec() == old(self).written_spec()
                    &&& (err.kind == OsErrorKind::Interrupted ==> reaction is Again)
                    &&& (err.kind == OsErrorKind::WouldBlock ==> reaction is WaitWritable)
                    &&& (err.kind == OsErrorKind::Other ==> (reaction matches WriteReaction::Fail(e)
                        && e is Io && e.message_spec() == with_context("write"@, err.message@)))
                },
            },
    {
        match outcome {
            Ok(n) => {
                if n == 0 {
                    WriteReaction::Fail(
                        ProcessError::Io(String::from_str("write_all: PTY closed while writing")),
                    )
                } else {
                    self.written = self.written + n;
                    proof {
                        let before = self.accepted@;
                        self.accepted = Ghost(before.push(n));
                        assert(self.accepted@.drop_last() =~= before);
                    }
                    WriteReaction::Again
                }
            },
            Err(err) => match err.kind {
                OsErrorKind::Interrupted => WriteReaction::Again,
                OsErrorKind::WouldBlock => WriteReaction::WaitWritable,
                OsErrorKind::Other => WriteReaction::Fail(
                    ProcessError::io("write", err.message.as_str()),
                ),
            },
        }
    }

    /// Takes the result of waiting for the descriptor to accept more: a
    /// failed wait stops the write with its error.
    pub fn on_wait(&self, outcome: Result<(), OsError>) -> (failure: Option<ProcessError>)
        ensures
            match outcome {
                Ok(()) => failure is None,
                Err(err) => failure matches Some(e) && e is Io && e.message_spec() == with_context(
                    "poll writable"@,
                    err.message@,
                ),
            },
    {
        match outcome {
            Ok(()) => None,
            Err(err) => Some(ProcessError::io("poll writable", err.message.as_str())),
        }
    }
}

/// What to do after one `read` call.
#[derive(Debug)]
pub enum ReadReaction {
    /// Read again.
    Again,
    /// Stop: everything available has been read.
    Stop,
    /// Stop with this error.
    Fail(ProcessError),
}

/// Takes what one `read` into `buf` reported and adds what it read to `out`:
/// end of file, a descriptor with nothing more to give, and `EIO` (the child
/// side closed) stop the reading; an interruption or data reads again; any
/// other error stops with that error.
pub fn try_read_step(out: &mut Vec<u8>, buf: &[u8], outcome: Result<usize, OsError>) -> (reaction:
    ReadReaction)
    requires
        outcome matches Ok(n) ==> n <= buf@.len(),
    ensures
        match outcome {
            Ok(n) => if n == 0 {
                final(out)@ == old(out)@ && reaction is Stop
            } else {
                final(out)@ == old(out)@ + buf@.take(n as int) && reaction is Again
            },
            Err(err) => {
                &&& final(out)@ == old(out)@
                &&& (err.kind == OsErrorKind::Interrupted ==> reaction is Again)
                &&& (err.kind == OsErrorKind::WouldBlock ==> reaction is Stop)
                &&& (err.kind == OsErrorKind::Other && err.raw_os_error == Some(EIO)
                    ==> reaction is Stop)
                &&& (err.kind == OsErrorKind::Other && err.raw_os_error != Some(EIO)
                    ==> (reaction matches ReadReaction::Fail(e) && e is Io && e.message_spec()
                    == with_context("read"@, err.message@)))
            },
        },
{
    match outcome {
        Ok(n) => {
            if n == 0 {
                ReadReaction::Stop
            } else {
                let ghost before = out@;
                let mut i: usize = 0;
                while i < n
                    invariant
                        n <= buf@.len(),
                        i <= n,
                        out@ == before + buf@.take(i as int),
                    decreases n - i,
                {
                    out.push(buf[i]);
                    assert(buf@.take(i + 1) =~= buf@.take(i as int).push(buf@[i as int]));
                    i = i + 1;
                }
                ReadReaction::Again
            }
        },
        Err(err) => match err.kind {
            OsErrorKind::Interrupted => ReadReaction::Again,
            OsErrorKind::WouldBlock => ReadReaction::Stop,
            OsErrorKind::Other => {
                if is_pty_eio(err.raw_os_error) {
                    ReadReaction::Stop
                } else {
                    ReadReaction::Fail(ProcessError::io("read", err.message.as_str()))
                }
            },
        },
    }
}


/// The concatenation of the chunks read, in order.
pub open spec fn concat_chunks(chunks: Seq<Seq<u8>>) -> Seq<u8>
    decreases chunks.len(),
{
    if chunks.len() == 0 {
        seq![]
    } else {
        concat_chunks(chunks.drop_last()) + chunks.last()
    }
}

/// The total length of the chunks.
pub open spec fn chunks_len(chunks: Seq<Seq<u8>>) -> int
    decreases chunks.len(),
{
    if chunks.len() == 0 {
        0
    } else {
        chunks_len(chunks.drop_last()) + chunks.last().len()
    }
}

/// Draining keeps every byte read: one more chunk adds exactly its bytes at
/// the end, so the bytes returned are as long as all chunks together, and
/// each chunk's bytes stand at the position where the chunks before it end.
pub proof fn lemma_drained_bytes_keep_every_chunk(chunks: Seq<Seq<u8>>, chunk: Seq<u8>)
    ensures
        concat_chunks(chunks.push(chunk)) == concat_chunks(chunks) + chunk,
        concat_chunks(chunks).len() == chunks_len(chunks),
        concat_chunks(chunks.push(chunk)).subrange(
            chunks_len(chunks),
            chunks_len(chunks) + chunk.len(),
        ) == chunk,
    decreases chunks.len(),
{
    assert(chunks.push(chunk).drop_last() =~= chunks);
    if chunks.len() > 0 {
        lemma_drained_bytes_keep_every_chunk(chunks.drop_last(), chunks.last());
    }
    assert((concat_chunks(chunks) + chunk).subrange(
        chunks_len(chunks),
        chunks_len(chunks) + chunk.len(),
    ) =~= chunk);
}

/// Draining a nonblocking PTY: the bytes read so far, and the chunks they
/// came in.
pub struct ReadAll {
    out: Vec<u8>,
    chunks: Ghost<Seq<Seq<u8>>>,
}

impl ReadAll {
    /// The nonempty chunks read so far, in order.
    pub closed spec fn chunks_spec(&self) -> Seq<Seq<u8>> {
        self.chunks@
    }

    pub closed spec fn bytes_spec(&self) -> Seq<u8> {
        self.out@
    }

    /// The bytes held are the chunks read, each once and in order.
    pub closed spec fn wf(&self) -> bool {
        self.out@ == concat_chunks(self.chunks@)
    }

    pub fn new() -> (r: ReadAll)
        ensures
            r.wf(),
            r.chunks_spec() == Seq::<Seq<u8>>::empty(),
    {
        ReadAll { out: Vec::new(), chunks: Ghost(Seq::empty()) }
    }

    /// Takes what one `read` into `buf` reported, as [`try_read_step`] does,
    /// and keeps the chunk it read.
    pub fn step(&mut self, buf: &[u8], outcome: Result<usize, OsError>) -> (reaction: ReadReaction)
        requires
            old(self).wf(),
            outcome matches Ok(n) ==> n <= buf@.len(),
        ensures
            final(self).wf(),
            final(self).bytes_spec() == (match outcome {
                Ok(n) => old(self).bytes_spec() + buf@.take(n as int),
                Err(_) => old(self).bytes_spec(),
            }),
            final(self).chunks_spec() == (match outcome {
                Ok(n) => if n > 0 {
                    old(self).chunks_spec().push(buf@.take(n as int))
                } else {
                    old(self).chunks_spec()
                },
                Err(_) => old(self).chunks_spec(),
            }),
            match outcome {
                Ok(n) => if n == 0 {
                    reaction is Stop
                } else {
                    reaction is Again
                },
                Err(err) => {
                    &&& (err.kind == OsErrorKind::Interrupted ==> reaction is Again)
                    &&& (err.kind == OsErrorKind::WouldBlock ==> reaction is Stop)
                    &&& (err.kind == OsErrorKind::Other && err.raw_os_error == Some(EIO)
                        ==> reaction is Stop)
                    &&& (err.kind == OsErrorKind::Other && err.raw_os_error != Some(EIO)
                        ==> (reaction matches ReadReaction::Fail(e) && e is Io && e.message_spec()
                        == with_context("read"@, err.message@)))
                },
            },
    {
        let ghost counted = match outcome {
            Ok(n) => n,
            Err(_) => 0,
        };
        let reaction = try_read_step(&mut self.out, buf, outcome);
        proof {
            if counted > 0 {
                let before = self.chunks@;
                self.chunks = Ghost(before.push(buf@.take(counted as int)));
                assert(self.chunks@.drop_last() =~= before);
            }
        }
        reaction
    }

    /// Everything read: the chunks, concatenated in order.
    pub fn into_bytes(self) -> (bytes: Vec<u8>)
        requires
            self.wf(),
        ensures
            bytes@ == concat_chunks(self.chunks_spec()),
            bytes@ == self.bytes_spec(),
    {
        self.out
    }
}

} // verus!
