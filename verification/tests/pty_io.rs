use prux::error::{OsError, OsErrorKind};
use prux::pty::{try_read_step, ReadReaction, WriteAll, WriteReaction};
use prux::ProcessError;

fn os_error(kind: OsErrorKind, raw: Option<i32>, message: &str) -> OsError {
    OsError {
        kind,
        raw_os_error: raw,
        message: message.to_string(),
    }
}

#[test]
fn write_all_advances_until_every_byte_is_accepted() {
    let mut w = WriteAll::new(10);
    assert_eq!(w.next_offset(), Some(0));
    assert!(matches!(w.on_write(Ok(4)), WriteReaction::Again));
    assert_eq!(w.next_offset(), Some(4));
    assert!(matches!(
        w.on_write(Err(os_error(OsErrorKind::Interrupted, None, "interrupted"))),
        WriteReaction::Again
    ));
    assert_eq!(w.next_offset(), Some(4));
    assert!(matches!(
        w.on_write(Err(os_error(OsErrorKind::WouldBlock, None, "would block"))),
        WriteReaction::WaitWritable
    ));
    assert!(w.on_wait(Ok(())).is_none());
    assert!(matches!(w.on_write(Ok(6)), WriteReaction::Again));
    assert_eq!(w.next_offset(), None);
}

#[test]
fn empty_write_is_complete_at_once() {
    let w = WriteAll::new(0);
    assert_eq!(w.next_offset(), None);
}

#[test]
fn zero_count_write_means_pty_closed() {
    let mut w = WriteAll::new(3);
    match w.on_write(Ok(0)) {
        WriteReaction::Fail(ProcessError::Io(m)) => {
            assert_eq!(m, "write_all: PTY closed while writing")
        }
        other => panic!("unexpected {other:?}"),
    }
}

#[test]
fn failed_write_and_failed_wait_are_io_errors_with_context() {
    let mut w = WriteAll::new(3);
    match w.on_write(Err(os_error(OsErrorKind::Other, Some(9), "Bad file descriptor (os error 9)"))) {
        WriteReaction::Fail(ProcessError::Io(m)) => {
            assert_eq!(m, "write: Bad file descriptor (os error 9)")
        }
        other => panic!("unexpected {other:?}"),
    }
    match w.on_wait(Err(os_error(OsErrorKind::Other, Some(22), "Invalid argument (os error 22)"))) {
        Some(ProcessError::Io(m)) => assert_eq!(m, "poll writable: Invalid argument (os error 22)"),
        other => panic!("unexpected {other:?}"),
    }
}

#[test]
fn read_steps_collect_the_chunks_in_order() {
    let mut out = Vec::new();
    let buf = *b"hello world";
    assert!(matches!(try_read_step(&mut out, &buf, Ok(5)), ReadReaction::Again));
    assert_eq!(out, b"hello".to_vec());
    let buf2 = *b"!!xyz";
    assert!(matches!(try_read_step(&mut out, &buf2, Ok(2)), ReadReaction::Again));
    assert_eq!(out, b"hello!!".to_vec());
    assert!(matches!(try_read_step(&mut out, &buf2, Ok(0)), ReadReaction::Stop));
    assert_eq!(out, b"hello!!".to_vec());
}

#[test]
fn read_stops_on_would_block_and_on_eio() {
    let mut out = vec![1u8];
    let buf = [0u8; 4];
    assert!(matches!(
        try_read_step(&mut out, &buf, Err(os_error(OsErrorKind::WouldBlock, None, "x"))),
        ReadReaction::Stop
    ));
    assert!(matches!(
        try_read_step(&mut out, &buf, Err(os_error(OsErrorKind::Other, Some(5), "Input/output error"))),
        ReadReaction::Stop
    ));
    assert!(matches!(
        try_read_step(&mut out, &buf, Err(os_error(OsErrorKind::Interrupted, Some(4), "x"))),
        ReadReaction::Again
    ));
    assert_eq!(out, vec![1u8]);
}

#[test]
fn other_read_errors_fail_with_context() {
    let mut out = Vec::new();
    let buf = [0u8; 4];
    match try_read_step(&mut out, &buf, Err(os_error(OsErrorKind::Other, Some(9), "Bad file descriptor"))) {
        ReadReaction::Fail(ProcessError::Io(m)) => assert_eq!(m, "read: Bad file descriptor"),
        other => panic!("unexpected {other:?}"),
    }
}

#[test]
fn drained_bytes_are_the_chunks_in_order() {
    let mut reader = prux::pty::ReadAll::new();
    assert!(matches!(reader.step(b"abc", Ok(2)), ReadReaction::Again));
    assert!(matches!(
        reader.step(b"zzz", Err(os_error(OsErrorKind::Interrupted, None, "x"))),
        ReadReaction::Again
    ));
    assert!(matches!(reader.step(b"def", Ok(3)), ReadReaction::Again));
    assert!(matches!(reader.step(b"", Ok(0)), ReadReaction::Stop));
    assert_eq!(reader.into_bytes(), b"abdef".to_vec());
}
