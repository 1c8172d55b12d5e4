#![allow(unused_mut)]

use kernel_fs::error::{Error, Result};
use kernel_fs::pipe::{
    pipe_channel, pipe_channel_with_capacity, round_pipe_size, PipeRing, Transfer, PIPE_MAX_SIZE,
    PIPE_MIN_SIZE,
};
use kernel_fs::vfs::NodeKind;

fn done(transfer: Transfer) -> Result<usize> {
    match transfer {
        Transfer::Done(result) => result,
        Transfer::Wait => panic!("has to wait"),
    }
}

#[test]
fn ring_empty_read_returns_zero() {
    let mut ring = PipeRing::new(64);
    let mut buf = [0u8; 16];
    assert_eq!(ring.read_from(&mut buf), 0);
}

#[test]
fn ring_write_and_read_exact() {
    let mut ring = PipeRing::new(64);
    assert_eq!(ring.write_to(b"hello"), 5);
    assert_eq!(ring.available(), 5);
    assert!(!ring.is_empty());

    let mut buf = [0u8; 16];
    assert_eq!(ring.read_from(&mut buf), 5);
    assert_eq!(&buf[..5], b"hello");
    assert!(ring.is_empty());
}

#[test]
fn ring_partial_read() {
    let mut ring = PipeRing::new(64);
    ring.write_to(b"abcdefghij");
    assert_eq!(ring.available(), 10);

    let mut buf = [0u8; 4];
    assert_eq!(ring.read_from(&mut buf), 4);
    assert_eq!(&buf, b"abcd");
    assert_eq!(ring.available(), 6);

    let mut buf = [0u8; 16];
    assert_eq!(ring.read_from(&mut buf), 6);
    assert_eq!(&buf[..6], b"efghij");
}

#[test]
fn ring_wraparound() {
    let mut ring = PipeRing::new(8);
    // Fill the buffer
    assert_eq!(ring.write_to(b"12345678"), 8);
    assert!(ring.is_full());

    // Read half
    let mut buf = [0u8; 4];
    assert_eq!(ring.read_from(&mut buf), 4);
    assert_eq!(&buf, b"1234");

    // Write more, wrapping around
    assert_eq!(ring.write_to(b"abcd"), 4);
    assert!(ring.is_full());

    // Read all
    let mut buf = [0u8; 8];
    assert_eq!(ring.read_from(&mut buf), 8);
    assert_eq!(&buf, b"5678abcd");
}

#[test]
fn ring_full_write_returns_zero() {
    let mut ring = PipeRing::new(4);
    assert_eq!(ring.write_to(b"1234"), 4);
    assert!(ring.is_full());
    assert_eq!(ring.write_to(b"56"), 0); // no space
}

#[test]
fn ring_write_partial_accepts_available_space() {
    let mut ring = PipeRing::new(4);
    assert_eq!(ring.write_to(b"12"), 2);
    assert_eq!(ring.remaining(), 2);
    assert_eq!(ring.write_to(b"3456"), 2); // only 2 fit
    assert!(ring.is_full());
    assert_eq!(ring.available(), 4);
}

#[test]
fn pipe_read_empty_blocks_then_reads_after_write() {
    let (mut channel, mut read_end, mut write_end) = pipe_channel_with_capacity(64);

    // Write some data first
    let mut data = [0u8; 5];
    assert_eq!(done(write_end.write(&mut channel, 0, b"hello")), Ok(5));

    // Read it back
    assert_eq!(done(read_end.read(&mut channel, 0, &mut data)), Ok(5));
    assert_eq!(&data, b"hello");
}

#[test]
fn pipe_write_full_blocks_then_writes_after_read() {
    let (mut channel, mut read_end, mut write_end) = pipe_channel_with_capacity(4);

    assert_eq!(done(write_end.write(&mut channel, 0, b"1234")), Ok(4));

    // The pipe is full; draining it makes room.
    let mut buf = [0u8; 4];
    assert_eq!(done(read_end.read(&mut channel, 0, &mut buf)), Ok(4));
    assert_eq!(&buf, b"1234");

    // Now the pipe is empty again; writes should succeed.
    assert_eq!(done(write_end.write(&mut channel, 0, b"ab")), Ok(2));
    let mut buf = [0u8; 2];
    assert_eq!(done(read_end.read(&mut channel, 0, &mut buf)), Ok(2));
    assert_eq!(&buf, b"ab");
}

#[test]
fn pipe_read_end_rejects_writes() {
    let (mut channel, mut read_end, mut _write_end) = pipe_channel();
    assert_eq!(read_end.write(0, b"x"), Err(Error::PermissionDenied));
}

#[test]
fn pipe_write_end_rejects_reads() {
    let (mut channel, mut _read_end, mut write_end) = pipe_channel();
    let mut buf = [0u8; 1];
    assert_eq!(write_end.read(0, &mut buf), Err(Error::PermissionDenied));
}

#[test]
fn pipe_zero_length_read_returns_zero() {
    let (mut channel, mut read_end, mut _write_end) = pipe_channel();
    assert_eq!(done(read_end.read(&mut channel, 0, &mut [])), Ok(0));
}

#[test]
fn pipe_zero_length_write_returns_zero() {
    let (mut channel, mut _read_end, mut write_end) = pipe_channel();
    assert_eq!(done(write_end.write(&mut channel, 0, &[])), Ok(0));
}

#[test]
fn pipe_read_returns_eof_when_writer_dropped() {
    let (mut channel, mut read_end, mut write_end) = pipe_channel_with_capacity(64);

    // Write then drop the writer.
    assert_eq!(done(write_end.write(&mut channel, 0, b"data")), Ok(4));
    write_end.close(&mut channel);

    // Read the data.
    let mut buf = [0u8; 4];
    assert_eq!(done(read_end.read(&mut channel, 0, &mut buf)), Ok(4));
    assert_eq!(&buf, b"data");

    // Next read should return EOF (0 bytes).
    let mut buf = [0u8; 1];
    assert_eq!(done(read_end.read(&mut channel, 0, &mut buf)), Ok(0));
}

#[test]
fn pipe_write_returns_error_when_reader_dropped() {
    let (mut channel, mut read_end, mut write_end) = pipe_channel_with_capacity(4);

    // Drop the reader.
    read_end.close(&mut channel);

    // Writer should get an error (broken pipe).
    assert_eq!(done(write_end.write(&mut channel, 0, b"x")), Err(Error::DeviceError));
}

#[test]
fn pipe_large_transfer_many_segments() {
    // Write 100 bytes in 7-byte chunks, then close the writer so the
    // reader sees EOF rather than blocking indefinitely.
    let (mut channel, mut read_end, mut write_end) = pipe_channel_with_capacity(256);

    let total = 100usize;
    let mut written = 0;
    while written < total {
        let chunk = [b'A' + (written % 26) as u8; 7];
        let n = done(write_end.write(&mut channel, 0, &chunk[..7.min(total - written)])).unwrap();
        written += n;
    }
    write_end.close(&mut channel); // close writer → reader will see EOF after draining

    // Read back in 11-byte chunks until EOF.
    let mut result = Vec::new();
    let mut buf = [0u8; 11];
    loop {
        let n = done(read_end.read(&mut channel, 0, &mut buf)).unwrap();
        if n == 0 {
            break;
        }
        result.extend_from_slice(&buf[..n]);
    }

    assert_eq!(result.len(), total);
    // Each 7-byte chunk uses the same character: A + (chunk_start_index % 26).
    for (i, &byte) in result.iter().enumerate() {
        let chunk_start = (i / 7) * 7;
        let expected = b'A' + (chunk_start % 26) as u8;
        assert_eq!(byte, expected, "mismatch at index {i}");
    }
}

#[test]
fn pipe_custom_capacity() {
    let (mut channel, mut read_end, mut write_end) = pipe_channel_with_capacity(1024);

    let payload = vec![0xABu8; 512];
    assert_eq!(done(write_end.write(&mut channel, 0, &payload)), Ok(512));

    let mut buf = vec![0u8; 512];
    assert_eq!(done(read_end.read(&mut channel, 0, &mut buf)), Ok(512));
    assert_eq!(buf, payload);
}

#[test]
fn pipe_kind_is_file() {
    let (mut channel, mut read_end, mut write_end) = pipe_channel();
    assert_eq!(read_end.kind(), NodeKind::File);
    assert_eq!(write_end.kind(), NodeKind::File);
}

#[test]
fn pipe_size_reflects_available() {
    let (mut channel, mut read_end, mut write_end) = pipe_channel_with_capacity(256);
    assert_eq!(read_end.size(&channel), 0); // nothing to read yet
    assert_eq!(write_end.size(&channel), 256); // all space available

    done(write_end.write(&mut channel, 0, b"hello")).unwrap();
    assert_eq!(read_end.size(&channel), 5);
}

#[test]
fn round_pipe_size_clamps_and_rounds_up() {
    // Below one page → clamped to one page.
    assert_eq!(round_pipe_size(1), PIPE_MIN_SIZE);
    assert_eq!(round_pipe_size(1024), PIPE_MIN_SIZE);
    // Page-aligned values round up to the next power-of-two page count.
    assert_eq!(round_pipe_size(PIPE_MIN_SIZE), PIPE_MIN_SIZE);
    assert_eq!(round_pipe_size(2 * PIPE_MIN_SIZE), 2 * PIPE_MIN_SIZE);
    assert_eq!(round_pipe_size(3 * PIPE_MIN_SIZE), 4 * PIPE_MIN_SIZE);
    assert_eq!(round_pipe_size(5 * PIPE_MIN_SIZE), 8 * PIPE_MIN_SIZE);
    // Above the maximum → clamped.
    assert_eq!(round_pipe_size(PIPE_MAX_SIZE + 1), PIPE_MAX_SIZE);
    assert_eq!(round_pipe_size(usize::MAX), PIPE_MAX_SIZE);
}

#[test]
fn pipe_resize_preserves_buffered_data() {
    let (mut channel, mut read_end, mut write_end) = pipe_channel_with_capacity(64);
    assert_eq!(done(write_end.write(&mut channel, 0, b"hello")), Ok(5));

    // Grow to 128 bytes — buffered data must survive.
    assert!(read_end.set_pipe_capacity(&mut channel, 128).is_ok());
    assert_eq!(read_end.pipe_capacity(&channel), Some(128));
    assert_eq!(write_end.pipe_capacity(&channel), Some(128));

    let mut buf = [0u8; 5];
    assert_eq!(done(read_end.read(&mut channel, 0, &mut buf)), Ok(5));
    assert_eq!(&buf, b"hello");

    // Shrinking back down still works while the buffer is drained.
    assert!(write_end.set_pipe_capacity(&mut channel, 64).is_ok());
    assert_eq!(write_end.pipe_capacity(&channel), Some(64));
}

#[test]
fn pipe_resize_too_small_for_buffered_data_returns_busy() {
    let (mut channel, mut read_end, mut write_end) = pipe_channel_with_capacity(256);
    assert_eq!(done(write_end.write(&mut channel, 0, b"0123456789")), Ok(10));

    // 8 < 10 buffered bytes → Busy.
    assert_eq!(read_end.set_pipe_capacity(&mut channel, 8), Err(Error::Busy));
    // The pipe is unchanged: data is still intact at the original size.
    assert_eq!(read_end.pipe_capacity(&channel), Some(256));
    let mut buf = [0u8; 10];
    assert_eq!(done(read_end.read(&mut channel, 0, &mut buf)), Ok(10));
    assert_eq!(&buf, b"0123456789");
}

#[test]
fn pipe_nonblocking_read_reports_busy_when_empty() {
    let (mut channel, mut read_end, mut write_end) = pipe_channel_with_capacity(64);

    // Empty + non-blocking → Busy, even with a blocked-writer-style probe.
    assert!(read_end.set_nonblocking(true).is_ok());
    let mut buf = [0u8; 4];
    assert_eq!(done(read_end.read(&mut channel, 0, &mut buf)), Err(Error::Busy));

    // Data arrives → the non-blocking read succeeds.
    assert_eq!(done(write_end.write(&mut channel, 0, b"abcd")), Ok(4));
    assert_eq!(done(read_end.read(&mut channel, 0, &mut buf)), Ok(4));
    assert_eq!(&buf, b"abcd");

    // Back to blocking mode is recorded.
    assert!(read_end.set_nonblocking(false).is_ok());
    assert!(!read_end.is_nonblocking());
}

#[test]
fn pipe_nonblocking_write_reports_busy_when_full() {
    let (mut channel, mut read_end, mut write_end) = pipe_channel_with_capacity(4);

    // Fill the pipe, then switch to non-blocking.
    assert_eq!(done(write_end.write(&mut channel, 0, b"1234")), Ok(4));
    assert!(write_end.set_nonblocking(true).is_ok());
    assert_eq!(done(write_end.write(&mut channel, 0, b"x")), Err(Error::Busy));

    // Drain a byte → a non-blocking write has room again.
    let mut buf = [0u8; 1];
    assert_eq!(done(read_end.read(&mut channel, 0, &mut buf)), Ok(1));
    assert_eq!(done(write_end.write(&mut channel, 0, b"y")), Ok(1));
}

#[test]
fn pipe_nonblocking_is_per_end() {
    let (mut channel, mut read_end, mut write_end) = pipe_channel_with_capacity(64);
    assert!(!read_end.is_nonblocking());
    assert!(!write_end.is_nonblocking());

    read_end.set_nonblocking(true).unwrap();
    assert!(read_end.is_nonblocking());
    // The write end is an independent file description.
    assert!(!write_end.is_nonblocking());

    write_end.set_nonblocking(true).unwrap();
    assert!(write_end.is_nonblocking());
}

#[test]
fn pipe_waits_for_the_other_end() {
    let (mut channel, read_end, write_end) = pipe_channel_with_capacity(2);
    let mut buf = [0u8; 2];
    assert_eq!(read_end.read(&mut channel, 0, &mut buf), Transfer::Wait);
    assert_eq!(done(write_end.write(&mut channel, 0, b"abc")), Ok(2));
    assert_eq!(write_end.write(&mut channel, 0, b"c"), Transfer::Wait);
    assert_eq!(done(read_end.read(&mut channel, 0, &mut buf)), Ok(2));
    assert_eq!(&buf, b"ab");
}

#[test]
fn pipe_bytes_come_out_in_the_order_they_went_in() {
    let (mut channel, read_end, write_end) = pipe_channel_with_capacity(5);
    let mut sent = Vec::new();
    let mut received = Vec::new();
    for round in 0..20u8 {
        let chunk = [round, round.wrapping_add(100), 7];
        let n = done(write_end.write(&mut channel, 0, &chunk)).unwrap();
        sent.extend_from_slice(&chunk[..n]);
        let mut buf = [0u8; 2];
        let n = done(read_end.read(&mut channel, 0, &mut buf)).unwrap();
        received.extend_from_slice(&buf[..n]);
    }
    assert!(received.len() <= sent.len());
    assert_eq!(received, sent[..received.len()]);
}

#[test]
fn ring_resize_keeps_the_bytes() {
    let mut ring = PipeRing::new(4);
    ring.write_to(b"abcd");
    let mut buf = [0u8; 2];
    ring.read_from(&mut buf);
    ring.write_to(b"ef");
    assert_eq!(ring.resize(3), Err(Error::Busy));
    assert_eq!(ring.resize(4), Ok(()));
    assert_eq!(ring.resize(9), Ok(()));
    assert_eq!(ring.remaining(), 5);
    let mut buf = [0u8; 9];
    assert_eq!(ring.read_from(&mut buf), 4);
    assert_eq!(&buf[..4], b"cdef");
}
