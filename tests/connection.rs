use bite::codec::Opcode;
use bite::connection::{Connection, Interest, ReadEvent, Side, Step, WriteEvent};

fn open_leg() -> Connection {
    Connection::new(1, 2, Side::Upstream)
}

#[test]
fn read_gathers_until_would_block() {
    let mut c = open_leg();
    assert_eq!(c.try_read(ReadEvent::Bytes(b"hel".to_vec())), Step::Again);
    assert_eq!(c.try_read(ReadEvent::Interrupted), Step::Again);
    assert_eq!(c.try_read(ReadEvent::Bytes(b"lo".to_vec())), Step::Again);
    assert_eq!(c.try_read(ReadEvent::WouldBlock), Step::Stop);
    assert_eq!(c.read_buffer, vec![b"hello".to_vec()]);
    assert!(c.gathered.is_empty());
    assert!(!c.closed);
}

#[test]
fn would_block_with_nothing_read_adds_no_message() {
    let mut c = open_leg();
    assert_eq!(c.try_read(ReadEvent::WouldBlock), Step::Stop);
    assert!(c.read_buffer.is_empty());
    assert!(!c.closed);
}

#[test]
fn zero_byte_read_closes_and_forwards_nothing() {
    let mut c = open_leg();
    assert_eq!(c.try_read(ReadEvent::Bytes(Vec::new())), Step::Stop);
    assert!(c.closed);
    assert!(c.read_buffer.is_empty());
    assert_eq!(c.take_received(), None);
}

#[test]
fn failed_read_closes() {
    let mut c = open_leg();
    assert_eq!(c.try_read(ReadEvent::Failed), Step::Stop);
    assert!(c.closed);
}

#[test]
fn closed_connection_reads_nothing_more() {
    let mut c = open_leg();
    c.try_read(ReadEvent::Failed);
    assert_eq!(c.try_read(ReadEvent::Bytes(b"late".to_vec())), Step::Stop);
    assert!(c.gathered.is_empty());
    assert!(c.read_buffer.is_empty());
}

#[test]
fn close_frame_closes_and_data_frames_gather() {
    let mut c = Connection::new(1, 2, Side::Client);
    assert_eq!(c.try_read(ReadEvent::Frame(Opcode::Text, b"ab".to_vec())), Step::Again);
    assert_eq!(c.try_read(ReadEvent::Frame(Opcode::Ping, b"c".to_vec())), Step::Again);
    assert_eq!(c.try_read(ReadEvent::WouldBlock), Step::Stop);
    assert_eq!(c.read_buffer, vec![b"abc".to_vec()]);
    assert_eq!(c.try_read(ReadEvent::Frame(Opcode::Close, Vec::new())), Step::Stop);
    assert!(c.closed);
}

#[test]
fn short_writes_resume_until_all_ten_thousand_bytes_are_out() {
    let payload: Vec<u8> = (0..10_000u32).map(|i| (i % 251) as u8).collect();
    let mut c = open_leg();
    c.enqueue(payload.clone());
    assert_eq!(c.interest(), Interest::Writable);
    let mut wire: Vec<u8> = Vec::new();
    let mut calls = 0;
    loop {
        let pending = c.pending().to_vec();
        if pending.is_empty() {
            break;
        }
        wire.push(pending[0]);
        calls += 1;
        if c.try_write(WriteEvent::Sent(1)) == Step::Stop {
            break;
        }
    }
    assert_eq!(calls, 10_000);
    assert_eq!(wire, payload);
    assert!(c.write_queue.is_empty());
    assert_eq!(c.written, 0);
    assert_eq!(c.interest(), Interest::Readable);
    assert!(!c.closed);
}

#[test]
fn short_write_leaves_the_unwritten_suffix_pending() {
    let mut c = open_leg();
    c.enqueue(b"abcdef".to_vec());
    assert_eq!(c.try_write(WriteEvent::Sent(2)), Step::Again);
    assert_eq!(c.pending(), b"cdef");
    assert_eq!(c.try_write(WriteEvent::WouldBlock), Step::Stop);
    assert_eq!(c.pending(), b"cdef");
    assert_eq!(c.try_write(WriteEvent::Interrupted), Step::Again);
    assert_eq!(c.try_write(WriteEvent::Sent(4)), Step::Stop);
    assert!(c.write_queue.is_empty());
}

#[test]
fn queued_payloads_go_out_in_order() {
    let mut c = open_leg();
    c.enqueue(b"one".to_vec());
    c.enqueue(b"two".to_vec());
    assert_eq!(c.pending(), b"one");
    c.try_write(WriteEvent::Sent(3));
    assert_eq!(c.pending(), b"two");
    c.try_write(WriteEvent::Sent(3));
    assert_eq!(c.pending(), b"");
}

#[test]
fn zero_byte_write_with_data_pending_closes() {
    let mut c = open_leg();
    c.enqueue(b"x".to_vec());
    assert_eq!(c.try_write(WriteEvent::Sent(0)), Step::Stop);
    assert!(c.closed);
}

#[test]
fn failed_write_closes() {
    let mut c = open_leg();
    c.enqueue(b"x".to_vec());
    assert_eq!(c.try_write(WriteEvent::Failed), Step::Stop);
    assert!(c.closed);
}

#[test]
fn closed_or_empty_payloads_are_not_queued() {
    let mut c = open_leg();
    c.enqueue(Vec::new());
    assert!(c.write_queue.is_empty());
    c.try_read(ReadEvent::Failed);
    c.enqueue(b"x".to_vec());
    assert!(c.write_queue.is_empty());
}

#[test]
fn failed_write_with_nothing_queued_closes() {
    let mut c = open_leg();
    assert_eq!(c.try_write(WriteEvent::Failed), Step::Stop);
    assert!(c.closed);
}

#[test]
fn zero_byte_write_with_nothing_queued_changes_nothing() {
    let mut c = open_leg();
    assert_eq!(c.try_write(WriteEvent::Sent(0)), Step::Stop);
    assert!(!c.closed);
    assert_eq!(c.try_write(WriteEvent::Interrupted), Step::Stop);
    assert!(!c.closed);
}

#[test]
fn closed_connection_has_nothing_pending() {
    let mut c = open_leg();
    c.enqueue(b"queued".to_vec());
    assert_eq!(c.pending(), b"queued");
    c.try_read(ReadEvent::Failed);
    assert!(c.pending().is_empty());
    assert_eq!(c.try_write(WriteEvent::Sent(6)), Step::Stop);
    assert_eq!(c.write_queue, vec![b"queued".to_vec()]);
}
