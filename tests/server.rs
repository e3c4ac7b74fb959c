use tsdb::engine::{Reply, StorageError};
use tsdb::protocol::{encode, Command, DecodeError, OpCode};
use tsdb::server::{answer_frame, Connection, Interest, IoOutcome, Next};
use tsdb::timeseries::Record;

#[test]
fn back_to_back_frames_are_served_in_order() {
    let c1 = Command::Create { name: "a".to_string(), retention: 1 };
    let c2 = Command::AddPoint { name: "a".to_string(), value: 5 };
    let mut bytes = encode(&c1);
    bytes.extend_from_slice(&encode(&c2));
    let mut conn = Connection::new();
    conn.receive(&bytes);
    assert_eq!(conn.next_request(), Some(Ok(c1)));
    conn.respond(vec![1]);
    assert_eq!(conn.next_request(), Some(Ok(c2)));
    conn.respond(vec![2]);
    assert_eq!(conn.next_request(), None);
    assert_eq!(conn.pending(), &[1, 2]);
    assert_eq!(conn.interest(), Interest::Writable);
}

#[test]
fn partial_frame_waits_for_the_rest() {
    let c = Command::Delete { name: "abc".to_string() };
    let f = encode(&c);
    let mut conn = Connection::new();
    conn.receive(&f[..4]);
    assert_eq!(conn.next_request(), None);
    conn.receive(&f[4..12]);
    assert_eq!(conn.next_request(), None);
    conn.receive(&f[12..]);
    assert_eq!(conn.next_request(), Some(Ok(c)));
    assert_eq!(conn.interest(), Interest::Readable);
    assert!(conn.pending().is_empty());
}

#[test]
fn bad_frame_is_dropped_and_answered() {
    let mut bad = encode(&Command::Delete { name: "a".to_string() });
    bad[0] = 0x90;
    let good = Command::Delete { name: "b".to_string() };
    let mut bytes = bad.clone();
    bytes.extend_from_slice(&encode(&good));
    let mut conn = Connection::new();
    conn.receive(&bytes);
    assert_eq!(conn.next_request(), Some(Err(DecodeError::UnknownCommand)));
    assert_eq!(conn.pending(), &[0x93, 0, 0, 0, 0, 0, 0, 0, 0]);
    assert_eq!(conn.interest(), Interest::Writable);
    assert_eq!(conn.next_request(), Some(Ok(good)));
}

#[test]
fn writes_drain_the_queue() {
    let mut conn = Connection::new();
    conn.respond(vec![1, 2, 3, 4]);
    conn.written(3);
    assert_eq!(conn.pending(), &[4]);
    assert_eq!(conn.interest(), Interest::Writable);
    conn.written(1);
    assert!(conn.pending().is_empty());
    assert_eq!(conn.interest(), Interest::Readable);
}

#[test]
fn answers_carry_status_and_payload() {
    let f = answer_frame(OpCode::OpTsCreate, &Reply::Done, &vec![]);
    assert_eq!(f, vec![0x00, 0, 0, 0, 0, 0, 0, 0, 0]);
    let f = answer_frame(OpCode::OpTsDelete, &Reply::Failed(StorageError::NotFound), &vec![]);
    assert_eq!(f, vec![0x11, 0, 0, 0, 0, 0, 0, 0, 0]);
    let f = answer_frame(OpCode::OpTsCreate, &Reply::Failed(StorageError::AlreadyExists), &vec![]);
    assert_eq!(f[0], 0x02);
    let f = answer_frame(OpCode::OpTsQuery, &Reply::Failed(StorageError::EmptyAggregate), &vec![]);
    assert_eq!(f[0], 0x45);
    let f = answer_frame(OpCode::OpTsQuery, &Reply::Failed(StorageError::ZeroInterval), &vec![]);
    assert_eq!(f[0], 0x46);
    let reply = Reply::Aggregate { query: tsdb::protocol::Query::Average, values: vec![1, 2] };
    let f = answer_frame(OpCode::OpTsQuery, &reply, &vec![2.5f64.to_bits()]);
    let mut expected = vec![0x40, 8, 0, 0, 0, 0, 0, 0, 0];
    expected.extend_from_slice(&2.5f64.to_le_bytes());
    assert_eq!(f, expected);
    let f = answer_frame(OpCode::OpTsQuery, &Reply::Records(vec![Record::at(7, 9)]), &vec![]);
    let mut expected = vec![0x40, 32, 0, 0, 0, 0, 0, 0, 0];
    expected.extend_from_slice(&1u64.to_le_bytes());
    expected.extend_from_slice(&7u128.to_le_bytes());
    expected.extend_from_slice(&9u64.to_le_bytes());
    assert_eq!(f, expected);
    let reply = Reply::Windows(vec![vec![1], vec![2, 3]]);
    let f = answer_frame(OpCode::OpTsQuery, &reply, &vec![10, 20]);
    let mut expected = vec![0x40, 24, 0, 0, 0, 0, 0, 0, 0];
    for x in [2u64, 10, 20] {
        expected.extend_from_slice(&x.to_le_bytes());
    }
    assert_eq!(f, expected);
}

#[test]
fn read_outcomes_decide_the_next_step() {
    let mut conn = Connection::new();
    let buf = [7u8, 8, 9, 10];
    assert_eq!(conn.after_read(IoOutcome::Transferred(3), &buf), Next::Again);
    assert_eq!(conn.after_read(IoOutcome::Interrupted, &buf), Next::Again);
    assert_eq!(conn.after_read(IoOutcome::WouldBlock, &buf), Next::Wait);
    assert_eq!(conn.after_read(IoOutcome::Transferred(0), &buf), Next::Close);
    assert_eq!(conn.after_read(IoOutcome::Failed, &buf), Next::Close);
    assert_eq!(conn.next_request(), None);
    let c = Command::Delete { name: "z".to_string() };
    let mut conn = Connection::new();
    let f = encode(&c);
    assert_eq!(conn.after_read(IoOutcome::Transferred(f.len()), &f), Next::Again);
    assert_eq!(conn.next_request(), Some(Ok(c)));
}

#[test]
fn write_outcomes_decide_the_next_step() {
    let mut conn = Connection::new();
    conn.respond(vec![1, 2, 3]);
    assert_eq!(conn.after_write(IoOutcome::WouldBlock), Next::Wait);
    assert_eq!(conn.interest(), Interest::Writable);
    assert_eq!(conn.after_write(IoOutcome::Transferred(2)), Next::Again);
    assert_eq!(conn.pending(), &[3]);
    assert_eq!(conn.after_write(IoOutcome::Transferred(0)), Next::Close);
    assert_eq!(conn.after_write(IoOutcome::Transferred(1)), Next::Wait);
    assert_eq!(conn.interest(), Interest::Readable);
    assert_eq!(conn.after_write(IoOutcome::Transferred(0)), Next::Wait);
    conn.respond(vec![4]);
    assert_eq!(conn.after_write(IoOutcome::Failed), Next::Close);
}
