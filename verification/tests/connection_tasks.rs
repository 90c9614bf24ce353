use st_rust::protocol::connection::{
    encode_message, on_eof, parse_message, ConnectionDispatcher, ConnectionPingReceiver,
    ConnectionPingSender, ConnectionState, ModelUpdate, ReadError, PING_DURATION_MS,
};
use st_rust::protocol::message::{FrameError, TypedMessage};
use st_rust::protocol::DeviceId;

#[test]
fn dispatcher_becomes_ready_on_cluster_config() {
    let id = DeviceId::new(&[9u8; 32]);
    let mut d = ConnectionDispatcher::new(id);
    assert_eq!(d.state, ConnectionState::Initial);
    assert_eq!(d.dispatch(&TypedMessage::Ping(vec![])), ModelUpdate::Nothing);
    assert_eq!(d.dispatch(&TypedMessage::Index(vec![1])), ModelUpdate::Index(id));
    assert_eq!(d.state, ConnectionState::Initial);
    assert_eq!(d.dispatch(&TypedMessage::ClusterConfig(vec![])), ModelUpdate::ClusterConfig(id));
    assert_eq!(d.state, ConnectionState::Ready);
    assert_eq!(d.dispatch(&TypedMessage::Close(vec![])), ModelUpdate::Nothing);
    assert_eq!(d.state, ConnectionState::Ready);
    assert_eq!(d.id, id);
}

#[test]
fn ping_sender() {
    let s = ConnectionPingSender::new();
    assert_eq!(PING_DURATION_MS, 90_000);
    assert_eq!(s.interval_ms(), 45_000);
    assert!(!s.ping_due(100_000, 20_000));
    assert!(s.ping_due(110_000, 20_000));
    assert!(s.ping_due(200_000, 20_000));
    assert!(!s.ping_due(10_000, 20_000));
    assert_eq!(s.ping_msg(), TypedMessage::Ping(vec![]));
}

#[test]
fn ping_receiver() {
    let r = ConnectionPingReceiver::new();
    assert_eq!(r.interval_ms(), 45_000);
    assert!(!r.timed_out(89_999, 0));
    assert!(r.timed_out(90_000, 0));
    assert!(!r.timed_out(0, 90_000));
}

#[test]
fn reader_waits_for_a_whole_frame() {
    let mut frame = Vec::new();
    encode_message(&mut frame, &TypedMessage::Index(vec![0x08, 1, 0x10, 3]));
    let mut buffer = frame[..frame.len() - 1].to_vec();
    let before = buffer.clone();
    assert_eq!(parse_message(&mut buffer), Ok(None));
    assert_eq!(buffer, before);
    buffer.push(3);
    buffer.extend_from_slice(&[0, 0]);
    assert_eq!(parse_message(&mut buffer), Ok(Some(TypedMessage::Index(vec![0x08, 1, 0x10, 3]))));
    assert_eq!(buffer, vec![0, 0]);
}

#[test]
fn reader_takes_frames_in_order() {
    let mut buffer = Vec::new();
    let mut frame = Vec::new();
    encode_message(&mut frame, &TypedMessage::ClusterConfig(vec![0x08, 7]));
    buffer.extend_from_slice(&frame);
    encode_message(&mut frame, &TypedMessage::Ping(vec![]));
    buffer.extend_from_slice(&frame);
    assert_eq!(parse_message(&mut buffer), Ok(Some(TypedMessage::ClusterConfig(vec![0x08, 7]))));
    assert_eq!(parse_message(&mut buffer), Ok(Some(TypedMessage::Ping(vec![]))));
    assert!(buffer.is_empty());
    assert_eq!(parse_message(&mut buffer), Ok(None));
}

#[test]
fn reader_reports_invalid_frames() {
    // A header whose single byte is not a valid field.
    let mut buffer = vec![0, 1, 0xff, 0, 0, 0, 0];
    assert_eq!(parse_message(&mut buffer), Err(FrameError::InvalidHeader));
    // Marked LZ4-compressed, but two bytes cannot hold the prepended size.
    let mut buffer = vec![0, 2, 0x10, 0x01, 0, 0, 0, 2, 0xff, 0xff];
    assert_eq!(parse_message(&mut buffer), Err(FrameError::InvalidCompression));
}

#[test]
fn end_of_stream() {
    assert_eq!(on_eof(&[]), Ok(None));
    assert_eq!(on_eof(&[1]), Err(ReadError::ConnectionReset));
}

#[test]
fn writer_replaces_buffer() {
    let mut buf = vec![5, 5, 5];
    encode_message(&mut buf, &TypedMessage::Request(vec![]));
    assert_eq!(buf, vec![0, 2, 0x08, 0x03, 0, 0, 0, 0]);
}
