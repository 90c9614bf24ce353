use st_rust::compress::lz4_size_prepended_ok;
use st_rust::protocol::message::{write_len16_and_bytes, FrameError, TypedMessage, MAGIC};
use st_rust::protos::bep::{Header, MessageCompression, MessageType};

#[test]
fn magic_number() {
    assert_eq!(MAGIC, 0x2EA7D90Bu32.to_be_bytes());
}

#[test]
fn frame_roundtrip() {
    let msg = TypedMessage::Index(vec![0x08, 0x96, 0x01]);
    let mut buf = Vec::new();
    msg.write_to_bytes(&mut buf);
    // header length 2, header [0x08, 0x01], body length 3, body.
    assert_eq!(buf, vec![0, 2, 0x08, 0x01, 0, 0, 0, 3, 0x08, 0x96, 0x01]);
    buf.extend_from_slice(&[9, 9]);
    assert!(TypedMessage::check_size(&buf));
    let (used, parsed) = TypedMessage::parse(&buf);
    assert_eq!(used, 11);
    assert_eq!(parsed, Ok(msg));
}

#[test]
fn cluster_config_has_empty_header() {
    let msg = TypedMessage::ClusterConfig(vec![]);
    let mut buf = Vec::new();
    msg.write_to_bytes(&mut buf);
    assert_eq!(buf, vec![0, 0, 0, 0, 0, 0]);
    assert_eq!(TypedMessage::parse(&buf), (6, Ok(msg)));
}

#[test]
fn check_size_needs_whole_frame() {
    let mut buf = Vec::new();
    TypedMessage::Ping(vec![7; 5]).write_to_bytes(&mut buf);
    for cut in 0..buf.len() {
        assert!(!TypedMessage::check_size(&buf[..cut]));
    }
    assert!(TypedMessage::check_size(&buf));
}

#[test]
fn header_of_message() {
    let h = TypedMessage::Close(vec![]).header();
    assert_eq!(h.kind(), MessageType::Close);
    assert_eq!(h.compression(), MessageCompression::Uncompressed);
    assert_eq!(TypedMessage::Request(vec![]).message_type(), MessageType::Request);
}

#[test]
fn invalid_header_stops_after_header() {
    // header length 1, header byte 0x00 (tag 0 is invalid), body length 0.
    let buf = [0u8, 1, 0x00, 0, 0, 0, 0];
    assert!(TypedMessage::check_size(&buf));
    assert_eq!(TypedMessage::parse(&buf), (3, Err(FrameError::InvalidHeader)));
}

#[test]
fn header_skips_unknown_fields() {
    // field 3 (varint 5), field 1 = 6, field 4 (length-delimited "ab").
    let bytes = [0x18, 0x05, 0x08, 0x06, 0x22, 0x02, b'a', b'b'];
    let h = Header::decode(&bytes).unwrap();
    assert_eq!(h.kind(), MessageType::Ping);
    assert_eq!(h.compression(), MessageCompression::Uncompressed);
    // a group (field 5) holding field 1 = 3, then field 2 = 1.
    let bytes = [0x2B, 0x08, 0x03, 0x2C, 0x10, 0x01];
    let h = Header::decode(&bytes).unwrap();
    assert_eq!(h.msg_type, 0);
    assert_eq!(h.compression(), MessageCompression::Lz4);
    // wrong wire type for field 1.
    assert!(Header::decode(&[0x09, 0, 0, 0, 0, 0, 0, 0, 0]).is_err());
    // truncated varint.
    assert!(Header::decode(&[0x08, 0x80]).is_err());
}

#[test]
fn unknown_type_reads_as_cluster_config() {
    let h = Header { msg_type: 42, compression: 9 };
    assert_eq!(h.kind(), MessageType::ClusterConfig);
    assert_eq!(h.compression(), MessageCompression::Uncompressed);
    let mut enc = Vec::new();
    h.encode(&mut enc);
    assert_eq!(enc, vec![0x08, 42, 0x10, 9]);
    assert_eq!(h.encoded_len(), 4);
    assert_eq!(Header::decode(&enc), Ok(h));
}

#[test]
fn negative_header_field_takes_ten_bytes() {
    let h = Header { msg_type: -1, compression: 0 };
    let mut enc = Vec::new();
    h.encode(&mut enc);
    assert_eq!(enc.len(), 11);
    assert_eq!(h.encoded_len(), 11);
    assert_eq!(Header::decode(&enc), Ok(h));
}

#[test]
fn lz4_compressed_body() {
    // size-prepended LZ4 block of [0x08, 0x34]: size 2 (little-endian), one literal run.
    let body = [2u8, 0, 0, 0, 0x20, 0x08, 0x34];
    let mut header = Vec::new();
    Header { msg_type: 1, compression: 1 }.encode(&mut header);
    let mut buf = Vec::new();
    write_len16_and_bytes(&header, &mut buf);
    buf.extend_from_slice(&[0, 0, 0, body.len() as u8]);
    buf.extend_from_slice(&body);
    assert_eq!(
        TypedMessage::parse(&buf),
        (buf.len(), Ok(TypedMessage::Index(vec![0x08, 0x34])))
    );
    let mut bad = buf.clone();
    let n = bad.len();
    bad[n - 3] = 0x70;
    assert_eq!(TypedMessage::parse(&bad).1, Err(FrameError::InvalidCompression));
}

fn frame(msg_type: u8, body: &[u8]) -> Vec<u8> {
    let mut buf = vec![0, 2, 0x08, msg_type, 0, 0, 0, body.len() as u8];
    buf.extend_from_slice(body);
    buf
}

#[test]
fn invalid_body_is_refused() {
    // Tag 0 is not a field.
    assert_eq!(TypedMessage::parse(&frame(1, &[1, 2, 3])).1, Err(FrameError::InvalidBody));
    // A length past the end of the body.
    assert_eq!(TypedMessage::parse(&frame(3, &[0x0a, 5, 1])).1, Err(FrameError::InvalidBody));
    assert_eq!(TypedMessage::parse(&frame(6, &[0x0a, 5, 1])).1, Err(FrameError::InvalidBody));
    // A reason that is not UTF-8.
    assert_eq!(TypedMessage::parse(&frame(7, &[0x0a, 1, 0xff])).1, Err(FrameError::InvalidBody));
    // A reason with the wrong wire type.
    assert_eq!(TypedMessage::parse(&frame(7, &[0x08, 1])).1, Err(FrameError::InvalidBody));
}

#[test]
fn ping_and_close_bodies_are_decoded() {
    // A ping has no fields: whatever well-formed fields it carries are dropped.
    assert_eq!(TypedMessage::parse(&frame(6, &[0x08, 1, 0x12, 1, b'x'])).1, Ok(TypedMessage::Ping(vec![])));
    // A close keeps its last reason only.
    let body = [0x0a, 1, b'a', 0x10, 7, 0x0a, 2, b'o', b'k'];
    assert_eq!(
        TypedMessage::parse(&frame(7, &body)).1,
        Ok(TypedMessage::Close(vec![0x0a, 2, b'o', b'k']))
    );
    // An empty reason is not written.
    assert_eq!(TypedMessage::parse(&frame(7, &[0x0a, 0])).1, Ok(TypedMessage::Close(vec![])));
    // Other types keep their well-formed body as it is.
    assert_eq!(
        TypedMessage::parse(&frame(3, &[0x08, 1, 0x12, 1, b'x'])).1,
        Ok(TypedMessage::Request(vec![0x08, 1, 0x12, 1, b'x']))
    );
}

#[test]
fn lz4_block_checks() {
    // "a", then a match of 4 bytes at offset 1, then "b".
    assert!(lz4_size_prepended_ok(&[6, 0, 0, 0, 0x10, b'a', 1, 0, 0x10, b'b']));
    assert!(lz4_size_prepended_ok(&[3, 0, 0, 0, 0x30, b'a', b'4', b'9']));
    // A match before anything was written.
    assert!(!lz4_size_prepended_ok(&[0, 0, 0, 0, 0x00, 0x01, 0x00]));
    // An offset past what was written.
    assert!(!lz4_size_prepended_ok(&[6, 0, 0, 0, 0x10, b'a', 2, 0, 0x10, b'b']));
    // An offset of zero.
    assert!(!lz4_size_prepended_ok(&[6, 0, 0, 0, 0x10, b'a', 0, 0, 0x10, b'b']));
    // A literal length continued past the end of the input.
    assert!(!lz4_size_prepended_ok(&[0, 0, 0, 0, 0xf0, 0xff, 0xff]));
    // No block at all.
    assert!(!lz4_size_prepended_ok(&[0, 0, 0, 0]));
    assert!(!lz4_size_prepended_ok(&[0, 0, 0]));
}

#[test]
fn lz4_match_in_frame() {
    // [0x08], then a match of 4 bytes at offset 1, then [0x62]: three fields of number 1.
    let mut buf = vec![0, 2, 0x10, 0x01, 0, 0, 0, 10];
    buf.extend_from_slice(&[6, 0, 0, 0, 0x10, 0x08, 1, 0, 0x10, 0x62]);
    assert_eq!(
        TypedMessage::parse(&buf),
        (18, Ok(TypedMessage::ClusterConfig(vec![0x08, 0x08, 0x08, 0x08, 0x08, 0x62])))
    );
}

#[test]
fn lz4_match_before_output_is_invalid() {
    let mut buf = vec![0, 2, 0x10, 0x01, 0, 0, 0, 7];
    buf.extend_from_slice(&[0, 0, 0, 0, 0x00, 0x01, 0x00]);
    assert_eq!(TypedMessage::parse(&buf), (15, Err(FrameError::InvalidCompression)));
}
