use st_rust::connections::tcp::{AcceptBackoff, AcceptRetry};
use st_rust::connections::{
    hello_length, hello_packet, is_magic, our_hello, read_hello, validate_connection,
    HandshakeError, MAX_HELLO_LEN,
};
use st_rust::protocol::{DeviceId, MAGIC};
use st_rust::protos::bep::Hello;

#[test]
fn no_certificate_is_refused() {
    assert_eq!(validate_connection(None), Err(HandshakeError::NoCertificates));
}

#[test]
fn two_certificates_are_refused() {
    let certs = vec![vec![1u8, 2, 3], vec![4u8]];
    assert_eq!(
        validate_connection(Some(certs.as_slice())),
        Err(HandshakeError::WrongCertificateCount(2))
    );
    let none: Vec<Vec<u8>> = vec![];
    assert_eq!(
        validate_connection(Some(none.as_slice())),
        Err(HandshakeError::WrongCertificateCount(0))
    );
}

#[test]
fn one_certificate_gives_its_digest() {
    let certs = vec![b"certificate".to_vec()];
    let id = validate_connection(Some(certs.as_slice())).unwrap();
    assert_eq!(id, DeviceId::from_der_cert(b"certificate"));
    assert_ne!(id, DeviceId::from_der_cert(b"another certificate"));
}

#[test]
fn magic_header() {
    assert!(is_magic(&MAGIC));
    assert!(is_magic(&[0x2E, 0xA7, 0xD9, 0x0B]));
    assert!(!is_magic(&[0x2E, 0xA7, 0xD9, 0x0C]));
    assert!(!is_magic(&[0x2E, 0xA7, 0xD9]));
    assert!(!is_magic(&[]));
}

#[test]
fn hello_length_limit() {
    assert_eq!(MAX_HELLO_LEN, 32767);
    assert_eq!(hello_length(0), Ok(0));
    assert_eq!(hello_length(32767), Ok(32767));
    assert_eq!(hello_length(32768), Err(HandshakeError::HelloTooBig(32768)));
    assert_eq!(hello_length(u16::MAX), Err(HandshakeError::HelloTooBig(u16::MAX)));
}

#[test]
fn our_hello_fields() {
    let h = our_hello();
    assert_eq!(h.device_name, "calculon");
    assert_eq!(h.client_name, "st-rust");
    assert_eq!(h.client_version, "0.1");
}

#[test]
fn hello_packet_bytes() {
    let h = Hello {
        device_name: "a".to_string(),
        client_name: "bc".to_string(),
        client_version: String::new(),
    };
    let p = hello_packet(&h);
    assert_eq!(p, vec![0x2E, 0xA7, 0xD9, 0x0B, 0, 7, 0x0a, 1, b'a', 0x12, 2, b'b', b'c']);
}

#[test]
fn hello_packet_reads_back() {
    let h = our_hello();
    let p = hello_packet(&h);
    assert!(is_magic(&p[0..4]));
    let len = u16::from_be_bytes([p[4], p[5]]);
    let n = hello_length(len).unwrap();
    assert_eq!(n, p.len() - 6);
    assert_eq!(read_hello(&p[6..]), Ok(h));
}

#[test]
fn invalid_hello_is_refused() {
    // A length-delimited field whose length runs past the end.
    assert_eq!(read_hello(&[0x0a, 5, b'a']), Err(HandshakeError::InvalidHello));
    // A string field that is not UTF-8.
    assert_eq!(read_hello(&[0x0a, 1, 0xff]), Err(HandshakeError::InvalidHello));
}

#[test]
fn empty_hello_reads_as_default() {
    let h = read_hello(&[]).unwrap();
    assert_eq!(h.device_name, "");
    assert_eq!(h.client_name, "");
    assert_eq!(h.client_version, "");
}

#[test]
fn accept_backoff_schedule() {
    let mut b = AcceptBackoff::new();
    let mut waits = vec![];
    for _ in 0..7 {
        match b.on_error() {
            AcceptRetry::Wait(s) => waits.push(s),
            AcceptRetry::GiveUp => panic!("gave up too early"),
        }
    }
    assert_eq!(waits, vec![1, 2, 4, 8, 16, 32, 64]);
    assert_eq!(b.on_error(), AcceptRetry::GiveUp);
    assert_eq!(b.on_error(), AcceptRetry::GiveUp);
}
