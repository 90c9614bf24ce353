use st_rust::protocol::deviceid::{
    chunkify, deluhnify, luhnify, DeviceId, DeviceIdError,
};

const TEXT: &str = "UYA4Y6A-RMU7JXN-RU4CXE4-22XPLPZ-67VCOXJ-PLGGPID-KC25D3A-BBREDQD";

#[test]
fn deviceid_test_chunkify() {
    assert_eq!(chunkify(b"012345601234560123456"), b"0123456-0123456-0123456");
    assert_eq!(
        st_rust::deviceid::chunkify("012345601234560123456"),
        "0123456-0123456-0123456".to_string()
    );
}

#[test]
fn dechunkify() {
    let s = b"UYA4Y6A-RMU7JXN-RU4CXE4-22XPLPZ-67VCOXJ-PLGGPID-KC25D3A-BBREDQD";
    assert_eq!(
        st_rust::protocol::deviceid::dechunkify(s),
        b"UYA4Y6ARMU7JXNRU4CXE422XPLPZ67VCOXJPLGGPIDKC25D3ABBREDQD"
    );
}

#[test]
fn id_from_string() {
    let s = TEXT.to_string();
    let res = DeviceId::try_from(s);
    assert!(res.is_ok());
}

#[test]
fn id_text_roundtrip() {
    let id = DeviceId::from_str(TEXT).unwrap();
    assert_eq!(id.to_string(), TEXT);
    let again = DeviceId::from_str(&id.to_string()).unwrap();
    assert_eq!(again, id);
}

#[test]
fn id_text_ignores_dashes() {
    let plain = "UYA4Y6ARMU7JXNRU4CXE422XPLPZ67VCOXJPLGGPIDKC25D3ABBREDQD";
    assert_eq!(DeviceId::from_str(plain).unwrap(), DeviceId::from_str(TEXT).unwrap());
}

#[test]
fn id_text_errors() {
    assert_eq!(DeviceId::from_str("ABC"), Err(DeviceIdError::InvalidLength));
    // Last check character changed from D to E.
    let bad_check = "UYA4Y6A-RMU7JXN-RU4CXE4-22XPLPZ-67VCOXJ-PLGGPID-KC25D3A-BBREDQE";
    assert_eq!(DeviceId::from_str(bad_check), Err(DeviceIdError::ChecksumMismatch));
    let bad_char = "UYA4Y6A-RMU7JXN-RU4CXE4-22XPLPZ-67VCOXJ-PLGGPID-KC25D3A-BBRED1D";
    assert_eq!(DeviceId::from_str(bad_char), Err(DeviceIdError::InvalidCharacter(b'1')));
}

#[test]
fn id_from_bytes() {
    let bytes = [0u8; 32];
    let id = DeviceId::new(&bytes);
    assert_eq!(&id.to_bytes()[..], &bytes[..]);
    let text = id.to_string();
    assert_eq!(text.len(), 63);
    assert_eq!(DeviceId::from_str(&text).unwrap(), id);
    assert!(text.starts_with("AAAAAAA-"));
}

#[test]
fn id_from_der_cert_is_sha256() {
    // SHA-256 of the empty input.
    let id = DeviceId::from_der_cert(b"");
    let expected: [u8; 32] = [
        0xe3, 0xb0, 0xc4, 0x42, 0x98, 0xfc, 0x1c, 0x14, 0x9a, 0xfb, 0xf4, 0xc8, 0x99, 0x6f, 0xb9,
        0x24, 0x27, 0xae, 0x41, 0xe4, 0x64, 0x9b, 0x93, 0x4c, 0xa4, 0x95, 0x99, 0x1b, 0x78, 0x52,
        0xb8, 0x55,
    ];
    assert_eq!(&id.to_bytes()[..], &expected[..]);
}

#[test]
fn luhnify_deluhnify_roundtrip() {
    let data = b"UYA4Y6ARMU7JXRU4CXE422XPLP67VCOXJPLGGPIKC25D3ABBREDQ";
    assert_eq!(data.len(), 52);
    let with_checks = luhnify(data).unwrap();
    assert_eq!(with_checks, b"UYA4Y6ARMU7JXNRU4CXE422XPLPZ67VCOXJPLGGPIDKC25D3ABBREDQD");
    assert_eq!(deluhnify(&with_checks).unwrap(), data.to_vec());
}

#[test]
fn chunkify_drops_partial_chunk() {
    assert_eq!(chunkify(b"0123456789"), b"0123456");
    assert_eq!(st_rust::protocol::deviceid::dechunkify(b"--a-b--"), b"ab");
}

#[test]
fn str_chunks() {
    let mut c = st_rust::deviceid::chunk_str("abcdefg", 3);
    assert_eq!(c.next(), Some("abc"));
    assert_eq!(c.next(), Some("def"));
    assert_eq!(c.next(), None);
    assert_eq!(c.next(), None);
    let mut c = st_rust::deviceid::chunk_str("h\u{e9}llo", 3);
    assert_eq!(c.next(), Some("h\u{e9}"));
    assert_eq!(c.next(), Some("llo"));
    assert_eq!(c.next(), None);
}

#[test]
fn str_luhnify() {
    let zeros = "A".repeat(52);
    assert_eq!(st_rust::deviceid::luhnify(&zeros), Ok("A".repeat(56)));
    let bad = format!("1{}", "A".repeat(51));
    assert_eq!(
        st_rust::deviceid::luhnify(&bad),
        Err(st_rust::luhn::LuhnError::InvalidCharacter('1'))
    );
}

#[test]
fn str_chunkify_drops_partial_chunk() {
    assert_eq!(st_rust::deviceid::chunkify("0123456789"), "0123456".to_string());
}

#[test]
fn str_device_id_text_matches() {
    let a = st_rust::deviceid::DeviceId::from_der_cert(b"some certificate");
    let b = DeviceId::from_der_cert(b"some certificate");
    assert_eq!(a.to_string(), b.to_string());
    let empty = st_rust::deviceid::DeviceId::from_der_cert(b"");
    assert_eq!(
        empty.to_string(),
        "4OYMIQU-Y7QOBJR-GX36TEJ-S35ZEQD-T24QPEM-SNZGTFB-ESWMRW6-CSXBKQD"
    );
}

#[test]
fn id_text_has_dashes_every_eighth_character() {
    for seed in [&b""[..], b"a", b"some certificate"] {
        let text = DeviceId::from_der_cert(seed).to_string();
        assert_eq!(text.len(), 63);
        for (i, c) in text.bytes().enumerate() {
            assert_eq!(c == b'-', i % 8 == 7);
        }
    }
}
