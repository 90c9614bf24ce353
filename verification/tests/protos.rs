use st_rust::protos::bep::{DecodeError, Header, Hello, MessageCompression, MessageType};
use st_rust::protos::local::Announce;

#[test]
fn announce_accessors() {
    let mut a = Announce::new();
    assert!(a.get_id().is_empty());
    assert!(a.get_addresses().is_empty());
    assert_eq!(a.get_instance_id(), 0);

    a.set_id(vec![1, 2, 3]);
    a.set_addresses(vec!["tcp://1.2.3.4:22000".to_string()]);
    a.set_instance_id(-5);
    assert_eq!(a.get_id(), &[1, 2, 3]);
    assert_eq!(a.get_addresses(), &["tcp://1.2.3.4:22000".to_string()]);
    assert_eq!(a.get_instance_id(), -5);

    a.mut_id().push(4);
    a.mut_addresses().push("x".to_string());
    assert_eq!(a.get_id(), &[1, 2, 3, 4]);
    assert_eq!(a.get_addresses().len(), 2);

    assert_eq!(a.take_id(), vec![1, 2, 3, 4]);
    assert!(a.get_id().is_empty());
    assert_eq!(a.take_addresses().len(), 2);
    assert!(a.get_addresses().is_empty());
    assert_eq!(a.get_instance_id(), -5);

    a.set_id(vec![9]);
    a.clear_id();
    assert!(a.get_id().is_empty());
    a.set_addresses(vec!["y".to_string()]);
    a.clear_addresses();
    assert!(a.get_addresses().is_empty());
    a.clear_instance_id();
    assert_eq!(a.get_instance_id(), 0);

    a.set_id(vec![9]);
    a.set_instance_id(3);
    a.clear();
    assert_eq!(a, Announce::new());
}

#[test]
fn announce_encoding() {
    let a = Announce {
        id: vec![0xaa, 0xbb],
        addresses: vec!["ab".to_string()],
        instance_id: 1,
        unknown_fields: vec![],
    };
    let mut buf = vec![0x77];
    a.encode(&mut buf);
    assert_eq!(buf, vec![0x77, 0x0a, 2, 0xaa, 0xbb, 0x12, 2, b'a', b'b', 0x18, 1]);
    assert_eq!(a.encoded_len(), 10);
    assert_eq!(Announce::decode(&buf[1..]), Ok(a));
}

#[test]
fn announce_negative_instance_roundtrip() {
    let a = Announce { id: vec![1; 32], addresses: vec![], instance_id: i64::MIN, unknown_fields: vec![] };
    let mut buf = Vec::new();
    a.encode(&mut buf);
    // Key, then ten bytes of varint for a negative number.
    assert_eq!(buf.len(), 2 + 32 + 1 + 10);
    assert_eq!(Announce::decode(&buf), Ok(a));
}

#[test]
fn announce_decode_errors_and_defaults() {
    assert_eq!(Announce::decode(&[]), Ok(Announce::new()));
    assert_eq!(Announce::decode(&[0x0a, 3, 1]), Err(DecodeError));
    // An unknown varint field is kept, key and value.
    assert_eq!(
        Announce::decode(&[0x20, 5, 0x18, 2]),
        Ok(Announce { id: vec![], addresses: vec![], instance_id: 2, unknown_fields: vec![0x20, 5] })
    );
    // An unknown group is skipped.
    assert_eq!(
        Announce::decode(&[0x23, 0x08, 1, 0x24, 0x18, 2]),
        Ok(Announce { id: vec![], addresses: vec![], instance_id: 2, unknown_fields: vec![] })
    );
    // Repeated addresses accumulate; the last id wins.
    assert_eq!(
        Announce::decode(&[0x0a, 1, 1, 0x12, 1, b'a', 0x0a, 1, 2, 0x12, 1, b'b']),
        Ok(Announce {
            id: vec![2],
            addresses: vec!["a".to_string(), "b".to_string()],
            instance_id: 0,
            unknown_fields: vec![],
        })
    );
}

#[test]
fn message_type_numbers() {
    let all = [
        MessageType::ClusterConfig,
        MessageType::Index,
        MessageType::IndexUpdate,
        MessageType::Request,
        MessageType::Response,
        MessageType::DownloadProgress,
        MessageType::Ping,
        MessageType::Close,
    ];
    for (i, t) in all.iter().enumerate() {
        assert_eq!(t.value(), i as i32);
        assert_eq!(MessageType::from_value(i as i32), *t);
    }
    assert_eq!(MessageType::from_value(8), MessageType::ClusterConfig);
    assert_eq!(MessageType::from_value(-1), MessageType::ClusterConfig);
}

#[test]
fn header_encoding() {
    let mut h = Header::default();
    assert_eq!(h.kind(), MessageType::ClusterConfig);
    assert_eq!(h.compression(), MessageCompression::Uncompressed);
    assert_eq!(h.encoded_len(), 0);
    h.set_compression(MessageCompression::Lz4);
    assert_eq!(h.compression(), MessageCompression::Lz4);
    let mut buf = Vec::new();
    h.encode(&mut buf);
    assert_eq!(buf, vec![0x10, 0x01]);
    assert_eq!(h.encoded_len(), 2);
    assert_eq!(Header::decode(&buf), Ok(h));
    assert_eq!(Header::decode(&[0x08]), Err(DecodeError));
}

#[test]
fn hello_encoding() {
    let h = Hello {
        device_name: "dev".to_string(),
        client_name: String::new(),
        client_version: "v1".to_string(),
    };
    let mut buf = Vec::new();
    h.encode(&mut buf);
    assert_eq!(buf, vec![0x0a, 3, b'd', b'e', b'v', 0x1a, 2, b'v', b'1']);
    assert_eq!(Hello::decode(&buf), Ok(h));
    assert_eq!(Hello::decode(&[0x08, 1]), Err(DecodeError));
}

#[test]
fn local_proto_descriptor() {
    let d = st_rust::protos::local::file_descriptor_proto().unwrap();
    assert_eq!(d.get_name(), "local.proto");
    assert_eq!(d.get_package(), "discover");
    assert_eq!(d.get_message_type().len(), 1);
    assert_eq!(d.get_message_type()[0].get_name(), "Announce");
    assert_eq!(d.get_message_type()[0].get_field().len(), 3);
}

#[test]
fn announce_unknown_fields_roundtrip() {
    let bytes = [0x0a, 1, 7, 0x22, 2, b'x', b'y', 0x18, 3, 0x2d, 1, 2, 3, 4];
    let a = Announce::decode(&bytes).unwrap();
    assert_eq!(a.id, vec![7]);
    assert_eq!(a.instance_id, 3);
    assert_eq!(a.unknown_fields, vec![0x22, 2, b'x', b'y', 0x2d, 1, 2, 3, 4]);
    let mut out = Vec::new();
    a.encode(&mut out);
    assert_eq!(out, vec![0x0a, 1, 7, 0x18, 3, 0x22, 2, b'x', b'y', 0x2d, 1, 2, 3, 4]);
    assert_eq!(Announce::decode(&out), Ok(a.clone()));
    let mut c = a;
    c.clear();
    assert_eq!(c, Announce::new());
}
