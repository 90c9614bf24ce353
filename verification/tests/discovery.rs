use st_rust::discover::local::{
    handle_packet, valid_addresses, validate_address, version_mismatch, AddressError, LocalBeacon, LocalListener, PacketOutcome,
    SourceAddress, BEACON_SLEEP_MS, CACHE_LIFE_TIME_MS,
};
use st_rust::protocol::{DeviceId, MAGIC};
use st_rust::protos::bep::DecodeError;
use st_rust::protos::local::Announce;

fn announce(byte: u8, instance_id: i64) -> Announce {
    Announce {
        id: vec![byte; 32],
        addresses: vec!["tcp://10.0.0.1:22000".to_string()],
        instance_id,
        unknown_fields: vec![],
    }
}

fn v4(ip: &str) -> SourceAddress {
    SourceAddress { ip: ip.to_string(), is_ipv6: false }
}

#[test]
fn first_announcement_is_new() {
    let mut l = LocalListener::new(DeviceId::new(&[0u8; 32]));
    let a = announce(7, 42);
    assert!(!l.register_device(&a, vec!["tcp://10.0.0.1:22000".to_string()], 1_000));
    let e = l.entry(&DeviceId::new(&[7u8; 32])).unwrap();
    assert_eq!(e.addresses, vec!["tcp://10.0.0.1:22000".to_string()]);
    assert_eq!(e.when_ms, 1_000);
    assert_eq!(e.instance_id, 42);
    assert!(l.entry(&DeviceId::new(&[8u8; 32])).is_none());
}

#[test]
fn announcement_again_within_life_time_is_known() {
    let mut l = LocalListener::new(DeviceId::new(&[0u8; 32]));
    let a = announce(7, 42);
    assert!(!l.register_device(&a, vec!["a".to_string()], 1_000));
    assert!(l.register_device(&a, vec!["a".to_string()], 1_000 + CACHE_LIFE_TIME_MS - 1));
    // The entry was refreshed by the second announcement.
    assert_eq!(l.entry(&DeviceId::new(&[7u8; 32])).unwrap().when_ms, 1_000 + CACHE_LIFE_TIME_MS - 1);
}

#[test]
fn stale_entry_is_not_known() {
    let mut l = LocalListener::new(DeviceId::new(&[0u8; 32]));
    let a = announce(7, 42);
    assert_eq!(CACHE_LIFE_TIME_MS, 90_000);
    assert!(!l.register_device(&a, vec!["a".to_string()], 1_000));
    assert!(!l.register_device(&a, vec!["a".to_string()], 91_000));
    assert!(l.register_device(&a, vec!["a".to_string()], 91_001));
}

#[test]
fn restarted_device_is_not_known() {
    let mut l = LocalListener::new(DeviceId::new(&[0u8; 32]));
    assert!(!l.register_device(&announce(7, 42), vec!["a".to_string()], 1_000));
    assert!(!l.register_device(&announce(7, 43), vec!["a".to_string()], 2_000));
    assert_eq!(l.entry(&DeviceId::new(&[7u8; 32])).unwrap().instance_id, 43);
}

#[test]
fn two_devices_are_kept_apart() {
    let mut l = LocalListener::new(DeviceId::new(&[0u8; 32]));
    assert!(!l.register_device(&announce(1, 5), vec!["a".to_string()], 10));
    assert!(!l.register_device(&announce(2, 5), vec!["b".to_string()], 20));
    assert_eq!(l.entry(&DeviceId::new(&[1u8; 32])).unwrap().addresses, vec!["a".to_string()]);
    assert_eq!(l.entry(&DeviceId::new(&[2u8; 32])).unwrap().addresses, vec!["b".to_string()]);
}

#[test]
fn address_with_host_is_kept_for_resolution() {
    let v = validate_address("tcp://example.com:22000", &v4("192.168.1.5")).unwrap();
    assert_eq!(v.address, "tcp://example.com:22000");
    assert!(v.resolve_host);
}

#[test]
fn address_without_host_takes_sender_ip() {
    let v = validate_address("tcp:///", &v4("192.168.1.5")).unwrap();
    assert_eq!(v.address, "tcp://192.168.1.5/");
    assert!(!v.resolve_host);
}

#[test]
fn address_of_other_ip_version_is_rejected() {
    let v6 = SourceAddress { ip: "::1".to_string(), is_ipv6: true };
    assert_eq!(validate_address("tcp4:///", &v6), Err(AddressError::IpVersionMismatch));
    assert_eq!(validate_address("tcp6:///", &v4("10.0.0.2")), Err(AddressError::IpVersionMismatch));
}

#[test]
fn announced_addresses_are_filtered() {
    let addrs = vec![
        "not a url".to_string(),
        "tcp:///".to_string(),
        "tcp6:///".to_string(),
        "tcp://example.com:22000".to_string(),
    ];
    let v = valid_addresses(&addrs, &v4("192.168.1.5"));
    assert_eq!(v.len(), 2);
    assert_eq!(v[0].address, "tcp://192.168.1.5/");
    assert!(!v[0].resolve_host);
    assert_eq!(v[1].address, "tcp://example.com:22000");
    assert!(v[1].resolve_host);
    assert!(valid_addresses(&[], &v4("192.168.1.5")).is_empty());
}

#[test]
fn device_without_valid_address_is_not_cached() {
    let mut l = LocalListener::new(DeviceId::new(&[0u8; 32]));
    let a = announce(7, 42);
    assert!(!l.register_device(&a, vec![], 1_000));
    assert!(l.entry(&DeviceId::new(&[7u8; 32])).is_none());
    assert!(!l.register_device(&a, vec!["x".to_string()], 2_000));
    // Without a valid address the entry stays, and is still found fresh.
    assert!(l.register_device(&a, vec![], 3_000));
    assert_eq!(l.entry(&DeviceId::new(&[7u8; 32])).unwrap().when_ms, 2_000);
}

#[test]
fn invalid_addresses() {
    assert_eq!(validate_address("not a url", &v4("10.0.0.2")), Err(AddressError::InvalidUrl));
    assert_eq!(validate_address("tcp://:22000", &v4("10.0.0.2")), Err(AddressError::InvalidUrl));
    // A URL that cannot be given a host.
    assert_eq!(validate_address("tcp:22000", &v4("10.0.0.2")), Err(AddressError::InvalidHost));
}

#[test]
fn packets() {
    let mut buf = [0u8; 64];
    assert_eq!(handle_packet(&buf, 0), PacketOutcome::Empty);
    buf[0] = 1;
    assert_eq!(handle_packet(&buf, 10), PacketOutcome::Unknown);
    buf[0..4].copy_from_slice(&MAGIC);
    // Field 1 announced with 5 bytes, only 1 present.
    buf[4] = 0x0a;
    buf[5] = 5;
    buf[6] = 9;
    assert_eq!(handle_packet(&buf, 7), PacketOutcome::Invalid(DecodeError));
    // Magic number alone: an empty announcement.
    assert_eq!(handle_packet(&buf, 4), PacketOutcome::Announce(Announce::new()));
}

#[test]
fn beacon_packet_reads_back() {
    let id = DeviceId::new(&[3u8; 32]);
    let b = LocalBeacon::with_instance_id(id, -17);
    assert_eq!(b.sleep_duration_ms, BEACON_SLEEP_MS);
    assert_eq!(BEACON_SLEEP_MS, 30_000);
    let msg = b.announce_msg();
    assert_eq!(msg.id, vec![3u8; 32]);
    assert_eq!(msg.addresses, vec!["tcp://10.0.1.214:22000".to_string()]);
    assert_eq!(msg.instance_id, -17);
    let packet = b.announce_packet();
    assert_eq!(&packet[0..4], &MAGIC[..]);
    assert_eq!(handle_packet(&packet, packet.len()), PacketOutcome::Announce(msg));
}

#[test]
fn beacon_with_random_instance() {
    let id = DeviceId::new(&[4u8; 32]);
    let b = LocalBeacon::new(id);
    assert_eq!(b.my_id, id);
    assert_eq!(b.sleep_duration_ms, 30_000);
}

#[test]
fn ip_version_mismatch() {
    assert!(version_mismatch("tcp4", true));
    assert!(!version_mismatch("tcp4", false));
    assert!(version_mismatch("tcp6", false));
    assert!(!version_mismatch("tcp6", true));
    assert!(!version_mismatch("tcp", true));
    assert!(!version_mismatch("tcp", false));
}
