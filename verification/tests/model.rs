use st_rust::config::{
    Compression, Configuration, DeviceConfiguration, Folder, FolderDevice, FolderSyncType,
};
use st_rust::model::Model;
use st_rust::protocol::{DeviceId, TypedMessage};

const TEXT: &str = "UYA4Y6A-RMU7JXN-RU4CXE4-22XPLPZ-67VCOXJ-PLGGPID-KC25D3A-BBREDQD";

fn folder(id: &str, label: &str, devices: &[&str]) -> Folder {
    Folder {
        id: id.to_string(),
        label: label.to_string(),
        path: "/tmp/folder".to_string(),
        sync_type: FolderSyncType::default(),
        device: devices
            .iter()
            .map(|d| FolderDevice { id: d.to_string(), introduced_by: None })
            .collect(),
    }
}

#[test]
fn model_new() {
    let id = DeviceId::new(&[1u8; 32]);
    let m = Model::new(id, Configuration { folders: vec![], devices: vec![] });
    assert_eq!(m.id, id);
    assert_eq!(m.client_name, "st-rust");
    assert_eq!(m.client_version, "0.1");
}

#[test]
fn cluster_config_of_one_folder() {
    let cfg = Configuration { folders: vec![folder("f1", "L", &[TEXT])], devices: vec![] };
    let m = Model::new(DeviceId::new(&[1u8; 32]), cfg);
    let id_bytes = DeviceId::from_str(TEXT).unwrap().to_bytes_vec();
    let mut folder_bytes = vec![0x0a, 2, b'f', b'1', 0x12, 1, b'L', 0x82, 0x01, 34, 0x0a, 32];
    folder_bytes.extend_from_slice(&id_bytes);
    let mut expected = vec![0x0a, 44];
    expected.extend_from_slice(&folder_bytes);
    assert_eq!(m.generate_cluster_config(), TypedMessage::ClusterConfig(expected));
}

#[test]
fn cluster_config_without_folders_is_empty() {
    let m = Model::new(DeviceId::new(&[1u8; 32]), Configuration { folders: vec![], devices: vec![] });
    assert_eq!(m.generate_cluster_config(), TypedMessage::ClusterConfig(vec![]));
    assert_eq!(m.generate_index(), TypedMessage::Index(vec![]));
}

#[test]
fn index_names_first_folder() {
    let cfg = Configuration {
        folders: vec![folder("f1", "", &[]), folder("f2", "", &[])],
        devices: vec![],
    };
    let m = Model::new(DeviceId::new(&[1u8; 32]), cfg);
    assert_eq!(m.generate_index(), TypedMessage::Index(vec![0x0a, 2, b'f', b'1']));
    // Empty labels and folders without devices leave only the ids.
    assert_eq!(
        m.generate_cluster_config(),
        TypedMessage::ClusterConfig(vec![0x0a, 4, 0x0a, 2, b'f', b'1', 0x0a, 4, 0x0a, 2, b'f', b'2'])
    );
}

#[test]
fn configured_device_lookup() {
    let a = DeviceId::new(&[1u8; 32]);
    let b = DeviceId::new(&[2u8; 32]);
    let cfg = Configuration {
        folders: vec![],
        devices: vec![
            DeviceConfiguration { id: a, name: None, compression: Compression::default() },
            DeviceConfiguration { id: b, name: Some("foo".to_string()), compression: Compression::Always },
            DeviceConfiguration { id: b, name: Some("bar".to_string()), compression: Compression::Metadata },
        ],
    };
    let found = cfg.device(&b).unwrap();
    assert_eq!(found.name, Some("foo".to_string()));
    assert_eq!(found.compression, Compression::Always);
    assert_eq!(cfg.device(&a).unwrap().compression, Compression::Never);
    assert_eq!(cfg.device(&DeviceId::new(&[3u8; 32])), None);
}

#[test]
fn config_defaults() {
    assert_eq!(Compression::default(), Compression::Never);
    assert_eq!(FolderSyncType::default(), FolderSyncType::SendReceive);
    let d = FolderDevice::default();
    assert_eq!(d.id, "");
    assert_eq!(d.introduced_by, None);
    let c = DeviceConfiguration { id: DeviceId::new(&[5u8; 32]), name: Some("n".to_string()), compression: Compression::Always };
    assert_eq!(c.duplicate(), c);
}
