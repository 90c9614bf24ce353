//! The local device's model: its id, its configuration, and the messages
//! that it sends to a peer when a connection starts.
use vstd::prelude::*;
use vstd::string::StringSliceAdditionalSpecFns;
use vstd::utf8::encode_utf8;

use crate::config::{Configuration, Folder, FolderDevice};
use crate::protocol::deviceid::{
    lemma_parse_device_id_text, spec_device_id_of_text, spec_is_device_id_text, DeviceId,
};
use crate::protocol::message::TypedMessage;
use crate::protos::bep::{spec_string_field, MessageType};
use crate::protos::wire::{
    lemma_ld_field_read, lemma_leb128_len, lemma_varint_leb128, put_ld_field, spec_key, spec_key_bytes, spec_ld_field,
    spec_ld_value, spec_leb128,
};
use crate::text::{lemma_encode_utf8_empty, string_bytes};

verus! {

/// The local device.
pub struct Model {
    pub id: DeviceId,
    pub cfg: Configuration,
    pub client_name: String,
    pub client_version: String,
}

/// A folder as announced in a `ClusterConfig`: id, label, the ids of the
/// devices it is shared with.
pub type FolderView = (Seq<char>, Seq<char>, Seq<Seq<u8>>);

/// The bytes of the device id that a configured folder device names.
pub open spec fn spec_folder_device_id(d: FolderDevice) -> Seq<u8> {
    spec_device_id_of_text(encode_utf8(d.id@))
}

/// A configured folder as it is announced.
pub open spec fn spec_folder_view(f: Folder) -> FolderView {
    (f.id@, f.label@, f.device@.map_values(|d: FolderDevice| spec_folder_device_id(d)))
}

/// Every device of every folder is named by the textual form of a device id.
pub open spec fn spec_folder_devices_valid(cfg: Configuration) -> bool {
    forall|i: int, j: int|
        0 <= i < cfg.folders@.len() && 0 <= j < cfg.folders@[i].device@.len()
            ==> spec_is_device_id_text(#[trigger] encode_utf8(cfg.folders@[i].device@[j].id@))
}

/// The `Device` messages of a folder: field 16, each holding the device id as
/// field 1.
pub open spec fn spec_devices_bytes(ids: Seq<Seq<u8>>) -> Seq<u8>
    decreases ids.len(),
{
    if ids.len() == 0 {
        Seq::empty()
    } else {
        spec_devices_bytes(ids.drop_last()) + spec_ld_field(16, spec_ld_field(1, ids.last()))
    }
}

/// The device ids of a run of `Device` entries, each a field 16 whose bytes
/// are exactly one field 1 holding the id; `None` when `b` is not such a run.
pub open spec fn spec_read_devices(b: Seq<u8>) -> Option<Seq<Seq<u8>>>
    decreases b.len(),
{
    if b.len() == 0 {
        Some(Seq::empty())
    } else {
        match spec_key(b) {
            None => None,
            Some((tag, wt, n)) => match spec_ld_value(b.skip(n as int)) {
                None => None,
                Some((inner, m)) => match spec_key(inner) {
                    None => None,
                    Some((itag, iwt, k)) => match spec_ld_value(inner.skip(k as int)) {
                        None => None,
                        Some((id, l)) => if tag == 16 && wt == 2 && itag == 1 && iwt == 2 && k
                            + l == inner.len() && 1 <= n && n + m <= b.len() {
                            match spec_read_devices(b.skip((n + m) as int)) {
                                None => None,
                                Some(ids) => Some(seq![id] + ids),
                            }
                        } else {
                            None
                        },
                    },
                },
            },
        }
    }
}

/// The `Device` entry of one device id.
pub open spec fn spec_device_entry(id: Seq<u8>) -> Seq<u8> {
    spec_ld_field(16, spec_ld_field(1, id))
}

/// The entries of a list of devices, read from the front: the first entry,
/// then those of the others.
proof fn lemma_devices_bytes_front(ids: Seq<Seq<u8>>)
    requires
        ids.len() > 0,
    ensures
        spec_devices_bytes(ids) == spec_device_entry(ids[0]) + spec_devices_bytes(ids.drop_first()),
    decreases ids.len(),
{
    if ids.len() == 1 {
        assert(ids.drop_last() =~= Seq::<Seq<u8>>::empty());
        assert(ids.drop_first() =~= Seq::<Seq<u8>>::empty());
        assert(spec_devices_bytes(ids) =~= spec_device_entry(ids[0]) + spec_devices_bytes(
            ids.drop_first(),
        ));
    } else {
        let front = ids.drop_last();
        lemma_devices_bytes_front(front);
        assert(front.drop_first() =~= ids.drop_first().drop_last());
        assert(ids.drop_first().last() == ids.last());
        assert(front[0] == ids[0]);
        assert(spec_devices_bytes(ids) =~= spec_device_entry(ids[0]) + spec_devices_bytes(
            ids.drop_first(),
        ));
    }
}

/// One `Device` entry reads back as its id, whatever follows it.
proof fn lemma_device_entry_read(id: Seq<u8>, rest: Seq<u8>)
    requires
        id.len() <= u32::MAX,
    ensures
        spec_read_devices(spec_device_entry(id) + rest) == match spec_read_devices(rest) {
            None => None,
            Some(ids) => Some(seq![id] + ids),
        },
{
    let inner = spec_ld_field(1, id);
    let b = spec_device_entry(id) + rest;
    let key = spec_key_bytes(16, 2);
    let len = spec_leb128(inner.len());
    assert(key == seq![130u8, 1u8]) by {
        assert(spec_leb128(1) == seq![1u8]);
    }
    lemma_leb128_len(id.len());
    assert(inner.len() <= u64::MAX);
    assert(b =~= key + (len + inner + rest));
    lemma_varint_leb128(130, len + inner + rest);
    let after = b.skip(2);
    assert(after =~= len + (inner + rest));
    lemma_varint_leb128(inner.len(), inner + rest);
    assert(after.subrange(len.len() as int, (len.len() + inner.len()) as int) =~= inner);
    assert(b.skip((2 + len.len() + inner.len()) as int) =~= rest);
    lemma_ld_field_read(1, id, Seq::empty());
    assert(inner + Seq::<u8>::empty() =~= inner);
    assert(b.len() > 0);
}

/// The protobuf encoding of a `Folder` with an id, a label and devices.
pub open spec fn spec_folder_bytes(f: FolderView) -> Seq<u8> {
    spec_string_field(1, f.0) + spec_string_field(2, f.1) + spec_devices_bytes(f.2)
}

/// Every device of an announced folder is listed, in order: after the
/// folder's id and label, its bytes read back as a run of `Device` entries
/// whose ids are exactly the folder's devices.
pub proof fn lemma_folder_devices_read_back(f: FolderView)
    requires
        forall|i: int| 0 <= i < f.2.len() ==> (#[trigger] f.2[i]).len() <= u32::MAX,
    ensures
        spec_read_devices(
            spec_folder_bytes(f).skip(
                (spec_string_field(1, f.0) + spec_string_field(2, f.1)).len() as int,
            ),
        ) == Some(f.2),
{
    let head = spec_string_field(1, f.0) + spec_string_field(2, f.1);
    assert(spec_folder_bytes(f).skip(head.len() as int) =~= spec_devices_bytes(f.2));
    lemma_devices_read_back(f.2);
}

/// The entries of a list of devices read back as the list.
proof fn lemma_devices_read_back(ids: Seq<Seq<u8>>)
    requires
        forall|i: int| 0 <= i < ids.len() ==> (#[trigger] ids[i]).len() <= u32::MAX,
    ensures
        spec_read_devices(spec_devices_bytes(ids)) == Some(ids),
    decreases ids.len(),
{
    if ids.len() == 0 {
    } else {
        lemma_devices_bytes_front(ids);
        let others = ids.drop_first();
        assert forall|i: int| 0 <= i < others.len() implies (#[trigger] others[i]).len()
            <= u32::MAX by {
            assert(others[i] == ids[i + 1]);
        }
        lemma_devices_read_back(others);
        lemma_device_entry_read(ids[0], spec_devices_bytes(others));
        assert(seq![ids[0]] + others =~= ids);
    }
}

/// The protobuf encoding of a `ClusterConfig`: field 1 for each folder.
pub open spec fn spec_cluster_config_bytes(folders: Seq<FolderView>) -> Seq<u8>
    decreases folders.len(),
{
    if folders.len() == 0 {
        Seq::empty()
    } else {
        spec_cluster_config_bytes(folders.drop_last()) + spec_ld_field(
            1,
            spec_folder_bytes(folders.last()),
        )
    }
}

/// The bytes of each field 1 of a run of length-delimited fields 1, in
/// order; `None` when `b` is not such a run.
pub open spec fn spec_read_folders(b: Seq<u8>) -> Option<Seq<Seq<u8>>>
    decreases b.len(),
{
    if b.len() == 0 {
        Some(Seq::empty())
    } else {
        match spec_key(b) {
            None => None,
            Some((tag, wt, n)) => match spec_ld_value(b.skip(n as int)) {
                None => None,
                Some((folder, m)) => if tag == 1 && wt == 2 && 1 <= n && n + m <= b.len() {
                    match spec_read_folders(b.skip((n + m) as int)) {
                        None => None,
                        Some(rest) => Some(seq![folder] + rest),
                    }
                } else {
                    None
                },
            },
        }
    }
}

/// The folders of a `ClusterConfig`, read from the front: the first one,
/// then the others.
proof fn lemma_cluster_config_bytes_front(folders: Seq<FolderView>)
    requires
        folders.len() > 0,
    ensures
        spec_cluster_config_bytes(folders) == spec_ld_field(1, spec_folder_bytes(folders[0]))
            + spec_cluster_config_bytes(folders.drop_first()),
    decreases folders.len(),
{
    if folders.len() == 1 {
        assert(folders.drop_last() =~= Seq::<FolderView>::empty());
        assert(folders.drop_first() =~= Seq::<FolderView>::empty());
        assert(spec_cluster_config_bytes(folders) =~= spec_ld_field(
            1,
            spec_folder_bytes(folders[0]),
        ) + spec_cluster_config_bytes(folders.drop_first()));
    } else {
        let front = folders.drop_last();
        lemma_cluster_config_bytes_front(front);
        assert(front.drop_first() =~= folders.drop_first().drop_last());
        assert(folders.drop_first().last() == folders.last());
        assert(front[0] == folders[0]);
        assert(spec_cluster_config_bytes(folders) =~= spec_ld_field(
            1,
            spec_folder_bytes(folders[0]),
        ) + spec_cluster_config_bytes(folders.drop_first()));
    }
}

/// One field 1 reads back as its bytes, whatever follows it.
proof fn lemma_folder_field_read(first: Seq<u8>, rest: Seq<u8>)
    requires
        first.len() <= u32::MAX,
    ensures
        spec_read_folders(spec_ld_field(1, first) + rest) == match spec_read_folders(rest) {
            None => None,
            Some(others) => Some(seq![first] + others),
        },
{
    lemma_ld_field_read(1, first, rest);
    let b = spec_ld_field(1, first) + rest;
    assert(b.len() > 0);
    assert(b.skip(1).skip((spec_leb128(first.len()).len() + first.len()) as int) =~= b.skip(
        (1 + spec_leb128(first.len()).len() + first.len()) as int,
    ));
}

/// Every folder is announced, in order: a `ClusterConfig` reads back as one
/// field 1 per folder, holding that folder's encoding.
pub proof fn lemma_cluster_config_read_back(folders: Seq<FolderView>)
    requires
        forall|i: int|
            0 <= i < folders.len() ==> (#[trigger] spec_folder_bytes(folders[i])).len()
                <= u32::MAX,
    ensures
        spec_read_folders(spec_cluster_config_bytes(folders)) == Some(
            folders.map_values(|f: FolderView| spec_folder_bytes(f)),
        ),
    decreases folders.len(),
{
    if folders.len() == 0 {
        assert(folders.map_values(|f: FolderView| spec_folder_bytes(f)) =~= Seq::<
            Seq<u8>,
        >::empty());
    } else {
        lemma_cluster_config_bytes_front(folders);
        let others = folders.drop_first();
        assert forall|i: int| 0 <= i < others.len() implies (#[trigger] spec_folder_bytes(
            others[i],
        )).len() <= u32::MAX by {
            assert(others[i] == folders[i + 1]);
        }
        lemma_cluster_config_read_back(others);
        let first = spec_folder_bytes(folders[0]);
        lemma_folder_field_read(first, spec_cluster_config_bytes(others));
        assert(seq![first] + others.map_values(|f: FolderView| spec_folder_bytes(f))
            =~= folders.map_values(|f: FolderView| spec_folder_bytes(f)));
    }
}

/// The protobuf encoding of an `Index` of the folder `folder`, with no file.
pub open spec fn spec_index_bytes(folder: Seq<char>) -> Seq<u8> {
    spec_string_field(1, folder)
}

/// Appends a string field, absent when the string is empty.
fn put_string_field(buf: &mut Vec<u8>, tag: u32, s: &String)
    requires
        1 <= tag <= 2,
    ensures
        final(buf)@ == old(buf)@ + spec_string_field(tag as nat, s@),
{
    let bytes = string_bytes(s);
    proof {
        lemma_encode_utf8_empty(s@);
    }
    if bytes.len() != 0 {
        put_ld_field(buf, tag, bytes);
    } else {
        assert(buf@ =~= old(buf)@ + spec_string_field(tag as nat, s@));
    }
}

/// The encoding of a configured folder, as announced.
fn folder_bytes(f: &Folder) -> (res: Vec<u8>)
    requires
        forall|j: int|
            0 <= j < f.device@.len() ==> spec_is_device_id_text(
                #[trigger] encode_utf8(f.device@[j].id@),
            ),
    ensures
        res@ == spec_folder_bytes(spec_folder_view(*f)),
{
    let mut buf: Vec<u8> = Vec::new();
    put_string_field(&mut buf, 1, &f.id);
    put_string_field(&mut buf, 2, &f.label);
    let ghost head = buf@;
    let ghost ids = f.device@.map_values(|d: FolderDevice| spec_folder_device_id(d));
    let mut j: usize = 0;
    while j < f.device.len()
        invariant
            j <= f.device@.len(),
            ids == f.device@.map_values(|d: FolderDevice| spec_folder_device_id(d)),
            forall|k: int|
                0 <= k < f.device@.len() ==> spec_is_device_id_text(
                    #[trigger] encode_utf8(f.device@[k].id@),
                ),
            buf@ == head + spec_devices_bytes(ids.subrange(0, j as int)),
        decreases f.device@.len() - j,
    {
        let text = f.device[j].id.as_str();
        let parsed = DeviceId::from_str(text);
        proof {
            assert(text.spec_bytes() == encode_utf8(f.device@[j as int].id@));
            lemma_parse_device_id_text(text.spec_bytes(), parsed);
        }
        let id = match parsed {
            Ok(id) => id,
            Err(_) => {
                proof {
                    assert(false);
                }
                return Vec::new();
            },
        };
        let id_bytes = id.to_bytes_vec();
        let mut device: Vec<u8> = Vec::new();
        put_ld_field(&mut device, 1, id_bytes.as_slice());
        put_ld_field(&mut buf, 16, device.as_slice());
        proof {
            let prefix = ids.subrange(0, j + 1);
            assert(prefix.drop_last() =~= ids.subrange(0, j as int));
            assert(prefix.last() == ids[j as int]);
        }
        j = j + 1;
    }
    assert(ids.subrange(0, f.device@.len() as int) =~= ids);
    buf
}

impl Model {
    /// The model of the local device with the id `device_id`.
    pub fn new(device_id: DeviceId, cfg: Configuration) -> (res: Model)
        ensures
            res.id == device_id,
            res.cfg == cfg,
            res.client_name@ == "st-rust"@,
            res.client_version@ == "0.1"@,
    {
        Model {
            id: device_id,
            cfg,
            client_name: "st-rust".to_owned(),
            client_version: "0.1".to_owned(),
        }
    }

    /// The `ClusterConfig` sent to a peer: every configured folder with its
    /// id, its label and the devices it is shared with.
    pub fn generate_cluster_config(&self) -> (res: TypedMessage)
        requires
            spec_folder_devices_valid(self.cfg),
        ensures
            res@ == (
                MessageType::ClusterConfig,
                spec_cluster_config_bytes(
                    self.cfg.folders@.map_values(|f: Folder| spec_folder_view(f)),
                ),
            ),
    {
        let ghost folders = self.cfg.folders@.map_values(|f: Folder| spec_folder_view(f));
        let mut buf: Vec<u8> = Vec::new();
        let mut i: usize = 0;
        while i < self.cfg.folders.len()
            invariant
                i <= self.cfg.folders@.len(),
                folders == self.cfg.folders@.map_values(|f: Folder| spec_folder_view(f)),
                spec_folder_devices_valid(self.cfg),
                buf@ == spec_cluster_config_bytes(folders.subrange(0, i as int)),
            decreases self.cfg.folders@.len() - i,
        {
            let folder = &self.cfg.folders[i];
            assert forall|j: int|
                0 <= j < folder.device@.len() implies spec_is_device_id_text(
                #[trigger] encode_utf8(folder.device@[j].id@),
            ) by {
                assert(encode_utf8(self.cfg.folders@[i as int].device@[j].id@) == encode_utf8(
                    folder.device@[j].id@,
                ));
            }
            let bytes = folder_bytes(folder);
            put_ld_field(&mut buf, 1, bytes.as_slice());
            proof {
                let prefix = folders.subrange(0, i + 1);
                assert(prefix.drop_last() =~= folders.subrange(0, i as int));
                assert(prefix.last() == folders[i as int]);
            }
            i = i + 1;
        }
        assert(folders.subrange(0, self.cfg.folders@.len() as int) =~= folders);
        TypedMessage::ClusterConfig(buf)
    }

    /// The `Index` sent to a peer: the first configured folder, with no file.
    pub fn generate_index(&self) -> (res: TypedMessage)
        ensures
            res@ == (
                MessageType::Index,
                spec_index_bytes(
                    if self.cfg.folders@.len() > 0 {
                        self.cfg.folders@[0].id@
                    } else {
                        Seq::empty()
                    },
                ),
            ),
    {
        let mut buf: Vec<u8> = Vec::new();
        if self.cfg.folders.len() > 0 {
            put_string_field(&mut buf, 1, &self.cfg.folders[0].id);
        } else {
            assert(buf@ =~= spec_index_bytes(Seq::empty()));
        }
        TypedMessage::Index(buf)
    }
}

} // verus!
