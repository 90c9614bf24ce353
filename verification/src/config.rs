//! The configuration: shared folders and known devices.
use vstd::prelude::*;

use crate::protocol::deviceid::DeviceId;

verus! {

/// The folders that are shared and the devices that are known.
#[derive(Debug, PartialEq, Eq)]
pub struct Configuration {
    pub folders: Vec<Folder>,
    pub devices: Vec<DeviceConfiguration>,
}

/// A known device.
#[derive(Debug, Clone, PartialEq, Eq)]
pub struct DeviceConfiguration {
    pub id: DeviceId,
    pub name: Option<String>,
    pub compression: Compression,
}

/// When messages to a device are compressed.
#[derive(Debug, Clone, Copy, PartialEq, Eq)]
pub enum Compression {
    Metadata,
    Always,
    Never,
}

impl Default for Compression {
    fn default() -> (res: Self)
        ensures
            res == Compression::Never,
    {
        Compression::Never
    }
}

/// A shared folder.
#[derive(Debug, Clone, PartialEq, Eq)]
pub struct Folder {
    pub id: String,
    pub label: String,
    /// The folder's location on disk.
    pub path: String,
    pub sync_type: FolderSyncType,
    pub device: Vec<FolderDevice>,
}

/// In which directions a folder is synchronised.
#[derive(Debug, Clone, Copy, PartialEq, Eq)]
pub enum FolderSyncType {
    SendReceive,
    SendOnly,
    ReceiveOnly,
}

impl Default for FolderSyncType {
    fn default() -> (res: Self)
        ensures
            res == FolderSyncType::SendReceive,
    {
        FolderSyncType::SendReceive
    }
}

/// A device that a folder is shared with.
#[derive(Debug, Default, Clone, PartialEq, Eq)]
pub struct FolderDevice {
    pub id: String,
    pub introduced_by: Option<String>,
}

impl DeviceConfiguration {
    /// A copy of the device's configuration.
    pub fn duplicate(&self) -> (res: Self)
        ensures
            res == *self,
    {
        let name = match &self.name {
            Some(n) => Some(n.clone()),
            None => None,
        };
        DeviceConfiguration { id: self.id, name, compression: self.compression }
    }
}

/// Index of the first device of `devices` with the id `id`, or the number of
/// devices when there is none.
pub open spec fn spec_first_device(devices: Seq<DeviceConfiguration>, id: DeviceId) -> int
    decreases devices.len(),
{
    if devices.len() == 0 {
        0
    } else if devices[0].id@ == id@ {
        0
    } else {
        1 + spec_first_device(devices.drop_first(), id)
    }
}

proof fn lemma_first_device(devices: Seq<DeviceConfiguration>, id: DeviceId)
    ensures
        0 <= spec_first_device(devices, id) <= devices.len(),
        forall|j: int| 0 <= j < spec_first_device(devices, id) ==> #[trigger] devices[j].id@ != id@,
        spec_first_device(devices, id) < devices.len() ==> devices[spec_first_device(devices, id)].id@
            == id@,
    decreases devices.len(),
{
    if devices.len() > 0 && devices[0].id@ != id@ {
        let rest = devices.drop_first();
        lemma_first_device(rest, id);
        assert forall|j: int| 0 <= j < spec_first_device(devices, id) implies #[trigger] devices[j].id@
            != id@ by {
            if j > 0 {
                assert(devices[j] == rest[j - 1]);
            }
        }
    }
}

impl Configuration {
    /// The configuration of the first known device with the id `id`, if any.
    pub fn device(&self, id: &DeviceId) -> (res: Option<DeviceConfiguration>)
        ensures
            spec_first_device(self.devices@, *id) < self.devices@.len() ==> res == Some(
                self.devices@[spec_first_device(self.devices@, *id)],
            ),
            spec_first_device(self.devices@, *id) == self.devices@.len() ==> res is None,
    {
        proof {
            lemma_first_device(self.devices@, *id);
        }
        let mut i: usize = 0;
        while i < self.devices.len()
            invariant
                i <= self.devices@.len(),
                forall|j: int| 0 <= j < i ==> #[trigger] self.devices@[j].id@ != id@,
                0 <= spec_first_device(self.devices@, *id) <= self.devices@.len(),
                forall|j: int|
                    0 <= j < spec_first_device(self.devices@, *id) ==> #[trigger] self.devices@[j].id@
                        != id@,
                spec_first_device(self.devices@, *id) < self.devices@.len() ==> self.devices@[spec_first_device(
                    self.devices@,
                    *id,
                )].id@ == id@,
            decreases self.devices@.len() - i,
        {
            if self.devices[i].id == *id {
                return Some(self.devices[i].duplicate());
            }
            i = i + 1;
        }
        None
    }
}

} // verus!
