//! Local discovery: announcing this device on the local network and
//! remembering the devices that announce themselves.
use vstd::prelude::*;
use vstd::string::StringSliceAdditionalSpecFns;
use vstd::utf8::{encode_utf8, encode_utf8_decode_utf8};

use crate::discover::urls::{
    spec_url_has_host, spec_url_parse, spec_url_scheme, spec_url_set_host, url_has_host, url_parse,
    url_scheme, url_serialization, url_set_host, url_to_string,
};
use crate::protocol::message::MAGIC;
use crate::protocol::DeviceId;
use crate::protos::bep::DecodeError;
use crate::protos::local::{
    lemma_announce_roundtrip, spec_announce_bytes, spec_announce_decode, spec_unknown_only, Announce,
    AnnounceView,
};

verus! {

/// How long a cache entry stays fresh, in milliseconds: 90 seconds.
pub const CACHE_LIFE_TIME_MS: u64 = 90_000;

/// How long the beacon sleeps between two announcements, in milliseconds.
pub const BEACON_SLEEP_MS: u64 = 30_000;

/// What is remembered of a device that announced itself.
#[derive(Debug, Clone, PartialEq, Eq)]
pub struct CacheEntry {
    pub addresses: Vec<String>,
    /// When the announcement arrived, in milliseconds.
    pub when_ms: u64,
    pub instance_id: i64,
}

/// The entries of the cache by device id; a later entry for the same id
/// replaces an earlier one.
pub open spec fn spec_cache_map(entries: Seq<(DeviceId, CacheEntry)>) -> Map<Seq<u8>, CacheEntry>
    decreases entries.len(),
{
    if entries.len() == 0 {
        Map::empty()
    } else {
        spec_cache_map(entries.drop_last()).insert(entries.last().0@, entries.last().1)
    }
}

/// No two entries are for the same device.
pub open spec fn spec_unique_ids(entries: Seq<(DeviceId, CacheEntry)>) -> bool {
    forall|i: int, j: int|
        0 <= i < entries.len() && 0 <= j < entries.len() && i != j ==> #[trigger] entries[i].0@
            != #[trigger] entries[j].0@
}

/// An entry is still fresh at `now_ms`, for the same instance of the device.
pub open spec fn spec_fresh(e: CacheEntry, now_ms: u64, instance_id: i64) -> bool {
    (if now_ms > e.when_ms {
        now_ms - e.when_ms
    } else {
        0
    }) < CACHE_LIFE_TIME_MS && e.instance_id == instance_id
}

/// Whether registering an announcement from instance `instance_id` of device
/// `id` at `now_ms` finds the device already known and still fresh.
pub open spec fn spec_known_and_fresh(
    cache: Map<Seq<u8>, CacheEntry>,
    id: Seq<u8>,
    instance_id: i64,
    now_ms: u64,
) -> bool {
    cache.contains_key(id) && spec_fresh(cache[id], now_ms, instance_id)
}

proof fn lemma_cache_map_lookup(entries: Seq<(DeviceId, CacheEntry)>, i: int)
    requires
        spec_unique_ids(entries),
        0 <= i < entries.len(),
    ensures
        spec_cache_map(entries).contains_key(entries[i].0@),
        spec_cache_map(entries)[entries[i].0@] == entries[i].1,
    decreases entries.len(),
{
    let init = entries.drop_last();
    if i < entries.len() - 1 {
        assert(init[i] == entries[i]);
        assert forall|a: int, b: int|
            0 <= a < init.len() && 0 <= b < init.len() && a != b implies #[trigger] init[a].0@
            != #[trigger] init[b].0@ by {
            assert(init[a] == entries[a] && init[b] == entries[b]);
        }
        lemma_cache_map_lookup(init, i);
        assert(entries[i].0@ != entries[entries.len() - 1].0@);
    }
}

proof fn lemma_cache_map_domain(entries: Seq<(DeviceId, CacheEntry)>, k: Seq<u8>)
    ensures
        spec_cache_map(entries).contains_key(k) <==> exists|i: int|
            0 <= i < entries.len() && #[trigger] entries[i].0@ == k,
    decreases entries.len(),
{
    if entries.len() > 0 {
        let init = entries.drop_last();
        lemma_cache_map_domain(init, k);
        if exists|i: int| 0 <= i < init.len() && #[trigger] init[i].0@ == k {
            let i = choose|i: int| 0 <= i < init.len() && #[trigger] init[i].0@ == k;
            assert(entries[i] == init[i]);
        }
        if exists|i: int| 0 <= i < entries.len() && #[trigger] entries[i].0@ == k {
            let i = choose|i: int| 0 <= i < entries.len() && #[trigger] entries[i].0@ == k;
            if i < entries.len() - 1 {
                assert(init[i] == entries[i]);
            }
        }
    }
}

proof fn lemma_cache_map_update(entries: Seq<(DeviceId, CacheEntry)>, i: int, e: (DeviceId, CacheEntry))
    requires
        spec_unique_ids(entries),
        0 <= i < entries.len(),
        entries[i].0@ == e.0@,
    ensures
        spec_cache_map(entries.update(i, e)) == spec_cache_map(entries).insert(e.0@, e.1),
    decreases entries.len(),
{
    let n = entries.len();
    let upd = entries.update(i, e);
    let init = entries.drop_last();
    assert forall|a: int, b: int|
        0 <= a < init.len() && 0 <= b < init.len() && a != b implies #[trigger] init[a].0@
        != #[trigger] init[b].0@ by {
        assert(init[a] == entries[a] && init[b] == entries[b]);
    }
    if i == n - 1 {
        assert(upd.drop_last() =~= init);
        assert(upd.last() == e);
        assert(spec_cache_map(upd) =~= spec_cache_map(entries).insert(e.0@, e.1));
    } else {
        assert(upd.drop_last() =~= init.update(i, e));
        lemma_cache_map_update(init, i, e);
        assert(entries.last().0@ != e.0@) by {
            assert(entries[i].0@ != entries[n - 1].0@);
        }
        assert(upd.last() == entries.last());
        assert(spec_cache_map(upd) =~= spec_cache_map(entries).insert(e.0@, e.1));
    }
}

/// Listens to announcements and remembers the devices that sent them.
pub struct LocalListener {
    my_id: DeviceId,
    cache: Vec<(DeviceId, CacheEntry)>,
}

impl LocalListener {
    /// The id of the listening device.
    pub closed spec fn owner(&self) -> DeviceId {
        self.my_id
    }

    /// The devices remembered, by id.
    pub closed spec fn cache(&self) -> Map<Seq<u8>, CacheEntry> {
        spec_cache_map(self.cache@)
    }

    /// The cache holds one entry per device.
    pub closed spec fn well_formed(&self) -> bool {
        spec_unique_ids(self.cache@)
    }

    /// A listener of the device `id` that knows no device yet.
    pub fn new(id: DeviceId) -> (res: LocalListener)
        ensures
            res.owner() == id,
            res.well_formed(),
            res.cache() == Map::<Seq<u8>, CacheEntry>::empty(),
    {
        LocalListener { my_id: id, cache: Vec::new() }
    }

    /// What is remembered of the device `id`.
    pub fn entry(&self, id: &DeviceId) -> (res: Option<&CacheEntry>)
        requires
            self.well_formed(),
        ensures
            self.cache().contains_key(id@) ==> res == Some(&self.cache()[id@]),
            !self.cache().contains_key(id@) ==> res is None,
    {
        proof {
            lemma_cache_map_domain(self.cache@, id@);
        }
        let mut i: usize = 0;
        while i < self.cache.len()
            invariant
                i <= self.cache@.len(),
                spec_unique_ids(self.cache@),
                forall|j: int| 0 <= j < i ==> #[trigger] self.cache@[j].0@ != id@,
                spec_cache_map(self.cache@).contains_key(id@) <==> exists|j: int|
                    0 <= j < self.cache@.len() && #[trigger] self.cache@[j].0@ == id@,
            decreases self.cache@.len() - i,
        {
            if self.cache[i].0 == *id {
                proof {
                    lemma_cache_map_lookup(self.cache@, i as int);
                }
                return Some(&self.cache[i].1);
            }
            i = i + 1;
        }
        None
    }

    /// Remembers `entry` for the device `id`, and gives back what was
    /// remembered for it before, if anything.
    fn insert(&mut self, id: DeviceId, entry: CacheEntry) -> (res: Option<CacheEntry>)
        requires
            old(self).well_formed(),
        ensures
            final(self).well_formed(),
            final(self).owner() == old(self).owner(),
            final(self).cache() == old(self).cache().insert(id@, entry),
            old(self).cache().contains_key(id@) ==> res == Some(old(self).cache()[id@]),
            !old(self).cache().contains_key(id@) ==> res is None,
    {
        proof {
            lemma_cache_map_domain(self.cache@, id@);
        }
        let mut i: usize = 0;
        while i < self.cache.len()
            invariant
                i <= self.cache@.len(),
                self.cache@ == old(self).cache@,
                self.my_id == old(self).my_id,
                spec_unique_ids(self.cache@),
                forall|j: int| 0 <= j < i ==> #[trigger] self.cache@[j].0@ != id@,
                spec_cache_map(self.cache@).contains_key(id@) <==> exists|j: int|
                    0 <= j < self.cache@.len() && #[trigger] self.cache@[j].0@ == id@,
            decreases self.cache@.len() - i,
        {
            if self.cache[i].0 == id {
                proof {
                    lemma_cache_map_lookup(self.cache@, i as int);
                    lemma_cache_map_update(self.cache@, i as int, (id, entry));
                }
                let ghost before = self.cache@;
                let mut slot = (id, entry);
                std::mem::swap(&mut slot, &mut self.cache[i]);
                proof {
                    assert(self.cache@ =~= before.update(i as int, (id, entry)));
                    assert forall|a: int, b: int|
                        0 <= a < self.cache@.len() && 0 <= b < self.cache@.len() && a != b implies #[trigger] self.cache@[a].0@
                        != #[trigger] self.cache@[b].0@ by {
                        if a != i as int {
                            assert(self.cache@[a] == before[a]);
                        }
                        if b != i as int {
                            assert(self.cache@[b] == before[b]);
                        }
                    }
                }
                return Some(slot.1);
            }
            i = i + 1;
        }
        let ghost before = self.cache@;
        self.cache.push((id, entry));
        proof {
            assert(self.cache@.drop_last() =~= before);
            assert forall|a: int, b: int|
                0 <= a < self.cache@.len() && 0 <= b < self.cache@.len() && a != b implies #[trigger] self.cache@[a].0@
                != #[trigger] self.cache@[b].0@ by {
                if a < before.len() {
                    assert(self.cache@[a] == before[a]);
                }
                if b < before.len() {
                    assert(self.cache@[b] == before[b]);
                }
            }
        }
        None
    }

    /// Registers a device that announced itself at `now_ms` with the given
    /// valid addresses: the device is cached, replacing its entry, only when
    /// at least one of its addresses is valid; otherwise the cache is left as
    /// it is. Returns whether the device was already known with an entry
    /// still fresh for the same instance.
    pub fn register_device(&mut self, announce: &Announce, valid_addresses: Vec<String>, now_ms: u64) -> (res: bool)
        requires
            old(self).well_formed(),
            announce.id@.len() == 32,
        ensures
            final(self).well_formed(),
            final(self).owner() == old(self).owner(),
            valid_addresses@.len() > 0 ==> final(self).cache() == old(self).cache().insert(
                announce.id@,
                CacheEntry { addresses: valid_addresses, when_ms: now_ms, instance_id: announce.instance_id },
            ),
            valid_addresses@.len() == 0 ==> final(self).cache() == old(self).cache(),
            res == spec_known_and_fresh(old(self).cache(), announce.id@, announce.instance_id, now_ms),
    {
        let device_id = DeviceId::new(announce.id.as_slice());
        if valid_addresses.len() == 0 {
            return match self.entry(&device_id) {
                Some(e) => is_fresh(e, now_ms, announce.instance_id),
                None => false,
            };
        }
        let old_value = self.insert(
            device_id,
            CacheEntry { addresses: valid_addresses, when_ms: now_ms, instance_id: announce.instance_id },
        );
        match old_value {
            Some(e) => is_fresh(&e, now_ms, announce.instance_id),
            None => false,
        }
    }
}

/// Whether `e` is still fresh at `now_ms` for the instance `instance_id`.
fn is_fresh(e: &CacheEntry, now_ms: u64, instance_id: i64) -> (res: bool)
    ensures
        res == spec_fresh(*e, now_ms, instance_id),
{
    let age = if now_ms > e.when_ms {
        now_ms - e.when_ms
    } else {
        0
    };
    age < CACHE_LIFE_TIME_MS && e.instance_id == instance_id
}

/// A device that was registered with at least one valid address and
/// announces itself again while its entry is fresh, from the same instance, is
/// found known; once the entry is 90 seconds old, it is not.
pub proof fn lemma_register_again(
    cache: Map<Seq<u8>, CacheEntry>,
    id: Seq<u8>,
    addresses: Vec<String>,
    first_ms: u64,
    second_ms: u64,
    instance_id: i64,
)
    requires
        first_ms <= second_ms,
        addresses@.len() > 0,
    ensures
        spec_known_and_fresh(
            cache.insert(id, CacheEntry { addresses, when_ms: first_ms, instance_id }),
            id,
            instance_id,
            second_ms,
        ) == (second_ms - first_ms < CACHE_LIFE_TIME_MS),
{
}

/// The source of a packet: its IP address as text, and whether it is IPv6.
#[derive(Debug, Clone, PartialEq, Eq)]
pub struct SourceAddress {
    pub ip: String,
    pub is_ipv6: bool,
}

/// An address accepted from an announcement.
#[derive(Debug, Clone, PartialEq, Eq)]
pub struct ValidatedAddress {
    /// The address, with the sender's IP when the announcement gave no host.
    pub address: String,
    /// The address names a host, to be resolved before it is accepted.
    pub resolve_host: bool,
}

/// Why an announced address was ignored.
#[derive(Debug, Clone, Copy, PartialEq, Eq)]
pub enum AddressError {
    /// The address is not a URL.
    InvalidUrl,
    /// The sender's IP cannot be the URL's host.
    InvalidHost,
    /// The URL has no host and asks for the IP version that the sender does
    /// not use.
    IpVersionMismatch,
}

/// The announced scheme asks for an IP version that the sender does not use.
pub open spec fn spec_version_mismatch(scheme: Seq<char>, src_is_ipv6: bool) -> bool {
    (scheme == "tcp4"@ && src_is_ipv6) || (scheme == "tcp6"@ && !src_is_ipv6)
}

/// The outcome of checking an announced address.
pub open spec fn spec_validate_address(addr: Seq<char>, src_ip: Seq<char>, src_is_ipv6: bool) -> Result<
    (Seq<char>, bool),
    AddressError,
> {
    match spec_url_parse(addr) {
        None => Err(AddressError::InvalidUrl),
        Some(s) => if spec_url_has_host(s) {
            Ok((s, true))
        } else if spec_version_mismatch(spec_url_scheme(s), src_is_ipv6) {
            Err(AddressError::IpVersionMismatch)
        } else {
            match spec_url_set_host(s, src_ip) {
                None => Err(AddressError::InvalidHost),
                Some(t) => Ok((t, false)),
            }
        },
    }
}

/// Whether two strings hold the same characters.
fn str_eq(a: &str, b: &str) -> (res: bool)
    ensures
        res == (a@ == b@),
{
    let x = a.as_bytes();
    let y = b.as_bytes();
    proof {
        encode_utf8_decode_utf8(a@);
        encode_utf8_decode_utf8(b@);
    }
    if x.len() != y.len() {
        assert(a@ != b@) by {
            if a@ == b@ {
                assert(x@ == y@);
            }
        }
        return false;
    }
    let mut i: usize = 0;
    while i < x.len()
        invariant
            i <= x@.len(),
            x@.len() == y@.len(),
            x@ == a.spec_bytes(),
            y@ == b.spec_bytes(),
            forall|j: int| 0 <= j < i ==> x@[j] == y@[j],
        decreases x@.len() - i,
    {
        if x[i] != y[i] {
            assert(a@ != b@) by {
                if a@ == b@ {
                    assert(x@ == y@);
                }
            }
            return false;
        }
        i = i + 1;
    }
    assert(x@ =~= y@);
    true
}

/// Whether the scheme `scheme` asks for an IP version other than the
/// sender's: `tcp4` from an IPv6 sender, `tcp6` from an IPv4 sender.
pub fn version_mismatch(scheme: &str, src_is_ipv6: bool) -> (res: bool)
    ensures
        res == spec_version_mismatch(scheme@, src_is_ipv6),
{
    proof {
        reveal_strlit("tcp4");
        reveal_strlit("tcp6");
    }
    (str_eq(scheme, "tcp4") && src_is_ipv6) || (str_eq(scheme, "tcp6") && !src_is_ipv6)
}

/// Checks an address announced by the device at `src`: it must be a URL; a
/// URL with a host is kept as it is (the host is to be resolved); a URL
/// without a host gets the sender's IP as host, unless its scheme asks for
/// the other IP version, in which case it is rejected.
pub fn validate_address(addr: &str, src: &SourceAddress) -> (res: Result<ValidatedAddress, AddressError>)
    ensures
        match spec_validate_address(addr@, src.ip@, src.is_ipv6) {
            Ok((a, r)) => res matches Ok(v) && v.address@ == a && v.resolve_host == r,
            Err(e) => res == Err::<ValidatedAddress, AddressError>(e),
        },
{
    let mut url = match url_parse(addr) {
        Some(u) => u,
        None => {
            return Err(AddressError::InvalidUrl);
        },
    };
    if url_has_host(&url) {
        return Ok(ValidatedAddress { address: url_to_string(&url), resolve_host: true });
    }
    let scheme = url_scheme(&url);
    if version_mismatch(scheme, src.is_ipv6) {
        Err(AddressError::IpVersionMismatch)
    } else {
        if !url_set_host(&mut url, src.ip.as_str()) {
            return Err(AddressError::InvalidHost);
        }
        Ok(ValidatedAddress { address: url_to_string(&url), resolve_host: false })
    }
}

/// The accepted forms of the addresses `addrs`, in order, leaving out those
/// that are rejected.
pub open spec fn spec_valid_addresses(addrs: Seq<Seq<char>>, src_ip: Seq<char>, src_is_ipv6: bool) -> Seq<
    (Seq<char>, bool),
>
    decreases addrs.len(),
{
    if addrs.len() == 0 {
        Seq::empty()
    } else {
        let rest = spec_valid_addresses(addrs.drop_last(), src_ip, src_is_ipv6);
        match spec_validate_address(addrs.last(), src_ip, src_is_ipv6) {
            Ok(p) => rest.push(p),
            Err(_) => rest,
        }
    }
}

/// Checks every address of an announcement from `src`, keeping the accepted
/// ones in order.
pub fn valid_addresses(addrs: &[String], src: &SourceAddress) -> (res: Vec<ValidatedAddress>)
    ensures
        res@.map_values(|v: ValidatedAddress| (v.address@, v.resolve_host)) == spec_valid_addresses(
            addrs@.map_values(|a: String| a@),
            src.ip@,
            src.is_ipv6,
        ),
{
    let ghost all = addrs@.map_values(|a: String| a@);
    let mut res: Vec<ValidatedAddress> = Vec::new();
    let mut i: usize = 0;
    assert(all.subrange(0, 0) =~= Seq::<Seq<char>>::empty());
    assert(res@.map_values(|v: ValidatedAddress| (v.address@, v.resolve_host)) =~= Seq::<
        (Seq<char>, bool),
    >::empty());
    while i < addrs.len()
        invariant
            i <= addrs@.len(),
            all == addrs@.map_values(|a: String| a@),
            res@.map_values(|v: ValidatedAddress| (v.address@, v.resolve_host)) == spec_valid_addresses(
                all.subrange(0, i as int),
                src.ip@,
                src.is_ipv6,
            ),
        decreases addrs@.len() - i,
    {
        let ghost before = res@;
        proof {
            assert(all.subrange(0, i + 1).drop_last() =~= all.subrange(0, i as int));
            assert(all.subrange(0, i + 1).last() == addrs@[i as int]@);
        }
        match validate_address(addrs[i].as_str(), src) {
            Ok(v) => {
                res.push(v);
                assert(res@.map_values(|v: ValidatedAddress| (v.address@, v.resolve_host)) =~= before.map_values(
                    |v: ValidatedAddress| (v.address@, v.resolve_host),
                ).push((res@.last().address@, res@.last().resolve_host)));
            },
            Err(_) => {},
        }
        i = i + 1;
    }
    assert(all.subrange(0, addrs@.len() as int) =~= all);
    res
}

/// What a received UDP packet holds.
#[derive(Debug, Clone, PartialEq)]
pub enum PacketOutcome {
    /// An empty packet, dropped.
    Empty,
    /// A packet without the magic number, discarded.
    Unknown,
    /// An announcement.
    Announce(Announce),
    /// A packet with the magic number that is not a valid announcement.
    Invalid(DecodeError),
}

/// Reads the first `len` bytes of `buf`, a packet just received: an empty
/// packet is dropped, a packet that starts with the magic number carries an
/// announcement in the bytes after it, any other packet is unknown. The
/// magic number is looked for in the first four bytes of `buf` whatever
/// `len` is; a magic number there with a packet shorter than four bytes is
/// not admitted.
pub fn handle_packet(buf: &[u8], len: usize) -> (res: PacketOutcome)
    requires
        len <= buf@.len(),
        buf@.len() >= 4,
        1 <= len < 4 ==> buf@.subrange(0, 4) != MAGIC@,
    ensures
        len == 0 ==> res == PacketOutcome::Empty,
        len != 0 && buf@.subrange(0, 4) != MAGIC@ ==> res == PacketOutcome::Unknown,
        len != 0 && buf@.subrange(0, 4) == MAGIC@ ==> match spec_announce_decode(
            buf@.subrange(4, len as int),
        ) {
            Some(a) => res matches PacketOutcome::Announce(ann) && ann@ == a,
            None => res == PacketOutcome::Invalid(DecodeError),
        },
{
    if len == 0 {
        return PacketOutcome::Empty;
    }
    if crate::connections::is_magic(&buf[0..4]) {
        match Announce::decode(&buf[4..len]) {
            Ok(a) => PacketOutcome::Announce(a),
            Err(e) => PacketOutcome::Invalid(e),
        }
    } else {
        PacketOutcome::Unknown
    }
}

/// What a beacon sends, a listener reads back: the packet of an announcement
/// starts with the magic number, and the bytes after it decode to the same
/// announcement.
pub proof fn lemma_announce_packet_roundtrip(a: AnnounceView)
    requires
        a.0.len() <= u64::MAX,
        forall|i: int| 0 <= i < a.1.len() ==> #[trigger] encode_utf8(a.1[i]).len() <= u64::MAX,
        spec_unknown_only(a.3),
    ensures
        ({
            let p = MAGIC@ + spec_announce_bytes(a);
            &&& p.len() >= 4
            &&& p.subrange(0, 4) == MAGIC@
            &&& spec_announce_decode(p.subrange(4, p.len() as int)) == Some(a)
        }),
{
    lemma_announce_roundtrip(a);
    let p = MAGIC@ + spec_announce_bytes(a);
    assert(p.subrange(0, 4) =~= MAGIC@);
    assert(p.subrange(4, p.len() as int) =~= spec_announce_bytes(a));
}

/// `fastrand::i64(..)`: a random number, which nothing constrains.
#[verifier::external_body]
fn random_i64() -> i64 {
    fastrand::i64(..)
}

/// Announces this device on the local network.
pub struct LocalBeacon {
    pub my_id: DeviceId,
    pub instance_id: i64,
    pub sleep_duration_ms: u64,
}

/// The address announced for this device.
pub open spec fn spec_announced_address() -> Seq<char> {
    "tcp://10.0.1.214:22000"@
}

impl LocalBeacon {
    /// A beacon for the device `device_id`, with a random instance id.
    pub fn new(device_id: DeviceId) -> (res: LocalBeacon)
        ensures
            res.my_id == device_id,
            res.sleep_duration_ms == BEACON_SLEEP_MS,
    {
        LocalBeacon::with_instance_id(device_id, random_i64())
    }

    /// A beacon for the device `device_id` with the instance id `instance_id`.
    pub fn with_instance_id(device_id: DeviceId, instance_id: i64) -> (res: LocalBeacon)
        ensures
            res.my_id == device_id,
            res.instance_id == instance_id,
            res.sleep_duration_ms == BEACON_SLEEP_MS,
    {
        LocalBeacon { my_id: device_id, instance_id, sleep_duration_ms: BEACON_SLEEP_MS }
    }

    /// The announcement of this device.
    pub fn announce_msg(&self) -> (res: Announce)
        ensures
            res@ == (self.my_id@, seq![spec_announced_address()], self.instance_id, Seq::<u8>::empty()),
    {
        let mut addresses: Vec<String> = Vec::new();
        addresses.push("tcp://10.0.1.214:22000".to_owned());
        let res = Announce {
            id: self.my_id.to_bytes_vec(),
            instance_id: self.instance_id,
            addresses,
            unknown_fields: Vec::new(),
        };
        assert(res.addresses@.map_values(|a: String| a@) =~= seq![spec_announced_address()]);
        res
    }

    /// The packet that announces this device: the magic number, then the
    /// announcement.
    pub fn announce_packet(&self) -> (res: Vec<u8>)
        ensures
            res@ == MAGIC@ + spec_announce_bytes(
                (self.my_id@, seq![spec_announced_address()], self.instance_id, Seq::<u8>::empty()),
            ),
    {
        let mut buf: Vec<u8> = Vec::with_capacity(1024);
        let mut i: usize = 0;
        while i < 4
            invariant
                i <= 4,
                buf@ == MAGIC@.subrange(0, i as int),
            decreases 4 - i,
        {
            buf.push(MAGIC[i]);
            i = i + 1;
            assert(buf@ =~= MAGIC@.subrange(0, i as int));
        }
        assert(MAGIC@.subrange(0, 4) =~= MAGIC@);
        let announce = self.announce_msg();
        announce.encode(&mut buf);
        buf
    }
}

} // verus!
