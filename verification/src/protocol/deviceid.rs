//! Device ids: the SHA-256 digest of a device's certificate, written as
//! BASE32 text with Luhn-32 check characters, in dash-separated groups.
use vstd::prelude::*;
use vstd::string::StringSliceAdditionalSpecFns;
use vstd::utf8::*;

use crate::buffers::{bytes_contents, bytes_copy_from_slice};
use crate::digest::{sha256, spec_sha256};
use crate::protocol::base32::{
    base32_nopad_decode, base32_nopad_encode, lemma_encode_symbols, spec_base32_encode,
};
use crate::protocol::luhn::{lemma_luhn32_of_symbols, luhn32, spec_codepoint32, spec_luhn32, LuhnError};
use crate::text::{ascii_string, spec_is_ascii_bytes};

verus! {

/// The `j`-th chunk of `size` bytes of `s`.
pub open spec fn spec_chunk(s: Seq<u8>, size: int, j: int) -> Seq<u8> {
    s.subrange(size * j, size * j + size)
}

/// The first `k` chunks of 13 bytes of `s`, each followed by its check character.
pub open spec fn spec_luhnify_chunks(s: Seq<u8>, k: nat) -> Result<Seq<u8>, u8>
    decreases k,
{
    if k == 0 {
        Ok(Seq::empty())
    } else {
        match spec_luhnify_chunks(s, (k - 1) as nat) {
            Err(c) => Err(c),
            Ok(done) => {
                let chunk = spec_chunk(s, 13, k - 1);
                match spec_luhn32(chunk) {
                    Err(c) => Err(c),
                    Ok(check) => Ok(done + chunk.push(check)),
                }
            },
        }
    }
}

/// Every whole chunk of 13 bytes of `s` followed by its check character, or the
/// first byte that is not a BASE32 symbol.
pub open spec fn spec_luhnify(s: Seq<u8>) -> Result<Seq<u8>, u8> {
    spec_luhnify_chunks(s, (s.len() / 13) as nat)
}

/// Why a device id could not be read from text.
#[derive(Debug, Clone, Copy, PartialEq, Eq)]
pub enum DeviceIdError {
    /// Without its dashes the text is not 56 characters long.
    InvalidLength,
    /// The byte is not one of `[A-Z2-7]`.
    InvalidCharacter(u8),
    /// A group's check character does not match the group.
    ChecksumMismatch,
    /// The text is not the BASE32 encoding of any bytes.
    InvalidEncoding,
}

/// The first `k` chunks of 14 bytes of `s`, each checked against its last
/// byte and stripped of it.
pub open spec fn spec_deluhnify_chunks(s: Seq<u8>, k: nat) -> Result<Seq<u8>, DeviceIdError>
    decreases k,
{
    if k == 0 {
        Ok(Seq::empty())
    } else {
        match spec_deluhnify_chunks(s, (k - 1) as nat) {
            Err(e) => Err(e),
            Ok(done) => {
                let chunk = spec_chunk(s, 14, k - 1);
                let data = chunk.subrange(0, 13);
                match spec_luhn32(data) {
                    Err(c) => Err(DeviceIdError::InvalidCharacter(c)),
                    Ok(check) => if check == chunk[13] {
                        Ok(done + data)
                    } else {
                        Err(DeviceIdError::ChecksumMismatch)
                    },
                }
            },
        }
    }
}

/// The 52 data characters of a 56-character text whose four groups of 14
/// end with their check characters.
pub open spec fn spec_deluhnify(s: Seq<u8>) -> Result<Seq<u8>, DeviceIdError> {
    if s.len() != 56 {
        Err(DeviceIdError::InvalidLength)
    } else {
        spec_deluhnify_chunks(s, 4)
    }
}

/// The first `k` chunks of 7 bytes of `s`, each followed by a dash.
pub open spec fn spec_dashed_chunks(s: Seq<u8>, k: nat) -> Seq<u8>
    decreases k,
{
    if k == 0 {
        Seq::empty()
    } else {
        spec_dashed_chunks(s, (k - 1) as nat) + spec_chunk(s, 7, k - 1).push(45u8)
    }
}

/// The whole chunks of 7 bytes of `s`, separated by dashes.
pub open spec fn spec_chunkify(s: Seq<u8>) -> Seq<u8> {
    let n = s.len() / 7;
    if n == 0 {
        Seq::empty()
    } else {
        spec_dashed_chunks(s, (n - 1) as nat) + spec_chunk(s, 7, n - 1)
    }
}

/// `s` without its dashes.
pub open spec fn spec_dechunkify(s: Seq<u8>) -> Seq<u8>
    decreases s.len(),
{
    if s.len() == 0 {
        Seq::empty()
    } else if s.last() == 45u8 {
        spec_dechunkify(s.drop_last())
    } else {
        spec_dechunkify(s.drop_last()).push(s.last())
    }
}

/// The textual form of the device id with the bytes `id`.
pub open spec fn spec_device_id_text(id: Seq<u8>) -> Seq<u8> {
    match spec_luhnify(spec_base32_encode(id)) {
        Ok(l) => spec_chunkify(l),
        Err(_) => Seq::empty(),
    }
}

/// What reading a device id from the text `text` gives: the errors of the
/// check characters, then the bytes whose BASE32 encoding is the data, if any.
pub open spec fn spec_parse_result(text: Seq<u8>, res: Result<DeviceId, DeviceIdError>) -> bool {
    match spec_deluhnify(spec_dechunkify(text)) {
        Err(e) => res == Err::<DeviceId, DeviceIdError>(e),
        Ok(data) => {
            &&& res is Ok <==> exists|b: Seq<u8>| #[trigger] spec_base32_encode(b) == data
            &&& res is Err ==> res == Err::<DeviceId, DeviceIdError>(DeviceIdError::InvalidEncoding)
            &&& res matches Ok(id) ==> spec_base32_encode(id@) == data
            &&& forall|b: Seq<u8>| #[trigger] spec_base32_encode(b) == data ==> res->Ok_0@ == b
        },
    }
}

/// `text` is the textual form of a device id.
pub open spec fn spec_is_device_id_text(text: Seq<u8>) -> bool {
    spec_deluhnify(spec_dechunkify(text)) matches Ok(data) && exists|b: Seq<u8>|
        #[trigger] spec_base32_encode(b) == data
}

/// The bytes of the device id whose textual form is `text`.
pub open spec fn spec_device_id_of_text(text: Seq<u8>) -> Seq<u8> {
    choose|b: Seq<u8>| #[trigger] spec_base32_encode(b) == spec_deluhnify(spec_dechunkify(text))->Ok_0
}

/// Reading the textual form of a device id succeeds, with that id.
pub proof fn lemma_parse_device_id_text(text: Seq<u8>, res: Result<DeviceId, DeviceIdError>)
    requires
        spec_is_device_id_text(text),
        spec_parse_result(text, res),
    ensures
        res matches Ok(id) && id@ == spec_device_id_of_text(text),
{
    let data = spec_deluhnify(spec_dechunkify(text))->Ok_0;
    let b = choose|b: Seq<u8>| #[trigger] spec_base32_encode(b) == data;
    assert(spec_base32_encode(b) == data);
}

/// The identifier of a device: 32 bytes, the SHA-256 digest of its certificate.
#[derive(Debug, Clone, Copy, Eq, Hash)]
pub struct DeviceId([u8; 32]);

impl View for DeviceId {
    type V = Seq<u8>;

    closed spec fn view(&self) -> Seq<u8> {
        self.0@
    }
}

impl PartialEq for DeviceId {
    fn eq(&self, other: &Self) -> (res: bool) {
        let mut i: usize = 0;
        while i < 32
            invariant
                i <= 32,
                forall|j: int| 0 <= j < i ==> self.0@[j] == other.0@[j],
            decreases 32 - i,
        {
            if self.0[i] != other.0[i] {
                return false;
            }
            i = i + 1;
        }
        assert(self.0@ =~= other.0@);
        true
    }
}

impl vstd::std_specs::cmp::PartialEqSpecImpl for DeviceId {
    open spec fn obeys_eq_spec() -> bool {
        true
    }

    open spec fn eq_spec(&self, other: &Self) -> bool {
        self@ == other@
    }
}

/// Every device id has 32 bytes.
pub proof fn lemma_device_id_len(id: DeviceId)
    ensures
        id@.len() == 32,
{
}

/// Two device ids with the same bytes are the same id.
pub proof fn lemma_device_id_ext(a: DeviceId, b: DeviceId)
    requires
        a@ == b@,
    ensures
        a == b,
{
    assert(a.0 =~= b.0);
}

impl DeviceId {
    /// The device id with the 32 bytes `id`.
    pub fn new(id: &[u8]) -> (res: Self)
        requires
            id@.len() == 32,
        ensures
            res@ == id@,
    {
        let mut bytes = [0u8; 32];
        let mut i: usize = 0;
        while i < 32
            invariant
                i <= 32,
                id@.len() == 32,
                forall|j: int| 0 <= j < i ==> bytes@[j] == id@[j],
            decreases 32 - i,
        {
            bytes[i] = id[i];
            i = i + 1;
        }
        assert(bytes@ =~= id@);
        DeviceId(bytes)
    }

    /// The device id of the peer that presents the DER certificate `cert`.
    pub fn from_der_cert(cert: &[u8]) -> (res: DeviceId)
        ensures
            res@ == spec_sha256(cert@),
    {
        let digest = sha256(cert);
        DeviceId::new(digest.as_slice())
    }

    /// The 32 bytes of the id, in a shared buffer.
    pub fn to_bytes(&self) -> (res: bytes::Bytes)
        ensures
            bytes_contents(res) == self@,
    {
        bytes_copy_from_slice(self.0.as_slice())
    }

    /// The 32 bytes of the id.
    pub fn to_bytes_vec(&self) -> (res: Vec<u8>)
        ensures
            res@ == self@,
    {
        crate::protos::wire::copy_bytes(self.0.as_slice())
    }

    /// The textual form of the id: its BASE32 encoding in four groups of 13
    /// characters, each followed by its Luhn-32 check character, written in
    /// eight dash-separated groups of 7 characters.
    pub fn to_string(&self) -> (res: String)
        ensures
            encode_utf8(res@) == spec_device_id_text(self@),
            res@.len() == 63,
    {
        let base32 = base32_nopad_encode(self.0.as_slice());
        proof {
            lemma_encode_symbols(self@);
            lemma_luhnify_symbols(base32@);
        }
        let luhnified = match luhnify(base32.as_slice()) {
            Ok(v) => v,
            Err(_) => {
                proof {
                    assert(false);
                }
                Vec::new()
            },
        };
        let chunkified = chunkify(luhnified.as_slice());
        proof {
            lemma_chunkify_ascii(luhnified@);
        }
        ascii_string(chunkified)
    }

    /// Reads a device id from its textual form; dashes are ignored.
    pub fn from_str(s: &str) -> (res: Result<DeviceId, DeviceIdError>)
        ensures
            spec_parse_result(s.spec_bytes(), res),
    {
        let dechunkified = dechunkify(s.as_bytes());
        let deluhnified = match deluhnify(dechunkified.as_slice()) {
            Ok(v) => v,
            Err(e) => {
                return Err(e);
            },
        };
        proof {
            lemma_deluhnify_len(dechunkified@, 4);
        }
        let decoded = match base32_nopad_decode(deluhnified.as_slice()) {
            Some(d) => d,
            None => {
                return Err(DeviceIdError::InvalidEncoding);
            },
        };
        assert(decoded@.len() == 32) by {
            assert(spec_base32_encode(decoded@).len() == 52);
        }
        Ok(DeviceId::new(decoded.as_slice()))
    }

    /// Reads a device id from its textual form; dashes are ignored.
    pub fn try_from(value: String) -> (res: Result<DeviceId, DeviceIdError>)
        ensures
            spec_parse_result(encode_utf8(value@), res),
    {
        DeviceId::from_str(value.as_str())
    }
}

proof fn lemma_dechunkify_append(a: Seq<u8>, b: Seq<u8>)
    ensures
        spec_dechunkify(a + b) == spec_dechunkify(a) + spec_dechunkify(b),
    decreases b.len(),
{
    if b.len() == 0 {
        assert(a + b =~= a);
        assert(spec_dechunkify(a) + spec_dechunkify(b) =~= spec_dechunkify(a));
    } else {
        assert((a + b).drop_last() =~= a + b.drop_last());
        lemma_dechunkify_append(a, b.drop_last());
        if b.last() != 45u8 {
            assert(spec_dechunkify(a + b) =~= spec_dechunkify(a) + spec_dechunkify(b));
        }
    }
}

proof fn lemma_dechunkify_no_dash(c: Seq<u8>)
    requires
        forall|i: int| 0 <= i < c.len() ==> #[trigger] c[i] != 45u8,
    ensures
        spec_dechunkify(c) == c,
    decreases c.len(),
{
    if c.len() > 0 {
        lemma_dechunkify_no_dash(c.drop_last());
        assert(c.drop_last().push(c.last()) =~= c);
    }
}

proof fn lemma_dechunkify_dashed(s: Seq<u8>, k: nat)
    requires
        7 * k <= s.len(),
        forall|i: int| 0 <= i < s.len() ==> #[trigger] s[i] != 45u8,
    ensures
        spec_dechunkify(spec_dashed_chunks(s, k)) == s.subrange(0, (7 * k) as int),
    decreases k,
{
    if k > 0 {
        let chunk = spec_chunk(s, 7, k - 1);
        lemma_dechunkify_dashed(s, (k - 1) as nat);
        lemma_dechunkify_append(spec_dashed_chunks(s, (k - 1) as nat), chunk.push(45u8));
        assert(chunk.push(45u8).drop_last() =~= chunk);
        lemma_dechunkify_no_dash(chunk);
        assert(s.subrange(0, 7 * (k - 1)) + chunk =~= s.subrange(0, (7 * k) as int));
    }
}

/// Removing the dashes of a chunked text gives back the text, for a text of
/// whole chunks that holds no dash.
pub proof fn lemma_dechunkify_chunkify(s: Seq<u8>)
    requires
        s.len() >= 7,
        s.len() % 7 == 0,
        forall|i: int| 0 <= i < s.len() ==> #[trigger] s[i] != 45u8,
    ensures
        spec_dechunkify(spec_chunkify(s)) == s,
{
    let n = s.len() / 7;
    let chunk = spec_chunk(s, 7, n - 1);
    lemma_dechunkify_dashed(s, (n - 1) as nat);
    lemma_dechunkify_append(spec_dashed_chunks(s, (n - 1) as nat), chunk);
    lemma_dechunkify_no_dash(chunk);
    assert(s.subrange(0, 7 * (n - 1)) + chunk =~= s);
}

proof fn lemma_luhnify_prefix(s: Seq<u8>, k: nat, n: nat)
    requires
        k <= n,
        spec_luhnify_chunks(s, n) is Ok,
        13 * n <= s.len(),
    ensures
        spec_luhnify_chunks(s, k) is Ok,
        spec_luhnify_chunks(s, n)->Ok_0.len() == 14 * n,
        spec_luhnify_chunks(s, n)->Ok_0.subrange(0, (14 * k) as int) == spec_luhnify_chunks(s, k)->Ok_0,
    decreases n,
{
    if n > 0 {
        if k < n {
            lemma_luhnify_prefix(s, k, (n - 1) as nat);
            let prev = spec_luhnify_chunks(s, (n - 1) as nat)->Ok_0;
            let all = spec_luhnify_chunks(s, n)->Ok_0;
            assert(all.subrange(0, (14 * k) as int) =~= prev.subrange(0, (14 * k) as int));
        } else {
            lemma_luhnify_prefix(s, (n - 1) as nat, (n - 1) as nat);
            let all = spec_luhnify_chunks(s, n)->Ok_0;
            assert(all.subrange(0, (14 * k) as int) =~= all);
        }
    } else {
        let all = spec_luhnify_chunks(s, n)->Ok_0;
        assert(all.subrange(0, 0) =~= all);
    }
}

proof fn lemma_deluhnify_chunks_luhnify(s: Seq<u8>, n: nat, k: nat)
    requires
        k <= n,
        13 * n <= s.len(),
        spec_luhnify_chunks(s, n) is Ok,
    ensures
        spec_deluhnify_chunks(spec_luhnify_chunks(s, n)->Ok_0, k) == Ok::<Seq<u8>, DeviceIdError>(
            s.subrange(0, (13 * k) as int),
        ),
    decreases k,
{
    let t = spec_luhnify_chunks(s, n)->Ok_0;
    if k == 0 {
        assert(s.subrange(0, 0) =~= Seq::<u8>::empty());
    } else {
        lemma_deluhnify_chunks_luhnify(s, n, (k - 1) as nat);
        lemma_luhnify_prefix(s, k, n);
        lemma_luhnify_prefix(s, (k - 1) as nat, n);
        let chunk13 = spec_chunk(s, 13, k - 1);
        let check = spec_luhn32(chunk13)->Ok_0;
        let before = spec_luhnify_chunks(s, (k - 1) as nat)->Ok_0;
        let upto = spec_luhnify_chunks(s, k)->Ok_0;
        assert(upto == before + chunk13.push(check));
        let chunk14 = spec_chunk(t, 14, k - 1);
        assert(chunk14 =~= upto.subrange(14 * (k - 1), (14 * k) as int));
        assert(chunk14 =~= chunk13.push(check));
        assert(chunk14.subrange(0, 13) =~= chunk13);
        assert(s.subrange(0, 13 * (k - 1)) + chunk13 =~= s.subrange(0, (13 * k) as int));
    }
}

/// Checking and stripping the check characters that were just added gives
/// back the 52 data characters.
pub proof fn lemma_deluhnify_luhnify(s: Seq<u8>)
    requires
        s.len() == 52,
        spec_luhnify(s) is Ok,
    ensures
        spec_deluhnify(spec_luhnify(s)->Ok_0) == Ok::<Seq<u8>, DeviceIdError>(s),
{
    lemma_luhnify_prefix(s, 4, 4);
    lemma_deluhnify_chunks_luhnify(s, 4, 4);
    assert(s.subrange(0, 52) =~= s);
}

/// The text of a device id reads back as the same id: whatever result
/// satisfies the contract of `DeviceId::from_str` on the text that
/// `DeviceId::to_string` writes for `id` is `Ok(id)`.
pub proof fn lemma_text_roundtrip(id: DeviceId, res: Result<DeviceId, DeviceIdError>)
    requires
        spec_parse_result(spec_device_id_text(id@), res),
    ensures
        res == Ok::<DeviceId, DeviceIdError>(id),
{
    let encoded = spec_base32_encode(id@);
    lemma_encode_symbols(id@);
    lemma_luhnify_symbols(encoded);
    let luhnified = spec_luhnify(encoded)->Ok_0;
    assert forall|i: int| 0 <= i < luhnified.len() implies #[trigger] luhnified[i] != 45u8 by {
        assert(spec_codepoint32(luhnified[i]) is Some);
    }
    lemma_dechunkify_chunkify(luhnified);
    lemma_deluhnify_luhnify(encoded);
    assert(spec_base32_encode(id@) == encoded);
    let parsed = res->Ok_0;
    lemma_device_id_ext(parsed, id);
}

/// The first `k` dashed chunks of 7 bytes of `s`: a dash at every eighth
/// position, the bytes of `s` in order elsewhere.
proof fn lemma_dashed_positions(s: Seq<u8>, k: nat)
    requires
        7 * k <= s.len(),
    ensures
        spec_dashed_chunks(s, k).len() == 8 * k,
        forall|i: int|
            0 <= i < 8 * k ==> #[trigger] spec_dashed_chunks(s, k)[i] == if i % 8 == 7 {
                45u8
            } else {
                s[7 * (i / 8) + i % 8]
            },
    decreases k,
{
    if k > 0 {
        lemma_dashed_positions(s, (k - 1) as nat);
        let done = spec_dashed_chunks(s, (k - 1) as nat);
        let all = done + spec_chunk(s, 7, k - 1).push(45u8);
        assert forall|i: int| 0 <= i < 8 * k implies #[trigger] all[i] == if i % 8 == 7 {
            45u8
        } else {
            s[7 * (i / 8) + i % 8]
        } by {
            if i < 8 * (k - 1) {
                assert(all[i] == done[i]);
            } else {
                let r = i - 8 * (k - 1);
                assert(i / 8 == k - 1 && i % 8 == r) by (nonlinear_arith)
                    requires
                        r == i - 8 * (k - 1),
                        0 <= r < 8,
                ;
            }
        }
    }
}

/// The textual form of every device id is 63 characters long, with a dash
/// exactly at positions 7, 15, 23, 31, 39, 47 and 55.
pub proof fn lemma_device_id_text_shape(id: DeviceId)
    ensures
        spec_device_id_text(id@).len() == 63,
        forall|i: int|
            0 <= i < 63 ==> (#[trigger] spec_device_id_text(id@)[i] == 45u8 <==> i % 8 == 7),
{
    lemma_device_id_len(id);
    let encoded = spec_base32_encode(id@);
    lemma_encode_symbols(id@);
    lemma_luhnify_symbols(encoded);
    let l = spec_luhnify(encoded)->Ok_0;
    assert(l.len() == 56);
    lemma_dashed_positions(l, 7);
    let text = spec_device_id_text(id@);
    let done = spec_dashed_chunks(l, 7);
    assert(text == done + spec_chunk(l, 7, 7));
    assert forall|i: int| 0 <= i < 63 implies (#[trigger] text[i] == 45u8 <==> i % 8 == 7) by {
        if i < 56 {
            assert(text[i] == done[i]);
            if i % 8 != 7 {
                let j = 7 * (i / 8) + i % 8;
                assert(0 <= j < 56) by (nonlinear_arith)
                    requires
                        j == 7 * (i / 8) + i % 8,
                        0 <= i < 56,
                ;
                assert(spec_codepoint32(l[j]) is Some);
            }
        } else {
            assert(text[i] == l[49 + i - 56]);
            assert(spec_codepoint32(l[49 + i - 56]) is Some);
        }
    }
}

/// The check characters of the first `j` chunks of 13 bytes depend only on
/// those chunks.
proof fn lemma_luhnify_chunks_prefix(x: Seq<u8>, y: Seq<u8>, j: nat)
    requires
        13 * (j as int) <= x.len(),
        13 * (j as int) <= y.len(),
        x.subrange(0, 13 * (j as int)) == y.subrange(0, 13 * (j as int)),
    ensures
        spec_luhnify_chunks(x, j) == spec_luhnify_chunks(y, j),
    decreases j,
{
    if j > 0 {
        assert(x.subrange(0, 13 * (j as int - 1)) =~= x.subrange(0, 13 * (j as int)).subrange(0, 13 * (j as int - 1)));
        assert(y.subrange(0, 13 * (j as int - 1)) =~= y.subrange(0, 13 * (j as int)).subrange(0, 13 * (j as int - 1)));
        lemma_luhnify_chunks_prefix(x, y, (j - 1) as nat);
        assert(spec_chunk(x, 13, j - 1) =~= x.subrange(0, 13 * (j as int)).subrange(13 * (j as int - 1), 13 * (j as int)));
        assert(spec_chunk(y, 13, j - 1) =~= y.subrange(0, 13 * (j as int)).subrange(13 * (j as int - 1), 13 * (j as int)));
    }
}

/// What the first `k` chunks of 14 bytes check and strip is exactly what
/// adding the check characters to the stripped data gives back.
proof fn lemma_deluhnify_chunks_sound(s: Seq<u8>, k: nat)
    requires
        14 * (k as int) <= s.len(),
        spec_deluhnify_chunks(s, k) is Ok,
    ensures
        spec_deluhnify_chunks(s, k)->Ok_0.len() == 13 * (k as int),
        spec_luhnify_chunks(spec_deluhnify_chunks(s, k)->Ok_0, k) == Ok::<Seq<u8>, u8>(
            s.subrange(0, 14 * (k as int)),
        ),
    decreases k,
{
    if k == 0 {
        assert(s.subrange(0, 0) =~= Seq::<u8>::empty());
    } else {
        lemma_deluhnify_chunks_sound(s, (k - 1) as nat);
        let done = spec_deluhnify_chunks(s, (k - 1) as nat)->Ok_0;
        let chunk = spec_chunk(s, 14, k - 1);
        let data = chunk.subrange(0, 13);
        let d = done + data;
        assert(spec_deluhnify_chunks(s, k)->Ok_0 == d);
        assert(d.subrange(0, 13 * (k as int - 1)) =~= done.subrange(0, 13 * (k as int - 1)));
        assert(done.subrange(0, 13 * (k as int - 1)) =~= done);
        lemma_luhnify_chunks_prefix(d, done, (k - 1) as nat);
        assert(spec_chunk(d, 13, k - 1) =~= data);
        assert(s.subrange(0, 14 * (k as int - 1)) + data.push(chunk[13]) =~= s.subrange(0, 14 * (k as int)));
    }
}

/// Reading device-id text accepts only text whose every group of 13 data
/// characters is followed by its own check character: whatever is read back
/// from the checked text gets those same check characters again.
pub proof fn lemma_deluhnify_sound(s: Seq<u8>)
    requires
        spec_deluhnify(s) is Ok,
    ensures
        spec_luhnify(spec_deluhnify(s)->Ok_0) == Ok::<Seq<u8>, u8>(s),
{
    lemma_deluhnify_chunks_sound(s, 4);
    assert(s.subrange(0, 56) =~= s);
}

/// A device id is read from a text only when the text, without its dashes,
/// is exactly that id's BASE32 encoding with its check characters.
pub proof fn lemma_parse_sound(text: Seq<u8>, id: DeviceId)
    requires
        spec_parse_result(text, Ok::<DeviceId, DeviceIdError>(id)),
    ensures
        spec_luhnify(spec_base32_encode(id@)) == Ok::<Seq<u8>, u8>(spec_dechunkify(text)),
{
    lemma_deluhnify_sound(spec_dechunkify(text));
}

proof fn lemma_deluhnify_len(s: Seq<u8>, k: nat)
    requires
        14 * k <= s.len(),
    ensures
        spec_deluhnify_chunks(s, k) matches Ok(t) ==> t.len() == 13 * k,
    decreases k,
{
    if k > 0 {
        lemma_deluhnify_len(s, (k - 1) as nat);
    }
}

/// Errors of earlier chunks win over those of later ones.
proof fn lemma_luhnify_error_persists(s: Seq<u8>, k: nat, n: nat)
    requires
        k <= n,
        spec_luhnify_chunks(s, k) is Err,
    ensures
        spec_luhnify_chunks(s, n) == spec_luhnify_chunks(s, k),
    decreases n - k,
{
    if k < n {
        lemma_luhnify_error_persists(s, k, (n - 1) as nat);
    }
}

proof fn lemma_deluhnify_error_persists(s: Seq<u8>, k: nat, n: nat)
    requires
        k <= n,
        spec_deluhnify_chunks(s, k) is Err,
    ensures
        spec_deluhnify_chunks(s, n) == spec_deluhnify_chunks(s, k),
    decreases n - k,
{
    if k < n {
        lemma_deluhnify_error_persists(s, k, (n - 1) as nat);
    }
}

/// A string of BASE32 symbols always gets its check characters, which are
/// BASE32 symbols too.
pub proof fn lemma_luhnify_symbols(s: Seq<u8>)
    requires
        forall|i: int| 0 <= i < s.len() ==> #[trigger] spec_codepoint32(s[i]) is Some,
    ensures
        spec_luhnify(s) is Ok,
        spec_luhnify(s)->Ok_0.len() == 14 * (s.len() / 13),
        forall|i: int|
            0 <= i < spec_luhnify(s)->Ok_0.len() ==> #[trigger] spec_codepoint32(
                spec_luhnify(s)->Ok_0[i],
            ) is Some,
{
    lemma_luhnify_chunks_symbols(s, (s.len() / 13) as nat);
}

proof fn lemma_luhnify_chunks_symbols(s: Seq<u8>, k: nat)
    requires
        13 * k <= s.len(),
        forall|i: int| 0 <= i < s.len() ==> #[trigger] spec_codepoint32(s[i]) is Some,
    ensures
        spec_luhnify_chunks(s, k) is Ok,
        spec_luhnify_chunks(s, k)->Ok_0.len() == 14 * k,
        forall|i: int|
            0 <= i < spec_luhnify_chunks(s, k)->Ok_0.len() ==> #[trigger] spec_codepoint32(
                spec_luhnify_chunks(s, k)->Ok_0[i],
            ) is Some,
    decreases k,
{
    if k > 0 {
        lemma_luhnify_chunks_symbols(s, (k - 1) as nat);
        let chunk = spec_chunk(s, 13, k - 1);
        assert forall|i: int| 0 <= i < chunk.len() implies #[trigger] spec_codepoint32(chunk[i]) is Some by {
            assert(chunk[i] == s[13 * (k - 1) + i]);
        }
        lemma_luhn32_of_symbols(chunk);
        let done = spec_luhnify_chunks(s, (k - 1) as nat)->Ok_0;
        let all = done + chunk.push(spec_luhn32(chunk)->Ok_0);
        assert forall|i: int| 0 <= i < all.len() implies #[trigger] spec_codepoint32(all[i]) is Some by {
            if i < done.len() {
                assert(all[i] == done[i]);
            } else if i < done.len() + 13 {
                assert(all[i] == chunk[i - done.len()]);
            }
        }
    }
}

proof fn lemma_dashed_ascii(s: Seq<u8>, k: nat)
    requires
        7 * k <= s.len(),
        spec_is_ascii_bytes(s),
    ensures
        spec_is_ascii_bytes(spec_dashed_chunks(s, k)),
        spec_dashed_chunks(s, k).len() == 8 * k,
    decreases k,
{
    if k > 0 {
        lemma_dashed_ascii(s, (k - 1) as nat);
        let done = spec_dashed_chunks(s, (k - 1) as nat);
        let chunk = spec_chunk(s, 7, k - 1);
        let all = done + chunk.push(45u8);
        assert forall|i: int| 0 <= i < all.len() implies #[trigger] all[i] < 128 by {
            if i < done.len() {
                assert(all[i] == done[i]);
            } else if i < done.len() + 7 {
                assert(all[i] == s[7 * (k - 1) + i - done.len()]);
            }
        }
    }
}

/// Chunking BASE32 symbols gives ASCII text.
proof fn lemma_chunkify_ascii(s: Seq<u8>)
    requires
        forall|i: int| 0 <= i < s.len() ==> #[trigger] spec_codepoint32(s[i]) is Some,
        s.len() >= 7,
    ensures
        spec_is_ascii_bytes(spec_chunkify(s)),
        spec_chunkify(s).len() == 8 * (s.len() / 7) - 1,
{
    assert(spec_is_ascii_bytes(s)) by {
        assert forall|i: int| 0 <= i < s.len() implies #[trigger] s[i] < 128 by {
            assert(spec_codepoint32(s[i]) is Some);
        }
    }
    let n = s.len() / 7;
    lemma_dashed_ascii(s, (n - 1) as nat);
    let done = spec_dashed_chunks(s, (n - 1) as nat);
    let all = done + spec_chunk(s, 7, n - 1);
    assert forall|i: int| 0 <= i < all.len() implies #[trigger] all[i] < 128 by {
        if i < done.len() {
            assert(all[i] == done[i]);
        } else {
            assert(all[i] == s[7 * (n - 1) + i - done.len()]);
        }
    }
}

/// `dst` followed by `src`.
fn append_bytes(dst: &mut Vec<u8>, src: &[u8])
    ensures
        final(dst)@ == old(dst)@ + src@,
{
    let mut i: usize = 0;
    while i < src.len()
        invariant
            i <= src@.len(),
            dst@ == old(dst)@ + src@.subrange(0, i as int),
        decreases src@.len() - i,
    {
        dst.push(src[i]);
        i = i + 1;
        assert(dst@ =~= old(dst)@ + src@.subrange(0, i as int));
    }
    assert(src@.subrange(0, src@.len() as int) =~= src@);
}

/// Appends to each of the four chunks of 13 bytes its check character.
pub fn luhnify(s: &[u8]) -> (res: Result<Vec<u8>, LuhnError>)
    requires
        s@.len() == 52,
    ensures
        match spec_luhnify(s@) {
            Ok(t) => res matches Ok(v) && v@ == t,
            Err(c) => res == Err::<Vec<u8>, LuhnError>(LuhnError::InvalidCharacter(c)),
        },
{
    let mut res: Vec<u8> = Vec::with_capacity(56);
    let mut i: usize = 0;
    while i < 4
        invariant
            i <= 4,
            s@.len() == 52,
            spec_luhnify_chunks(s@, i as nat) == Ok::<Seq<u8>, u8>(res@),
        decreases 4 - i,
    {
        let chunk = &s[13 * i..13 * i + 13];
        append_bytes(&mut res, chunk);
        let check = match luhn32(chunk) {
            Ok(c) => c,
            Err(e) => {
                proof {
                    lemma_luhnify_error_persists(s@, (i + 1) as nat, 4);
                }
                return Err(e);
            },
        };
        res.push(check);
        i = i + 1;
        assert(res@ =~= spec_luhnify_chunks(s@, i as nat)->Ok_0);
    }
    Ok(res)
}

/// Checks and strips the check character of each of the four groups of 14
/// bytes of a 56-byte text.
pub fn deluhnify(s: &[u8]) -> (res: Result<Vec<u8>, DeviceIdError>)
    ensures
        match spec_deluhnify(s@) {
            Ok(t) => res matches Ok(v) && v@ == t,
            Err(e) => res == Err::<Vec<u8>, DeviceIdError>(e),
        },
{
    if s.len() != 56 {
        return Err(DeviceIdError::InvalidLength);
    }
    let mut res: Vec<u8> = Vec::with_capacity(52);
    let mut i: usize = 0;
    while i < 4
        invariant
            i <= 4,
            s@.len() == 56,
            spec_deluhnify_chunks(s@, i as nat) == Ok::<Seq<u8>, DeviceIdError>(res@),
        decreases 4 - i,
    {
        let data = &s[14 * i..14 * i + 13];
        let checksum = s[14 * i + 13];
        assert(data@ =~= spec_chunk(s@, 14, i as int).subrange(0, 13));
        let computed_checksum = match luhn32(data) {
            Ok(c) => c,
            Err(LuhnError::InvalidCharacter(c)) => {
                proof {
                    lemma_deluhnify_error_persists(s@, (i + 1) as nat, 4);
                }
                return Err(DeviceIdError::InvalidCharacter(c));
            },
        };
        if computed_checksum != checksum {
            proof {
                lemma_deluhnify_error_persists(s@, (i + 1) as nat, 4);
            }
            return Err(DeviceIdError::ChecksumMismatch);
        }
        append_bytes(&mut res, data);
        i = i + 1;
    }
    Ok(res)
}

/// Writes the whole chunks of 7 bytes of `s` separated by dashes.
pub fn chunkify(s: &[u8]) -> (res: Vec<u8>)
    requires
        s@.len() >= 7,
        (s@.len() / 7) * 8 <= usize::MAX,
    ensures
        res@ == spec_chunkify(s@),
{
    let num_chunks = s.len() / 7;
    let mut res: Vec<u8> = Vec::with_capacity(num_chunks * (7 + 1) - 1);
    let mut i: usize = 0;
    while i < num_chunks
        invariant
            num_chunks == s@.len() / 7,
            7 * num_chunks <= s@.len(),
            s@.len() <= usize::MAX,
            1 <= num_chunks,
            i <= num_chunks,
            res@ == (if i < num_chunks {
                spec_dashed_chunks(s@, i as nat)
            } else {
                spec_dashed_chunks(s@, (num_chunks - 1) as nat) + spec_chunk(s@, 7, num_chunks - 1)
            }),
        decreases num_chunks - i,
    {
        let chunk = &s[7 * i..7 * i + 7];
        append_bytes(&mut res, chunk);
        if i != num_chunks - 1 {
            res.push(45u8);
        }
        i = i + 1;
    }
    res
}

/// Removes the dashes of `s`.
pub fn dechunkify(s: &[u8]) -> (res: Vec<u8>)
    ensures
        res@ == spec_dechunkify(s@),
{
    let mut dechunked: Vec<u8> = Vec::with_capacity(56);
    let mut i: usize = 0;
    while i < s.len()
        invariant
            i <= s@.len(),
            dechunked@ == spec_dechunkify(s@.subrange(0, i as int)),
        decreases s@.len() - i,
    {
        assert(s@.subrange(0, i + 1).drop_last() =~= s@.subrange(0, i as int));
        if s[i] != 45u8 {
            dechunked.push(s[i]);
        }
        i = i + 1;
    }
    assert(s@.subrange(0, s@.len() as int) =~= s@);
    dechunked
}

} // verus!
