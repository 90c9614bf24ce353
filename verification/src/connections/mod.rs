//! Accepting a peer: checking its certificate and exchanging `Hello`
//! packets before the BEP session starts.
use vstd::prelude::*;

pub mod tcp;

use crate::digest::spec_sha256;
use crate::protocol::message::{spec_be16, spec_be16_bytes, write_len16_and_bytes, MAGIC};
use crate::protocol::DeviceId;
use crate::protos::bep::{
    lemma_hello_roundtrip, spec_hello_bytes, spec_hello_decode, spec_string_field, Hello,
};
use vstd::utf8::encode_utf8;

verus! {

/// Largest `Hello` packet accepted, in bytes.
pub const MAX_HELLO_LEN: u16 = 32767;

/// Why a peer was turned away.
#[derive(Debug, Clone, PartialEq, Eq)]
pub enum HandshakeError {
    /// The peer presented no certificate.
    NoCertificates,
    /// The peer presented this many certificates instead of one.
    WrongCertificateCount(usize),
    /// The announced `Hello` is longer than [`MAX_HELLO_LEN`].
    HelloTooBig(u16),
    /// The `Hello` packet is not a valid `Hello` message.
    InvalidHello,
}

/// The device id of a peer from the certificates it presented during the TLS
/// handshake: there must be exactly one, and the id is its digest.
pub fn validate_connection(peer_certificates: Option<&[Vec<u8>]>) -> (res: Result<
    DeviceId,
    HandshakeError,
>)
    ensures
        match peer_certificates {
            None => res == Err::<DeviceId, HandshakeError>(HandshakeError::NoCertificates),
            Some(certs) => if certs@.len() != 1 {
                res == Err::<DeviceId, HandshakeError>(
                    HandshakeError::WrongCertificateCount(certs@.len() as usize),
                )
            } else {
                res matches Ok(id) && id@ == spec_sha256(certs@[0]@)
            },
        },
{
    let certs = match peer_certificates {
        Some(c) => c,
        None => {
            return Err(HandshakeError::NoCertificates);
        },
    };
    if certs.len() != 1 {
        return Err(HandshakeError::WrongCertificateCount(certs.len()));
    }
    Ok(DeviceId::from_der_cert(certs[0].as_slice()))
}

/// The first four bytes of a packet are the magic number.
pub fn is_magic(header: &[u8]) -> (res: bool)
    ensures
        res == (header@ == MAGIC@),
{
    if header.len() != 4 {
        return false;
    }
    let mut i: usize = 0;
    while i < 4
        invariant
            i <= 4,
            header@.len() == 4,
            forall|j: int| 0 <= j < i ==> header@[j] == MAGIC@[j],
        decreases 4 - i,
    {
        if header[i] != MAGIC[i] {
            return false;
        }
        i = i + 1;
    }
    assert(header@ =~= MAGIC@);
    true
}

/// The length of the `Hello` that follows the magic number, unless it is too big.
pub fn hello_length(len: u16) -> (res: Result<usize, HandshakeError>)
    ensures
        len > MAX_HELLO_LEN ==> res == Err::<usize, HandshakeError>(HandshakeError::HelloTooBig(len)),
        len <= MAX_HELLO_LEN ==> res == Ok::<usize, HandshakeError>(len as usize),
{
    if len > MAX_HELLO_LEN {
        Err(HandshakeError::HelloTooBig(len))
    } else {
        Ok(len as usize)
    }
}

/// The peer's `Hello` from the bytes of the packet.
pub fn read_hello(buf: &[u8]) -> (res: Result<Hello, HandshakeError>)
    ensures
        match spec_hello_decode(buf@) {
            Some(h) => res matches Ok(hello) && hello@ == h,
            None => res == Err::<Hello, HandshakeError>(HandshakeError::InvalidHello),
        },
{
    match Hello::decode(buf) {
        Ok(h) => Ok(h),
        Err(_) => Err(HandshakeError::InvalidHello),
    }
}

/// The `Hello` this device answers with.
pub fn our_hello() -> (res: Hello)
    ensures
        res.device_name@ == "calculon"@,
        res.client_name@ == "st-rust"@,
        res.client_version@ == "0.1"@,
{
    Hello {
        device_name: "calculon".to_owned(),
        client_name: "st-rust".to_owned(),
        client_version: "0.1".to_owned(),
    }
}

/// The packet that carries a `Hello`: the magic number, the length of the
/// message as a big-endian 16-bit number, the message.
pub fn hello_packet(hello: &Hello) -> (res: Vec<u8>)
    ensures
        res@ == MAGIC@ + spec_be16_bytes(spec_hello_bytes(hello@).len() % 0x1_0000) + spec_hello_bytes(
            hello@,
        ),
{
    let mut buf: Vec<u8> = Vec::new();
    let mut i: usize = 0;
    while i < 4
        invariant
            i <= 4,
            buf@ == MAGIC@.subrange(0, i as int),
        decreases 4 - i,
    {
        buf.push(MAGIC[i]);
        i = i + 1;
        assert(buf@ =~= MAGIC@.subrange(0, i as int));
    }
    assert(MAGIC@.subrange(0, 4) =~= MAGIC@);
    let mut encoded: Vec<u8> = Vec::new();
    hello.encode(&mut encoded);
    assert(encoded@ =~= spec_hello_bytes(hello@));
    write_len16_and_bytes(encoded.as_slice(), &mut buf);
    buf
}

/// A string field is at least as long as the string's encoding.
proof fn lemma_string_field_len(tag: nat, s: Seq<char>)
    ensures
        encode_utf8(s).len() <= spec_string_field(tag, s).len(),
{
    if s.len() == 0 {
        crate::text::lemma_encode_utf8_empty(s);
    }
}

/// A `Hello` packet within the limit reads back as it was written: it starts
/// with the magic number, then a length within the limit that covers exactly
/// the rest of the packet, and the rest decodes to the same `Hello`.
pub proof fn lemma_hello_packet_roundtrip(h: (Seq<char>, Seq<char>, Seq<char>))
    requires
        spec_hello_bytes(h).len() <= MAX_HELLO_LEN,
    ensures
        ({
            let b = spec_hello_bytes(h);
            let p = MAGIC@ + spec_be16_bytes(b.len() % 0x1_0000) + b;
            &&& p.subrange(0, 4) == MAGIC@
            &&& spec_be16(p, 4) == b.len()
            &&& spec_be16(p, 4) <= MAX_HELLO_LEN
            &&& p.len() == 6 + spec_be16(p, 4)
            &&& spec_hello_decode(p.subrange(6, p.len() as int)) == Some(h)
        }),
{
    let b = spec_hello_bytes(h);
    lemma_string_field_len(1, h.0);
    lemma_string_field_len(2, h.1);
    lemma_string_field_len(3, h.2);
    lemma_hello_roundtrip(h);
    let n = b.len();
    assert(n % 0x1_0000 == n);
    let p = MAGIC@ + spec_be16_bytes(n % 0x1_0000) + b;
    assert(p.subrange(0, 4) =~= MAGIC@);
    assert(p.subrange(6, p.len() as int) =~= b);
    assert(p[4] == (n / 256) as u8);
    assert(p[5] == (n % 256) as u8);
}

} // verus!
