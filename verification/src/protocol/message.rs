//! BEP messages and their framing: a big-endian 16-bit header length, the
//! header, a big-endian 32-bit body length, the body.
use vstd::prelude::*;

use crate::protos::wire::{fields_valid, lemma_small_varint, spec_fields_valid, spec_key, spec_leb128};
use crate::compress::{
    lz4_decompress_size_prepended, lz4_size_prepended_ok, spec_lz4_decompress_size_prepended,
    spec_lz4_size_prepended_ok,
};
use crate::protos::bep::{
    spec_compression_of, spec_int32_field, spec_header_merge, spec_header_bytes, spec_header_decode, spec_message_type_of,
    spec_message_type_value, Header, MessageCompression, MessageType, close_body, close_reason,
    spec_close_decode, spec_string_field, lemma_close_reencode,
};

verus! {

/// Magic number that starts `Hello` and `Announce` packets.
pub const MAGIC: [u8; 4] = [0x2E, 0xA7, 0xD9, 0x0B];

/// A BEP message: its type, and its body as protobuf bytes. A message read
/// from a frame holds its body as `spec_body_decode` gives it.
#[derive(Debug, Clone, PartialEq, Eq)]
pub enum TypedMessage {
    ClusterConfig(Vec<u8>),
    Index(Vec<u8>),
    IndexUpdate(Vec<u8>),
    Request(Vec<u8>),
    Response(Vec<u8>),
    DownloadProgress(Vec<u8>),
    Ping(Vec<u8>),
    Close(Vec<u8>),
}

impl View for TypedMessage {
    type V = (MessageType, Seq<u8>);

    open spec fn view(&self) -> (MessageType, Seq<u8>) {
        match self {
            TypedMessage::ClusterConfig(b) => (MessageType::ClusterConfig, b@),
            TypedMessage::Index(b) => (MessageType::Index, b@),
            TypedMessage::IndexUpdate(b) => (MessageType::IndexUpdate, b@),
            TypedMessage::Request(b) => (MessageType::Request, b@),
            TypedMessage::Response(b) => (MessageType::Response, b@),
            TypedMessage::DownloadProgress(b) => (MessageType::DownloadProgress, b@),
            TypedMessage::Ping(b) => (MessageType::Ping, b@),
            TypedMessage::Close(b) => (MessageType::Close, b@),
        }
    }
}

/// Why a frame could not be read.
#[derive(Debug, Clone, Copy, PartialEq, Eq)]
pub enum FrameError {
    /// The header is not a valid protobuf `Header`.
    InvalidHeader,
    /// The body is marked LZ4-compressed but is not a block that decodes
    /// (see `spec_lz4_size_prepended_ok`), or does not decompress.
    InvalidCompression,
    /// The body is not a message of its type.
    InvalidBody,
}

/// Big-endian 16-bit number at `i`.
pub open spec fn spec_be16(b: Seq<u8>, i: int) -> nat {
    (b[i] as nat) * 256 + (b[i + 1] as nat)
}

/// Big-endian 32-bit number at `i`.
pub open spec fn spec_be32(b: Seq<u8>, i: int) -> nat {
    (b[i] as nat) * 0x100_0000 + (b[i + 1] as nat) * 0x1_0000 + (b[i + 2] as nat) * 0x100 + (b[i
        + 3] as nat)
}

/// Big-endian bytes of a 16-bit number.
pub open spec fn spec_be16_bytes(v: nat) -> Seq<u8> {
    seq![(v / 256) as u8, (v % 256) as u8]
}

/// Big-endian bytes of a 32-bit number.
pub open spec fn spec_be32_bytes(v: nat) -> Seq<u8> {
    seq![(v / 0x100_0000) as u8, (v / 0x1_0000 % 256) as u8, (v / 256 % 256) as u8, (v % 256) as u8]
}

/// Length of the header of the frame that starts `b`.
pub open spec fn spec_header_len(b: Seq<u8>) -> nat {
    spec_be16(b, 0)
}

/// Length of the body of the frame that starts `b`.
pub open spec fn spec_body_len(b: Seq<u8>) -> nat {
    spec_be32(b, 2 + spec_header_len(b) as int)
}

/// `b` starts with a whole frame.
pub open spec fn spec_check_size(b: Seq<u8>) -> bool {
    &&& b.len() >= 2
    &&& b.len() - 2 >= spec_header_len(b)
    &&& b.len() - 2 - spec_header_len(b) >= 4
    &&& b.len() - 6 - spec_header_len(b) >= spec_body_len(b)
}

/// The message of type `kind` with the body `body`.
pub open spec fn spec_message(kind: MessageType, body: Seq<u8>) -> (MessageType, Seq<u8>) {
    (kind, body)
}

/// The body of a message of type `kind` as decoding and encoding it again
/// gives it, or `None` when it is not a message of that type. A `Ping` has no
/// fields, so its body is empty; a `Close` keeps its reason, field 1. For the
/// other types, whose fields are not modelled, the body must be a run of
/// well-formed fields and is kept as it is.
pub open spec fn spec_body_decode(kind: MessageType, body: Seq<u8>) -> Option<Seq<u8>> {
    if kind == MessageType::Ping {
        if spec_fields_valid(body) {
            Some(Seq::empty())
        } else {
            None
        }
    } else if kind == MessageType::Close {
        match spec_close_decode(body) {
            Some(r) => Some(spec_string_field(1, r)),
            None => None,
        }
    } else if spec_fields_valid(body) {
        Some(body)
    } else {
        None
    }
}

/// A body as decoding gives it decodes to itself.
pub proof fn lemma_body_decode_stable(kind: MessageType, body: Seq<u8>)
    requires
        spec_body_decode(kind, body) is Some,
    ensures
        spec_body_decode(kind, spec_body_decode(kind, body)->Some_0) == spec_body_decode(kind, body),
{
    if kind == MessageType::Ping {
        assert(spec_fields_valid(Seq::<u8>::empty()));
    } else if kind == MessageType::Close {
        lemma_close_reencode(body);
    }
}

/// The message of type `kind` with the body `body` once decoded, or why it
/// is not one.
pub open spec fn spec_decoded_message(kind: MessageType, body: Seq<u8>) -> Result<
    (MessageType, Seq<u8>),
    FrameError,
> {
    match spec_body_decode(kind, body) {
        Some(c) => Ok(spec_message(kind, c)),
        None => Err(FrameError::InvalidBody),
    }
}

/// Reading the frame that starts `b`: how many bytes are consumed, and the
/// message or why there is none. A header that does not decode stops the
/// reading right after the header.
pub open spec fn spec_parse(b: Seq<u8>) -> (nat, Result<(MessageType, Seq<u8>), FrameError>) {
    let h = spec_header_len(b);
    match spec_header_decode(b.subrange(2, 2 + h as int)) {
        None => ((2 + h) as nat, Err(FrameError::InvalidHeader)),
        Some(header) => {
            let m = spec_body_len(b);
            let total = (6 + h + m) as nat;
            let body = b.subrange(6 + h as int, total as int);
            let kind = spec_message_type_of(header.msg_type);
            if spec_compression_of(header.compression) == MessageCompression::Lz4 {
                if !spec_lz4_size_prepended_ok(body) {
                    (total, Err(FrameError::InvalidCompression))
                } else {
                    match spec_lz4_decompress_size_prepended(body) {
                        None => (total, Err(FrameError::InvalidCompression)),
                        Some(d) => (total, spec_decoded_message(kind, d)),
                    }
                }
            } else {
                (total, spec_decoded_message(kind, body))
            }
        },
    }
}

/// The header sent before a message of type `kind`: no compression.
pub open spec fn spec_header_of(kind: MessageType) -> Header {
    Header { msg_type: spec_message_type_value(kind), compression: 0 }
}

/// The frame that carries a message.
pub open spec fn spec_frame(m: (MessageType, Seq<u8>)) -> Seq<u8> {
    let hdr = spec_header_bytes(spec_header_of(m.0));
    spec_be16_bytes(hdr.len()) + hdr + spec_be32_bytes((m.1.len() % 0x1_0000_0000) as nat) + m.1
}

/// Appends the big-endian bytes of `v`.
pub fn put_u16(buf: &mut Vec<u8>, v: u16)
    ensures
        final(buf)@ == old(buf)@ + spec_be16_bytes(v as nat),
{
    buf.push((v / 256) as u8);
    buf.push((v % 256) as u8);
    assert(buf@ =~= old(buf)@ + spec_be16_bytes(v as nat));
}

/// Appends the big-endian bytes of `v`.
pub fn put_u32(buf: &mut Vec<u8>, v: u32)
    ensures
        final(buf)@ == old(buf)@ + spec_be32_bytes(v as nat),
{
    buf.push((v / 0x100_0000) as u8);
    buf.push((v / 0x1_0000 % 256) as u8);
    buf.push((v / 256 % 256) as u8);
    buf.push((v % 256) as u8);
    assert(buf@ =~= old(buf)@ + spec_be32_bytes(v as nat));
}

fn get_u16(b: &[u8], i: usize) -> (res: usize)
    requires
        i + 2 <= b@.len(),
    ensures
        res == spec_be16(b@, i as int),
{
    (b[i] as usize) * 256 + (b[i + 1] as usize)
}

fn get_u32(b: &[u8], i: usize) -> (res: u64)
    requires
        i + 4 <= b@.len(),
    ensures
        res == spec_be32(b@, i as int),
{
    (b[i] as u64) * 0x100_0000 + (b[i + 1] as u64) * 0x1_0000 + (b[i + 2] as u64) * 0x100 + (b[i
        + 3] as u64)
}

/// `buf[..]` followed by `bytes`.
fn put_bytes(buf: &mut Vec<u8>, bytes: &[u8])
    ensures
        final(buf)@ == old(buf)@ + bytes@,
{
    let mut i: usize = 0;
    while i < bytes.len()
        invariant
            i <= bytes@.len(),
            buf@ == old(buf)@ + bytes@.subrange(0, i as int),
        decreases bytes@.len() - i,
    {
        buf.push(bytes[i]);
        i = i + 1;
        assert(buf@ =~= old(buf)@ + bytes@.subrange(0, i as int));
    }
    assert(bytes@.subrange(0, bytes@.len() as int) =~= bytes@);
}

/// Appends a message's encoding preceded by its length as a big-endian
/// 16-bit number; a length of 65536 or more is written modulo 65536.
pub fn write_len16_and_bytes(encoded: &[u8], buf: &mut Vec<u8>)
    ensures
        final(buf)@ == old(buf)@ + spec_be16_bytes(encoded@.len() % 0x1_0000) + encoded@,
{
    let n: usize = encoded.len();
    let len: u16 = #[verifier::truncate] (n as u16);
    assert(len == n % 0x1_0000) by (bit_vector)
        requires
            len == #[verifier::truncate] (n as u16),
    ;
    put_u16(buf, len);
    put_bytes(buf, encoded);
}

/// Appends a message's encoding preceded by its length as a big-endian
/// 32-bit number; a length of 2^32 or more is written modulo 2^32.
pub fn write_len32_and_bytes(encoded: &[u8], buf: &mut Vec<u8>)
    ensures
        final(buf)@ == old(buf)@ + spec_be32_bytes(encoded@.len() % 0x1_0000_0000) + encoded@,
{
    let n: u64 = encoded.len() as u64;
    let len: u32 = #[verifier::truncate] (n as u32);
    assert(len == n % 0x1_0000_0000) by (bit_vector)
        requires
            len == #[verifier::truncate] (n as u32),
    ;
    put_u32(buf, len);
    put_bytes(buf, encoded);
}

/// The message of type `kind` with the body `body` once decoded.
pub fn decode_message(kind: MessageType, body: Vec<u8>) -> (res: Result<TypedMessage, FrameError>)
    ensures
        match spec_decoded_message(kind, body@) {
            Ok(m) => res matches Ok(msg) && msg@ == m,
            Err(e) => res == Err::<TypedMessage, FrameError>(e),
        },
{
    match kind {
        MessageType::Ping => {
            if fields_valid(body.as_slice()) {
                Ok(TypedMessage::Ping(Vec::new()))
            } else {
                Err(FrameError::InvalidBody)
            }
        },
        MessageType::Close => match close_reason(body.as_slice()) {
            Some(r) => Ok(TypedMessage::Close(close_body(&r))),
            None => Err(FrameError::InvalidBody),
        },
        _ => {
            if fields_valid(body.as_slice()) {
                Ok(TypedMessage::from_parts(kind, body))
            } else {
                Err(FrameError::InvalidBody)
            }
        },
    }
}

impl TypedMessage {
    /// The message of type `kind` with the body `body`.
    pub fn from_parts(kind: MessageType, body: Vec<u8>) -> (res: TypedMessage)
        ensures
            res@ == spec_message(kind, body@),
    {
        match kind {
            MessageType::ClusterConfig => TypedMessage::ClusterConfig(body),
            MessageType::Index => TypedMessage::Index(body),
            MessageType::IndexUpdate => TypedMessage::IndexUpdate(body),
            MessageType::Request => TypedMessage::Request(body),
            MessageType::Response => TypedMessage::Response(body),
            MessageType::DownloadProgress => TypedMessage::DownloadProgress(body),
            MessageType::Ping => TypedMessage::Ping(body),
            MessageType::Close => TypedMessage::Close(body),
        }
    }

    /// The protobuf body of the message.
    pub fn body(&self) -> (res: &[u8])
        ensures
            res@ == self@.1,
    {
        match self {
            TypedMessage::ClusterConfig(b) => b.as_slice(),
            TypedMessage::Index(b) => b.as_slice(),
            TypedMessage::IndexUpdate(b) => b.as_slice(),
            TypedMessage::Request(b) => b.as_slice(),
            TypedMessage::Response(b) => b.as_slice(),
            TypedMessage::DownloadProgress(b) => b.as_slice(),
            TypedMessage::Ping(b) => b.as_slice(),
            TypedMessage::Close(b) => b.as_slice(),
        }
    }

    /// The type of the message.
    pub fn message_type(&self) -> (res: MessageType)
        ensures
            res == self@.0,
    {
        match self {
            TypedMessage::ClusterConfig(_) => MessageType::ClusterConfig,
            TypedMessage::Index(_) => MessageType::Index,
            TypedMessage::IndexUpdate(_) => MessageType::IndexUpdate,
            TypedMessage::Request(_) => MessageType::Request,
            TypedMessage::Response(_) => MessageType::Response,
            TypedMessage::DownloadProgress(_) => MessageType::DownloadProgress,
            TypedMessage::Ping(_) => MessageType::Ping,
            TypedMessage::Close(_) => MessageType::Close,
        }
    }

    /// The header sent before the message: its type, uncompressed.
    pub fn header(&self) -> (res: Header)
        ensures
            res == spec_header_of(self@.0),
    {
        let mut header = Header::default();
        header.msg_type = self.message_type().value();
        header.set_compression(MessageCompression::Uncompressed);
        header
    }

    /// Returns true if there is enough data in the buffer to parse a full
    /// frame (header + message).
    pub fn check_size(buf: &[u8]) -> (res: bool)
        ensures
            res == spec_check_size(buf@),
    {
        if buf.len() < 2 {
            return false;
        }
        let hdr_len = get_u16(buf, 0);
        if buf.len() - 2 < hdr_len {
            return false;
        }
        if buf.len() - 2 - hdr_len < 4 {
            return false;
        }
        let msg_len = get_u32(buf, 2 + hdr_len);
        if ((buf.len() - 6 - hdr_len) as u64) < msg_len {
            return false;
        }
        true
    }

    /// Parses the frame at the start of `buf`, which must hold a whole frame
    /// (see [`TypedMessage::check_size`]). Returns the number of bytes read
    /// with the message: after an undecodable header, only the length and the
    /// header have been read.
    pub fn parse(buf: &[u8]) -> (res: (usize, Result<TypedMessage, FrameError>))
        requires
            spec_check_size(buf@),
        ensures
            res.0 == spec_parse(buf@).0,
            match spec_parse(buf@).1 {
                Ok(m) => res.1 matches Ok(msg) && msg@ == m,
                Err(e) => res.1 == Err::<TypedMessage, FrameError>(e),
            },
    {
        let buf_len = buf.len();
        let hdr_len = get_u16(buf, 0);
        let hdr_bytes = &buf[2..2 + hdr_len];
        let header = match Header::decode(hdr_bytes) {
            Ok(h) => h,
            Err(_) => {
                return (2 + hdr_len, Err(FrameError::InvalidHeader));
            },
        };
        let msg_len64 = get_u32(buf, 2 + hdr_len);
        assert(msg_len64 <= buf@.len() - 6 - hdr_len);
        let msg_len = msg_len64 as usize;
        assert(msg_len == msg_len64);
        let start = 6 + hdr_len;
        let end = start + msg_len;
        let msg_bytes = &buf[start..end];
        let kind = header.kind();
        match header.compression() {
            MessageCompression::Lz4 => {
                if !lz4_size_prepended_ok(msg_bytes) {
                    return (end, Err(FrameError::InvalidCompression));
                }
                match lz4_decompress_size_prepended(msg_bytes) {
                    Some(decompressed) => (end, decode_message(kind, decompressed)),
                    None => (end, Err(FrameError::InvalidCompression)),
                }
            },
            MessageCompression::Uncompressed => {
                let mut body: Vec<u8> = Vec::new();
                put_bytes(&mut body, msg_bytes);
                assert(body@ =~= msg_bytes@);
                (end, decode_message(kind, body))
            },
        }
    }

    /// Appends the frame of the message to `buf`.
    pub fn write_to_bytes(&self, buf: &mut Vec<u8>)
        ensures
            final(buf)@ == old(buf)@ + spec_frame(self@),
    {
        let header = self.header();
        let mut hdr: Vec<u8> = Vec::new();
        header.encode(&mut hdr);
        assert(hdr@ =~= spec_header_bytes(header));
        write_len16_and_bytes(hdr.as_slice(), buf);
        write_len32_and_bytes(self.body(), buf);
        assert(spec_header_bytes(header).len() % 0x1_0000 == spec_header_bytes(header).len());
        assert(buf@ =~= old(buf)@ + spec_frame(self@));
    }
}

/// The header of a frame decodes to the header it was written from.
proof fn lemma_header_of_roundtrip(kind: MessageType, rest: Seq<u8>)
    ensures
        spec_header_decode(spec_header_bytes(spec_header_of(kind))) == Some(spec_header_of(kind)),
        spec_header_bytes(spec_header_of(kind)).len() <= 2,
        spec_message_type_of(spec_header_of(kind).msg_type) == kind,
        spec_compression_of(spec_header_of(kind).compression) == MessageCompression::Uncompressed,
{
    let h = spec_header_of(kind);
    let v = h.msg_type;
    assert(0 <= v < 8);
    assert(spec_int32_field(2, h.compression) =~= Seq::<u8>::empty());
    if v == 0 {
        assert(spec_int32_field(1, v) =~= Seq::<u8>::empty());
        assert(spec_header_bytes(h) =~= Seq::<u8>::empty());
    } else {
        assert(spec_leb128(8) == seq![8u8]);
        assert(spec_leb128((v as u64) as nat) == seq![v as u8]);
        let b = spec_header_bytes(h);
        assert(b =~= seq![8u8, v as u8]);
        lemma_small_varint(b);
        assert(spec_key(b) == Some((1nat, 0nat, 1nat)));
        let r = b.skip(1);
        assert(r =~= seq![v as u8]);
        lemma_small_varint(r);
        let next = Header { msg_type: v as i32, ..Header { msg_type: 0, compression: 0 } };
        assert(r.skip(1) =~= Seq::<u8>::empty());
        assert(spec_header_merge(next, r.skip(1)) == Some(next));
        assert(next == h);
    }
}

/// A frame written for a message reads back as that message, whatever
/// follows it: the buffer holds a whole frame, and reading it consumes the
/// frame exactly. The body is one that decoding keeps as it is (every body
/// of a message read from a frame is one); bodies of 2^32 bytes or more are
/// excluded, as their length does not fit the frame's 32-bit length field.
pub proof fn lemma_frame_roundtrip(m: (MessageType, Seq<u8>), rest: Seq<u8>)
    requires
        m.1.len() <= u32::MAX,
        spec_body_decode(m.0, m.1) == Some(m.1),
    ensures
        spec_check_size(spec_frame(m) + rest),
        spec_parse(spec_frame(m) + rest) == (spec_frame(m).len(), Ok::<(MessageType, Seq<u8>), FrameError>(m)),
{
    let hdr = spec_header_bytes(spec_header_of(m.0));
    lemma_header_of_roundtrip(m.0, rest);
    let blen = m.1.len();
    assert(blen % 0x1_0000_0000 == blen);
    let h = hdr.len();
    let p16 = spec_be16_bytes(h);
    let p32 = spec_be32_bytes(blen);
    let f = spec_frame(m);
    assert(f == p16 + hdr + p32 + m.1);
    let b = f + rest;
    assert(b.subrange(0, 2) =~= p16);
    lemma_be16_read(h, b);
    assert(b.subrange(2, 2 + h as int) =~= hdr);
    assert(b.subrange(2 + h as int, 6 + h as int) =~= p32);
    lemma_be32_read(blen, b, 2 + h as int);
    assert(b.subrange(6 + h as int, (6 + h + blen) as int) =~= m.1);
}

proof fn lemma_be16_read(v: nat, s: Seq<u8>)
    requires
        v < 0x1_0000,
        s.len() >= 2,
        s.subrange(0, 2) == spec_be16_bytes(v),
    ensures
        spec_be16(s, 0) == v,
{
    assert(s[0] == spec_be16_bytes(v)[0]);
    assert(s[1] == spec_be16_bytes(v)[1]);
}

proof fn lemma_be32_read(v: nat, s: Seq<u8>, i: int)
    requires
        v < 0x1_0000_0000,
        0 <= i,
        s.len() >= i + 4,
        s.subrange(i, i + 4) == spec_be32_bytes(v),
    ensures
        spec_be32(s, i) == v,
{
    assert(s[i] == spec_be32_bytes(v)[0]);
    assert(s[i + 1] == spec_be32_bytes(v)[1]);
    assert(s[i + 2] == spec_be32_bytes(v)[2]);
    assert(s[i + 3] == spec_be32_bytes(v)[3]);
}

} // verus!
