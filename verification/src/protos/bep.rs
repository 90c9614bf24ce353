//! Block Exchange Protocol message headers.
use vstd::prelude::*;
use vstd::utf8::{
    decode_utf8, decode_utf8_encode_utf8, encode_utf8, encode_utf8_decode_utf8, encode_utf8_valid_utf8,
    valid_utf8,
};

use crate::text::{lemma_encode_utf8_empty, string_bytes, string_from_bytes};

use crate::protos::wire::{
    decode_ld_value, lemma_key_agree, lemma_ld_field_read, lemma_skip_field_agree, lemma_varint_bounds,
    spec_agree, put_ld_field, spec_ld_field, spec_ld_value,
    lemma_small_varint, lemma_varint_leb128, decode_key, decode_varint, put_varint, skip_field, spec_key, spec_leb128, spec_recursion_limit,
    spec_skip_field, spec_varint, varint_len,
};

verus! {

/// The kind of a BEP message.
#[derive(Debug, Clone, Copy, PartialEq, Eq, Hash)]
pub enum MessageType {
    ClusterConfig,
    Index,
    IndexUpdate,
    Request,
    Response,
    DownloadProgress,
    Ping,
    Close,
}

/// How the body of a BEP message is compressed.
#[derive(Debug, Clone, Copy, PartialEq, Eq, Hash)]
pub enum MessageCompression {
    Uncompressed,
    Lz4,
}

/// The number that stands for a message type on the wire.
pub open spec fn spec_message_type_value(t: MessageType) -> i32 {
    match t {
        MessageType::ClusterConfig => 0,
        MessageType::Index => 1,
        MessageType::IndexUpdate => 2,
        MessageType::Request => 3,
        MessageType::Response => 4,
        MessageType::DownloadProgress => 5,
        MessageType::Ping => 6,
        MessageType::Close => 7,
    }
}

/// The message type of a number; unknown numbers read as the default,
/// `ClusterConfig`.
pub open spec fn spec_message_type_of(v: i32) -> MessageType {
    if v == 1 {
        MessageType::Index
    } else if v == 2 {
        MessageType::IndexUpdate
    } else if v == 3 {
        MessageType::Request
    } else if v == 4 {
        MessageType::Response
    } else if v == 5 {
        MessageType::DownloadProgress
    } else if v == 6 {
        MessageType::Ping
    } else if v == 7 {
        MessageType::Close
    } else {
        MessageType::ClusterConfig
    }
}

/// The compression of a number; unknown numbers read as the default, `None`.
pub open spec fn spec_compression_of(v: i32) -> MessageCompression {
    if v == 1 {
        MessageCompression::Lz4
    } else {
        MessageCompression::Uncompressed
    }
}

impl MessageType {
    /// The number that stands for the message type on the wire.
    pub fn value(&self) -> (res: i32)
        ensures
            res == spec_message_type_value(*self),
    {
        match self {
            MessageType::ClusterConfig => 0,
            MessageType::Index => 1,
            MessageType::IndexUpdate => 2,
            MessageType::Request => 3,
            MessageType::Response => 4,
            MessageType::DownloadProgress => 5,
            MessageType::Ping => 6,
            MessageType::Close => 7,
        }
    }

    /// The message type of a number, the default for an unknown one.
    pub fn from_value(v: i32) -> (res: MessageType)
        ensures
            res == spec_message_type_of(v),
    {
        if v == 1 {
            MessageType::Index
        } else if v == 2 {
            MessageType::IndexUpdate
        } else if v == 3 {
            MessageType::Request
        } else if v == 4 {
            MessageType::Response
        } else if v == 5 {
            MessageType::DownloadProgress
        } else if v == 6 {
            MessageType::Ping
        } else if v == 7 {
            MessageType::Close
        } else {
            MessageType::ClusterConfig
        }
    }
}

/// The header that precedes every BEP message: the message's type and the
/// compression of its body, both as numbers.
#[derive(Debug, Clone, Copy, PartialEq, Eq)]
pub struct Header {
    pub msg_type: i32,
    pub compression: i32,
}

impl Default for Header {
    /// The header with both fields 0: `ClusterConfig`, uncompressed.
    fn default() -> (res: Header)
        ensures
            res == (Header { msg_type: 0, compression: 0 }),
    {
        Header { msg_type: 0, compression: 0 }
    }
}

/// A header could not be decoded.
#[derive(Debug, Clone, Copy, PartialEq, Eq)]
pub struct DecodeError;

/// Encoding of a varint field with tag `tag`, absent when the value is 0.
pub open spec fn spec_int32_field(tag: nat, v: i32) -> Seq<u8> {
    if v == 0 {
        Seq::empty()
    } else {
        spec_leb128(tag * 8) + spec_leb128((v as u64) as nat)
    }
}

/// The protobuf encoding of a header.
pub open spec fn spec_header_bytes(h: Header) -> Seq<u8> {
    spec_int32_field(1, h.msg_type) + spec_int32_field(2, h.compression)
}

/// Reads the fields of `b` into `h`: the last value of field 1 and of field 2
/// wins, fields of other tags are skipped; malformed input gives `None`.
pub open spec fn spec_header_merge(h: Header, b: Seq<u8>) -> Option<Header>
    decreases b.len(),
{
    if b.len() == 0 {
        Some(h)
    } else {
        match spec_key(b) {
            None => None,
            Some((tag, wt, n)) => if n < 1 || n > b.len() {
                None
            } else {
                let rest = b.skip(n as int);
                if tag == 1 || tag == 2 {
                    if wt != 0 {
                        None
                    } else {
                        match spec_varint(rest) {
                            None => None,
                            Some((v, m)) => if m > rest.len() {
                                None
                            } else {
                                let next = if tag == 1 {
                                    Header { msg_type: v as i32, ..h }
                                } else {
                                    Header { compression: v as i32, ..h }
                                };
                                spec_header_merge(next, rest.skip(m as int))
                            },
                        }
                    }
                } else {
                    match spec_skip_field(wt, tag, rest, spec_recursion_limit()) {
                        None => None,
                        Some(m) => if m > rest.len() {
                            None
                        } else {
                            spec_header_merge(h, rest.skip(m as int))
                        },
                    }
                }
            },
        }
    }
}

/// The header that the bytes `b` encode, if they encode one.
pub open spec fn spec_header_decode(b: Seq<u8>) -> Option<Header> {
    spec_header_merge(Header { msg_type: 0, compression: 0 }, b)
}

impl Header {
    /// The message type; an unknown number reads as `ClusterConfig`.
    pub fn kind(&self) -> (res: MessageType)
        ensures
            res == spec_message_type_of(self.msg_type),
    {
        MessageType::from_value(self.msg_type)
    }

    /// The compression; an unknown number reads as `None`.
    pub fn compression(&self) -> (res: MessageCompression)
        ensures
            res == spec_compression_of(self.compression),
    {
        if self.compression == 1 {
            MessageCompression::Lz4
        } else {
            MessageCompression::Uncompressed
        }
    }

    pub fn set_compression(&mut self, v: MessageCompression)
        ensures
            final(self).msg_type == old(self).msg_type,
            final(self).compression == (match v {
                MessageCompression::Uncompressed => 0i32,
                MessageCompression::Lz4 => 1i32,
            }),
    {
        self.compression = match v {
            MessageCompression::Uncompressed => 0,
            MessageCompression::Lz4 => 1,
        };
    }

    /// Number of bytes of the header's encoding.
    pub fn encoded_len(&self) -> (res: usize)
        ensures
            res == spec_header_bytes(*self).len(),
            res <= 22,
    {
        let mut len: usize = 0;
        if self.msg_type != 0 {
            len = len + 1 + varint_len(self.msg_type as u64);
        }
        if self.compression != 0 {
            len = len + 1 + varint_len(self.compression as u64);
        }
        len
    }

    /// Appends the header's encoding to `buf`.
    pub fn encode(&self, buf: &mut Vec<u8>)
        ensures
            final(buf)@ == old(buf)@ + spec_header_bytes(*self),
    {
        if self.msg_type != 0 {
            put_varint(buf, 8);
            put_varint(buf, self.msg_type as u64);
        }
        let ghost mid = buf@;
        if self.compression != 0 {
            put_varint(buf, 16);
            put_varint(buf, self.compression as u64);
        }
        assert(buf@ =~= old(buf)@ + spec_header_bytes(*self));
    }

    /// Decodes a header from its protobuf encoding.
    pub fn decode(b: &[u8]) -> (res: Result<Header, DecodeError>)
        ensures
            match spec_header_decode(b@) {
                Some(h) => res == Ok::<Header, DecodeError>(h),
                None => res == Err::<Header, DecodeError>(DecodeError),
            },
    {
        let mut h = Header { msg_type: 0, compression: 0 };
        let mut rest = b;
        while rest.len() > 0
            invariant
                spec_header_merge(h, rest@) == spec_header_decode(b@),
            decreases rest@.len(),
        {
            let (tag, wt, n) = match decode_key(rest) {
                Some(k) => k,
                None => {
                    return Err(DecodeError);
                },
            };
            let after_key = &rest[n..rest.len()];
            assert(after_key@ == rest@.skip(n as int));
            if tag == 1 || tag == 2 {
                if wt != 0 {
                    return Err(DecodeError);
                }
                let (v, m) = match decode_varint(after_key) {
                    Some(x) => x,
                    None => {
                        return Err(DecodeError);
                    },
                };
                if tag == 1 {
                    h = Header { msg_type: v as i32, ..h };
                } else {
                    h = Header { compression: v as i32, ..h };
                }
                let next = &after_key[m..after_key.len()];
                assert(next@ == after_key@.skip(m as int));
                rest = next;
            } else {
                let m = match skip_field(wt, tag, after_key, 100) {
                    Some(m) => m,
                    None => {
                        return Err(DecodeError);
                    },
                };
                let next = &after_key[m..after_key.len()];
                assert(next@ == after_key@.skip(m as int));
                rest = next;
            }
        }
        Ok(h)
    }
}

/// The key of a varint field with a tag below 16.
proof fn lemma_small_key(tag: nat, rest: Seq<u8>)
    requires
        1 <= tag < 16,
    ensures
        spec_leb128(tag * 8) == seq![(tag * 8) as u8],
        spec_key(spec_leb128(tag * 8) + rest) == Some((tag, 0nat, 1nat)),
{
    let b = spec_leb128(tag * 8) + rest;
    assert(spec_leb128(tag * 8) == seq![(tag * 8) as u8]);
    assert(b[0] == (tag * 8) as u8);
    lemma_small_varint(b);
}

/// Reading a varint field of tag 1 or 2 sets the matching field of the header.
proof fn lemma_merge_int32_field(h: Header, tag: nat, v: i32, rest: Seq<u8>)
    requires
        tag == 1 || tag == 2,
        v != 0,
    ensures
        spec_header_merge(h, spec_int32_field(tag, v) + rest) == spec_header_merge(
            if tag == 1 {
                Header { msg_type: v, ..h }
            } else {
                Header { compression: v, ..h }
            },
            rest,
        ),
{
    let value = spec_leb128((v as u64) as nat);
    let b = spec_int32_field(tag, v) + rest;
    lemma_small_key(tag, value + rest);
    assert(b == spec_leb128(tag * 8) + (value + rest));
    let after = b.skip(1);
    assert(after =~= value + rest);
    lemma_varint_leb128((v as u64) as nat, rest);
    assert((value + rest).skip(value.len() as int) =~= rest);
    assert(((v as u64) as i32) == v) by (bit_vector);
}

/// Decoding the encoding of a header gives back the header.
pub proof fn lemma_header_roundtrip(h: Header)
    ensures
        spec_header_decode(spec_header_bytes(h)) == Some(h),
{
    let f1 = spec_int32_field(1, h.msg_type);
    let f2 = spec_int32_field(2, h.compression);
    let h0 = Header { msg_type: 0, compression: 0 };
    let h1 = Header { msg_type: h.msg_type, ..h0 };
    if h.msg_type != 0 {
        lemma_merge_int32_field(h0, 1, h.msg_type, f2);
    } else {
        assert(f1 =~= Seq::<u8>::empty());
        assert(f1 + f2 =~= f2);
    }
    assert(spec_header_merge(h0, f1 + f2) == spec_header_merge(h1, f2));
    if h.compression != 0 {
        lemma_merge_int32_field(h1, 2, h.compression, Seq::<u8>::empty());
        assert(f2 + Seq::<u8>::empty() =~= f2);
    }
}

/// The greeting that both ends of a connection send first.
#[derive(Debug, Clone, PartialEq, Eq)]
pub struct Hello {
    pub device_name: String,
    pub client_name: String,
    pub client_version: String,
}

/// A string field: absent when the string is empty.
pub open spec fn spec_string_field(tag: nat, s: Seq<char>) -> Seq<u8> {
    if s.len() == 0 {
        Seq::empty()
    } else {
        spec_ld_field(tag, encode_utf8(s))
    }
}

/// The protobuf encoding of a `Hello` with the given fields.
pub open spec fn spec_hello_bytes(h: (Seq<char>, Seq<char>, Seq<char>)) -> Seq<u8> {
    spec_string_field(1, h.0) + spec_string_field(2, h.1) + spec_string_field(3, h.2)
}

/// `h` with its field of tag `tag` (1 to 3) set to `s`.
pub open spec fn spec_hello_set(h: (Seq<char>, Seq<char>, Seq<char>), tag: nat, s: Seq<char>) -> (
    Seq<char>,
    Seq<char>,
    Seq<char>,
) {
    if tag == 1 {
        (s, h.1, h.2)
    } else if tag == 2 {
        (h.0, s, h.2)
    } else {
        (h.0, h.1, s)
    }
}

/// Reads the fields of `b` into `h`: the last value of each of the three
/// string fields wins, other fields are skipped; malformed input, or a string
/// that is not UTF-8, gives `None`.
pub open spec fn spec_hello_merge(h: (Seq<char>, Seq<char>, Seq<char>), b: Seq<u8>) -> Option<
    (Seq<char>, Seq<char>, Seq<char>),
>
    decreases b.len(),
{
    if b.len() == 0 {
        Some(h)
    } else {
        match spec_key(b) {
            None => None,
            Some((tag, wt, n)) => if n < 1 || n > b.len() {
                None
            } else {
                let rest = b.skip(n as int);
                if 1 <= tag <= 3 {
                    if wt != 2 {
                        None
                    } else {
                        match spec_ld_value(rest) {
                            None => None,
                            Some((data, m)) => if m > rest.len() || !valid_utf8(data) {
                                None
                            } else {
                                spec_hello_merge(
                                    spec_hello_set(h, tag, decode_utf8(data)),
                                    rest.skip(m as int),
                                )
                            },
                        }
                    }
                } else {
                    match spec_skip_field(wt, tag, rest, spec_recursion_limit()) {
                        None => None,
                        Some(m) => if m > rest.len() {
                            None
                        } else {
                            spec_hello_merge(h, rest.skip(m as int))
                        },
                    }
                }
            },
        }
    }
}

/// The fields of the `Hello` that the bytes `b` encode, if they encode one.
pub open spec fn spec_hello_decode(b: Seq<u8>) -> Option<(Seq<char>, Seq<char>, Seq<char>)> {
    spec_hello_merge((Seq::empty(), Seq::empty(), Seq::empty()), b)
}

impl View for Hello {
    type V = (Seq<char>, Seq<char>, Seq<char>);

    open spec fn view(&self) -> (Seq<char>, Seq<char>, Seq<char>) {
        (self.device_name@, self.client_name@, self.client_version@)
    }
}

/// Appends a string field, absent when the string is empty.
fn put_string_field(buf: &mut Vec<u8>, tag: u32, s: &String)
    requires
        1 <= tag <= 3,
    ensures
        final(buf)@ == old(buf)@ + spec_string_field(tag as nat, s@),
{
    let bytes = string_bytes(s);
    proof {
        lemma_encode_utf8_empty(s@);
    }
    if bytes.len() != 0 {
        put_ld_field(buf, tag, bytes);
    } else {
        assert(buf@ =~= old(buf)@ + spec_string_field(tag as nat, s@));
    }
}

impl Hello {
    /// Appends the protobuf encoding of the greeting to `buf`.
    pub fn encode(&self, buf: &mut Vec<u8>)
        ensures
            final(buf)@ == old(buf)@ + spec_hello_bytes(self@),
    {
        put_string_field(buf, 1, &self.device_name);
        put_string_field(buf, 2, &self.client_name);
        put_string_field(buf, 3, &self.client_version);
        assert(buf@ =~= old(buf)@ + spec_hello_bytes(self@));
    }

    /// Decodes a greeting from its protobuf encoding.
    pub fn decode(b: &[u8]) -> (res: Result<Hello, DecodeError>)
        ensures
            match spec_hello_decode(b@) {
                Some(h) => res matches Ok(hello) && hello@ == h,
                None => res == Err::<Hello, DecodeError>(DecodeError),
            },
    {
        let mut hello = Hello {
            device_name: String::new(),
            client_name: String::new(),
            client_version: String::new(),
        };
        let mut rest = b;
        while rest.len() > 0
            invariant
                spec_hello_merge(hello@, rest@) == spec_hello_decode(b@),
            decreases rest@.len(),
        {
            let (tag, wt, n) = match decode_key(rest) {
                Some(k) => k,
                None => {
                    return Err(DecodeError);
                },
            };
            let after_key = &rest[n..rest.len()];
            assert(after_key@ == rest@.skip(n as int));
            if 1 <= tag && tag <= 3 {
                if wt != 2 {
                    return Err(DecodeError);
                }
                let (data, m) = match decode_ld_value(after_key) {
                    Some(x) => x,
                    None => {
                        return Err(DecodeError);
                    },
                };
                let s = match string_from_bytes(data) {
                    Some(s) => s,
                    None => {
                        return Err(DecodeError);
                    },
                };
                if tag == 1 {
                    hello.device_name = s;
                } else if tag == 2 {
                    hello.client_name = s;
                } else {
                    hello.client_version = s;
                }
                let next = &after_key[m..after_key.len()];
                assert(next@ == after_key@.skip(m as int));
                rest = next;
            } else {
                let m = match skip_field(wt, tag, after_key, 100) {
                    Some(m) => m,
                    None => {
                        return Err(DecodeError);
                    },
                };
                let next = &after_key[m..after_key.len()];
                assert(next@ == after_key@.skip(m as int));
                rest = next;
            }
        }
        Ok(hello)
    }
}

/// Reading a nonempty string field sets the matching field.
proof fn lemma_merge_string_field(
    h: (Seq<char>, Seq<char>, Seq<char>),
    tag: nat,
    s: Seq<char>,
    rest: Seq<u8>,
)
    requires
        1 <= tag <= 3,
        s.len() > 0,
        encode_utf8(s).len() <= u64::MAX,
    ensures
        spec_hello_merge(h, spec_string_field(tag, s) + rest) == spec_hello_merge(
            spec_hello_set(h, tag, s),
            rest,
        ),
{
    let data = encode_utf8(s);
    lemma_ld_field_read(tag, data, rest);
    encode_utf8_valid_utf8(s);
    encode_utf8_decode_utf8(s);
}

/// Decoding the encoding of a greeting gives back its fields.
pub proof fn lemma_hello_roundtrip(h: (Seq<char>, Seq<char>, Seq<char>))
    requires
        encode_utf8(h.0).len() <= u64::MAX,
        encode_utf8(h.1).len() <= u64::MAX,
        encode_utf8(h.2).len() <= u64::MAX,
    ensures
        spec_hello_decode(spec_hello_bytes(h)) == Some(h),
{
    let e: Seq<char> = Seq::empty();
    let f1 = spec_string_field(1, h.0);
    let f2 = spec_string_field(2, h.1);
    let f3 = spec_string_field(3, h.2);
    assert(spec_hello_bytes(h) == f1 + (f2 + f3));
    let h1 = (h.0, e, e);
    let h2 = (h.0, h.1, e);
    if h.0.len() > 0 {
        lemma_merge_string_field((e, e, e), 1, h.0, f2 + f3);
    } else {
        assert(f1 + (f2 + f3) =~= f2 + f3);
        assert(h.0 =~= e);
    }
    assert(spec_hello_decode(spec_hello_bytes(h)) == spec_hello_merge(h1, f2 + f3));
    if h.1.len() > 0 {
        lemma_merge_string_field(h1, 2, h.1, f3);
    } else {
        assert(f2 + f3 =~= f3);
        assert(h.1 =~= e);
    }
    assert(spec_hello_merge(h1, f2 + f3) == spec_hello_merge(h2, f3));
    if h.2.len() > 0 {
        lemma_merge_string_field(h2, 3, h.2, Seq::<u8>::empty());
        assert(f3 + Seq::<u8>::empty() =~= f3);
    } else {
        assert(h.2 =~= e);
    }
}

/// Reads the fields of the body of a `Close` into `reason`: the last value of
/// field 1, a string, wins, other fields are skipped; malformed input, or a
/// reason that is not UTF-8, gives `None`.
pub open spec fn spec_close_merge(reason: Seq<char>, b: Seq<u8>) -> Option<Seq<char>>
    decreases b.len(),
{
    if b.len() == 0 {
        Some(reason)
    } else {
        match spec_key(b) {
            None => None,
            Some((tag, wt, n)) => if n < 1 || n > b.len() {
                None
            } else {
                let rest = b.skip(n as int);
                if tag == 1 {
                    if wt != 2 {
                        None
                    } else {
                        match spec_ld_value(rest) {
                            None => None,
                            Some((data, m)) => if m > rest.len() || !valid_utf8(data) {
                                None
                            } else {
                                spec_close_merge(decode_utf8(data), rest.skip(m as int))
                            },
                        }
                    }
                } else {
                    match spec_skip_field(wt, tag, rest, spec_recursion_limit()) {
                        None => None,
                        Some(m) => if m > rest.len() {
                            None
                        } else {
                            spec_close_merge(reason, rest.skip(m as int))
                        },
                    }
                }
            },
        }
    }
}

/// The reason that the body `b` of a `Close` gives, if it is one.
pub open spec fn spec_close_decode(b: Seq<u8>) -> Option<Seq<char>> {
    spec_close_merge(Seq::empty(), b)
}

/// Decodes the reason of the body of a `Close`.
pub fn close_reason(b: &[u8]) -> (res: Option<String>)
    ensures
        match spec_close_decode(b@) {
            Some(r) => res matches Some(s) && s@ == r,
            None => res is None,
        },
{
    let mut reason = String::new();
    let mut rest = b;
    while rest.len() > 0
        invariant
            spec_close_merge(reason@, rest@) == spec_close_decode(b@),
        decreases rest@.len(),
    {
        let (tag, wt, n) = match decode_key(rest) {
            Some(k) => k,
            None => {
                return None;
            },
        };
        let after_key = &rest[n..rest.len()];
        assert(after_key@ == rest@.skip(n as int));
        if tag == 1 {
            if wt != 2 {
                return None;
            }
            let (data, m) = match decode_ld_value(after_key) {
                Some(x) => x,
                None => {
                    return None;
                },
            };
            reason = match string_from_bytes(data) {
                Some(s) => s,
                None => {
                    return None;
                },
            };
            let next = &after_key[m..after_key.len()];
            assert(next@ == after_key@.skip(m as int));
            rest = next;
        } else {
            let m = match skip_field(wt, tag, after_key, 100) {
                Some(m) => m,
                None => {
                    return None;
                },
            };
            let next = &after_key[m..after_key.len()];
            assert(next@ == after_key@.skip(m as int));
            rest = next;
        }
    }
    Some(reason)
}

/// The body of a `Close` with the reason `reason`: field 1 unless empty.
pub fn close_body(reason: &String) -> (res: Vec<u8>)
    ensures
        res@ == spec_string_field(1, reason@),
{
    let mut buf: Vec<u8> = Vec::new();
    put_string_field(&mut buf, 1, reason);
    assert(buf@ =~= spec_string_field(1, reason@));
    buf
}

proof fn lemma_close_merge_len(reason: Seq<char>, b: Seq<u8>)
    requires
        encode_utf8(reason).len() <= u64::MAX,
        spec_close_merge(reason, b) is Some,
    ensures
        encode_utf8(spec_close_merge(reason, b)->Some_0).len() <= u64::MAX,
    decreases b.len(),
{
    if b.len() > 0 {
        let (tag, wt, n) = spec_key(b)->Some_0;
        let rest = b.skip(n as int);
        if tag == 1 {
            let (data, m) = spec_ld_value(rest)->Some_0;
            lemma_varint_bounds(rest);
            decode_utf8_encode_utf8(data);
            lemma_close_merge_len(decode_utf8(data), rest.skip(m as int));
        } else {
            let m = spec_skip_field(wt, tag, rest, spec_recursion_limit())->Some_0;
            lemma_close_merge_len(reason, rest.skip(m as int));
        }
    }
}

/// A reason read from the body of a `Close` reads back from its encoding.
pub proof fn lemma_close_reencode(b: Seq<u8>)
    requires
        spec_close_decode(b) is Some,
    ensures
        spec_close_decode(spec_string_field(1, spec_close_decode(b)->Some_0)) == spec_close_decode(b),
{
    let r = spec_close_decode(b)->Some_0;
    assert(encode_utf8(Seq::<char>::empty()) =~= Seq::<u8>::empty());
    lemma_close_merge_len(Seq::empty(), b);
    if r.len() > 0 {
        let data = encode_utf8(r);
        lemma_ld_field_read(1, data, Seq::<u8>::empty());
        assert(spec_ld_field(1, data) + Seq::<u8>::empty() =~= spec_ld_field(1, data));
        encode_utf8_valid_utf8(r);
        encode_utf8_decode_utf8(r);
        let f = spec_ld_field(1, data);
        let after = f.skip(1).skip((spec_leb128(data.len()).len() + data.len()) as int);
        assert(after =~= Seq::<u8>::empty());
        assert(spec_close_merge(r, after) == Some(r));
    } else {
        assert(spec_string_field(1, r) =~= Seq::<u8>::empty());
    }
}

/// `f` is one well-formed field, key and value, of a number other than 1, 2
/// and 3.
pub open spec fn spec_other_field(f: Seq<u8>) -> bool {
    spec_key(f) matches Some((tag, wt, n)) && (tag < 1 || tag > 3) && n <= f.len()
        && spec_skip_field(wt, tag, f.skip(n as int), spec_recursion_limit()) == Some(
        (f.len() - n) as nat,
    )
}

/// Reading the encoding of `h` followed by more bytes reads `h`, then goes
/// on with the bytes that follow.
proof fn lemma_hello_bytes_then(h: (Seq<char>, Seq<char>, Seq<char>), rest: Seq<u8>)
    requires
        encode_utf8(h.0).len() <= u64::MAX,
        encode_utf8(h.1).len() <= u64::MAX,
        encode_utf8(h.2).len() <= u64::MAX,
    ensures
        spec_hello_decode(spec_hello_bytes(h) + rest) == spec_hello_merge(h, rest),
{
    let e: Seq<char> = Seq::empty();
    let f1 = spec_string_field(1, h.0);
    let f2 = spec_string_field(2, h.1);
    let f3 = spec_string_field(3, h.2);
    assert(spec_hello_bytes(h) + rest =~= f1 + (f2 + (f3 + rest)));
    let h1 = (h.0, e, e);
    let h2 = (h.0, h.1, e);
    if h.0.len() > 0 {
        lemma_merge_string_field((e, e, e), 1, h.0, f2 + (f3 + rest));
    } else {
        assert(f1 + (f2 + (f3 + rest)) =~= f2 + (f3 + rest));
        assert(h.0 =~= e);
    }
    if h.1.len() > 0 {
        lemma_merge_string_field(h1, 2, h.1, f3 + rest);
    } else {
        assert(f2 + (f3 + rest) =~= f3 + rest);
        assert(h.1 =~= e);
    }
    if h.2.len() > 0 {
        lemma_merge_string_field(h2, 3, h.2, rest);
    } else {
        assert(f3 + rest =~= rest);
        assert(h.2 =~= e);
    }
}

/// A `Hello` followed by a field of another number, such as a newer peer
/// sends, still reads as that `Hello`: fields of other numbers are skipped.
pub proof fn lemma_hello_skips_other_field(h: (Seq<char>, Seq<char>, Seq<char>), f: Seq<u8>)
    requires
        encode_utf8(h.0).len() <= u64::MAX,
        encode_utf8(h.1).len() <= u64::MAX,
        encode_utf8(h.2).len() <= u64::MAX,
        spec_other_field(f),
    ensures
        spec_hello_decode(spec_hello_bytes(h) + f) == Some(h),
{
    lemma_hello_bytes_then(h, f);
    lemma_varint_bounds(f);
    let (tag, wt, n) = spec_key(f)->Some_0;
    let rest = f.skip(n as int);
    let m = (f.len() - n) as nat;
    assert(rest.skip(m as int) =~= Seq::<u8>::empty());
    assert(spec_hello_merge(h, rest.skip(m as int)) == Some(h));
    assert(f.len() > 0);
    assert(rest.len() == m);
    assert(spec_hello_merge(h, f) == spec_hello_merge(h, rest.skip(m as int)));
}

/// Wherever it stands, a field of another number that is not a group leaves
/// what is read unchanged.
pub proof fn lemma_hello_other_field_anywhere(h: (Seq<char>, Seq<char>, Seq<char>), f: Seq<u8>, rest: Seq<u8>)
    requires
        spec_other_field(f),
        spec_key(f)->Some_0.1 != 3,
    ensures
        spec_hello_merge(h, f + rest) == spec_hello_merge(h, rest),
{
    lemma_varint_bounds(f);
    let b = f + rest;
    let (tag, wt, n) = spec_key(f)->Some_0;
    lemma_key_agree(f, b);
    let m = (f.len() - n) as nat;
    assert(spec_agree(f.skip(n as int), b.skip(n as int), m as int));
    lemma_skip_field_agree(wt, tag, f.skip(n as int), b.skip(n as int), spec_recursion_limit());
    assert(b.skip(n as int).skip(m as int) =~= rest);
}

} // verus!
