//! The local discovery announcement.
use vstd::prelude::*;
use vstd::utf8::{
    decode_utf8, decode_utf8_encode_utf8, encode_utf8, encode_utf8_decode_utf8, encode_utf8_valid_utf8,
    valid_utf8,
};

use crate::protos::bep::DecodeError;
use crate::protos::wire::{
    lemma_key_agree, lemma_skip_field_agree, lemma_varint_bounds, spec_agree,
    decode_key, decode_ld_value, decode_varint, lemma_ld_field_read, lemma_leb128_len,
    lemma_varint_field_read, put_ld_field, put_varint_field, skip_field, spec_key, spec_ld_field,
    put_slice, spec_ld_value, spec_leb128, spec_recursion_limit, spec_skip_field, spec_varint, spec_varint_field,
    varint_len,
};
use crate::text::{string_bytes, string_from_bytes};

verus! {

/// A device announcing, on the local network, the addresses it listens on.
#[derive(PartialEq, Clone, Default, Debug)]
pub struct Announce {
    pub id: Vec<u8>,
    pub addresses: Vec<String>,
    pub instance_id: i64,
    /// The fields of other numbers, as they arrived, each with its key; groups
    /// are skipped, not kept.
    pub unknown_fields: Vec<u8>,
}

impl Announce {
    /// An announcement with an empty id, no address and instance 0.
    pub fn new() -> (res: Announce)
        ensures
            res.id@ == Seq::<u8>::empty(),
            res.addresses@ == Seq::<String>::empty(),
            res.instance_id == 0,
            res.unknown_fields@ == Seq::<u8>::empty(),
    {
        Announce { id: Vec::new(), addresses: Vec::new(), instance_id: 0, unknown_fields: Vec::new() }
    }

    pub fn get_id(&self) -> (res: &[u8])
        ensures
            res@ == self.id@,
    {
        self.id.as_slice()
    }

    pub fn clear_id(&mut self)
        ensures
            final(self).id@ == Seq::<u8>::empty(),
            final(self).addresses == old(self).addresses,
            final(self).instance_id == old(self).instance_id,
            final(self).unknown_fields == old(self).unknown_fields,
    {
        self.id.clear();
    }

    pub fn set_id(&mut self, v: Vec<u8>)
        ensures
            final(self).id == v,
            final(self).addresses == old(self).addresses,
            final(self).instance_id == old(self).instance_id,
            final(self).unknown_fields == old(self).unknown_fields,
    {
        self.id = v;
    }

    /// The id, to be changed in place.
    pub fn mut_id(&mut self) -> (res: &mut Vec<u8>)
        ensures
            *res == old(self).id,
            final(self).id == *final(res),
            final(self).addresses == old(self).addresses,
            final(self).instance_id == old(self).instance_id,
            final(self).unknown_fields == old(self).unknown_fields,
    {
        &mut self.id
    }

    /// Takes the id out, leaving an empty one.
    pub fn take_id(&mut self) -> (res: Vec<u8>)
        ensures
            res == old(self).id,
            final(self).id@ == Seq::<u8>::empty(),
            final(self).addresses == old(self).addresses,
            final(self).instance_id == old(self).instance_id,
            final(self).unknown_fields == old(self).unknown_fields,
    {
        let mut v = Vec::new();
        std::mem::swap(&mut v, &mut self.id);
        v
    }

    pub fn get_addresses(&self) -> (res: &[String])
        ensures
            res@ == self.addresses@,
    {
        self.addresses.as_slice()
    }

    pub fn clear_addresses(&mut self)
        ensures
            final(self).addresses@ == Seq::<String>::empty(),
            final(self).id == old(self).id,
            final(self).instance_id == old(self).instance_id,
            final(self).unknown_fields == old(self).unknown_fields,
    {
        self.addresses.clear();
    }

    pub fn set_addresses(&mut self, v: Vec<String>)
        ensures
            final(self).addresses == v,
            final(self).id == old(self).id,
            final(self).instance_id == old(self).instance_id,
            final(self).unknown_fields == old(self).unknown_fields,
    {
        self.addresses = v;
    }

    /// The addresses, to be changed in place.
    pub fn mut_addresses(&mut self) -> (res: &mut Vec<String>)
        ensures
            *res == old(self).addresses,
            final(self).addresses == *final(res),
            final(self).id == old(self).id,
            final(self).instance_id == old(self).instance_id,
            final(self).unknown_fields == old(self).unknown_fields,
    {
        &mut self.addresses
    }

    /// Takes the addresses out, leaving none.
    pub fn take_addresses(&mut self) -> (res: Vec<String>)
        ensures
            res == old(self).addresses,
            final(self).addresses@ == Seq::<String>::empty(),
            final(self).id == old(self).id,
            final(self).instance_id == old(self).instance_id,
            final(self).unknown_fields == old(self).unknown_fields,
    {
        let mut v = Vec::new();
        std::mem::swap(&mut v, &mut self.addresses);
        v
    }

    pub fn get_instance_id(&self) -> (res: i64)
        ensures
            res == self.instance_id,
    {
        self.instance_id
    }

    pub fn clear_instance_id(&mut self)
        ensures
            final(self).instance_id == 0,
            final(self).id == old(self).id,
            final(self).addresses == old(self).addresses,
            final(self).unknown_fields == old(self).unknown_fields,
    {
        self.instance_id = 0;
    }

    pub fn set_instance_id(&mut self, v: i64)
        ensures
            final(self).instance_id == v,
            final(self).id == old(self).id,
            final(self).addresses == old(self).addresses,
            final(self).unknown_fields == old(self).unknown_fields,
    {
        self.instance_id = v;
    }
}

/// The fields of an announcement: id, addresses, instance id, and the bytes
/// of the fields of other numbers.
pub type AnnounceView = (Seq<u8>, Seq<Seq<char>>, i64, Seq<u8>);

impl View for Announce {
    type V = AnnounceView;

    open spec fn view(&self) -> AnnounceView {
        (self.id@, self.addresses@.map_values(|a: String| a@), self.instance_id, self.unknown_fields@)
    }
}

/// One length-delimited field of tag 2 per address, in order.
pub open spec fn spec_addresses_bytes(addrs: Seq<Seq<char>>) -> Seq<u8>
    decreases addrs.len(),
{
    if addrs.len() == 0 {
        Seq::empty()
    } else {
        spec_ld_field(2, encode_utf8(addrs[0])) + spec_addresses_bytes(addrs.drop_first())
    }
}

/// The protobuf encoding of an announcement: the id unless empty, every
/// address, the instance id unless 0, then the fields of other numbers.
pub open spec fn spec_announce_bytes(a: AnnounceView) -> Seq<u8> {
    (if a.0.len() == 0 {
        Seq::empty()
    } else {
        spec_ld_field(1, a.0)
    }) + spec_addresses_bytes(a.1) + (if a.2 == 0 {
        Seq::empty()
    } else {
        spec_varint_field(3, (a.2 as u64) as nat)
    }) + a.3
}

/// `u` is a run of well-formed fields, none of number 1, 2 or 3 and none a
/// group: fields that decoding keeps as they are.
pub open spec fn spec_unknown_only(u: Seq<u8>) -> bool
    decreases u.len(),
{
    if u.len() == 0 {
        true
    } else {
        match spec_key(u) {
            None => false,
            Some((tag, wt, n)) => if n < 1 || n > u.len() || tag == 1 || tag == 2 || tag == 3
                || wt == 3 {
                false
            } else {
                match spec_skip_field(wt, tag, u.skip(n as int), spec_recursion_limit()) {
                    None => false,
                    Some(m) => if m > u.len() - n {
                        false
                    } else {
                        spec_unknown_only(u.skip(n as int).skip(m as int))
                    },
                }
            },
        }
    }
}

/// Reads the fields of `b` into `a`: field 1 replaces the id, each field 2
/// appends an address, field 3 replaces the instance id, a group of another
/// number is skipped and any other field is kept, key and value, after the
/// fields kept before; malformed input, or an address that is not UTF-8,
/// gives `None`.
pub open spec fn spec_announce_merge(a: AnnounceView, b: Seq<u8>) -> Option<AnnounceView>
    decreases b.len(),
{
    if b.len() == 0 {
        Some(a)
    } else {
        match spec_key(b) {
            None => None,
            Some((tag, wt, n)) => if n < 1 || n > b.len() {
                None
            } else {
                let rest = b.skip(n as int);
                if tag == 1 || tag == 2 {
                    if wt != 2 {
                        None
                    } else {
                        match spec_ld_value(rest) {
                            None => None,
                            Some((data, m)) => if m > rest.len() {
                                None
                            } else if tag == 1 {
                                spec_announce_merge((data, a.1, a.2, a.3), rest.skip(m as int))
                            } else if !valid_utf8(data) {
                                None
                            } else {
                                spec_announce_merge(
                                    (a.0, a.1.push(decode_utf8(data)), a.2, a.3),
                                    rest.skip(m as int),
                                )
                            },
                        }
                    }
                } else if tag == 3 {
                    if wt != 0 {
                        None
                    } else {
                        match spec_varint(rest) {
                            None => None,
                            Some((v, m)) => if m > rest.len() {
                                None
                            } else {
                                spec_announce_merge((a.0, a.1, v as i64, a.3), rest.skip(m as int))
                            },
                        }
                    }
                } else {
                    match spec_skip_field(wt, tag, rest, spec_recursion_limit()) {
                        None => None,
                        Some(m) => if m > rest.len() {
                            None
                        } else if wt == 3 {
                            spec_announce_merge(a, rest.skip(m as int))
                        } else {
                            spec_announce_merge(
                                (a.0, a.1, a.2, a.3 + b.subrange(0, (n + m) as int)),
                                rest.skip(m as int),
                            )
                        },
                    }
                }
            },
        }
    }
}

/// The announcement that the bytes `b` encode, if they encode one.
pub open spec fn spec_announce_decode(b: Seq<u8>) -> Option<AnnounceView> {
    spec_announce_merge((Seq::empty(), Seq::empty(), 0, Seq::empty()), b)
}

proof fn lemma_addresses_bytes_push(addrs: Seq<Seq<char>>, x: Seq<char>)
    ensures
        spec_addresses_bytes(addrs.push(x)) == spec_addresses_bytes(addrs) + spec_ld_field(
            2,
            encode_utf8(x),
        ),
    decreases addrs.len(),
{
    if addrs.len() == 0 {
        let one = addrs.push(x);
        assert(one.drop_first() =~= Seq::<Seq<char>>::empty());
        assert(one[0] == x);
        assert(spec_addresses_bytes(Seq::<Seq<char>>::empty()) =~= Seq::<u8>::empty());
        assert(spec_addresses_bytes(one) =~= spec_ld_field(2, encode_utf8(x)) + Seq::<u8>::empty());
        assert(spec_addresses_bytes(addrs) + spec_ld_field(2, encode_utf8(x)) =~= spec_ld_field(
            2,
            encode_utf8(x),
        ));
    } else {
        assert(addrs.push(x).drop_first() =~= addrs.drop_first().push(x));
        lemma_addresses_bytes_push(addrs.drop_first(), x);
        assert(addrs.push(x)[0] == addrs[0]);
    }
}

impl Announce {
    /// Clears every field.
    pub fn clear(&mut self)
        ensures
            final(self).id@ == Seq::<u8>::empty(),
            final(self).addresses@ == Seq::<String>::empty(),
            final(self).instance_id == 0,
            final(self).unknown_fields@ == Seq::<u8>::empty(),
    {
        self.id.clear();
        self.addresses.clear();
        self.instance_id = 0;
        self.unknown_fields.clear();
    }

    /// Appends the protobuf encoding of the announcement to `buf`.
    pub fn encode(&self, buf: &mut Vec<u8>)
        ensures
            final(buf)@ == old(buf)@ + spec_announce_bytes(self@),
    {
        let ghost start = buf@;
        if self.id.len() != 0 {
            put_ld_field(buf, 1, self.id.as_slice());
        }
        let ghost id_part = buf@;
        let ghost addrs = self@.1;
        let mut i: usize = 0;
        while i < self.addresses.len()
            invariant
                i <= self.addresses@.len(),
                addrs == self.addresses@.map_values(|a: String| a@),
                buf@ == id_part + spec_addresses_bytes(addrs.subrange(0, i as int)),
            decreases self.addresses@.len() - i,
        {
            let bytes = string_bytes(&self.addresses[i]);
            put_ld_field(buf, 2, bytes);
            proof {
                assert(addrs.subrange(0, i + 1) =~= addrs.subrange(0, i as int).push(addrs[i as int]));
                lemma_addresses_bytes_push(addrs.subrange(0, i as int), addrs[i as int]);
            }
            i = i + 1;
        }
        assert(addrs.subrange(0, addrs.len() as int) =~= addrs);
        if self.instance_id != 0 {
            put_varint_field(buf, 3, self.instance_id as u64);
        }
        put_slice(buf, self.unknown_fields.as_slice());
        assert(buf@ =~= start + spec_announce_bytes(self@));
    }

    /// Number of bytes of the announcement's encoding.
    pub fn encoded_len(&self) -> (res: usize)
        requires
            spec_announce_bytes(self@).len() <= usize::MAX,
        ensures
            res == spec_announce_bytes(self@).len(),
    {
        let mut buf: Vec<u8> = Vec::new();
        self.encode(&mut buf);
        buf.len()
    }

    /// Decodes an announcement from its protobuf encoding.
    pub fn decode(b: &[u8]) -> (res: Result<Announce, DecodeError>)
        ensures
            match spec_announce_decode(b@) {
                Some(a) => res matches Ok(ann) && ann@ == a,
                None => res == Err::<Announce, DecodeError>(DecodeError),
            },
            res matches Ok(ann) ==> spec_announce_decodable(ann@),
    {
        let mut ann = Announce::new();
        assert(ann@ == (Seq::<u8>::empty(), Seq::<Seq<char>>::empty(), 0i64, Seq::<u8>::empty())) by {
            assert(ann.addresses@.map_values(|a: String| a@) =~= Seq::<Seq<char>>::empty());
        }
        let mut rest = b;
        while rest.len() > 0
            invariant
                spec_announce_merge(ann@, rest@) == spec_announce_decode(b@),
            decreases rest@.len(),
        {
            let (tag, wt, n) = match decode_key(rest) {
                Some(k) => k,
                None => {
                    return Err(DecodeError);
                },
            };
            let after_key = &rest[n..rest.len()];
            assert(after_key@ == rest@.skip(n as int));
            if tag == 1 || tag == 2 {
                if wt != 2 {
                    return Err(DecodeError);
                }
                let (data, m) = match decode_ld_value(after_key) {
                    Some(x) => x,
                    None => {
                        return Err(DecodeError);
                    },
                };
                if tag == 1 {
                    ann.id = crate::protos::wire::copy_bytes(data);
                } else {
                    let s = match string_from_bytes(data) {
                        Some(s) => s,
                        None => {
                            return Err(DecodeError);
                        },
                    };
                    let ghost before = ann.addresses@;
                    ann.addresses.push(s);
                    assert(ann.addresses@.map_values(|a: String| a@) =~= before.map_values(
                        |a: String| a@,
                    ).push(decode_utf8(data@)));
                }
                let next = &after_key[m..after_key.len()];
                assert(next@ == after_key@.skip(m as int));
                rest = next;
            } else if tag == 3 {
                if wt != 0 {
                    return Err(DecodeError);
                }
                let (v, m) = match decode_varint(after_key) {
                    Some(x) => x,
                    None => {
                        return Err(DecodeError);
                    },
                };
                ann.instance_id = v as i64;
                let next = &after_key[m..after_key.len()];
                assert(next@ == after_key@.skip(m as int));
                rest = next;
            } else {
                let m = match skip_field(wt, tag, after_key, 100) {
                    Some(m) => m,
                    None => {
                        return Err(DecodeError);
                    },
                };
                if wt != 3 {
                    let ghost before = ann.unknown_fields@;
                    put_slice(&mut ann.unknown_fields, &rest[0..n + m]);
                    assert(ann.unknown_fields@ =~= before + rest@.subrange(0, n + m));
                }
                let next = &after_key[m..after_key.len()];
                assert(next@ == after_key@.skip(m as int));
                rest = next;
            }
        }
        proof {
            lemma_announce_reencode(b@);
        }
        Ok(ann)
    }
}

proof fn lemma_merge_addresses(a: AnnounceView, addrs: Seq<Seq<char>>, rest: Seq<u8>)
    requires
        forall|i: int| 0 <= i < addrs.len() ==> #[trigger] encode_utf8(addrs[i]).len() <= u64::MAX,
    ensures
        spec_announce_merge(a, spec_addresses_bytes(addrs) + rest) == spec_announce_merge(
            (a.0, a.1 + addrs, a.2, a.3),
            rest,
        ),
    decreases addrs.len(),
{
    if addrs.len() == 0 {
        assert(spec_addresses_bytes(addrs) + rest =~= rest);
        assert(a.1 + addrs =~= a.1);
    } else {
        let x = addrs[0];
        let tail = addrs.drop_first();
        let data = encode_utf8(x);
        assert(encode_utf8(addrs[0]).len() <= u64::MAX);
        let later = spec_addresses_bytes(tail) + rest;
        assert(spec_addresses_bytes(addrs) + rest =~= spec_ld_field(2, data) + later);
        lemma_ld_field_read(2, data, later);
        encode_utf8_valid_utf8(x);
        encode_utf8_decode_utf8(x);
        assert forall|i: int| 0 <= i < tail.len() implies #[trigger] encode_utf8(tail[i]).len()
            <= u64::MAX by {
            assert(tail[i] == addrs[i + 1]);
        }
        lemma_merge_addresses((a.0, a.1.push(x), a.2, a.3), tail, rest);
        assert(a.1.push(x) + tail =~= a.1 + addrs);
    }
}

/// Fields kept as they are are appended, as they are, to the fields kept
/// before.
proof fn lemma_merge_unknown(a: AnnounceView, u: Seq<u8>)
    requires
        spec_unknown_only(u),
    ensures
        spec_announce_merge(a, u) == Some((a.0, a.1, a.2, a.3 + u)),
    decreases u.len(),
{
    if u.len() == 0 {
        assert(a.3 + u =~= a.3);
    } else {
        let (tag, wt, n) = spec_key(u)->Some_0;
        let rest = u.skip(n as int);
        let m = spec_skip_field(wt, tag, rest, spec_recursion_limit())->Some_0;
        let next = rest.skip(m as int);
        let a2 = (a.0, a.1, a.2, a.3 + u.subrange(0, (n + m) as int));
        lemma_merge_unknown(a2, next);
        assert(a.3 + u.subrange(0, (n + m) as int) + next =~= a.3 + u);
    }
}

/// Decoding the encoding of an announcement gives back the announcement,
/// the fields of other numbers included when they are well-formed fields,
/// none a group.
pub proof fn lemma_announce_roundtrip(a: AnnounceView)
    requires
        a.0.len() <= u64::MAX,
        forall|i: int| 0 <= i < a.1.len() ==> #[trigger] encode_utf8(a.1[i]).len() <= u64::MAX,
        spec_unknown_only(a.3),
    ensures
        spec_announce_decode(spec_announce_bytes(a)) == Some(a),
{
    let e: Seq<Seq<char>> = Seq::empty();
    let z: Seq<u8> = Seq::empty();
    let u = a.3;
    let f1 = if a.0.len() == 0 {
        Seq::<u8>::empty()
    } else {
        spec_ld_field(1, a.0)
    };
    let f2 = spec_addresses_bytes(a.1);
    let f3 = if a.2 == 0 {
        Seq::<u8>::empty()
    } else {
        spec_varint_field(3, (a.2 as u64) as nat)
    };
    assert(spec_announce_bytes(a) =~= f1 + (f2 + (f3 + u)));
    let a0: AnnounceView = (Seq::empty(), e, 0, z);
    let a1: AnnounceView = (a.0, e, 0, z);
    if a.0.len() > 0 {
        lemma_ld_field_read(1, a.0, f2 + (f3 + u));
    } else {
        assert(f1 + (f2 + (f3 + u)) =~= f2 + (f3 + u));
        assert(a.0 =~= Seq::<u8>::empty());
    }
    assert(spec_announce_merge(a0, f1 + (f2 + (f3 + u))) == spec_announce_merge(a1, f2 + (f3 + u)));
    lemma_merge_addresses(a1, a.1, f3 + u);
    assert(e + a.1 =~= a.1);
    let a2: AnnounceView = (a.0, a.1, 0, z);
    assert((a1.0, a1.1 + a.1, a1.2, a1.3) == a2);
    assert(spec_announce_merge(a1, f2 + (f3 + u)) == spec_announce_merge(a2, f3 + u));
    let a3: AnnounceView = (a.0, a.1, a.2, z);
    if a.2 == 0 {
        assert(f3 + u =~= u);
        assert(a2 == a3);
    } else {
        lemma_leb128_len((a.2 as u64) as nat);
        lemma_varint_field_read(3, (a.2 as u64) as nat, u);
        let inst: i64 = a.2;
        assert(((inst as u64) as i64) == inst) by (bit_vector);
        let b3 = f3 + u;
        let after = b3.skip(1);
        assert(spec_announce_merge(a2, b3) == spec_announce_merge(
            (a.0, a.1, ((a.2 as u64) as nat) as i64, z),
            after.skip(spec_leb128((a.2 as u64) as nat).len() as int),
        ));
        assert(((a.2 as u64) as nat) as i64 == a.2);
    }
    assert(spec_announce_merge(a2, f3 + u) == spec_announce_merge(a3, u));
    lemma_merge_unknown(a3, u);
    assert(z + u =~= u);
}

/// Runs of kept fields can be joined.
proof fn lemma_unknown_only_concat(x: Seq<u8>, y: Seq<u8>)
    requires
        spec_unknown_only(x),
        spec_unknown_only(y),
    ensures
        spec_unknown_only(x + y),
    decreases x.len(),
{
    if x.len() == 0 {
        assert(x + y =~= y);
    } else {
        let xy = x + y;
        let (tag, wt, n) = spec_key(x)->Some_0;
        lemma_key_agree(x, xy);
        let rx = x.skip(n as int);
        let rxy = xy.skip(n as int);
        let m = spec_skip_field(wt, tag, rx, spec_recursion_limit())->Some_0;
        assert(spec_agree(rx, rxy, m as int));
        lemma_skip_field_agree(wt, tag, rx, rxy, spec_recursion_limit());
        let tail = rx.skip(m as int);
        lemma_unknown_only_concat(tail, y);
        assert(rxy.skip(m as int) =~= tail + y);
    }
}

/// One field of another number than 1, 2 and 3, not a group, read from the
/// start of `b`, is a run of kept fields by itself.
proof fn lemma_field_unknown_only(b: Seq<u8>)
    requires
        spec_key(b) is Some,
        ({
            let (tag, wt, n) = spec_key(b)->Some_0;
            &&& 1 <= n <= b.len()
            &&& tag != 1 && tag != 2 && tag != 3 && wt != 3
            &&& spec_skip_field(wt, tag, b.skip(n as int), spec_recursion_limit()) is Some
            &&& spec_skip_field(wt, tag, b.skip(n as int), spec_recursion_limit())->Some_0 <= b.len() - n
        }),
    ensures
        ({
            let (tag, wt, n) = spec_key(b)->Some_0;
            let m = spec_skip_field(wt, tag, b.skip(n as int), spec_recursion_limit())->Some_0;
            spec_unknown_only(b.subrange(0, (n + m) as int))
        }),
{
    let (tag, wt, n) = spec_key(b)->Some_0;
    let m = spec_skip_field(wt, tag, b.skip(n as int), spec_recursion_limit())->Some_0;
    let f = b.subrange(0, (n + m) as int);
    lemma_key_agree(b, f);
    let rb = b.skip(n as int);
    let rf = f.skip(n as int);
    assert(spec_agree(rb, rf, m as int));
    lemma_skip_field_agree(wt, tag, rb, rf, spec_recursion_limit());
    assert(rf.skip(m as int) =~= Seq::<u8>::empty());
    assert(spec_unknown_only(rf.skip(m as int)));
    assert(f.len() == n + m);
    assert(spec_key(f) == Some((tag, wt, n)));
    assert(spec_skip_field(wt, tag, rf, spec_recursion_limit()) == Some(m));
}

/// What decoding can produce: an id, addresses and kept fields short enough
/// for a length field, and kept fields that are well-formed, none a group.
pub open spec fn spec_announce_decodable(a: AnnounceView) -> bool {
    &&& a.0.len() <= u64::MAX
    &&& forall|i: int| 0 <= i < a.1.len() ==> #[trigger] encode_utf8(a.1[i]).len() <= u64::MAX
    &&& spec_unknown_only(a.3)
}

proof fn lemma_merge_decodable(a: AnnounceView, b: Seq<u8>)
    requires
        spec_announce_decodable(a),
        spec_announce_merge(a, b) is Some,
    ensures
        spec_announce_decodable(spec_announce_merge(a, b)->Some_0),
    decreases b.len(),
{
    if b.len() > 0 {
        let (tag, wt, n) = spec_key(b)->Some_0;
        let rest = b.skip(n as int);
        if tag == 1 || tag == 2 {
            let (data, m) = spec_ld_value(rest)->Some_0;
            lemma_varint_bounds(rest);
            let next = rest.skip(m as int);
            if tag == 1 {
                lemma_merge_decodable((data, a.1, a.2, a.3), next);
            } else {
                decode_utf8_encode_utf8(data);
                let a2 = (a.0, a.1.push(decode_utf8(data)), a.2, a.3);
                assert forall|i: int| 0 <= i < a2.1.len() implies #[trigger] encode_utf8(a2.1[i]).len()
                    <= u64::MAX by {
                    if i < a.1.len() {
                        assert(a2.1[i] == a.1[i]);
                    }
                }
                lemma_merge_decodable(a2, next);
            }
        } else if tag == 3 {
            let (v, m) = spec_varint(rest)->Some_0;
            lemma_merge_decodable((a.0, a.1, v as i64, a.3), rest.skip(m as int));
        } else {
            let m = spec_skip_field(wt, tag, rest, spec_recursion_limit())->Some_0;
            if wt == 3 {
                lemma_merge_decodable(a, rest.skip(m as int));
            } else {
                lemma_field_unknown_only(b);
                lemma_unknown_only_concat(a.3, b.subrange(0, (n + m) as int));
                lemma_merge_decodable(
                    (a.0, a.1, a.2, a.3 + b.subrange(0, (n + m) as int)),
                    rest.skip(m as int),
                );
            }
        }
    }
}

/// Whatever decodes as an announcement encodes to bytes that decode to the
/// same announcement, the fields of other numbers included.
pub proof fn lemma_announce_reencode(b: Seq<u8>)
    requires
        spec_announce_decode(b) is Some,
    ensures
        spec_announce_decodable(spec_announce_decode(b)->Some_0),
        spec_announce_decode(spec_announce_bytes(spec_announce_decode(b)->Some_0)) == spec_announce_decode(b),
{
    let a0: AnnounceView = (Seq::empty(), Seq::empty(), 0, Seq::empty());
    assert(spec_unknown_only(Seq::<u8>::empty()));
    lemma_merge_decodable(a0, b);
    lemma_announce_roundtrip(spec_announce_decode(b)->Some_0);
}

/// The serialized `FileDescriptorProto` of `local.proto`, which declares
/// `Announce` in the package `discover`.
pub const FILE_DESCRIPTOR_PROTO_DATA: [u8; 122] = [
    0x0a, 0x0b, 0x6c, 0x6f, 0x63, 0x61, 0x6c, 0x2e, 0x70, 0x72, 0x6f, 0x74, 0x6f, 0x12, 0x08, 0x64,
    0x69, 0x73, 0x63, 0x6f, 0x76, 0x65, 0x72, 0x22, 0x59, 0x0a, 0x08, 0x41, 0x6e, 0x6e, 0x6f, 0x75,
    0x6e, 0x63, 0x65, 0x12, 0x0e, 0x0a, 0x02, 0x69, 0x64, 0x18, 0x01, 0x20, 0x01, 0x28, 0x0c, 0x52,
    0x02, 0x69, 0x64, 0x12, 0x1c, 0x0a, 0x09, 0x61, 0x64, 0x64, 0x72, 0x65, 0x73, 0x73, 0x65, 0x73,
    0x18, 0x02, 0x20, 0x03, 0x28, 0x09, 0x52, 0x09, 0x61, 0x64, 0x64, 0x72, 0x65, 0x73, 0x73, 0x65,
    0x73, 0x12, 0x1f, 0x0a, 0x0b, 0x69, 0x6e, 0x73, 0x74, 0x61, 0x6e, 0x63, 0x65, 0x5f, 0x69, 0x64,
    0x18, 0x03, 0x20, 0x01, 0x28, 0x03, 0x52, 0x0a, 0x69, 0x6e, 0x73, 0x74, 0x61, 0x6e, 0x63, 0x65,
    0x49, 0x64, 0x62, 0x06, 0x70, 0x72, 0x6f, 0x74, 0x6f, 0x33,
];

#[verifier::external_type_specification]
#[verifier::external_body]
pub struct ExFileDescriptorProto(protobuf::descriptor::FileDescriptorProto);

/// Whether `protobuf` reads the bytes `data` as a `FileDescriptorProto`.
pub uninterp spec fn spec_descriptor_parses(data: Seq<u8>) -> bool;

/// `Message::parse_from_bytes` of `protobuf` for a `FileDescriptorProto`,
/// with its error mapped to `None`. The contract names whether parsing
/// succeeds as a function of the bytes; the descriptor itself is opaque.
#[verifier::external_body]
fn parse_file_descriptor(data: &[u8]) -> (res: Option<protobuf::descriptor::FileDescriptorProto>)
    ensures
        res is Some == spec_descriptor_parses(data@),
{
    <protobuf::descriptor::FileDescriptorProto as protobuf::Message>::parse_from_bytes(data).ok()
}

/// The descriptor of `local.proto`, read from its serialized form; `None`
/// if `protobuf` does not read it.
pub fn file_descriptor_proto() -> (res: Option<protobuf::descriptor::FileDescriptorProto>)
    ensures
        res is Some == spec_descriptor_parses(FILE_DESCRIPTOR_PROTO_DATA@),
{
    let data: [u8; 122] = FILE_DESCRIPTOR_PROTO_DATA;
    parse_file_descriptor(data.as_slice())
}

} // verus!
