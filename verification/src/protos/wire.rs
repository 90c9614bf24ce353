//! The protobuf wire format: LEB128 varints, field keys, and skipping fields.
use vstd::arithmetic::div_mod::{lemma_breakdown, lemma_div_denominator, lemma_fundamental_div_mod};
use vstd::prelude::*;

verus! {

/// `128^j`.
pub open spec fn spec_pow128(j: nat) -> nat
    decreases j,
{
    if j == 0 {
        1
    } else {
        128 * spec_pow128((j - 1) as nat)
    }
}

/// The value of the first `i` bytes of a varint: their low seven bits, least
/// significant group first; of a tenth byte only the lowest bit still fits in
/// 64 bits.
pub open spec fn spec_varint_value(b: Seq<u8>, i: nat) -> nat
    decreases i,
{
    if i == 0 {
        0
    } else if i <= 9 {
        spec_varint_value(b, (i - 1) as nat) + (b[i - 1] % 128) as nat * spec_pow128((i - 1) as nat)
    } else {
        spec_varint_value(b, 9) + (b[9] % 2) as nat * 0x8000_0000_0000_0000
    }
}

/// Index of the last byte of the varint that starts `b`, searching from `i`:
/// the first byte below 128 among the first ten bytes.
pub open spec fn spec_varint_end(b: Seq<u8>, i: nat) -> Option<nat>
    decreases 10 - i,
{
    if i >= 10 || i >= b.len() {
        None
    } else if b[i as int] < 128 {
        Some(i)
    } else {
        spec_varint_end(b, i + 1)
    }
}

/// The varint at the start of `b` and the number of its bytes, or `None`
/// when no byte among the first ten (or fewer, at the end of `b`) ends it.
pub open spec fn spec_varint(b: Seq<u8>) -> Option<(nat, nat)> {
    match spec_varint_end(b, 0) {
        Some(i) => Some((spec_varint_value(b, i + 1), i + 1)),
        None => None,
    }
}

/// The LEB128 encoding of `v`: seven bits per byte, least significant group
/// first, the high bit set on every byte but the last.
pub open spec fn spec_leb128(v: nat) -> Seq<u8>
    decreases v,
{
    if v < 128 {
        seq![v as u8]
    } else {
        seq![(v % 128 + 128) as u8] + spec_leb128(v / 128)
    }
}

/// A field key at the start of `b`: its tag, its wire type and the number of
/// its bytes. Keys above `u32::MAX`, wire types above 5 and tag 0 are refused.
pub open spec fn spec_key(b: Seq<u8>) -> Option<(nat, nat, nat)> {
    match spec_varint(b) {
        None => None,
        Some((key, n)) => if key > u32::MAX || key % 8 > 5 || key / 8 < 1 {
            None
        } else {
            Some((key / 8, key % 8, n))
        },
    }
}

/// Nesting limit of groups.
pub open spec fn spec_recursion_limit() -> nat {
    100
}

/// Number of bytes taken by the value of a field of wire type `wt` and tag
/// `tag` at the start of `b`, or `None` when the value is malformed, too short,
/// or nested `depth` groups deep.
pub open spec fn spec_skip_field(wt: nat, tag: nat, b: Seq<u8>, depth: nat) -> Option<nat>
    decreases b.len(), 1nat,
{
    if depth == 0 {
        None
    } else if wt == 0 {
        match spec_varint(b) {
            Some((_, n)) => Some(n),
            None => None,
        }
    } else if wt == 1 {
        if 8 <= b.len() {
            Some(8)
        } else {
            None
        }
    } else if wt == 2 {
        match spec_varint(b) {
            Some((len, n)) => if n + len <= b.len() {
                Some(n + len)
            } else {
                None
            },
            None => None,
        }
    } else if wt == 3 {
        spec_skip_group(tag, b, depth)
    } else if wt == 5 {
        if 4 <= b.len() {
            Some(4)
        } else {
            None
        }
    } else {
        None
    }
}

/// Number of bytes up to and including the end-group key of tag `tag`,
/// skipping the fields before it at one level deeper.
pub open spec fn spec_skip_group(tag: nat, b: Seq<u8>, depth: nat) -> Option<nat>
    decreases b.len(), 0nat,
{
    match spec_key(b) {
        None => None,
        Some((t, w, n)) => if n < 1 || n > b.len() {
            None
        } else if w == 4 {
            if t == tag {
                Some(n)
            } else {
                None
            }
        } else {
            match spec_skip_field(w, t, b.skip(n as int), (depth - 1) as nat) {
                None => None,
                Some(m) => if n + m > b.len() {
                    None
                } else {
                    match spec_skip_group(tag, b.skip((n + m) as int), depth) {
                        None => None,
                        Some(k) => Some(n + m + k),
                    }
                },
            }
        },
    }
}

/// Two byte strings that agree on their first `k` bytes.
pub open spec fn spec_agree(b: Seq<u8>, c: Seq<u8>, k: int) -> bool {
    &&& 0 <= k <= b.len()
    &&& k <= c.len()
    &&& forall|j: int| 0 <= j < k ==> #[trigger] b[j] == c[j]
}

/// A varint holds at most 64 bits and takes one to ten bytes of the input.
pub proof fn lemma_varint_bounds(b: Seq<u8>)
    ensures
        spec_varint(b) matches Some((v, n)) ==> v <= u64::MAX && 1 <= n <= 10 && n <= b.len(),
{
    lemma_varint_end_bounds(b, 0);
    if let Some(e) = spec_varint_end(b, 0) {
        lemma_pow128_bound(8);
        if e + 1 <= 9 {
            lemma_varint_value_bound(b, e + 1);
            if e + 1 <= 8 {
                lemma_pow128_bound(e + 1);
            }
        } else {
            lemma_varint_value_bound(b, 9);
        }
    }
}

proof fn lemma_varint_end_agree(b: Seq<u8>, c: Seq<u8>, i: nat)
    requires
        spec_varint_end(b, i) is Some,
        spec_agree(b, c, (spec_varint_end(b, i)->Some_0 + 1) as int),
    ensures
        spec_varint_end(c, i) == spec_varint_end(b, i),
    decreases 10 - i,
{
    lemma_varint_end_bounds(b, i);
    if b[i as int] >= 128 {
        lemma_varint_end_agree(b, c, i + 1);
    }
}

proof fn lemma_varint_value_agree(b: Seq<u8>, c: Seq<u8>, t: nat)
    requires
        spec_agree(b, c, if t <= 9 { t as int } else { 10 }),
    ensures
        spec_varint_value(c, t) == spec_varint_value(b, t),
    decreases t,
{
    if t > 9 {
        lemma_varint_value_agree(b, c, 9);
    } else if t > 0 {
        lemma_varint_value_agree(b, c, (t - 1) as nat);
    }
}

/// The varint at the start of `b` reads the same from any bytes that agree
/// with `b` as far as it goes.
pub proof fn lemma_varint_agree(b: Seq<u8>, c: Seq<u8>)
    requires
        spec_varint(b) is Some,
        spec_agree(b, c, spec_varint(b)->Some_0.1 as int),
    ensures
        spec_varint(c) == spec_varint(b),
{
    let e = spec_varint_end(b, 0)->Some_0;
    lemma_varint_end_bounds(b, 0);
    lemma_varint_end_agree(b, c, 0);
    lemma_varint_value_agree(b, c, e + 1);
}

/// The key at the start of `b` reads the same from any bytes that agree with
/// `b` as far as it goes.
pub proof fn lemma_key_agree(b: Seq<u8>, c: Seq<u8>)
    requires
        spec_key(b) is Some,
        spec_agree(b, c, spec_key(b)->Some_0.2 as int),
    ensures
        spec_key(c) == spec_key(b),
{
    lemma_varint_agree(b, c);
}

/// A field value other than a group is skipped the same in any bytes that
/// agree with `b` as far as it goes.
pub proof fn lemma_skip_field_agree(wt: nat, tag: nat, b: Seq<u8>, c: Seq<u8>, depth: nat)
    requires
        wt != 3,
        spec_skip_field(wt, tag, b, depth) is Some,
        spec_agree(b, c, spec_skip_field(wt, tag, b, depth)->Some_0 as int),
    ensures
        spec_skip_field(wt, tag, c, depth) == spec_skip_field(wt, tag, b, depth),
{
    if wt == 0 || wt == 2 {
        lemma_varint_bounds(b);
        lemma_varint_agree(b, c);
    }
}

/// A byte below 128 is a whole varint.
pub proof fn lemma_small_varint(b: Seq<u8>)
    requires
        b.len() >= 1,
        b[0] < 128,
    ensures
        spec_varint(b) == Some((b[0] as nat, 1nat)),
{
    assert(spec_varint_end(b, 0) == Some(0nat));
    assert(spec_varint_value(b, 0) == 0);
    assert(spec_pow128(0) == 1);
    assert(b[0] % 128 == b[0]);
    assert(spec_varint_value(b, 1) == spec_varint_value(b, 0) + (b[0] % 128) as nat * spec_pow128(
        0,
    ));
    assert((b[0] % 128) as nat * 1 == b[0] as nat);
}

proof fn lemma_varint_end_bounds(b: Seq<u8>, i: nat)
    ensures
        spec_varint_end(b, i) matches Some(j) ==> i <= j < 10 && j < b.len() && b[j as int] < 128,
        spec_varint_end(b, i) is None ==> forall|j: int|
            i <= j < 10 && j < b.len() ==> #[trigger] b[j] >= 128,
    decreases 10 - i,
{
    if !(i >= 10 || i >= b.len()) && b[i as int] >= 128 {
        lemma_varint_end_bounds(b, i + 1);
    }
}

proof fn lemma_pow128_bound(j: nat)
    ensures
        1 <= spec_pow128(j),
        j <= 8 ==> spec_pow128(j) <= 0x0100_0000_0000_0000nat,
        j <= 8 ==> spec_pow128(j + 1) == 128 * spec_pow128(j),
        spec_pow128(9) == 0x8000_0000_0000_0000nat,
    decreases j,
{
    if j > 0 {
        lemma_pow128_bound((j - 1) as nat);
    }
    assert(spec_pow128(0) == 1);
    assert(spec_pow128(1) == 128);
    assert(spec_pow128(2) == 128 * 128);
    assert(spec_pow128(3) == 128 * 128 * 128);
    assert(spec_pow128(4) == 0x1000_0000nat);
    assert(spec_pow128(5) == 0x8_0000_0000nat);
    assert(spec_pow128(6) == 0x400_0000_0000nat);
    assert(spec_pow128(7) == 0x2_0000_0000_0000nat);
    assert(spec_pow128(8) == 0x100_0000_0000_0000nat);
    assert(spec_pow128(9) == 0x8000_0000_0000_0000nat);
}

proof fn lemma_varint_value_bound(b: Seq<u8>, i: nat)
    requires
        i <= 9,
        i <= b.len(),
    ensures
        spec_varint_value(b, i) < spec_pow128(i),
    decreases i,
{
    if i > 0 {
        lemma_varint_value_bound(b, (i - 1) as nat);
        let p = spec_pow128((i - 1) as nat);
        assert((b[i - 1] % 128) as nat * p <= 127 * p) by (nonlinear_arith)
            requires
                (b[i - 1] % 128) as nat <= 127,
        ;
    }
}

/// Decodes the varint at the start of `b`: its value and the number of its bytes.
pub fn decode_varint(b: &[u8]) -> (res: Option<(u64, usize)>)
    ensures
        match spec_varint(b@) {
            Some((v, n)) => res == Some((v as u64, n as usize)) && 1 <= n <= 10 && n <= b@.len()
                && v <= u64::MAX,
            None => res is None,
        },
{
    let mut value: u64 = 0;
    let mut pow: u64 = 1;
    let mut count: usize = 0;
    proof {
        lemma_varint_end_bounds(b@, 0);
    }
    while count < 10 && count < b.len()
        invariant
            count <= 10,
            count <= b@.len(),
            forall|j: int| 0 <= j < count ==> #[trigger] b@[j] >= 128,
            spec_varint_end(b@, 0) == spec_varint_end(b@, count as nat),
            count <= 8 ==> pow == spec_pow128(count as nat),
            count <= 9 ==> value == spec_varint_value(b@, count as nat),
            count <= 9 ==> value < spec_pow128(count as nat),
        decreases 10 - count,
    {
        let byte = b[count];
        proof {
            lemma_pow128_bound(count as nat);
            if count <= 8 {
                lemma_pow128_bound((count + 1) as nat);
            }
        }
        if count < 9 {
            assert((byte % 128) as nat * pow <= 127 * pow) by (nonlinear_arith)
                requires
                    (byte % 128) as nat <= 127,
            ;
            value = value + (byte % 128) as u64 * pow;
            if count < 8 {
                pow = pow * 128;
            }
        } else {
            value = value + (byte % 2) as u64 * 0x8000_0000_0000_0000u64;
        }
        if byte < 128 {
            assert(spec_varint_end(b@, count as nat) == Some(count as nat));
            return Some((value, count + 1));
        }
        proof {
            assert(spec_varint_end(b@, count as nat) == spec_varint_end(b@, (count + 1) as nat));
        }
        count = count + 1;
    }
    None
}

/// Decodes the field key at the start of `b`: tag, wire type and length.
pub fn decode_key(b: &[u8]) -> (res: Option<(u32, u8, usize)>)
    ensures
        match spec_key(b@) {
            Some((t, w, n)) => res == Some((t as u32, w as u8, n as usize)) && 1 <= n <= b@.len(),
            None => res is None,
        },
{
    match decode_varint(b) {
        None => None,
        Some((key, n)) => {
            if key > 0xffff_ffffu64 || key % 8 > 5 || key / 8 < 1 {
                None
            } else {
                Some(((key / 8) as u32, (key % 8) as u8, n))
            }
        },
    }
}

/// Number of bytes taken by the value of a field of wire type `wt` and tag
/// `tag` at the start of `b`, skipping nested groups at most `depth` deep.
pub fn skip_field(wt: u8, tag: u32, b: &[u8], depth: u32) -> (res: Option<usize>)
    ensures
        match spec_skip_field(wt as nat, tag as nat, b@, depth as nat) {
            Some(n) => res == Some(n as usize) && n <= b@.len(),
            None => res is None,
        },
    decreases b@.len(), 1nat,
{
    if depth == 0 {
        None
    } else if wt == 0 {
        match decode_varint(b) {
            Some((_, n)) => Some(n),
            None => None,
        }
    } else if wt == 1 {
        if 8 <= b.len() {
            Some(8)
        } else {
            None
        }
    } else if wt == 2 {
        match decode_varint(b) {
            Some((len, n)) => {
                if len <= (b.len() - n) as u64 {
                    Some(n + len as usize)
                } else {
                    None
                }
            },
            None => None,
        }
    } else if wt == 3 {
        skip_group(tag, b, depth)
    } else if wt == 5 {
        if 4 <= b.len() {
            Some(4)
        } else {
            None
        }
    } else {
        None
    }
}

/// Number of bytes up to and including the end-group key of tag `tag`.
pub fn skip_group(tag: u32, b: &[u8], depth: u32) -> (res: Option<usize>)
    requires
        depth >= 1,
    ensures
        match spec_skip_group(tag as nat, b@, depth as nat) {
            Some(n) => res == Some(n as usize) && n <= b@.len(),
            None => res is None,
        },
    decreases b@.len(), 0nat,
{
    match decode_key(b) {
        None => None,
        Some((t, w, n)) => {
            if w == 4 {
                if t == tag {
                    Some(n)
                } else {
                    None
                }
            } else {
                let rest = &b[n..b.len()];
                assert(rest@ == b@.skip(n as int));
                match skip_field(w, t, rest, depth - 1) {
                    None => None,
                    Some(m) => {
                        let after = &b[n + m..b.len()];
                        assert(after@ == b@.skip((n + m) as int));
                        match skip_group(tag, after, depth) {
                            None => None,
                            Some(k) => Some(n + m + k),
                        }
                    },
                }
            }
        },
    }
}

/// Appends the LEB128 encoding of `v` to `buf`.
pub fn put_varint(buf: &mut Vec<u8>, v: u64)
    ensures
        final(buf)@ == old(buf)@ + spec_leb128(v as nat),
{
    let mut value = v;
    while value >= 128
        invariant
            buf@ + spec_leb128(value as nat) == old(buf)@ + spec_leb128(v as nat),
        decreases value,
    {
        let ghost before = buf@;
        buf.push((value % 128 + 128) as u8);
        assert(spec_leb128(value as nat) == seq![(value % 128 + 128) as u8] + spec_leb128(
            (value / 128) as nat,
        ));
        assert(buf@ + spec_leb128((value / 128) as nat) =~= before + spec_leb128(value as nat));
        value = value / 128;
    }
    buf.push(value as u8);
    assert(buf@ =~= old(buf)@ + spec_leb128(v as nat));
}

/// Number of bytes of the LEB128 encoding of `v`.
pub fn varint_len(v: u64) -> (res: usize)
    ensures
        res == spec_leb128(v as nat).len(),
        1 <= res <= 10,
{
    let mut value = v;
    let mut len: usize = 1;
    proof {
        lemma_leb128_len(v as nat);
    }
    while value >= 128
        invariant
            len + spec_leb128(value as nat).len() == 1 + spec_leb128(v as nat).len(),
            1 <= len <= 10,
            spec_leb128(v as nat).len() <= 10,
        decreases value,
    {
        proof {
            lemma_leb128_len(value as nat);
        }
        value = value / 128;
        len = len + 1;
    }
    len
}

pub proof fn lemma_leb128_len(v: nat)
    ensures
        1 <= spec_leb128(v).len(),
        v < 128 ==> spec_leb128(v).len() == 1,
        v >= 128 ==> spec_leb128(v).len() == 1 + spec_leb128(v / 128).len(),
        v <= u64::MAX ==> spec_leb128(v).len() <= 10,
    decreases v,
{
    if v >= 128 {
        lemma_leb128_len(v / 128);
    }
    if v <= u64::MAX {
        lemma_pow128_bound(9);
        assert(spec_pow128(10) == 128 * spec_pow128(9));
        lemma_leb128_len_bound(v, 10);
    }
}

proof fn lemma_leb128_len_bound(v: nat, k: nat)
    requires
        k >= 1,
        v < spec_pow128(k),
    ensures
        spec_leb128(v).len() <= k,
    decreases v,
{
    if v >= 128 {
        assert(k >= 2) by {
            if k == 1 {
                reveal_with_fuel(spec_pow128, 2);
            }
        }
        assert(v / 128 < spec_pow128((k - 1) as nat)) by {
            assert(spec_pow128(k) == 128 * spec_pow128((k - 1) as nat));
        }
        lemma_leb128_len_bound(v / 128, (k - 1) as nat);
    }
}

proof fn lemma_pow128_positive(j: nat)
    ensures
        spec_pow128(j) >= 1,
    decreases j,
{
    if j > 0 {
        lemma_pow128_positive((j - 1) as nat);
    }
}

/// The digits of the LEB128 encoding of `v`: byte `j` holds the `j`-th
/// base-128 digit of `v`, with the high bit set on all bytes but the last.
#[verifier::spinoff_prover]
#[verifier::rlimit(30)]
proof fn lemma_leb128_digits(v: nat)
    ensures
        spec_leb128(v).len() >= 1,
        v < spec_pow128(spec_leb128(v).len()),
        forall|j: int|
            0 <= j < spec_leb128(v).len() ==> #[trigger] spec_leb128(v)[j] % 128 == (v / spec_pow128(
                j as nat,
            )) % 128,
        forall|j: int| 0 <= j < spec_leb128(v).len() - 1 ==> #[trigger] spec_leb128(v)[j] >= 128,
        spec_leb128(v)[spec_leb128(v).len() - 1] < 128,
    decreases v,
{
    let e = spec_leb128(v);
    if v < 128 {
        assert(spec_pow128(0) == 1);
        assert(spec_pow128(1) == 128 * spec_pow128(0));
        assert(e[0] == v as u8);
        assert(e[0] % 128 == v % 128);
        assert(v / spec_pow128(0) == v);
    } else {
        let w = v / 128;
        let t = spec_leb128(w);
        lemma_leb128_digits(w);
        assert(e == seq![(v % 128 + 128) as u8] + t);
        assert(spec_pow128(e.len() as nat) == 128 * spec_pow128(t.len() as nat));
        assert(v < spec_pow128(e.len() as nat)) by {
            lemma_fundamental_div_mod(v as int, 128);
            assert(w + 1 <= spec_pow128(t.len() as nat));
            assert(v < 128 * (w + 1));
            assert(128 * (w + 1) <= 128 * spec_pow128(t.len() as nat)) by (nonlinear_arith)
                requires
                    w + 1 <= spec_pow128(t.len() as nat),
            ;
        }
        assert forall|j: int| 0 <= j < e.len() implies #[trigger] e[j] % 128 == (v / spec_pow128(
            j as nat,
        )) % 128 by {
            if j == 0 {
                assert(spec_pow128(0) == 1);
            } else {
                assert(e[j] == t[j - 1]);
                lemma_pow128_positive((j - 1) as nat);
                lemma_div_denominator(v as int, 128, spec_pow128((j - 1) as nat) as int);
                assert(spec_pow128(j as nat) == 128 * spec_pow128((j - 1) as nat));
            }
        }
        assert forall|j: int| 0 <= j < e.len() - 1 implies #[trigger] e[j] >= 128 by {
            if j > 0 {
                assert(e[j] == t[j - 1]);
            }
        }
        assert(e[e.len() - 1] == t[t.len() - 1]);
    }
}

proof fn lemma_varint_end_at(b: Seq<u8>, e: nat, k: nat)
    requires
        k <= e < 10,
        e < b.len(),
        forall|j: int| 0 <= j < e ==> #[trigger] b[j] >= 128,
        b[e as int] < 128,
    ensures
        spec_varint_end(b, k) == Some(e),
    decreases e - k,
{
    if k < e {
        lemma_varint_end_at(b, e, k + 1);
    }
}

proof fn lemma_varint_value_mod(b: Seq<u8>, v: nat, i: nat)
    requires
        i <= 9,
        i <= b.len(),
        forall|j: int| 0 <= j < i ==> #[trigger] b[j] % 128 == (v / spec_pow128(j as nat)) % 128,
    ensures
        spec_varint_value(b, i) == v % spec_pow128(i),
    decreases i,
{
    lemma_pow128_positive(i);
    if i == 0 {
        assert(spec_pow128(0) == 1);
    } else {
        let k = (i - 1) as nat;
        lemma_varint_value_mod(b, v, k);
        lemma_pow128_positive(k);
        lemma_breakdown(v as int, spec_pow128(k) as int, 128);
        assert(spec_pow128(i) == spec_pow128(k) * 128);
        assert(b[k as int] % 128 == (v / spec_pow128(k)) % 128);
        assert(spec_varint_value(b, i) == spec_varint_value(b, k) + (b[k as int] % 128) as nat
            * spec_pow128(k));
        assert((b[k as int] % 128) as nat * spec_pow128(k) == spec_pow128(k) * ((v / spec_pow128(k))
            % 128)) by (nonlinear_arith)
            requires
                (b[k as int] % 128) as nat == (v / spec_pow128(k)) % 128,
        ;
    }
}

/// Decoding the LEB128 encoding of a 64-bit value gives back the value and
/// consumes exactly the encoding, whatever follows it.
pub proof fn lemma_varint_leb128(v: nat, rest: Seq<u8>)
    requires
        v <= u64::MAX,
    ensures
        spec_varint(spec_leb128(v) + rest) == Some((v, spec_leb128(v).len())),
{
    let e = spec_leb128(v);
    let b = e + rest;
    let len = e.len();
    lemma_leb128_digits(v);
    lemma_leb128_len(v);
    assert forall|j: int| 0 <= j < len - 1 implies #[trigger] b[j] >= 128 by {
        assert(b[j] == e[j]);
    }
    assert(b[len - 1] == e[len - 1]);
    lemma_varint_end_at(b, (len - 1) as nat, 0);
    lemma_pow128_bound(9);
    if len <= 9 {
        assert forall|j: int| 0 <= j < len implies #[trigger] b[j] % 128 == (v / spec_pow128(
            j as nat,
        )) % 128 by {
            assert(b[j] == e[j]);
        }
        lemma_varint_value_mod(b, v, len);
        lemma_pow128_positive(len);
        vstd::arithmetic::div_mod::lemma_small_mod(v, spec_pow128(len));
    } else {
        assert forall|j: int| 0 <= j < 9 implies #[trigger] b[j] % 128 == (v / spec_pow128(
            j as nat,
        )) % 128 by {
            assert(b[j] == e[j]);
        }
        lemma_varint_value_mod(b, v, 9);
        let p = spec_pow128(9);
        assert(p == 0x8000_0000_0000_0000nat);
        assert(v / p <= 1);
        assert(b[9] == e[9]);
        assert(b[9] % 128 == (v / p) % 128);
        assert(b[9] % 2 == v / p);
        lemma_fundamental_div_mod(v as int, p as int);
        assert(spec_varint_value(b, 10) == spec_varint_value(b, 9) + (b[9] % 2) as nat * p);
    }
}

/// A field of wire type `wt` and tag `tag`: its key.
pub open spec fn spec_key_bytes(tag: nat, wt: nat) -> Seq<u8> {
    spec_leb128(tag * 8 + wt)
}

/// A length-delimited field: key, length, bytes.
pub open spec fn spec_ld_field(tag: nat, data: Seq<u8>) -> Seq<u8> {
    spec_key_bytes(tag, 2) + spec_leb128(data.len()) + data
}

/// A varint field: key, value.
pub open spec fn spec_varint_field(tag: nat, v: nat) -> Seq<u8> {
    spec_key_bytes(tag, 0) + spec_leb128(v)
}

/// The bytes of a length-delimited value at the start of `b`, and how many
/// bytes the length and the value take; `None` when the length is malformed
/// or runs past the end of `b`.
pub open spec fn spec_ld_value(b: Seq<u8>) -> Option<(Seq<u8>, nat)> {
    match spec_varint(b) {
        None => None,
        Some((len, m)) => if m + len <= b.len() {
            Some((b.subrange(m as int, (m + len) as int), m + len))
        } else {
            None
        },
    }
}

/// A copy of `src`.
pub fn copy_bytes(src: &[u8]) -> (res: Vec<u8>)
    ensures
        res@ == src@,
{
    let mut res: Vec<u8> = Vec::new();
    let mut i: usize = 0;
    while i < src.len()
        invariant
            i <= src@.len(),
            res@ == src@.subrange(0, i as int),
        decreases src@.len() - i,
    {
        res.push(src[i]);
        i = i + 1;
        assert(res@ =~= src@.subrange(0, i as int));
    }
    assert(src@.subrange(0, src@.len() as int) =~= src@);
    res
}

/// `buf` followed by `bytes`.
pub fn put_slice(buf: &mut Vec<u8>, bytes: &[u8])
    ensures
        final(buf)@ == old(buf)@ + bytes@,
{
    let mut i: usize = 0;
    while i < bytes.len()
        invariant
            i <= bytes@.len(),
            buf@ == old(buf)@ + bytes@.subrange(0, i as int),
        decreases bytes@.len() - i,
    {
        buf.push(bytes[i]);
        i = i + 1;
        assert(buf@ =~= old(buf)@ + bytes@.subrange(0, i as int));
    }
    assert(bytes@.subrange(0, bytes@.len() as int) =~= bytes@);
}

/// Appends a length-delimited field.
pub fn put_ld_field(buf: &mut Vec<u8>, tag: u32, data: &[u8])
    requires
        1 <= tag < 0x2000_0000,
    ensures
        final(buf)@ == old(buf)@ + spec_ld_field(tag as nat, data@),
{
    put_varint(buf, (tag as u64) * 8 + 2);
    put_varint(buf, data.len() as u64);
    put_slice(buf, data);
    assert(buf@ =~= old(buf)@ + spec_ld_field(tag as nat, data@));
}

/// Appends a varint field.
pub fn put_varint_field(buf: &mut Vec<u8>, tag: u32, v: u64)
    requires
        1 <= tag < 0x2000_0000,
    ensures
        final(buf)@ == old(buf)@ + spec_varint_field(tag as nat, v as nat),
{
    put_varint(buf, (tag as u64) * 8);
    put_varint(buf, v);
    assert(buf@ =~= old(buf)@ + spec_varint_field(tag as nat, v as nat));
}

/// Reads a length-delimited value: its bytes and the number of bytes taken.
pub fn decode_ld_value(b: &[u8]) -> (res: Option<(&[u8], usize)>)
    ensures
        match spec_ld_value(b@) {
            Some((v, n)) => res matches Some((r, k)) && r@ == v && k == n && n <= b@.len(),
            None => res is None,
        },
{
    match decode_varint(b) {
        None => None,
        Some((len, m)) => {
            if len <= (b.len() - m) as u64 {
                let end = m + len as usize;
                Some((&b[m..end], end))
            } else {
                None
            }
        },
    }
}

/// A length-delimited field reads back: its key, then its bytes, whatever follows.
pub proof fn lemma_ld_field_read(tag: nat, data: Seq<u8>, rest: Seq<u8>)
    requires
        1 <= tag < 16,
        data.len() <= u64::MAX,
    ensures
        spec_key(spec_ld_field(tag, data) + rest) == Some((tag, 2nat, 1nat)),
        spec_ld_value((spec_ld_field(tag, data) + rest).skip(1)) == Some(
            (data, spec_leb128(data.len()).len() + data.len()),
        ),
        (spec_ld_field(tag, data) + rest).skip(1).skip(
            (spec_leb128(data.len()).len() + data.len()) as int,
        ) == rest,
{
    let k = spec_key_bytes(tag, 2);
    assert(k == seq![(tag * 8 + 2) as u8]);
    let b = spec_ld_field(tag, data) + rest;
    lemma_small_varint(b);
    let after = b.skip(1);
    let l = spec_leb128(data.len());
    assert(after =~= l + (data + rest));
    lemma_varint_leb128(data.len(), data + rest);
    assert((l + (data + rest)).subrange(l.len() as int, (l.len() + data.len()) as int) =~= data);
    assert(after.skip((l.len() + data.len()) as int) =~= rest);
}

/// A varint field with a small tag reads back: its key, then its value.
pub proof fn lemma_varint_field_read(tag: nat, v: nat, rest: Seq<u8>)
    requires
        1 <= tag < 16,
        v <= u64::MAX,
    ensures
        spec_key(spec_varint_field(tag, v) + rest) == Some((tag, 0nat, 1nat)),
        spec_varint((spec_varint_field(tag, v) + rest).skip(1)) == Some((v, spec_leb128(v).len())),
        (spec_varint_field(tag, v) + rest).skip(1).skip(spec_leb128(v).len() as int) == rest,
{
    let k = spec_key_bytes(tag, 0);
    assert(k == seq![(tag * 8) as u8]);
    let b = spec_varint_field(tag, v) + rest;
    lemma_small_varint(b);
    let after = b.skip(1);
    assert(after =~= spec_leb128(v) + rest);
    lemma_varint_leb128(v, rest);
    assert(after.skip(spec_leb128(v).len() as int) =~= rest);
}

/// `b` is a run of well-formed fields of any numbers, as every message
/// decoder requires before it looks at the fields it knows.
pub open spec fn spec_fields_valid(b: Seq<u8>) -> bool
    decreases b.len(),
{
    if b.len() == 0 {
        true
    } else {
        match spec_key(b) {
            None => false,
            Some((tag, wt, n)) => if n < 1 || n > b.len() {
                false
            } else {
                match spec_skip_field(wt, tag, b.skip(n as int), spec_recursion_limit()) {
                    None => false,
                    Some(m) => if m > b.len() - n {
                        false
                    } else {
                        spec_fields_valid(b.skip(n as int).skip(m as int))
                    },
                }
            },
        }
    }
}

/// Whether `b` is a run of well-formed fields.
pub fn fields_valid(b: &[u8]) -> (res: bool)
    ensures
        res == spec_fields_valid(b@),
{
    let mut rest = b;
    while rest.len() > 0
        invariant
            spec_fields_valid(rest@) == spec_fields_valid(b@),
        decreases rest@.len(),
    {
        let (tag, wt, n) = match decode_key(rest) {
            Some(k) => k,
            None => {
                return false;
            },
        };
        let after_key = &rest[n..rest.len()];
        assert(after_key@ == rest@.skip(n as int));
        let m = match skip_field(wt, tag, after_key, 100) {
            Some(m) => m,
            None => {
                return false;
            },
        };
        let next = &after_key[m..after_key.len()];
        assert(next@ == after_key@.skip(m as int));
        rest = next;
    }
    true
}

} // verus!
