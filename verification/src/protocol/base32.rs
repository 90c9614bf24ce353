//! The unpadded RFC 4648 BASE32 encoding, as computed by `data_encoding`.
use vstd::prelude::*;

use crate::protocol::luhn::{spec_codepoint32, spec_symbol32};

verus! {

/// Bit `i` of `data` read most significant bit first; bits past the end are 0.
pub open spec fn spec_bit(data: Seq<u8>, i: int) -> int {
    if 0 <= i && i / 8 < data.len() {
        ((data[i / 8] >> ((7 - i % 8) as u8)) & 1u8) as int
    } else {
        0
    }
}

/// The value of the `k`-th group of five bits of `data`.
pub open spec fn spec_digit(data: Seq<u8>, k: int) -> int {
    16 * spec_bit(data, 5 * k) + 8 * spec_bit(data, 5 * k + 1) + 4 * spec_bit(data, 5 * k + 2)
        + 2 * spec_bit(data, 5 * k + 3) + spec_bit(data, 5 * k + 4)
}

/// Number of symbols in the unpadded encoding of `n` bytes.
pub open spec fn spec_encoded_len(n: int) -> int {
    (8 * n + 4) / 5
}

/// Unpadded BASE32 (RFC 4648, alphabet `[A-Z2-7]`): one symbol per group of
/// five bits, the last group completed with zero bits.
pub open spec fn spec_base32_encode(data: Seq<u8>) -> Seq<u8> {
    Seq::new(spec_encoded_len(data.len() as int) as nat, |k: int| spec_symbol32(spec_digit(data, k)))
}

proof fn lemma_bit_range(x: u8, s: u8)
    ensures
        (x >> s) & 1u8 <= 1u8,
{
    assert((x >> s) & 1u8 <= 1u8) by (bit_vector);
}

/// Every group of five bits has a value below 32.
pub proof fn lemma_digit_range(data: Seq<u8>, k: int)
    ensures
        0 <= spec_digit(data, k) < 32,
{
    assert forall|i: int| 0 <= #[trigger] spec_bit(data, i) <= 1 by {
        if 0 <= i && i / 8 < data.len() {
            lemma_bit_range(data[i / 8], (7 - i % 8) as u8);
        }
    }
    assert(0 <= spec_bit(data, 5 * k) <= 1);
    assert(0 <= spec_bit(data, 5 * k + 1) <= 1);
    assert(0 <= spec_bit(data, 5 * k + 2) <= 1);
    assert(0 <= spec_bit(data, 5 * k + 3) <= 1);
    assert(0 <= spec_bit(data, 5 * k + 4) <= 1);
}

/// Every symbol of an encoding belongs to the BASE32 alphabet.
pub proof fn lemma_encode_symbols(data: Seq<u8>)
    ensures
        forall|k: int|
            0 <= k < spec_base32_encode(data).len() ==> #[trigger] spec_codepoint32(
                spec_base32_encode(data)[k],
            ) == Some(spec_digit(data, k) as u8),
{
    assert forall|k: int| 0 <= k < spec_base32_encode(data).len() implies #[trigger] spec_codepoint32(
        spec_base32_encode(data)[k],
    ) == Some(spec_digit(data, k) as u8) by {
        lemma_digit_range(data, k);
    }
}

/// `BASE32_NOPAD.encode` from `data_encoding`, returned as the bytes of its
/// ASCII output. The contract claims that the output is the unpadded RFC 4648
/// encoding of `data`, as the crate documents for `BASE32_NOPAD`; `encode_len`
/// asserts that the input is at most `usize::MAX / 512` bytes long.
#[verifier::external_body]
pub(crate) fn base32_nopad_encode(data: &[u8]) -> (res: Vec<u8>)
    requires
        data@.len() <= usize::MAX / 512,
    ensures
        res@ == spec_base32_encode(data@),
{
    data_encoding::BASE32_NOPAD.encode(data).into_bytes()
}

/// `BASE32_NOPAD.decode` from `data_encoding`, with its error mapped to `None`.
/// The contract claims the two properties that the crate documents for its
/// canonical encodings: decoding an encoding gives back the encoded bytes, and
/// whatever is decoded encodes back to the input (every other input is
/// rejected). `decode_len` asserts that the input is at most `usize::MAX / 8`
/// bytes long.
#[verifier::external_body]
pub(crate) fn base32_nopad_decode(text: &[u8]) -> (res: Option<Vec<u8>>)
    requires
        text@.len() <= usize::MAX / 8,
    ensures
        res is Some <== exists|b: Seq<u8>| #[trigger] spec_base32_encode(b) == text@,
        forall|b: Seq<u8>| #[trigger] spec_base32_encode(b) == text@ ==> res->0@ == b,
        res matches Some(v) ==> spec_base32_encode(v@) == text@,
{
    data_encoding::BASE32_NOPAD.decode(text).ok()
}

} // verus!
