//! Device ids written as text by cutting string slices into chunks: the
//! BASE32 encoding of the id, a Luhn-32 check character after every 13
//! characters, dashes between groups of 7.
use vstd::prelude::*;
use vstd::string::StringSliceAdditionalSpecFns;
use vstd::utf8::*;

use crate::digest::{sha256, spec_sha256};
use crate::luhn::{lemma_luhn_sum_ascii, luhn32, spec_luhn32_chars, LuhnError};
use crate::protocol::base32::{base32_nopad_encode, lemma_encode_symbols};
use crate::protocol::deviceid::{
    lemma_luhnify_symbols, spec_chunk, spec_chunkify, spec_dashed_chunks, spec_device_id_text,
    spec_luhnify_chunks,
};
use crate::protocol::luhn::{spec_codepoint32, spec_luhn_sum};
use crate::text::{
    ascii_string, lemma_ascii_utf8, lemma_encode_utf8_concat,
    spec_ascii_chars, spec_is_ascii_bytes, string_push,
};

verus! {

/// Every multiple of `size` up to the end of `bytes` is a character boundary.
pub open spec fn spec_splits_evenly(bytes: Seq<u8>, size: int) -> bool {
    forall|k: int| 0 <= k && size * k <= bytes.len() ==> #[trigger] is_char_boundary(bytes, size * k)
}

/// The characters of the `j`-th chunk of `size` bytes of `bytes`.
pub open spec fn spec_chunk_chars(bytes: Seq<u8>, size: int, j: int) -> Seq<char> {
    decode_utf8(spec_chunk(bytes, size, j))
}

/// The characters of the first `k` chunks of 13 bytes of `bytes`, each
/// followed by its check character, or the first character that is not a
/// BASE32 symbol.
pub open spec fn spec_luhnify_str_chunks(bytes: Seq<u8>, k: nat) -> Result<Seq<char>, char>
    decreases k,
{
    if k == 0 {
        Ok(Seq::empty())
    } else {
        match spec_luhnify_str_chunks(bytes, (k - 1) as nat) {
            Err(c) => Err(c),
            Ok(done) => {
                let chunk = spec_chunk_chars(bytes, 13, k - 1);
                match spec_luhn32_chars(chunk) {
                    Err(c) => Err(c),
                    Ok(check) => Ok(done + chunk.push(check)),
                }
            },
        }
    }
}

/// Successive chunks of `size` bytes of a string slice; a last piece shorter
/// than `size` is never handed out.
pub struct ChunkedStr<'a> {
    size: usize,
    remaining: &'a str,
}

impl<'a> ChunkedStr<'a> {
    /// The size of the chunks, in bytes.
    pub closed spec fn chunk_size(&self) -> nat {
        self.size as nat
    }

    /// The bytes not handed out yet.
    pub closed spec fn rest(&self) -> Seq<u8> {
        self.remaining.spec_bytes()
    }

    /// The next chunk, or `None` once fewer than `size` bytes remain. The
    /// chunk must end on a character boundary.
    pub fn next(&mut self) -> (res: Option<&'a str>)
        requires
            old(self).rest().len() >= old(self).chunk_size() ==> is_char_boundary(
                old(self).rest(),
                old(self).chunk_size() as int,
            ),
        ensures
            final(self).chunk_size() == old(self).chunk_size(),
            old(self).rest().len() < old(self).chunk_size() ==> res is None && final(self).rest()
                == old(self).rest(),
            old(self).rest().len() >= old(self).chunk_size() ==> (res matches Some(c) && c.spec_bytes()
                == old(self).rest().subrange(0, old(self).chunk_size() as int) && final(self).rest()
                == old(self).rest().skip(old(self).chunk_size() as int)),
    {
        let len = self.remaining.as_bytes().len();
        if len < self.size {
            None
        } else {
            let (chunk, remaining) = self.remaining.split_at(self.size);
            self.remaining = remaining;
            Some(chunk)
        }
    }
}

/// The chunks of `size` bytes of `s`.
pub fn chunk_str<'a>(s: &'a str, size: usize) -> (res: ChunkedStr<'a>)
    ensures
        res.chunk_size() == size,
        res.rest() == s.spec_bytes(),
{
    ChunkedStr { size, remaining: s }
}

/// Where the chunks of a string that splits evenly end, the rest of the
/// string splits too.
proof fn lemma_next_chunk_boundary(bytes: Seq<u8>, size: int, k: int)
    requires
        valid_utf8(bytes),
        spec_splits_evenly(bytes, size),
        0 <= k,
        0 < size,
        size * (k + 1) <= bytes.len(),
    ensures
        is_char_boundary(bytes.skip(size * k), size),
{
    assert(size * (k + 1) == size * k + size) by (nonlinear_arith);
    assert(0 <= size * k) by (nonlinear_arith)
        requires
            0 <= k,
            0 < size,
    ;
    let j = size * k;
    assert(is_char_boundary(bytes, size * k));
    assert(is_char_boundary(bytes, size * (k + 1)));
    valid_utf8_split(bytes, j);
    let t = bytes.skip(j);
    assert(t =~= bytes.subrange(j, bytes.len() as int));
    if size == t.len() {
        is_char_boundary_start_end_of_seq(t);
    } else {
        is_char_boundary_iff_not_is_continuation_byte(t, size);
        is_char_boundary_iff_not_is_continuation_byte(bytes, j + size);
        assert(t[size] == bytes[j + size]);
    }
}

/// Every position of ASCII bytes is a character boundary.
proof fn lemma_ascii_splits_evenly(bytes: Seq<u8>, size: int)
    requires
        spec_is_ascii_bytes(bytes),
        0 < size,
    ensures
        valid_utf8(bytes),
        spec_splits_evenly(bytes, size),
{
    lemma_ascii_utf8(bytes);
    assert forall|k: int| 0 <= k && size * k <= bytes.len() implies #[trigger] is_char_boundary(
        bytes,
        size * k,
    ) by {
        let i = size * k;
        assert(0 <= i) by (nonlinear_arith)
            requires
                0 <= k,
                0 < size,
                i == size * k,
        ;
        if i == bytes.len() {
            is_char_boundary_start_end_of_seq(bytes);
        } else {
            is_char_boundary_iff_not_is_continuation_byte(bytes, i);
            assert(bytes[i] < 128);
        }
    }
}

/// Once a chunk is rejected, every longer run of chunks is rejected for the
/// same character.
proof fn lemma_luhnify_str_error_persists(bytes: Seq<u8>, k: nat, n: nat)
    requires
        k <= n,
        spec_luhnify_str_chunks(bytes, k) is Err,
    ensures
        spec_luhnify_str_chunks(bytes, n) == spec_luhnify_str_chunks(bytes, k),
    decreases n - k,
{
    if k < n {
        lemma_luhnify_str_error_persists(bytes, k, (n - 1) as nat);
    }
}

/// Every whole chunk of 13 bytes of the 52-byte string `s`, followed by its
/// Luhn-32 check character, or the first character that is not a BASE32
/// symbol. The chunks must end on character boundaries.
pub fn luhnify(s: &str) -> (res: Result<String, LuhnError>)
    requires
        s.spec_bytes().len() == 52,
        spec_splits_evenly(s.spec_bytes(), 13),
    ensures
        match spec_luhnify_str_chunks(s.spec_bytes(), 4) {
            Ok(t) => res matches Ok(r) && r@ == t,
            Err(c) => res == Err::<String, LuhnError>(LuhnError::InvalidCharacter(c)),
        },
{
    let ghost b = s.spec_bytes();
    proof {
        encode_utf8_valid_utf8(s@);
    }
    let mut res = String::new();
    let mut chunks = chunk_str(s, 13);
    let ghost mut k: nat = 0;
    loop
        invariant
            b == s.spec_bytes(),
            b.len() == 52,
            valid_utf8(b),
            spec_splits_evenly(b, 13),
            chunks.chunk_size() == 13,
            k <= 4,
            chunks.rest() == b.skip(13 * k as int),
            spec_luhnify_str_chunks(b, k) == Ok::<Seq<char>, char>(res@),
        ensures
            spec_luhnify_str_chunks(b, 4) == Ok::<Seq<char>, char>(res@),
        decreases 52 - 13 * k,
    {
        proof {
            if 13 * k + 13 <= 52 {
                lemma_next_chunk_boundary(b, 13, k as int);
            }
        }
        match chunks.next() {
            None => {
                break;
            },
            Some(chunk) => {
                assert(chunk.spec_bytes() =~= spec_chunk(b, 13, k as int));
                proof {
                    encode_utf8_decode_utf8(chunk@);
                }
                res.append(chunk);
                let check = match luhn32(chunk) {
                    Ok(c) => c,
                    Err(e) => {
                        proof {
                            lemma_luhnify_str_error_persists(b, (k + 1) as nat, 4);
                        }
                        return Err(e);
                    },
                };
                string_push(&mut res, check);
                proof {
                    k = k + 1;
                }
            },
        }
    }
    Ok(res)
}

/// The whole chunks of 7 bytes of `s`, separated by dashes. The chunks must
/// end on character boundaries.
pub fn chunkify(s: &str) -> (res: String)
    requires
        s.spec_bytes().len() >= 7,
        spec_splits_evenly(s.spec_bytes(), 7),
    ensures
        encode_utf8(res@) == spec_chunkify(s.spec_bytes()),
{
    let ghost b = s.spec_bytes();
    proof {
        encode_utf8_valid_utf8(s@);
    }
    let num_chunks = s.as_bytes().len() / 7;
    let mut res = String::new();
    let mut chunks = chunk_str(s, 7);
    let mut i: usize = 0;
    assert(encode_utf8(res@) =~= spec_dashed_chunks(b, 0));
    loop
        invariant
            b == s.spec_bytes(),
            valid_utf8(b),
            spec_splits_evenly(b, 7),
            num_chunks == b.len() / 7,
            num_chunks >= 1,
            chunks.chunk_size() == 7,
            i <= num_chunks,
            chunks.rest() == b.skip(7 * i),
            i < num_chunks ==> encode_utf8(res@) == spec_dashed_chunks(b, i as nat),
            i == num_chunks ==> encode_utf8(res@) == spec_chunkify(b),
        ensures
            encode_utf8(res@) == spec_chunkify(b),
        decreases b.len() - 7 * i,
    {
        proof {
            if 7 * i + 7 <= b.len() {
                lemma_next_chunk_boundary(b, 7, i as int);
            }
        }
        match chunks.next() {
            None => {
                break;
            },
            Some(chunk) => {
                let ghost before = res@;
                assert(chunk.spec_bytes() =~= spec_chunk(b, 7, i as int));
                res.append(chunk);
                proof {
                    lemma_encode_utf8_concat(before, chunk@);
                }
                if i != num_chunks - 1 {
                    let ghost mid = res@;
                    string_push(&mut res, '-');
                    proof {
                        assert(res@ =~= mid + seq!['-']);
                        lemma_encode_utf8_concat(mid, seq!['-']);
                        assert(encode_utf8(seq!['-']) =~= seq![45u8]) by {
                            assert(seq!['-'] =~= spec_ascii_chars(seq![45u8]));
                            lemma_ascii_utf8(seq![45u8]);
                        }
                        assert(spec_dashed_chunks(b, (i + 1) as nat) =~= encode_utf8(before)
                            + spec_chunk(b, 7, i as int).push(45u8));
                    }
                }
                i = i + 1;
            },
        }
    }
    res
}

/// On ASCII bytes the chunking of string slices gives the characters of the
/// chunking of the bytes.
proof fn lemma_luhnify_str_ascii(bytes: Seq<u8>, k: nat)
    requires
        spec_is_ascii_bytes(bytes),
        13 * k <= bytes.len(),
    ensures
        spec_luhnify_str_chunks(bytes, k) == match spec_luhnify_chunks(bytes, k) {
            Ok(t) => Ok::<Seq<char>, char>(spec_ascii_chars(t)),
            Err(c) => Err::<Seq<char>, char>(c as char),
        },
    decreases k,
{
    if k > 0 {
        lemma_luhnify_str_ascii(bytes, (k - 1) as nat);
        let x = spec_chunk(bytes, 13, k - 1);
        assert(spec_is_ascii_bytes(x)) by {
            assert forall|i: int| 0 <= i < x.len() implies #[trigger] x[i] < 128 by {
                assert(x[i] == bytes[13 * (k - 1) + i]);
            }
        }
        lemma_ascii_utf8(x);
        lemma_luhn_sum_ascii(x);
        assert(spec_chunk_chars(bytes, 13, k - 1) == spec_ascii_chars(x));
        match spec_luhnify_chunks(bytes, (k - 1) as nat) {
            Ok(done) => {
                match spec_luhn_sum(x) {
                    Ok(sum) => {
                        let check = crate::protocol::luhn::spec_check_symbol(sum);
                        assert(spec_luhn32_chars(spec_ascii_chars(x)) == Ok::<char, char>(check as char));
                        assert(spec_luhnify_chunks(bytes, k) == Ok::<Seq<u8>, u8>(done + x.push(check)));
                        assert(spec_ascii_chars(done + x.push(check)) =~= spec_ascii_chars(done)
                            + spec_ascii_chars(x).push(check as char));
                    },
                    Err(c) => {
                        assert(spec_luhn32_chars(spec_ascii_chars(x)) == Err::<char, char>(c as char));
                    },
                }
            },
            Err(_) => {},
        }
    } else {
        assert(spec_ascii_chars(Seq::<u8>::empty()) =~= Seq::<char>::empty());
    }
}

/// A device id: the SHA-256 digest of the device's certificate.
#[derive(Debug)]
pub struct DeviceId([u8; 32]);

impl View for DeviceId {
    type V = Seq<u8>;

    closed spec fn view(&self) -> Seq<u8> {
        self.0@
    }
}

impl DeviceId {
    /// The device id of the peer that presents the DER certificate `cert`.
    pub fn from_der_cert(cert: &[u8]) -> (res: DeviceId)
        ensures
            res@ == spec_sha256(cert@),
    {
        let digest = sha256(cert);
        let mut bytes = [0u8; 32];
        let mut i: usize = 0;
        while i < 32
            invariant
                i <= 32,
                digest@.len() == 32,
                forall|j: int| 0 <= j < i ==> bytes@[j] == digest@[j],
            decreases 32 - i,
        {
            bytes[i] = digest[i];
            i = i + 1;
        }
        assert(bytes@ =~= digest@);
        DeviceId(bytes)
    }

    /// The textual form of the id: its BASE32 encoding in four groups of 13
    /// characters, each followed by its Luhn-32 check character, written in
    /// dash-separated groups of 7 characters.
    pub fn to_string(&self) -> (res: String)
        ensures
            encode_utf8(res@) == spec_device_id_text(self@),
    {
        let encoded = base32_nopad_encode(self.0.as_slice());
        let ghost e = encoded@;
        proof {
            lemma_encode_symbols(self@);
            assert(spec_is_ascii_bytes(e)) by {
                assert forall|i: int| 0 <= i < e.len() implies #[trigger] e[i] < 128 by {
                    assert(spec_codepoint32(e[i]) is Some);
                }
            }
            lemma_ascii_splits_evenly(e, 13);
            lemma_luhnify_symbols(e);
            lemma_luhnify_str_ascii(e, 4);
        }
        let base32 = ascii_string(encoded);
        let luhnified = match luhnify(base32.as_str()) {
            Ok(l) => l,
            Err(_) => {
                proof {
                    assert(false);
                }
                String::new()
            },
        };
        let ghost l = spec_luhnify_chunks(e, 4)->Ok_0;
        proof {
            assert(spec_is_ascii_bytes(l)) by {
                assert forall|i: int| 0 <= i < l.len() implies #[trigger] l[i] < 128 by {
                    assert(spec_codepoint32(l[i]) is Some);
                }
            }
            lemma_ascii_utf8(l);
            lemma_ascii_splits_evenly(l, 7);
        }
        chunkify(luhnified.as_str())
    }
}

} // verus!
