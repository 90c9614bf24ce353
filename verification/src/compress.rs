//! LZ4 block decompression, as computed by `lz4_flex`, and the check that a
//! block can be handed to it.
use vstd::prelude::*;

verus! {

/// The most bytes that decompression may write, counting the scratch bytes
/// that `lz4_flex` copies past a match before truncating: half of
/// `isize::MAX`, so that no growth of the output vector exceeds `isize::MAX`.
pub open spec fn spec_lz4_out_limit() -> int {
    isize::MAX / 2
}

/// A length continued in extra bytes, read from `pos` after `acc` was counted:
/// every byte adds its value and a byte of 255 asks for one more. Gives the
/// total and the position after it, or `None` when the input ends first or
/// the total leaves `u32`.
pub open spec fn spec_lz4_extra_len(b: Seq<u8>, pos: int, acc: int) -> Option<(int, int)>
    decreases b.len() - pos,
{
    if pos < 0 || pos >= b.len() {
        None
    } else {
        let total = acc + b[pos];
        if total > u32::MAX {
            None
        } else if b[pos] == 255 {
            spec_lz4_extra_len(b, pos + 1, total)
        } else {
            Some((total, pos + 1))
        }
    }
}

/// The length of the literals of a sequence whose token has the high nibble
/// `nib`, and the position after it.
pub open spec fn spec_lz4_literal_len(b: Seq<u8>, pos: int, nib: int) -> Option<(int, int)> {
    if nib == 15 {
        match spec_lz4_extra_len(b, pos, 0) {
            None => None,
            Some((n, p)) => Some((15 + n, p)),
        }
    } else {
        Some((nib, pos))
    }
}

/// The length of the match of a sequence whose token has the low nibble
/// `nib`, and the position after it.
pub open spec fn spec_lz4_match_len(b: Seq<u8>, pos: int, nib: int) -> Option<(int, int)> {
    if nib == 15 {
        match spec_lz4_extra_len(b, pos, 0) {
            None => None,
            Some((n, p)) => Some((19 + n, p)),
        }
    } else {
        Some((4 + nib, pos))
    }
}

/// Whether the sequences of the LZ4 block `b` from `pos` on, with `out` bytes
/// written before them, decode to the end of the block: every token, length
/// and offset lies within the input, every match refers back to at least one
/// and at most `out` written bytes, and the output stays within
/// [`spec_lz4_out_limit`]. A sequence whose token has both nibbles below 15
/// and that starts more than 18 bytes before the end is read as `lz4_flex`
/// reads it on its fast path; the block ends after the literals of a sequence
/// that reach its last byte or the one before.
pub open spec fn spec_lz4_block_from(b: Seq<u8>, pos: int, out: int) -> bool
    decreases b.len() - pos,
{
    if pos < 0 || pos >= b.len() {
        false
    } else {
        let token = b[pos];
        let lit_nib = (token / 16) as int;
        let match_nib = (token % 16) as int;
        let p1 = pos + 1;
        if lit_nib < 15 && match_nib < 15 && p1 < b.len() - 18 {
            let p2 = p1 + lit_nib;
            let o1 = out + lit_nib;
            let offset = b[p2] + 256 * b[p2 + 1];
            let o2 = o1 + 4 + match_nib;
            &&& 1 <= offset <= o1
            &&& o2 + 24 <= spec_lz4_out_limit()
            &&& spec_lz4_block_from(b, p2 + 2, o2)
        } else {
            match spec_lz4_literal_len(b, p1, lit_nib) {
                None => false,
                Some((lit, p)) => if lit > b.len() - p || out + lit + 24 > spec_lz4_out_limit() {
                    false
                } else if p + lit >= b.len() - 1 {
                    true
                } else {
                    let p2 = p + lit;
                    let o1 = out + lit;
                    let offset = b[p2] + 256 * b[p2 + 1];
                    match spec_lz4_match_len(b, p2 + 2, match_nib) {
                        None => false,
                        Some((ml, q)) => if q <= pos || q > b.len() {
                            false
                        } else {
                            &&& 1 <= offset <= o1
                            &&& o1 + ml + 24 <= spec_lz4_out_limit()
                            &&& spec_lz4_block_from(b, q, o1 + ml)
                        },
                    }
                }
            }
        }
    }
}

/// An LZ4 sequence whose literal length and match length fit in its token:
/// the token, the literals, the match offset in two little-endian bytes.
pub open spec fn spec_lz4_short_sequence(lits: Seq<u8>, m: nat, offset: nat) -> Seq<u8> {
    seq![(16 * lits.len() + m) as u8] + lits + seq![(offset % 256) as u8, (offset / 256) as u8]
}

/// A block whose first sequence is short is accepted exactly when that
/// sequence's match refers back to at least one and at most as many bytes as
/// were written before it and by its own literals, the output stays within
/// [`spec_lz4_out_limit`], and the rest of the block is accepted with the
/// sequence's output counted. This holds wherever the sequence stands, on the
/// fast path as near the end of the block.
pub proof fn lemma_lz4_short_sequence(lits: Seq<u8>, m: nat, offset: nat, rest: Seq<u8>, out: nat)
    requires
        lits.len() < 15,
        m < 15,
        offset < 65536,
    ensures
        spec_lz4_block_from(spec_lz4_short_sequence(lits, m, offset) + rest, 0, out as int) == {
            let written = out + lits.len();
            let after = written + 4 + m;
            &&& 1 <= offset <= written
            &&& after + 24 <= spec_lz4_out_limit()
            &&& spec_lz4_block_from(
                spec_lz4_short_sequence(lits, m, offset) + rest,
                (lits.len() + 3) as int,
                after as int,
            )
        },
{
    let b = spec_lz4_short_sequence(lits, m, offset) + rest;
    let l: int = lits.len() as int;
    let token: u8 = (16 * l + m) as u8;
    assert(token == 16 * l + m);
    assert(b[0] == token);
    assert(token / 16 == l && token % 16 == m) by (nonlinear_arith)
        requires
            token == 16 * l + m,
            m < 16,
    ;
    assert(b[l + 1] == (offset % 256) as u8);
    assert(b[l + 2] == (offset / 256) as u8);
    assert(b[l + 1] + 256 * b[l + 2] == offset);
}

/// An LZ4 sequence whose literal length (15 to 269) continues in one extra
/// byte and whose match length fits in its token.
pub open spec fn spec_lz4_long_literals_sequence(lits: Seq<u8>, m: nat, offset: nat) -> Seq<u8> {
    seq![(240 + m) as u8, (lits.len() - 15) as u8] + lits + seq![
        (offset % 256) as u8,
        (offset / 256) as u8,
    ]
}

/// A block whose first sequence carries 15 to 269 literals is accepted
/// exactly when that sequence's match refers back to at least one and at most
/// as many bytes as were written before it and by its own literals, the
/// output stays within [`spec_lz4_out_limit`], and the rest of the block is
/// accepted with the sequence's output counted.
pub proof fn lemma_lz4_long_literals_sequence(
    lits: Seq<u8>,
    m: nat,
    offset: nat,
    rest: Seq<u8>,
    out: nat,
)
    requires
        15 <= lits.len() < 270,
        m < 15,
        offset < 65536,
    ensures
        spec_lz4_block_from(spec_lz4_long_literals_sequence(lits, m, offset) + rest, 0, out as int)
            == {
            let written = out + lits.len();
            let after = written + 4 + m;
            &&& 1 <= offset <= written
            &&& after + 24 <= spec_lz4_out_limit()
            &&& spec_lz4_block_from(
                spec_lz4_long_literals_sequence(lits, m, offset) + rest,
                (lits.len() + 4) as int,
                after as int,
            )
        },
{
    let b = spec_lz4_long_literals_sequence(lits, m, offset) + rest;
    let l: int = lits.len() as int;
    let token: u8 = (240 + m) as u8;
    assert(b[0] == token);
    assert(token / 16 == 15 && token % 16 == m) by (nonlinear_arith)
        requires
            token == 240 + m,
            m < 16,
    ;
    assert(b[1] == l - 15);
    assert(spec_lz4_extra_len(b, 1, 0) == Some((l - 15, 2int)));
    assert(b[l + 2] == (offset % 256) as u8);
    assert(b[l + 3] == (offset / 256) as u8);
    assert(b[l + 2] + 256 * b[l + 3] == offset);
}

/// An LZ4 sequence whose literal length fits in its token and whose match
/// length (19 to 273) continues in one extra byte after the offset.
pub open spec fn spec_lz4_long_match_sequence(lits: Seq<u8>, ml: nat, offset: nat) -> Seq<u8> {
    seq![(16 * lits.len() + 15) as u8] + lits + seq![
        (offset % 256) as u8,
        (offset / 256) as u8,
        (ml - 19) as u8,
    ]
}

/// A block whose first sequence has a match of 19 to 273 bytes is accepted
/// exactly when that match refers back to at least one and at most as many
/// bytes as were written before it and by the sequence's own literals, the
/// output stays within [`spec_lz4_out_limit`], and the rest of the block is
/// accepted with the sequence's output counted.
pub proof fn lemma_lz4_long_match_sequence(
    lits: Seq<u8>,
    ml: nat,
    offset: nat,
    rest: Seq<u8>,
    out: nat,
)
    requires
        lits.len() < 15,
        19 <= ml < 274,
        offset < 65536,
    ensures
        spec_lz4_block_from(spec_lz4_long_match_sequence(lits, ml, offset) + rest, 0, out as int)
            == {
            let written = out + lits.len();
            let after = written + ml;
            &&& 1 <= offset <= written
            &&& after + 24 <= spec_lz4_out_limit()
            &&& spec_lz4_block_from(
                spec_lz4_long_match_sequence(lits, ml, offset) + rest,
                (lits.len() + 4) as int,
                after as int,
            )
        },
{
    let b = spec_lz4_long_match_sequence(lits, ml, offset) + rest;
    let l: int = lits.len() as int;
    let token: u8 = (16 * l + 15) as u8;
    assert(b[0] == token);
    assert(token / 16 == l && token % 16 == 15) by (nonlinear_arith)
        requires
            token == 16 * l + 15,
    ;
    assert(b[l + 1] == (offset % 256) as u8);
    assert(b[l + 2] == (offset / 256) as u8);
    assert(b[l + 1] + 256 * b[l + 2] == offset);
    assert(b[l + 3] == ml - 19);
    assert(spec_lz4_extra_len(b, l + 3, 0) == Some((ml - 19, l + 4)));
}

/// A block that ends with a sequence of literals alone, fewer than 15, is
/// accepted exactly when the output stays within [`spec_lz4_out_limit`].
pub proof fn lemma_lz4_last_literals(lits: Seq<u8>, out: nat)
    requires
        lits.len() < 15,
    ensures
        spec_lz4_block_from(seq![(16 * lits.len()) as u8] + lits, 0, out as int) == (out
            + lits.len() + 24 <= spec_lz4_out_limit()),
{
    let b = seq![(16 * lits.len()) as u8] + lits;
    let l: int = lits.len() as int;
    let token: u8 = (16 * l) as u8;
    assert(b[0] == token);
    assert(token / 16 == l && token % 16 == 0) by (nonlinear_arith)
        requires
            token == 16 * l,
    ;
}

/// The size announced in the first four bytes, little-endian.
pub open spec fn spec_lz4_announced_size(input: Seq<u8>) -> int {
    input[0] + 256 * input[1] + 65536 * input[2] + 16777216 * input[3]
}

/// Whether `input`, an LZ4 block after its size as four little-endian bytes,
/// decodes to its end within the limits of [`spec_lz4_block_from`], with an
/// announced size that a vector can reserve.
pub open spec fn spec_lz4_size_prepended_ok(input: Seq<u8>) -> bool {
    &&& input.len() >= 4
    &&& spec_lz4_announced_size(input) <= isize::MAX
    &&& spec_lz4_block_from(input.skip(4), 0, 0)
}

/// Reads a length continued in extra bytes from `pos`.
fn lz4_extra_len(b: &[u8], pos: usize) -> (res: Option<(u64, usize)>)
    ensures
        match res {
            None => spec_lz4_extra_len(b@, pos as int, 0) is None,
            Some((n, q)) => spec_lz4_extra_len(b@, pos as int, 0) == Some((n as int, q as int))
                && n <= u32::MAX && pos < q <= b@.len(),
        },
{
    let len = b.len();
    let mut total: u64 = 0;
    let mut p: usize = pos;
    while p < len
        invariant
            len == b@.len(),
            pos <= p,
            total <= u32::MAX,
            spec_lz4_extra_len(b@, pos as int, 0) == spec_lz4_extra_len(b@, p as int, total as int),
        decreases len - p,
    {
        total = total + b[p] as u64;
        if total > 0xffff_ffffu64 {
            return None;
        }
        if b[p] != 255 {
            return Some((total, p + 1));
        }
        p = p + 1;
    }
    None
}

/// Whether `input` can be handed to [`lz4_decompress_size_prepended`]: see
/// [`spec_lz4_size_prepended_ok`].
pub fn lz4_size_prepended_ok(input: &[u8]) -> (res: bool)
    ensures
        res == spec_lz4_size_prepended_ok(input@),
{
    let input_len = input.len();
    if input_len < 4 {
        return false;
    }
    let size: u64 = input[0] as u64 + 256 * (input[1] as u64) + 65536 * (input[2] as u64) + 16777216
        * (input[3] as u64);
    let imax: u64 = isize::MAX as u64;
    if size > imax {
        return false;
    }
    let b = &input[4..input_len];
    assert(b@ =~= input@.skip(4));
    let len = b.len();
    let limit: u64 = imax / 2;
    let mut pos: usize = 0;
    let mut out: u64 = 0;
    loop
        invariant
            input@.len() >= 4,
            spec_lz4_announced_size(input@) <= isize::MAX,
            b@ == input@.skip(4),
            len == b@.len(),
            pos <= len,
            limit == spec_lz4_out_limit(),
            out <= limit,
            spec_lz4_block_from(b@, pos as int, out as int) == spec_lz4_block_from(b@, 0, 0),
        decreases len - pos,
    {
        if pos >= len {
            return false;
        }
        let token = b[pos];
        let lit_nib = token / 16;
        let match_nib = token % 16;
        let p1 = pos + 1;
        if lit_nib < 15 && match_nib < 15 && len >= 18 && p1 < len - 18 {
            let p2 = p1 + lit_nib as usize;
            let o1 = out + lit_nib as u64;
            let offset = b[p2] as u64 + 256 * (b[p2 + 1] as u64);
            let o2 = o1 + 4 + match_nib as u64;
            if offset < 1 || offset > o1 || o2 + 24 > limit {
                return false;
            }
            pos = p2 + 2;
            out = o2;
        } else {
            let (lit, p) = if lit_nib == 15 {
                match lz4_extra_len(b, p1) {
                    None => {
                        return false;
                    },
                    Some((n, q)) => (15 + n, q),
                }
            } else {
                (lit_nib as u64, p1)
            };
            if lit > (len - p) as u64 || out + lit + 24 > limit {
                return false;
            }
            let p2 = p + lit as usize;
            if p2 >= len - 1 {
                return true;
            }
            let o1 = out + lit;
            let offset = b[p2] as u64 + 256 * (b[p2 + 1] as u64);
            let (ml, q) = if match_nib == 15 {
                match lz4_extra_len(b, p2 + 2) {
                    None => {
                        return false;
                    },
                    Some((n, q)) => (19 + n, q),
                }
            } else {
                (4 + match_nib as u64, p2 + 2)
            };
            if q <= pos || offset < 1 || offset > o1 || o1 + ml + 24 > limit {
                return false;
            }
            pos = q;
            out = o1 + ml;
        }
    }
}

/// What `lz4_flex::decompress_size_prepended` gives for `input`: the
/// decompressed bytes, or `None` when it fails.
pub uninterp spec fn spec_lz4_decompress_size_prepended(input: Seq<u8>) -> Option<Seq<u8>>;

/// `lz4_flex::decompress_size_prepended`: decompresses an LZ4 block whose
/// first four bytes give, little-endian, the decompressed size. Its error is
/// mapped to `None`. The contract only names the result, which depends on the
/// input alone. The `requires` leaves out the blocks on which the crate's
/// decoder would index out of range, overflow a length, or grow its output
/// vector past `isize::MAX` (all of which panic). The crate reserves the
/// announced size up front: a size the machine cannot allocate aborts the
/// process, which is not stated.
#[verifier::external_body]
pub(crate) fn lz4_decompress_size_prepended(input: &[u8]) -> (res: Option<Vec<u8>>)
    requires
        spec_lz4_size_prepended_ok(input@),
    ensures
        match res {
            Some(v) => spec_lz4_decompress_size_prepended(input@) == Some(v@),
            None => spec_lz4_decompress_size_prepended(input@) is None,
        },
{
    lz4_flex::decompress_size_prepended(input).ok()
}

} // verus!
