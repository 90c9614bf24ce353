//! Luhn mod 32 check characters over the BASE32 alphabet `[A-Z2-7]`.
use vstd::prelude::*;

verus! {

/// Value of a BASE32 symbol, or `None` for a byte outside `[A-Z2-7]`.
pub open spec fn spec_codepoint32(b: u8) -> Option<u8> {
    if 65 <= b <= 90 {
        Some((b - 65) as u8)
    } else if 50 <= b <= 55 {
        Some((b + 26 - 50) as u8)
    } else {
        None
    }
}

/// The BASE32 symbol of a value `v < 32`.
pub open spec fn spec_symbol32(v: int) -> u8 {
    if v < 26 {
        (65 + v) as u8
    } else {
        (50 + v - 26) as u8
    }
}

/// Contribution of the symbol of value `cp` at position `i` to the checksum:
/// even positions count once, odd positions twice, and a doubled value is
/// folded back below 32 by adding its two base-32 digits.
pub open spec fn spec_addend(cp: int, i: int) -> int {
    let product = if i % 2 == 0 { cp } else { 2 * cp };
    product / 32 + product % 32
}

/// Running checksum of `s`, or the first byte of `s` that is not a BASE32 symbol.
pub open spec fn spec_luhn_sum(s: Seq<u8>) -> Result<int, u8>
    decreases s.len(),
{
    if s.len() == 0 {
        Ok(0)
    } else {
        match spec_luhn_sum(s.drop_last()) {
            Err(c) => Err(c),
            Ok(sum) => match spec_codepoint32(s.last()) {
                None => Err(s.last()),
                Some(cp) => Ok(sum + spec_addend(cp as int, s.len() - 1)),
            },
        }
    }
}

/// The check symbol that makes the sum of `s` a multiple of 32.
pub open spec fn spec_check_symbol(sum: int) -> u8 {
    spec_symbol32((32 - sum % 32) % 32)
}

/// The Luhn-32 check character of `s`, or the first invalid byte.
pub open spec fn spec_luhn32(s: Seq<u8>) -> Result<u8, u8> {
    match spec_luhn_sum(s) {
        Ok(sum) => Ok(spec_check_symbol(sum)),
        Err(c) => Err(c),
    }
}

/// Why no check character could be computed.
#[derive(Debug, Clone, Copy, PartialEq, Eq)]
pub enum LuhnError {
    /// The byte is not one of `[A-Z2-7]`.
    InvalidCharacter(u8),
}

/// Value of a BASE32 symbol, or `None` when `b` is not one of `[A-Z2-7]`.
pub fn codepoint32(b: u8) -> (res: Option<u8>)
    ensures
        res == spec_codepoint32(b),
{
    if 65 <= b && b <= 90 {
        Some(b - 65)
    } else if 50 <= b && b <= 55 {
        Some(b + 26 - 50)
    } else {
        None
    }
}

/// The BASE32 symbol of `v`.
pub fn symbol32(v: u8) -> (res: u8)
    requires
        v < 32,
    ensures
        res == spec_symbol32(v as int),
{
    if v < 26 {
        65 + v
    } else {
        50 + (v - 26)
    }
}

/// A string made of BASE32 symbols has a check character, itself a BASE32 symbol.
pub proof fn lemma_luhn32_of_symbols(s: Seq<u8>)
    requires
        forall|i: int| 0 <= i < s.len() ==> #[trigger] spec_codepoint32(s[i]) is Some,
    ensures
        spec_luhn32(s) is Ok,
        spec_codepoint32(spec_luhn32(s)->Ok_0) is Some,
    decreases s.len(),
{
    if s.len() > 0 {
        let p = s.drop_last();
        assert forall|i: int| 0 <= i < p.len() implies #[trigger] spec_codepoint32(p[i]) is Some by {
            assert(p[i] == s[i]);
        }
        lemma_luhn32_of_symbols(p);
        assert(spec_codepoint32(s[s.len() - 1]) is Some);
    }
}

/// Once a prefix holds an invalid byte, so does every extension of it.
proof fn lemma_error_persists(s: Seq<u8>, k: int)
    requires
        0 <= k <= s.len(),
        spec_luhn_sum(s.subrange(0, k)) is Err,
    ensures
        spec_luhn_sum(s) == spec_luhn_sum(s.subrange(0, k)),
    decreases s.len() - k,
{
    if k < s.len() {
        let next = s.subrange(0, k + 1);
        assert(next.drop_last() =~= s.subrange(0, k));
        lemma_error_persists(s, k + 1);
    } else {
        assert(s.subrange(0, k) =~= s);
    }
}

/// Computes the luhn32 checksum character of the given ascii string.
pub fn luhn32(input: &[u8]) -> (res: Result<u8, LuhnError>)
    ensures
        match spec_luhn32(input@) {
            Ok(c) => res == Ok::<u8, LuhnError>(c),
            Err(b) => res == Err::<u8, LuhnError>(LuhnError::InvalidCharacter(b)),
        },
{
    let mut factor: u8 = 1;
    let mut sum: u32 = 0;
    let n: u8 = 32;
    let mut i: usize = 0;
    while i < input.len()
        invariant
            i <= input@.len(),
            n == 32,
            sum < 32,
            spec_luhn_sum(input@.subrange(0, i as int)) is Ok,
            sum as int == spec_luhn_sum(input@.subrange(0, i as int))->Ok_0 % 32,
            factor == (if i % 2 == 0 { 1u8 } else { 2u8 }),
        decreases input@.len() - i,
    {
        let ch = input[i];
        let ghost prefix = input@.subrange(0, i + 1);
        assert(prefix.drop_last() =~= input@.subrange(0, i as int));
        let codepoint = match codepoint32(ch) {
            Some(cp) => cp,
            None => {
                proof {
                    lemma_error_persists(input@, i + 1);
                }
                return Err(LuhnError::InvalidCharacter(ch));
            },
        };
        let mut addend: u8 = factor * codepoint;
        addend = (addend / n) + (addend % n);
        proof {
            let t = spec_luhn_sum(input@.subrange(0, i as int))->Ok_0;
            vstd::arithmetic::div_mod::lemma_add_mod_noop(t, addend as int, 32);
            assert((addend as int) % 32 == addend as int);
            assert(sum as int % 32 == sum as int);
        }
        sum = (sum + addend as u32) % 32;
        factor = if factor == 2 { 1 } else { 2 };
        i = i + 1;
    }
    assert(input@.subrange(0, input@.len() as int) =~= input@);
    let remainder: u8 = sum as u8;
    let check_codepoint: u8 = (n - remainder) % n;
    Ok(symbol32(check_codepoint))
}

} // verus!
