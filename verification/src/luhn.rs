//! Luhn mod 32 check characters of strings, over the BASE32 alphabet `[A-Z2-7]`.
use vstd::prelude::*;
use vstd::std_specs::iter::IteratorSpec;

use crate::protocol::luhn::{
    codepoint32, spec_addend, spec_check_symbol, spec_codepoint32, spec_luhn32, spec_luhn_sum, symbol32,
};
use crate::text::spec_ascii_chars;
use vstd::utf8::{encode_utf8, is_ascii_chars, is_ascii_chars_encode_utf8};

verus! {

/// Running checksum of the characters `s`, or the first character that is not
/// a BASE32 symbol. Each character is read as its low byte.
pub open spec fn spec_luhn_sum_chars(s: Seq<char>) -> Result<int, char>
    decreases s.len(),
{
    if s.len() == 0 {
        Ok(0)
    } else {
        match spec_luhn_sum_chars(s.drop_last()) {
            Err(c) => Err(c),
            Ok(sum) => match spec_codepoint32(s.last() as u8) {
                None => Err(s.last()),
                Some(cp) => Ok(sum + spec_addend(cp as int, s.len() - 1)),
            },
        }
    }
}

/// The Luhn-32 check character of `s`, or its first invalid character.
pub open spec fn spec_luhn32_chars(s: Seq<char>) -> Result<char, char> {
    match spec_luhn_sum_chars(s) {
        Ok(sum) => Ok(spec_check_symbol(sum) as char),
        Err(c) => Err(c),
    }
}

/// Why no check character could be computed.
#[derive(Debug, Clone, Copy, PartialEq, Eq)]
pub enum LuhnError {
    /// The character is not one of `[A-Z2-7]`.
    InvalidCharacter(char),
}

proof fn lemma_error_persists_chars(s: Seq<char>, k: int)
    requires
        0 <= k <= s.len(),
        spec_luhn_sum_chars(s.subrange(0, k)) is Err,
    ensures
        spec_luhn_sum_chars(s) == spec_luhn_sum_chars(s.subrange(0, k)),
    decreases s.len() - k,
{
    if k < s.len() {
        assert(s.subrange(0, k + 1).drop_last() =~= s.subrange(0, k));
        lemma_error_persists_chars(s, k + 1);
    } else {
        assert(s.subrange(0, k) =~= s);
    }
}

/// The characters of ASCII bytes, read one by one, give the same checksum as
/// the bytes.
pub proof fn lemma_luhn_sum_ascii(x: Seq<u8>)
    ensures
        spec_luhn_sum_chars(spec_ascii_chars(x)) == match spec_luhn_sum(x) {
            Ok(sum) => Ok::<int, char>(sum),
            Err(c) => Err::<int, char>(c as char),
        },
    decreases x.len(),
{
    if x.len() > 0 {
        lemma_luhn_sum_ascii(x.drop_last());
        assert(spec_ascii_chars(x).drop_last() =~= spec_ascii_chars(x.drop_last()));
        assert(spec_ascii_chars(x).last() == x.last() as char);
        assert((x.last() as char) as u8 == x.last());
    }
}

/// On ASCII text the character-level and byte-level Luhn-32 functions agree:
/// both give the same check symbol, or both reject the same first invalid
/// character.
pub proof fn lemma_luhn32_chars_bytes(s: Seq<char>)
    requires
        is_ascii_chars(s),
    ensures
        spec_luhn32_chars(s) == match spec_luhn32(encode_utf8(s)) {
            Ok(b) => Ok::<char, char>(b as char),
            Err(b) => Err::<char, char>(b as char),
        },
{
    let bytes = encode_utf8(s);
    is_ascii_chars_encode_utf8(s);
    assert forall|i: int| 0 <= i < s.len() implies #[trigger] spec_ascii_chars(bytes)[i] == s[i] by {
        assert(bytes[i] == s[i] as u8);
        assert('\0' <= s[i] <= '\u{7f}');
    }
    assert(spec_ascii_chars(bytes) =~= s);
    lemma_luhn_sum_ascii(bytes);
}

/// Computes the Luhn-32 check character of `s`.
pub fn luhn32(s: &str) -> (res: Result<char, LuhnError>)
    ensures
        match spec_luhn32_chars(s@) {
            Ok(c) => res == Ok::<char, LuhnError>(c),
            Err(c) => res == Err::<char, LuhnError>(LuhnError::InvalidCharacter(c)),
        },
{
    broadcast use vstd::string::axiom_spec_iter, vstd::string::next_postcondition;

    let mut factor: u8 = 1;
    let mut sum: u32 = 0;
    let n: u8 = 32;
    let mut chars = s.chars();
    let ghost mut done: Seq<char> = Seq::empty();
    assert(done + chars.remaining() =~= s@);
    loop
        invariant
            done + chars.remaining() == s@,
            n == 32,
            sum < 32,
            spec_luhn_sum_chars(done) is Ok,
            sum as int == spec_luhn_sum_chars(done)->Ok_0 % 32,
            factor == (if done.len() % 2 == 0 { 1u8 } else { 2u8 }),
            chars.decrease() is Some,
        ensures
            done == s@,
            sum < 32,
            spec_luhn_sum_chars(done) is Ok,
            sum as int == spec_luhn_sum_chars(done)->Ok_0 % 32,
        decreases chars.decrease()->0,
    {
        let ghost before = chars.remaining();
        match chars.next() {
            None => {
                assert(done =~= s@);
                break;
            },
            Some(c) => {
                let ghost next = done.push(c);
                assert(next + chars.remaining() =~= s@);
                assert(next.drop_last() =~= done);
                let codepoint = match codepoint32(c as u8) {
                    Some(cp) => cp,
                    None => {
                        proof {
                            assert(next =~= s@.subrange(0, next.len() as int));
                            lemma_error_persists_chars(s@, next.len() as int);
                        }
                        return Err(LuhnError::InvalidCharacter(c));
                    },
                };
                let mut addend: u8 = factor * codepoint;
                addend = (addend / n) + (addend % n);
                proof {
                    let t = spec_luhn_sum_chars(done)->Ok_0;
                    vstd::arithmetic::div_mod::lemma_add_mod_noop(t, addend as int, 32);
                    assert((addend as int) % 32 == addend as int);
                    assert(sum as int % 32 == sum as int);
                }
                sum = (sum + addend as u32) % 32;
                factor = if factor == 2 { 1 } else { 2 };
                proof {
                    done = next;
                }
            },
        }
    }
    let remainder: u8 = sum as u8;
    let check_codepoint: u8 = (n - remainder) % n;
    Ok(symbol32(check_codepoint) as char)
}

} // verus!
