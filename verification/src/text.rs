//! Strings built from ASCII bytes.
use vstd::prelude::*;
use vstd::utf8::*;

verus! {

/// The characters of a sequence of ASCII bytes.
pub open spec fn spec_ascii_chars(bytes: Seq<u8>) -> Seq<char> {
    Seq::new(bytes.len(), |i: int| bytes[i] as char)
}

/// Every byte is below 128.
pub open spec fn spec_is_ascii_bytes(bytes: Seq<u8>) -> bool {
    forall|i: int| 0 <= i < bytes.len() ==> #[trigger] bytes[i] < 128
}

/// `String::from_utf8` from std, with its error mapped to `None`. As std
/// documents, it fails exactly on bytes that are not UTF-8, and otherwise the
/// string holds those bytes.
#[verifier::external_body]
pub(crate) fn string_from_utf8(bytes: Vec<u8>) -> (res: Option<String>)
    ensures
        res is Some <==> valid_utf8(bytes@),
        res matches Some(s) ==> encode_utf8(s@) == bytes@,
{
    String::from_utf8(bytes).ok()
}

/// `String::push` from std, which, as std documents, appends the character
/// `c` to the end of the string.
#[verifier::external_body]
pub(crate) fn string_push(s: &mut String, c: char)
    ensures
        final(s)@ == old(s)@.push(c),
{
    s.push(c)
}

/// The UTF-8 encoding of two strings one after the other is the encoding of
/// the first followed by that of the second.
pub proof fn lemma_encode_utf8_concat(a: Seq<char>, b: Seq<char>)
    ensures
        encode_utf8(a + b) == encode_utf8(a) + encode_utf8(b),
    decreases a.len(),
{
    if a.len() == 0 {
        assert(a + b =~= b);
        assert(encode_utf8(a) =~= Seq::<u8>::empty());
        assert(encode_utf8(a) + encode_utf8(b) =~= encode_utf8(b));
    } else {
        lemma_encode_utf8_concat(a.drop_first(), b);
        assert((a + b).drop_first() =~= a.drop_first() + b);
        assert((a + b)[0] == a[0]);
        assert(encode_utf8(a + b) =~= encode_utf8(a) + encode_utf8(b));
    }
}

/// ASCII bytes are UTF-8, one character per byte.
pub proof fn lemma_ascii_utf8(bytes: Seq<u8>)
    requires
        spec_is_ascii_bytes(bytes),
    ensures
        encode_utf8(spec_ascii_chars(bytes)) == bytes,
        valid_utf8(bytes),
        decode_utf8(bytes) == spec_ascii_chars(bytes),
{
    let chars = spec_ascii_chars(bytes);
    assert(is_ascii_chars(chars)) by {
        assert forall|i| 0 <= i < chars.len() implies '\0' <= #[trigger] chars[i] <= '\u{7f}' by {
            assert(bytes[i] < 128);
        }
    }
    is_ascii_chars_encode_utf8(chars);
    assert forall|i| 0 <= i < bytes.len() implies encode_utf8(chars)[i] == bytes[i] by {
        assert(chars[i] as u8 == encode_utf8(chars)[i]);
        assert(bytes[i] < 128);
    }
    assert(encode_utf8(chars) =~= bytes);
    encode_utf8_valid_utf8(chars);
    encode_utf8_decode_utf8(chars);
}

/// The string of the ASCII bytes `bytes`.
pub fn ascii_string(bytes: Vec<u8>) -> (res: String)
    requires
        spec_is_ascii_bytes(bytes@),
    ensures
        res@ == spec_ascii_chars(bytes@),
        encode_utf8(res@) == bytes@,
{
    let ghost b = bytes@;
    proof {
        lemma_ascii_utf8(b);
    }
    match string_from_utf8(bytes) {
        Some(s) => {
            proof {
                encode_utf8_decode_utf8(s@);
            }
            s
        },
        None => {
            proof {
                assert(false);
            }
            String::new()
        },
    }
}

/// The string that the bytes `bytes` encode in UTF-8, if they are UTF-8.
pub fn string_from_bytes(bytes: &[u8]) -> (res: Option<String>)
    ensures
        valid_utf8(bytes@) ==> (res matches Some(s) && s@ == decode_utf8(bytes@)),
        !valid_utf8(bytes@) ==> res is None,
{
    let copy = crate::protos::wire::copy_bytes(bytes);
    match string_from_utf8(copy) {
        Some(s) => {
            proof {
                encode_utf8_decode_utf8(s@);
            }
            Some(s)
        },
        None => None,
    }
}

/// The UTF-8 bytes of `s`.
pub fn string_bytes(s: &String) -> (res: &[u8])
    ensures
        res@ == encode_utf8(s@),
{
    s.as_str().as_bytes()
}

/// A string is empty exactly when its UTF-8 encoding is.
pub proof fn lemma_encode_utf8_empty(s: Seq<char>)
    ensures
        (encode_utf8(s).len() == 0) == (s.len() == 0),
{
    if s.len() > 0 {
        assert(encode_utf8(s) == vstd::utf8::encode_scalar(s[0] as u32) + encode_utf8(s.drop_first()));
    }
}

} // verus!
