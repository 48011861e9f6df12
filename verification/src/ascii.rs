//! Byte-level view of ASCII text.
//!
//! The wire formats handled by this crate (HTTP/1.x request lines, header
//! lines, the provider's token response) are ASCII, while the parsed values
//! are `String`s. This module fixes the correspondence between a sequence of
//! ASCII bytes and the character sequence it decodes to, provides the one
//! conversion that goes through the standard library, and defines the
//! lower-casing used for case-insensitive header-name comparison.

use vstd::prelude::*;
use vstd::utf8::is_ascii_chars;

verus! {

/// The characters an ASCII byte sequence decodes to, byte for byte.
pub open spec fn chars_of_bytes(b: Seq<u8>) -> Seq<char> {
    Seq::new(b.len(), |i: int| (b[i] as u32) as char)
}

/// The bytes an ASCII character sequence encodes to, character for character.
pub open spec fn bytes_of_chars(s: Seq<char>) -> Seq<u8> {
    Seq::new(s.len(), |i: int| s[i] as u8)
}

pub open spec fn byte_is_ascii(b: u8) -> bool {
    b < 128
}

pub open spec fn bytes_are_ascii(b: Seq<u8>) -> bool {
    forall|i: int| 0 <= i < b.len() ==> byte_is_ascii(#[trigger] b[i])
}

pub proof fn lemma_chars_of_bytes_ascii(b: Seq<u8>)
    requires
        bytes_are_ascii(b),
    ensures
        is_ascii_chars(chars_of_bytes(b)),
        bytes_of_chars(chars_of_bytes(b)) =~= b,
{
    assert forall|i: int| 0 <= i < b.len() implies #[trigger] bytes_of_chars(chars_of_bytes(b))[i]
        == b[i] by {
        let c = (b[i] as u32) as char;
        assert(c as u32 == b[i] as u32);
        assert(c as u8 == (c as u32) as u8);
    }
    assert forall|i: int| 0 <= i < b.len() implies '\0' <= #[trigger] chars_of_bytes(b)[i]
        <= '\u{7f}' by {
        let c = (b[i] as u32) as char;
        assert(c as u32 == b[i] as u32);
    }
}

pub proof fn lemma_bytes_of_chars_ascii(s: Seq<char>)
    requires
        is_ascii_chars(s),
    ensures
        bytes_are_ascii(bytes_of_chars(s)),
        chars_of_bytes(bytes_of_chars(s)) =~= s,
{
    assert forall|i: int| 0 <= i < s.len() implies #[trigger] chars_of_bytes(bytes_of_chars(s))[i]
        == s[i] && bytes_of_chars(s)[i] < 128 by {
        let c = s[i];
        assert((c as u32) < 128);
        assert(c as u8 == (c as u32) as u8);
        vstd::utf8::char_u32_cast(c, c as u32);
    }
}

/// Relies on `String::from_utf8`: ASCII bytes are valid UTF-8 and decode to
/// the characters with the same code points, one character per byte.
#[verifier::external_body]
pub(crate) fn ascii_to_string(bytes: &Vec<u8>) -> (r: String)
    requires
        bytes_are_ascii(bytes@),
    ensures
        r@ == chars_of_bytes(bytes@),
{
    String::from_utf8(bytes.clone()).unwrap()
}

/// String equality, decided on the UTF-8 bytes.
pub fn str_eq(a: &str, b: &str) -> (r: bool)
    ensures
        r == (a@ == b@),
{
    let ab = a.as_bytes();
    let bb = b.as_bytes();
    proof {
        vstd::utf8::encode_utf8_decode_utf8(a@);
        vstd::utf8::encode_utf8_decode_utf8(b@);
    }
    if ab.len() != bb.len() {
        return false;
    }
    let n = ab.len();
    let mut i: usize = 0;
    while i < n
        invariant
            0 <= i <= n,
            n == ab@.len() == bb@.len(),
            ab@ == vstd::utf8::encode_utf8(a@),
            bb@ == vstd::utf8::encode_utf8(b@),
            vstd::utf8::decode_utf8(ab@) == a@,
            vstd::utf8::decode_utf8(bb@) == b@,
            forall|k: int| 0 <= k < i ==> ab@[k] == bb@[k],
        decreases n - i,
    {
        if ab[i] != bb[i] {
            return false;
        }
        i = i + 1;
    }
    proof {
        assert(ab@ =~= bb@);
    }
    true
}

/// ASCII upper-case letters are mapped to lower case; all else is unchanged.
pub open spec fn lower_char(c: char) -> char {
    if 65 <= c as u32 && c as u32 <= 90 {
        ((c as u32 + 32) as u32) as char
    } else {
        c
    }
}

pub open spec fn lower_chars(s: Seq<char>) -> Seq<char> {
    s.map_values(|c: char| lower_char(c))
}

pub open spec fn lower_byte(b: u8) -> u8 {
    if 65 <= b && b <= 90 {
        (b + 32) as u8
    } else {
        b
    }
}

/// On ASCII characters, comparing lower-cased characters and comparing
/// lower-cased bytes agree.
pub proof fn lemma_lower_char_byte_eq(x: char, y: char)
    requires
        '\0' <= x <= '\u{7f}',
        '\0' <= y <= '\u{7f}',
    ensures
        (lower_char(x) == lower_char(y)) <==> (lower_byte(x as u8) == lower_byte(y as u8)),
{
    assert(x as u8 == (x as u32) as u8);
    assert(y as u8 == (y as u32) as u8);
    vstd::utf8::char_u32_cast(x, x as u32);
    vstd::utf8::char_u32_cast(y, y as u32);
    assert(lower_char(x) as u32 == lower_byte(x as u8) as u32);
    assert(lower_char(y) as u32 == lower_byte(y as u8) as u32);
    if lower_char(x) as u32 == lower_char(y) as u32 {
        vstd::utf8::char_u32_cast(lower_char(x), lower_char(x) as u32);
        vstd::utf8::char_u32_cast(lower_char(y), lower_char(y) as u32);
    }
}

} // verus!
