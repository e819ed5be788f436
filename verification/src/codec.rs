//! The two text encodings that the binary library formats mix: Windows-1252,
//! one byte to a character, and UTF-8.

use vstd::prelude::*;
use vstd::utf8::{decode_utf8, encode_utf8, valid_utf8};
use crate::text::decimal;

verus! {

/// The character that the byte `b` stands for in Windows-1252.
pub open spec fn byte_char(b: u8) -> char {
    if b < 0x80 || b >= 0xa0 {
        b as char
    } else if b == 0x80 {
        '\u{20ac}'
    } else if b == 0x82 {
        '\u{201a}'
    } else if b == 0x83 {
        '\u{0192}'
    } else if b == 0x84 {
        '\u{201e}'
    } else if b == 0x85 {
        '\u{2026}'
    } else if b == 0x86 {
        '\u{2020}'
    } else if b == 0x87 {
        '\u{2021}'
    } else if b == 0x88 {
        '\u{02c6}'
    } else if b == 0x89 {
        '\u{2030}'
    } else if b == 0x8a {
        '\u{0160}'
    } else if b == 0x8b {
        '\u{2039}'
    } else if b == 0x8c {
        '\u{0152}'
    } else if b == 0x8e {
        '\u{017d}'
    } else if b == 0x91 {
        '\u{2018}'
    } else if b == 0x92 {
        '\u{2019}'
    } else if b == 0x93 {
        '\u{201c}'
    } else if b == 0x94 {
        '\u{201d}'
    } else if b == 0x95 {
        '\u{2022}'
    } else if b == 0x96 {
        '\u{2013}'
    } else if b == 0x97 {
        '\u{2014}'
    } else if b == 0x98 {
        '\u{02dc}'
    } else if b == 0x99 {
        '\u{2122}'
    } else if b == 0x9a {
        '\u{0161}'
    } else if b == 0x9b {
        '\u{203a}'
    } else if b == 0x9c {
        '\u{0153}'
    } else if b == 0x9e {
        '\u{017e}'
    } else if b == 0x9f {
        '\u{0178}'
    } else {
        b as char
    }
}

/// Whether Windows-1252 has a byte for `c`.
pub open spec fn has_byte(c: char) -> bool {
    exists|b: u8| byte_char(b) == c
}

/// The byte that Windows-1252 has for `c`.
pub open spec fn char_byte(c: char) -> u8 {
    choose|b: u8| byte_char(b) == c
}

/// Whether Windows-1252 has a byte for every character of `text`.
pub open spec fn has_bytes(text: Seq<char>) -> bool {
    forall|i: int| 0 <= i < text.len() ==> has_byte(#[trigger] text[i])
}

/// The bytes that write `c`: its own byte, or else a decimal character
/// reference such as `&#937;`.
pub open spec fn char_bytes(c: char) -> Seq<u8> {
    if has_byte(c) {
        seq![char_byte(c)]
    } else {
        seq![38u8, 35u8] + decimal(c as nat).map_values(|d: char| d as u8) + seq![59u8]
    }
}

/// The bytes that write `text` in Windows-1252, character by character.
pub open spec fn encoded(text: Seq<char>) -> Seq<u8>
    decreases text.len(),
{
    if text.len() == 0 {
        Seq::empty()
    } else {
        encoded(text.drop_last()) + char_bytes(text.last())
    }
}

/// The characters that `bytes` stand for in Windows-1252.
pub open spec fn decoded(bytes: Seq<u8>) -> Seq<char> {
    bytes.map_values(|b: u8| byte_char(b))
}

/// Whether `bytes` start with a byte order mark of UTF-8 or of UTF-16.
pub open spec fn starts_with_mark(bytes: Seq<u8>) -> bool {
    ||| bytes.len() >= 3 && bytes[0] == 0xef && bytes[1] == 0xbb && bytes[2] == 0xbf
    ||| bytes.len() >= 2 && bytes[0] == 0xff && bytes[1] == 0xfe
    ||| bytes.len() >= 2 && bytes[0] == 0xfe && bytes[1] == 0xff
}

/// What `encoding_rs` makes of bytes that start with a byte order mark when
/// asked to decode Windows-1252.
pub uninterp spec fn marked_text(bytes: Seq<u8>) -> Seq<char>;

/// What `String::from_utf8_lossy` makes of bytes that are not UTF-8.
pub uninterp spec fn repaired_text(bytes: Seq<u8>) -> Seq<char>;

/// The text that `bytes` are read as: a leading byte order mark decides the
/// encoding, and without one it is Windows-1252.
pub open spec fn sniffed_text(bytes: Seq<u8>) -> Seq<char> {
    if starts_with_mark(bytes) {
        marked_text(bytes)
    } else {
        decoded(bytes)
    }
}

/// The text that `bytes` are read as in UTF-8, repaired where they are not UTF-8.
pub open spec fn utf8_text(bytes: Seq<u8>) -> Seq<char> {
    if valid_utf8(bytes) {
        decode_utf8(bytes)
    } else {
        repaired_text(bytes)
    }
}

/// `encoding_rs::Encoding::encode` on `WINDOWS_1252`: every character that the
/// encoding has becomes its byte, every other one a decimal character
/// reference, and the flag says whether there was one of the latter.
#[verifier::external_body]
pub(crate) fn encode_windows_1252(text: &str) -> (r: (Vec<u8>, bool))
    ensures
        r.0@ == encoded(text@),
        r.1 == !has_bytes(text@),
{
    let (bytes, _, had_errors) = encoding_rs::WINDOWS_1252.encode(text);
    (bytes.into_owned(), had_errors)
}

/// `encoding_rs::Encoding::decode` on `WINDOWS_1252`: one character to each
/// byte, unless the bytes start with a byte order mark. In that case the mark
/// decides the encoding; the result is then some function of the bytes.
#[verifier::external_body]
pub(crate) fn decode_windows_1252(bytes: &[u8]) -> (r: String)
    ensures
        !starts_with_mark(bytes@) ==> r@ == decoded(bytes@),
        starts_with_mark(bytes@) ==> r@ == marked_text(bytes@),
{
    let (text, _, _) = encoding_rs::WINDOWS_1252.decode(bytes);
    text.into_owned()
}

/// `String::from_utf8_lossy`: valid UTF-8 is read as it stands; of other bytes
/// the result is some function of them.
#[verifier::external_body]
pub(crate) fn decode_utf8_lossy(bytes: &[u8]) -> (r: String)
    ensures
        valid_utf8(bytes@) ==> r@ == decode_utf8(bytes@),
        !valid_utf8(bytes@) ==> r@ == repaired_text(bytes@),
{
    String::from_utf8_lossy(bytes).into_owned()
}

pub proof fn lemma_char_byte(b: u8)
    ensures
        has_byte(byte_char(b)),
        char_byte(byte_char(b)) == b,
        char_bytes(byte_char(b)) == seq![b],
{
    let c = char_byte(byte_char(b));
    assert(byte_char(c) == byte_char(b));
}

/// Encoding goes character by character, so it distributes over concatenation.
pub proof fn lemma_encoded_concat(a: Seq<char>, b: Seq<char>)
    ensures
        encoded(a + b) == encoded(a) + encoded(b),
    decreases b.len(),
{
    if b.len() == 0 {
        assert(a + b =~= a);
        assert(encoded(b) =~= Seq::empty());
        assert(encoded(a) + encoded(b) =~= encoded(a));
    } else {
        lemma_encoded_concat(a, b.drop_last());
        assert((a + b).drop_last() =~= a + b.drop_last());
        assert(encoded(a + b) =~= encoded(a) + encoded(b));
    }
}

/// Bytes that were decoded one by one encode to themselves.
pub proof fn lemma_encoded_decoded(bytes: Seq<u8>)
    ensures
        encoded(decoded(bytes)) == bytes,
    decreases bytes.len(),
{
    if bytes.len() == 0 {
        assert(encoded(decoded(bytes)) =~= bytes);
    } else {
        lemma_encoded_decoded(bytes.drop_last());
        assert(decoded(bytes).drop_last() =~= decoded(bytes.drop_last()));
        lemma_char_byte(bytes.last());
        assert(encoded(decoded(bytes)) =~= bytes);
    }
}

/// Text that the encoding has a byte for is read back as it was.
pub proof fn law_decoded_encoded(text: Seq<char>)
    requires
        has_bytes(text),
    ensures
        decoded(encoded(text)) == text,
        encoded(text).len() == text.len(),
    decreases text.len(),
{
    if text.len() == 0 {
        assert(decoded(encoded(text)) =~= text);
    } else {
        assert(has_byte(text[text.len() - 1]));
        assert(has_bytes(text.drop_last())) by {
            assert forall|i: int| 0 <= i < text.drop_last().len() implies has_byte(
                #[trigger] text.drop_last()[i],
            ) by {
                assert(has_byte(text[i]));
            }
        }
        law_decoded_encoded(text.drop_last());
        assert(byte_char(char_byte(text.last())) == text.last());
        assert(encoded(text) =~= encoded(text.drop_last()).push(char_byte(text.last())));
        assert(decoded(encoded(text)) =~= decoded(encoded(text.drop_last())).push(text.last()));
        assert(decoded(encoded(text)) =~= text);
    }
}

} // verus!
