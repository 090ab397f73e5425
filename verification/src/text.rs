//! Text out of bytes.

use vstd::prelude::*;
use vstd::utf8::{
    char_is_scalar, char_u32_cast, decode_utf8, encode_scalar, encode_utf8,
    encode_utf8_valid_utf8, has_width_1_encoding, has_width_2_encoding, has_width_3_encoding,
    is_ascii_chars, is_ascii_chars_encode_utf8, valid_utf8,
};

verus! {

/// Turns bytes into the text that they encode.
///
/// Trusted: calls `String::from_utf8` of the standard library, which gives
/// back the bytes as a `String` where they are well-formed UTF-8 and an error
/// where they are not. The error is dropped.
#[verifier::external_body]
pub(crate) fn string_from_utf8(bytes: Vec<u8>) -> (r: Option<String>)
    ensures
        r is Some <==> valid_utf8(bytes@),
        r matches Some(s) ==> s@ == decode_utf8(bytes@),
{
    String::from_utf8(bytes).ok()
}

/// Bytes below 128 are UTF-8: each is a character of its own.
pub proof fn lemma_ascii_is_utf8(bytes: Seq<u8>)
    requires
        forall|i: int| 0 <= i < bytes.len() ==> #[trigger] bytes[i] < 128,
    ensures
        valid_utf8(bytes),
{
    let chars = Seq::new(bytes.len(), |i: int| bytes[i] as char);
    assert(is_ascii_chars(chars));
    is_ascii_chars_encode_utf8(chars);
    assert(encode_utf8(chars) =~= bytes);
    encode_utf8_valid_utf8(chars);
}

/// A text starts with a carriage return or a line feed just when its
/// encoding starts with the byte of that character.
pub proof fn lemma_first_byte(text: Seq<char>)
    requires
        text.len() > 0,
    ensures
        encode_utf8(text).len() > 0,
        encode_utf8(text)[0] == 0x0D <==> text[0] == '\r',
        encode_utf8(text)[0] == 0x0A <==> text[0] == '\n',
{
    let c = text[0] as u32;
    let first = encode_scalar(c);
    assert(encode_utf8(text)[0] == first[0]);
    char_is_scalar(text[0]);
    if has_width_1_encoding(c) {
        assert(c & 0x7F == c) by (bit_vector)
            requires
                c <= 0x7F,
        ;
    } else if has_width_2_encoding(c) {
        let low = ((c >> 6) & 0x1F) as u8;
        assert(0xC0u8 | low >= 0xC0) by (bit_vector);
    } else if has_width_3_encoding(c) {
        let low = ((c >> 12) & 0x0F) as u8;
        assert(0xE0u8 | low >= 0xE0) by (bit_vector);
    } else {
        let low = ((c >> 18) & 0x7) as u8;
        assert(0xF0u8 | low >= 0xF0) by (bit_vector);
    }
    char_u32_cast(text[0], c);
}

} // verus!
