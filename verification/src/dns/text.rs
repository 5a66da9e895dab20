//! Passage between the text of a name, held as a `String`, and its bytes.

use crate::dns::labels::is_ascii_bytes;
use vstd::prelude::*;
use vstd::utf8::{
    decode_utf8, encode_utf8, encode_utf8_decode_utf8, encode_utf8_valid_utf8, is_ascii_chars,
    is_ascii_chars_encode_utf8, valid_utf8,
};

verus! {

/// The text that ASCII bytes spell: each byte as the character of its code.
pub open spec fn bytes_text(bytes: Seq<u8>) -> Seq<char> {
    Seq::new(bytes.len(), |i: int| bytes[i] as char)
}

/// ASCII bytes are the UTF-8 form of the text they spell, and of no other.
pub proof fn lemma_ascii_text(bytes: Seq<u8>)
    requires
        is_ascii_bytes(bytes),
    ensures
        is_ascii_chars(bytes_text(bytes)),
        encode_utf8(bytes_text(bytes)) == bytes,
        valid_utf8(bytes),
        decode_utf8(bytes) == bytes_text(bytes),
{
    let text = bytes_text(bytes);
    assert(is_ascii_chars(text));
    is_ascii_chars_encode_utf8(text);
    assert(encode_utf8(text) =~= bytes);
    encode_utf8_valid_utf8(text);
    encode_utf8_decode_utf8(text);
}

/// ASCII text is the text that its own UTF-8 bytes spell.
pub proof fn lemma_text_of_ascii(text: Seq<char>)
    requires
        is_ascii_chars(text),
    ensures
        is_ascii_bytes(encode_utf8(text)),
        bytes_text(encode_utf8(text)) == text,
{
    is_ascii_chars_encode_utf8(text);
    let bytes = encode_utf8(text);
    assert forall|i: int| 0 <= i < bytes.len() implies bytes[i] < 128 by {
        assert(text[i] as u8 == bytes[i]);
    }
    assert(bytes_text(bytes) =~= text) by {
        assert forall|i: int| 0 <= i < text.len() implies bytes_text(bytes)[i] == text[i] by {
            assert(text[i] as u8 == bytes[i]);
        }
    }
}

/// `String::from_utf8`, with the error dropped: a `String` exactly when the
/// bytes are valid UTF-8, and then the one whose UTF-8 bytes they are.
#[verifier::external_body]
fn string_from_utf8(bytes: Vec<u8>) -> (r: Option<String>)
    ensures
        r is Some <==> valid_utf8(bytes@),
        r matches Some(s) ==> encode_utf8(s@) == bytes@,
{
    match String::from_utf8(bytes) {
        Ok(s) => Some(s),
        Err(_) => None,
    }
}

/// The `String` that ASCII bytes spell.
pub fn ascii_string(bytes: Vec<u8>) -> (s: String)
    requires
        is_ascii_bytes(bytes@),
    ensures
        s@ == bytes_text(bytes@),
{
    proof {
        lemma_ascii_text(bytes@);
    }
    match string_from_utf8(bytes) {
        Some(s) => {
            proof {
                encode_utf8_decode_utf8(s@);
            }
            s
        },
        // ASCII is valid UTF-8, so the conversion cannot fail.
        None => String::new(),
    }
}

} // verus!
