//! Binary payloads as text, in the standard base64 alphabet with padding.
use vstd::prelude::*;
use base64::Engine;
use crate::text::ascii_bytes;

verus! {

/// The text that the `STANDARD` engine of `base64` makes of bytes.
pub uninterp spec fn b64_encoding(bytes: Seq<u8>) -> Seq<char>;

/// What the `STANDARD` engine of `base64` reads from a text: the bytes, or the
/// message of its `DecodeError`.
pub uninterp spec fn b64_decoding(text: Seq<u8>) -> Result<Seq<u8>, Seq<char>>;

/// The text is read as these bytes.
pub open spec fn decodes_to(text: Seq<u8>, bytes: Seq<u8>) -> bool {
    b64_decoding(text) == Ok::<Seq<u8>, Seq<char>>(bytes)
}

/// The characters of the standard alphabet, and the padding.
pub open spec fn is_b64_char(c: char) -> bool {
    ||| 'A' <= c <= 'Z'
    ||| 'a' <= c <= 'z'
    ||| '0' <= c <= '9'
    ||| c == '+'
    ||| c == '/'
    ||| c == '='
}

/// All of a text is of the standard alphabet.
pub open spec fn is_b64_text(s: Seq<char>) -> bool {
    forall|i: int| 0 <= i < s.len() ==> is_b64_char(#[trigger] s[i])
}

/// Calls `Engine::encode` of `base64::engine::general_purpose::STANDARD`. The
/// text depends on the bytes alone; it holds four characters of the alphabet
/// for each three bytes begun, and reading it back gives the bytes.
#[verifier::external_body]
pub(crate) fn b64_encode(bytes: &[u8]) -> (r: String)
    requires
        (bytes@.len() + 2) / 3 * 4 <= isize::MAX,
    ensures
        r@ == b64_encoding(bytes@),
        r@.len() == (bytes@.len() + 2) / 3 * 4,
        is_b64_text(r@),
        decodes_to(ascii_bytes(r@), bytes@),
{
    base64::engine::general_purpose::STANDARD.encode(bytes)
}

/// Calls `Engine::decode` of `base64::engine::general_purpose::STANDARD`. What
/// comes back, bytes or error, depends on the text alone.
#[verifier::external_body]
pub(crate) fn b64_decode(text: &[u8]) -> (r: Result<Vec<u8>, String>)
    ensures
        match r {
            Ok(bytes) => b64_decoding(text@) == Ok::<Seq<u8>, Seq<char>>(bytes@),
            Err(e) => b64_decoding(text@) == Err::<Seq<u8>, Seq<char>>(e@),
        },
{
    base64::engine::general_purpose::STANDARD.decode(text).map_err(|e| format!("{}", e))
}

} // verus!
