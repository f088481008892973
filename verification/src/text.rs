//! Domain-name labels as text: bytes read off the wire become `String`s.

use vstd::prelude::*;
use vstd::utf8::{decode_utf8, valid_utf8};

verus! {

/// The characters that `String::from_utf8_lossy` makes of a byte sequence.
pub uninterp spec fn lossy_utf8(bytes: Seq<u8>) -> Seq<char>;

/// The text of a label read off the wire: its UTF-8 decoding where the bytes
/// are valid UTF-8, else what the lossy conversion makes of them.
pub open spec fn label_text(bytes: Seq<u8>) -> Seq<char> {
    if valid_utf8(bytes) {
        decode_utf8(bytes)
    } else {
        lossy_utf8(bytes)
    }
}

/// Calls `String::from_utf8_lossy` and takes the result as an owned `String`.
/// Its contract claims what std documents: the result is a function of the
/// bytes alone, and bytes that are valid UTF-8 are decoded unchanged. How
/// invalid sequences are replaced by U+FFFD is left unsaid.
#[verifier::external_body]
pub(crate) fn string_from_utf8_lossy(bytes: &[u8]) -> (s: String)
    ensures
        s@ == lossy_utf8(bytes@),
        valid_utf8(bytes@) ==> s@ == decode_utf8(bytes@),
{
    String::from_utf8_lossy(bytes).into_owned()
}

/// Makes a label's `String` from its bytes.
pub fn label_from_bytes(bytes: &[u8]) -> (s: String)
    ensures
        s@ == label_text(bytes@),
{
    string_from_utf8_lossy(bytes)
}

} // verus!
