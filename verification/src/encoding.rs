//! What the standard library knows of Unicode: decoding bytes, and letter case.

use vstd::prelude::*;
use vstd::utf8;

verus! {

/// The text that bytes are read as when ill-formed UTF-8 is let pass: what
/// `String::from_utf8_lossy` returns.
pub uninterp spec fn lossy_text(bytes: Seq<u8>) -> Seq<char>;

/// The lower-case form of a text: what `str::to_lowercase` returns.
pub uninterp spec fn lowercase(s: Seq<char>) -> Seq<char>;

/// The lower-case form of an ASCII character.
pub open spec fn ascii_lower(c: char) -> char {
    if 'A' <= c <= 'Z' {
        (c as u32 + 0x20) as char
    } else {
        c
    }
}

/// Calls `String::from_utf8_lossy`. Its result depends on the bytes alone, and bytes that are
/// well-formed UTF-8 are read as the text that they encode. What stands for ill-formed bytes
/// is left to the name.
#[verifier::external_body]
pub(crate) fn from_utf8_lossy(bytes: &[u8]) -> (text: String)
    ensures
        text@ == lossy_text(bytes@),
        utf8::valid_utf8(bytes@) ==> text@ == utf8::decode_utf8(bytes@),
{
    String::from_utf8_lossy(bytes).into_owned()
}

/// Calls `str::to_lowercase`. Its result depends on the text alone, and a text of ASCII
/// characters keeps all of them but the capital letters, which become small. What other
/// characters become is left to the name.
#[verifier::external_body]
pub(crate) fn to_lowercase(s: &str) -> (text: String)
    ensures
        text@ == lowercase(s@),
        utf8::is_ascii_chars(s@) ==> text@ == s@.map_values(|c: char| ascii_lower(c)),
{
    s.to_lowercase()
}

} // verus!
