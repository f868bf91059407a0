//! Everything the library takes on trust: the calls into `std` and into the
//! crates `sha2` and `serde_json`, each with the contract that is believed of
//! it.

use sha2::Digest;
use vstd::prelude::*;
use vstd::utf8;

verus! {

/// `String::push` appends one character and changes nothing else.
pub assume_specification[ String::push ](s: &mut String, c: char)
    ensures
        final(s)@ == old(s)@.push(c),
;

/// The text that `String::from_utf8_lossy` makes of a byte sequence.
pub uninterp spec fn lossy_text(bytes: Seq<u8>) -> Seq<char>;

/// Calls `String::from_utf8_lossy`: the result depends on the bytes alone, and
/// bytes that are valid UTF-8 come out as the characters they encode.
#[verifier::external_body]
pub(crate) fn decode_lossy(bytes: &[u8]) -> (text: String)
    ensures
        text@ == lossy_text(bytes@),
        utf8::valid_utf8(bytes@) ==> text@ == utf8::decode_utf8(bytes@),
{
    String::from_utf8_lossy(bytes).into_owned()
}

/// Calls `String::from_utf8`: the text that the bytes encode, or nothing where
/// they are not valid UTF-8.
#[verifier::external_body]
pub(crate) fn decode_strict(bytes: Vec<u8>) -> (text: Option<String>)
    ensures
        text is Some <==> utf8::valid_utf8(bytes@),
        text matches Some(t) ==> t@ == utf8::decode_utf8(bytes@),
{
    String::from_utf8(bytes).ok()
}

/// The text that `std` prints for a string in a `{:?}` position.
pub uninterp spec fn debug_text(text: Seq<char>) -> Seq<char>;

/// Calls the `Debug` formatting of `str`: quoted and escaped text that depends
/// on the string alone.
#[verifier::external_body]
pub(crate) fn debug_format(text: &str) -> (shown: String)
    ensures
        shown@ == debug_text(text@),
{
    format!("{text:?}")
}

/// The SHA-256 digest of a byte sequence.
pub uninterp spec fn sha256(data: Seq<u8>) -> Seq<u8>;

/// Calls `sha2::Sha256::digest`: a digest of 32 bytes that depends on the data
/// alone.
#[verifier::external_body]
pub(crate) fn sha256_digest(data: &[u8]) -> (digest: Vec<u8>)
    ensures
        digest@ == sha256(data@),
        digest@.len() == 32,
{
    sha2::Sha256::digest(data).to_vec()
}

/// What `serde_json` finds in a document under a name of its top level:
/// nothing where the document is not valid JSON, else the string that is the
/// value of that member, if there is such a member and its value is a string.
pub uninterp spec fn json_string(document: Seq<u8>, name: Seq<char>) -> Option<Option<Seq<char>>>;

/// Calls `serde_json::from_slice` for a `serde_json::Value`, and then
/// `Value::get` and `Value::as_str` on it. The result depends on the document
/// and the name alone.
#[verifier::external_body]
pub(crate) fn json_string_member(document: &[u8], name: &str) -> (member: Option<Option<String>>)
    ensures
        member.deep_view() == json_string(document@, name@),
{
    match serde_json::from_slice::<serde_json::Value>(document) {
        Ok(value) => Some(value.get(name).and_then(serde_json::Value::as_str).map(str::to_owned)),
        Err(_) => None,
    }
}

} // verus!
