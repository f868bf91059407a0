//! Digests of contents, by which objects are named and downloads are checked.

use vstd::prelude::*;

use crate::outside;
use crate::text;

verus! {

/// The SHA-256 digest of a byte sequence in lower-case hexadecimal notation.
pub open spec fn digest(bytes: Seq<u8>) -> Seq<char> {
    text::hex(outside::sha256(bytes))
}

/// The SHA-256 digest of a byte sequence in lower-case hexadecimal notation.
pub fn digest_hex(bytes: &[u8]) -> (r: String)
    ensures
        r@ == digest(bytes@),
        r@.len() == 64,
{
    let sum = outside::sha256_digest(bytes);
    text::hex_text(sum.as_slice())
}

} // verus!
