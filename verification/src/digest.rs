//! Digests of pieces and of metainfo, and their hexadecimal text.

use sha1::{Digest, Sha1};
use vstd::prelude::*;

verus! {

/// The SHA-1 digest of a byte string.
pub uninterp spec fn sha1_of(data: Seq<u8>) -> Seq<u8>;

/// `Sha1::digest` of the crate `sha1`: the digest, 20 bytes, is a function of the data alone. The
/// contract gives it a name and leaves unsaid how it is computed.
#[verifier::external_body]
pub(crate) fn sha1_digest(data: &[u8]) -> (r: [u8; 20])
    ensures
        r@ == sha1_of(data@),
{
    Sha1::digest(data).into()
}

/// The character of a hexadecimal digit, in lower case.
pub open spec fn hex_lower(d: u8) -> char {
    if d < 10 {
        (48 + d) as char
    } else {
        (87 + d) as char
    }
}

/// The hexadecimal text of a byte string: of each byte the high digit, then the low one.
pub open spec fn hex_text(data: Seq<u8>) -> Seq<char> {
    Seq::new(
        2 * data.len(),
        |i: int|
            hex_lower(
                if i % 2 == 0 {
                    data[i / 2] / 16
                } else {
                    data[i / 2] % 16
                },
            ),
    )
}

/// `hex::encode` of the crate `hex`: two digits in lower case for each byte.
#[verifier::external_body]
pub(crate) fn hex_string(data: &[u8; 20]) -> (r: String)
    ensures
        r@ == hex_text(data@),
{
    hex::encode(data)
}

} // verus!
