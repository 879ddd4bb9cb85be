//! MD5 as a black-box primitive: digests are compared as 32-character
//! lowercase hexadecimal strings.

use vstd::prelude::*;

verus! {

/// The lowercase-hex MD5 digest of a character sequence: a function of the
/// input alone, named but not described.
pub uninterp spec fn md5_hex_of(s: Seq<char>) -> Seq<char>;

/// Relies on `md5::compute` and the md5 crate's `LowerHex` formatting of a
/// digest: two lowercase hex digits per digest byte, 32 characters in all,
/// depending on the input alone.
#[verifier::external_body]
pub(crate) fn md5_hex(phrase: &str) -> (r: String)
    ensures
        r@ == md5_hex_of(phrase@),
        r@.len() == 32,
{
    format!("{:x}", md5::compute(phrase))
}

} // verus!
