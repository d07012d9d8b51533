//! SHA-1 digests, hex-encoded, through the `sha1` crate.

use vstd::prelude::*;

use sha1::Digest;

use crate::hexutil::is_lower_hex_digit;

verus! {

/// The lowercase hexadecimal SHA-1 digest of a byte string.  The
/// algorithm itself is not restated here; what matters to the rest of
/// the library is that it is a function of the input bytes alone.
pub uninterp spec fn sha1_hex_of(input: Seq<u8>) -> Seq<char>;

/// Relies on `sha1::Sha1` and its `LowerHex` output: the digest is a
/// function of the input bytes alone, twenty bytes long, printed as
/// forty lowercase hexadecimal digits.
#[verifier::external_body]
pub fn calculate_hash(input: &[u8]) -> (r: String)
    ensures
        r@ == sha1_hex_of(input@),
        r@.len() == 40,
        forall|i: int| 0 <= i < 40 ==> is_lower_hex_digit(#[trigger] r@[i]),
{
    let mut hasher = sha1::Sha1::new();
    hasher.update(input);
    format!("{:x}", hasher.finalize())
}

} // verus!
