//! Random 20-character peer identifiers.

use vstd::prelude::*;

use rand::distributions::DistString;

verus! {

/// An ASCII letter or digit.
pub open spec fn is_alphanumeric_char(c: char) -> bool {
    ('0' <= c <= '9') || ('a' <= c <= 'z') || ('A' <= c <= 'Z')
}

/// Relies on `rand::distributions::Alphanumeric::sample_string`: it
/// draws the requested number of characters, each an ASCII letter or
/// digit.  The result is random, so nothing more is promised of it.
#[verifier::external_body]
pub fn generate_peer_id() -> (r: String)
    ensures
        r@.len() == 20,
        forall|i: int| 0 <= i < 20 ==> is_alphanumeric_char(#[trigger] r@[i]),
{
    rand::distributions::Alphanumeric.sample_string(&mut rand::thread_rng(), 20)
}

} // verus!
