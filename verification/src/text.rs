//! Small text helpers: decimal rendering of integers and character
//! comparisons, shared by the tracker URL builder and the display
//! helpers.

use vstd::prelude::*;

use crate::bencode::spec_digits;

verus! {

/// The decimal digit characters of `n`, most significant first.
pub open spec fn spec_decimal(n: nat) -> Seq<char> {
    spec_digits(n).map(|i: int, b: u8| b as char)
}

/// Relies on `String::from_utf8`: ASCII bytes are valid UTF-8 and
/// decode to themselves, one character per byte.
#[verifier::external_body]
fn ascii_to_string(bytes: Vec<u8>) -> (r: String)
    requires
        forall|i: int| 0 <= i < bytes@.len() ==> bytes@[i] < 128,
    ensures
        r@.len() == bytes@.len(),
        forall|i: int| 0 <= i < bytes@.len() ==> r@[i] == bytes@[i] as char,
{
    match String::from_utf8(bytes) {
        Ok(s) => s,
        Err(_) => String::new(),
    }
}

/// What `String::from_utf8_lossy` makes of a byte string.  It depends
/// on the bytes alone; only its action on ASCII input is spelled out
/// below.
pub uninterp spec fn utf8_lossy_of(bytes: Seq<u8>) -> Seq<char>;

/// Relies on `String::from_utf8_lossy`: deterministic in the input
/// bytes, and the identity on ASCII input, one character per byte.
#[verifier::external_body]
pub(crate) fn utf8_lossy(bytes: &[u8]) -> (r: String)
    ensures
        r@ == utf8_lossy_of(bytes@),
        (forall|i: int| 0 <= i < bytes@.len() ==> bytes@[i] < 128) ==> (r@.len() == bytes@.len()
            && forall|i: int| 0 <= i < bytes@.len() ==> r@[i] == bytes@[i] as char),
{
    String::from_utf8_lossy(bytes).into_owned()
}

/// Renders `n` in decimal.
pub fn u64_to_string(n: u64) -> (r: String)
    ensures
        r@ == spec_decimal(n as nat),
{
    let mut digits: Vec<u8> = Vec::new();
    crate::bencode::push_decimal(n, &mut digits);
    proof {
        crate::bencode::lemma_spec_digits_props(n as nat);
        assert(digits@ =~= spec_digits(n as nat));
        assert forall|i: int| 0 <= i < digits@.len() implies digits@[i] < 128 by {
            assert(crate::bencode::is_digit(digits@[i]));
        }
    }
    let s = ascii_to_string(digits);
    proof {
        assert(s@ =~= spec_decimal(n as nat));
    }
    s
}

/// Character-for-character string equality.
pub fn str_eq(a: &str, b: &str) -> (r: bool)
    ensures
        r == (a@ == b@),
{
    let na = a.unicode_len();
    let nb = b.unicode_len();
    if na != nb {
        proof {
            assert(a@.len() != b@.len());
        }
        return false;
    }
    let mut i: usize = 0;
    while i < na
        invariant
            i <= na,
            na == a@.len(),
            na == b@.len(),
            forall|j: int| 0 <= j < i ==> a@[j] == b@[j],
        decreases na - i,
    {
        if a.get_char(i) != b.get_char(i) {
            return false;
        }
        i = i + 1;
    }
    proof {
        assert(a@ =~= b@);
    }
    true
}

} // verus!
