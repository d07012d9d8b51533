//! Hexadecimal encoding and decoding of byte strings, through the
//! `hex` and `const-hex` crates, with an exact description of both.

use vstd::prelude::*;

verus! {

/// The lowercase hexadecimal digit for a value below sixteen.
pub open spec fn hex_digit_char(x: int) -> char {
    if x == 0 {
        '0'
    } else if x == 1 {
        '1'
    } else if x == 2 {
        '2'
    } else if x == 3 {
        '3'
    } else if x == 4 {
        '4'
    } else if x == 5 {
        '5'
    } else if x == 6 {
        '6'
    } else if x == 7 {
        '7'
    } else if x == 8 {
        '8'
    } else if x == 9 {
        '9'
    } else if x == 10 {
        'a'
    } else if x == 11 {
        'b'
    } else if x == 12 {
        'c'
    } else if x == 13 {
        'd'
    } else if x == 14 {
        'e'
    } else {
        'f'
    }
}

/// Two lowercase hexadecimal digits for each byte, in order.
pub open spec fn spec_hex(bytes: Seq<u8>) -> Seq<char> {
    Seq::new(
        bytes.len() * 2,
        |i: int|
            if i % 2 == 0 {
                hex_digit_char(bytes[i / 2] as int / 16)
            } else {
                hex_digit_char(bytes[i / 2] as int % 16)
            },
    )
}

/// A hexadecimal digit, either case.
pub open spec fn is_hex_digit(c: char) -> bool {
    ('0' <= c <= '9') || ('a' <= c <= 'f') || ('A' <= c <= 'F')
}

/// A lowercase hexadecimal digit.
pub open spec fn is_lower_hex_digit(c: char) -> bool {
    ('0' <= c <= '9') || ('a' <= c <= 'f')
}

/// The value a hexadecimal digit denotes.
pub open spec fn hex_val(c: char) -> int {
    if '0' <= c <= '9' {
        c as int - 48
    } else if 'a' <= c <= 'f' {
        c as int - 87
    } else {
        c as int - 55
    }
}

/// Characters that denote the same hexadecimal digit, whatever their
/// case; characters that are not hex digits must be identical.
pub open spec fn hex_char_matches(a: char, b: char) -> bool {
    a == b || (is_hex_digit(a) && is_hex_digit(b) && hex_val(a) == hex_val(b))
}

/// Character sequences that agree as hexadecimal digests: the same
/// length, each position the same digit by value.
pub open spec fn hex_digits_match(a: Seq<char>, b: Seq<char>) -> bool {
    a.len() == b.len() && forall|i: int| 0 <= i < a.len() ==> hex_char_matches(a[i], #[trigger] b[i])
}

/// The value of a hexadecimal digit character.
fn hex_value_of(c: char) -> (v: u32)
    requires
        is_hex_digit(c),
    ensures
        v as int == hex_val(c),
{
    let x = c as u32;
    if x <= 57 {
        x - 48
    } else if x >= 97 {
        x - 87
    } else {
        x - 55
    }
}

/// Compares two strings as hexadecimal digests, digit by digit and
/// blind to case.
#[verifier::loop_isolation(false)]
pub fn hex_str_matches(a: &str, b: &str) -> (r: bool)
    ensures
        r == hex_digits_match(a@, b@),
{
    let na = a.unicode_len();
    let nb = b.unicode_len();
    if na != nb {
        return false;
    }
    let mut i: usize = 0;
    while i < na
        invariant
            i <= na,
            na == a@.len(),
            na == b@.len(),
            forall|j: int| 0 <= j < i ==> hex_char_matches(a@[j], #[trigger] b@[j]),
        decreases na - i,
    {
        let ca = a.get_char(i);
        let cb = b.get_char(i);
        let a_hex = (48 <= ca as u32 && ca as u32 <= 57) || (97 <= ca as u32 && ca as u32 <= 102)
            || (65 <= ca as u32 && ca as u32 <= 70);
        let b_hex = (48 <= cb as u32 && cb as u32 <= 57) || (97 <= cb as u32 && cb as u32 <= 102)
            || (65 <= cb as u32 && cb as u32 <= 70);
        let here = if ca == cb {
            true
        } else if a_hex && b_hex {
            hex_value_of(ca) == hex_value_of(cb)
        } else {
            false
        };
        if !here {
            assert(!hex_char_matches(a@[i as int], b@[i as int]));
            return false;
        }
        i = i + 1;
    }
    true
}

/// Relies on `hex::encode`: two lowercase hexadecimal digits per byte,
/// most significant first.
#[verifier::external_body]
pub(crate) fn hex_encode(bytes: &[u8]) -> (r: String)
    ensures
        r@ == spec_hex(bytes@),
{
    hex::encode(bytes)
}

/// Relies on `const_hex::encode`: the same encoding as `hex::encode`,
/// two lowercase hexadecimal digits per byte.
#[verifier::external_body]
pub(crate) fn const_hex_encode(bytes: &[u8]) -> (r: String)
    ensures
        r@ == spec_hex(bytes@),
{
    const_hex::encode(bytes)
}

/// Relies on `hex::decode`: it succeeds exactly on even-length strings
/// of hexadecimal digits, either case, and returns the denoted bytes.
#[verifier::external_body]
pub(crate) fn hex_decode(s: &str) -> (r: Option<Vec<u8>>)
    ensures
        r is Some <==> (s@.len() % 2 == 0 && forall|i: int|
            0 <= i < s@.len() ==> is_hex_digit(#[trigger] s@[i])),
        r matches Some(b) ==> b@.len() == s@.len() / 2 && forall|i: int|
            0 <= i < b@.len() ==> #[trigger] b@[i] as int == hex_val(s@[2 * i]) * 16 + hex_val(
                s@[2 * i + 1],
            ),
{
    match hex::decode(s) {
        Ok(b) => Some(b),
        Err(_) => None,
    }
}

} // verus!
