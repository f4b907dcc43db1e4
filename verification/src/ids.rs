//! Connection and request identifiers: the canonical 36-character
//! hex-with-dashes form, its validation, and the minting of fresh ones.

use vstd::prelude::*;

verus! {

/// A hexadecimal digit, either case.
pub open spec fn is_hex_digit(c: char) -> bool {
    ('0' <= c && c <= '9') || ('a' <= c && c <= 'f') || ('A' <= c && c <= 'F')
}

/// The positions that hold dashes in the canonical form.
pub open spec fn dash_position(i: int) -> bool {
    i == 8 || i == 13 || i == 18 || i == 23
}

/// The canonical identifier form: 36 characters, dashes at the four fixed
/// positions, hexadecimal digits everywhere else.
pub open spec fn valid_connection_id(s: Seq<char>) -> bool {
    &&& s.len() == 36
    &&& forall|i: int|
        0 <= i < 36 ==> (if dash_position(i) {
            #[trigger] s[i] == '-'
        } else {
            is_hex_digit(s[i])
        })
}

/// Whether `c` is a hexadecimal digit.
pub fn is_hex_digit_char(c: char) -> (r: bool)
    ensures
        r == is_hex_digit(c),
{
    let v = c as u32;
    (48 <= v && v <= 57) || (97 <= v && v <= 102) || (65 <= v && v <= 70)
}

/// Whether `id` reads as a canonical connection identifier.
pub fn is_valid_connection_id(id: &str) -> (r: bool)
    ensures
        r == valid_connection_id(id@),
{
    let n = id.unicode_len();
    if n != 36 {
        return false;
    }
    for i in 0..36usize
        invariant
            id@.len() == 36,
            forall|j: int|
                0 <= j < i ==> (if dash_position(j) {
                    #[trigger] id@[j] == '-'
                } else {
                    is_hex_digit(id@[j])
                }),
    {
        let c = id.get_char(i);
        if i == 8 || i == 13 || i == 18 || i == 23 {
            if c != '-' {
                return false;
            }
        } else {
            if !is_hex_digit_char(c) {
                return false;
            }
        }
    }
    true
}

/// Relies on `uuid::Uuid::new_v4` and its `Display`: a fresh random
/// identifier rendered in the 36-character hyphenated lowercase-hex form.
/// Nothing is assumed about which identifier comes back.
#[verifier::external_body]
pub fn fresh_uuid() -> (r: String)
    ensures
        valid_connection_id(r@),
{
    uuid::Uuid::new_v4().to_string()
}

} // verus!
