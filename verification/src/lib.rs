//! Revision-specification ("revspec") resolution front-end of a source-control
//! engine: a scanner that turns textual expressions such as `HEAD~`, `@{-1}`,
//! `abc123de` or `main...origin/main` into a sequence of resolution intents
//! reported to a caller-supplied delegate, together with the abbreviated
//! object-id prefix type the scanner consults for disambiguation, and the
//! configuration value types that accompany them.

use vstd::prelude::*;

pub mod prefix;
pub mod revision;
pub mod values;

verus! {

/// True exactly of the bytes `0-9`, `a-f` and `A-F`.
pub open spec fn is_hex_digit(b: u8) -> bool {
    (48 <= b && b <= 57) || (97 <= b && b <= 102) || (65 <= b && b <= 70)
}

/// Numeric value of a hexadecimal digit byte.
pub open spec fn hex_value(b: u8) -> u8
    recommends
        is_hex_digit(b),
{
    if 48 <= b && b <= 57 {
        (b - 48) as u8
    } else if 97 <= b && b <= 102 {
        (b - 97 + 10) as u8
    } else {
        (b - 65 + 10) as u8
    }
}

/// Decide whether a byte is a hexadecimal digit.
pub fn byte_is_hex_digit(b: u8) -> (r: bool)
    ensures
        r == is_hex_digit(b),
{
    (48 <= b && b <= 57) || (97 <= b && b <= 102) || (65 <= b && b <= 70)
}

} // verus!
