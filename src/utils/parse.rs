//! Recognising digits in text.
use vstd::prelude::*;

verus! {

/// Whether a byte is an ASCII decimal digit, `0` (48) to `9` (57).
pub fn is_number(b: u8) -> (r: bool)
    ensures
        r == (48 <= b <= 57),
{
    b >= 48 && b <= 57
}

} // verus!
