//! Reading a grid from text.

use vstd::prelude::*;
use vstd::string::StringSliceAdditionalSpecFns;

verus! {

/// Whether a byte is one of the characters `0` to `9`.
pub open spec fn is_digit_byte(b: u8) -> bool {
    47 < b < 58
}

/// The grid that a text of 81 digits spells, `None` for any other text.
pub fn puzzle_str_to_bytes(puzzle: &str) -> (r: Option<[u8; 81]>)
    ensures
        match r {
            Some(cells) => puzzle.spec_bytes().len() == 81 && forall|i: int|
                0 <= i < 81 ==> is_digit_byte(#[trigger] puzzle.spec_bytes()[i]) && cells@[i]
                    == puzzle.spec_bytes()[i] - 48,
            None => puzzle.spec_bytes().len() != 81 || exists|i: int|
                0 <= i < 81 && !is_digit_byte(#[trigger] puzzle.spec_bytes()[i]),
        },
{
    let mut result = [0u8;81];
    let bytes = puzzle.as_bytes();

    if bytes.len() != 81 {
        return None;
    }
    let mut i: usize = 0;
    while i < bytes.len()
        invariant
            i <= 81,
            bytes@.len() == 81,
            bytes@ == puzzle.spec_bytes(),
            forall|k: int|
                0 <= k < i ==> is_digit_byte(#[trigger] bytes@[k]) && result@[k] == bytes@[k] - 48,
        decreases 81 - i,
    {
        let b = bytes[i];

        if b > 47 && b < 58 {
            result[i] = bytes[i] - 48;
        } else {
            return None;
        }
        i += 1;
    }

    Some(result)
}

} // verus!
