//! What the generator hands back.

use vstd::prelude::*;

verus! {

/// A puzzle with its solution.
pub struct GeneratorOutput {
    pub puzzle: [u8; 81],
    pub solution: [u8; 81],
    pub difficulty: usize,
}

} // verus!
