//! Entries of the choice queue: the size of a set and the key of the set.

use crate::indices::CELLS;
use crate::values::value_key::ValueKey;
use vstd::prelude::*;

verus! {

/// The key of a set of options: the candidate digits of a cell, or the open
/// locations of a digit in a region.
#[derive(Eq, PartialEq, Structural, Hash, Copy, Clone, Debug)]
pub enum CollectionKey {
    Candidates(usize),
    Values(ValueKey),
}

impl CollectionKey {
    /// A cell of the grid, or a valid digit key.
    pub open spec fn valid(self) -> bool {
        match self {
            CollectionKey::Candidates(cell) => cell < CELLS,
            CollectionKey::Values(key) => key.valid(),
        }
    }

    /// The number of the key among all keys: the 81 cells, then the 243 digit keys.
    pub open spec fn rank(self) -> int {
        match self {
            CollectionKey::Candidates(cell) => cell as int,
            CollectionKey::Values(key) => CELLS + key.code(),
        }
    }

    /// The order of keys: cells before digit keys, cells by index, digit keys
    /// in their own order.
    pub open spec fn precedes(self, other: CollectionKey) -> bool {
        match (self, other) {
            (CollectionKey::Candidates(a), CollectionKey::Candidates(b)) => a <= b,
            (CollectionKey::Candidates(_), CollectionKey::Values(_)) => true,
            (CollectionKey::Values(_), CollectionKey::Candidates(_)) => false,
            (CollectionKey::Values(a), CollectionKey::Values(b)) => a.precedes(b),
        }
    }

    /// The ranks of valid keys lie below 324, differ from key to key and
    /// follow the order of the keys.
    pub proof fn lemma_rank(self, other: CollectionKey)
        requires
            self.valid(),
            other.valid(),
        ensures
            0 <= self.rank() < 324,
            self.rank() == other.rank() ==> self == other,
            self.precedes(other) <==> self.rank() <= other.rank(),
    {
        match (self, other) {
            (CollectionKey::Values(a), CollectionKey::Values(b)) => {
                a.lemma_code(b);
            },
            (CollectionKey::Values(a), _) => {
                a.lemma_code(a);
            },
            (_, CollectionKey::Values(b)) => {
                b.lemma_code(b);
            },
            _ => {},
        }
    }

    /// The number of the key among all keys.
    pub fn to_rank(&self) -> (r: usize)
        requires
            self.valid(),
        ensures
            r == self.rank(),
            r < 324,
    {
        match self {
            CollectionKey::Candidates(cell) => *cell,
            CollectionKey::Values(key) => CELLS + key.encode(),
        }
    }

    /// The key with a given number.
    pub fn from_rank(rank: usize) -> (r: CollectionKey)
        requires
            rank < 324,
        ensures
            r.valid(),
            r.rank() == rank,
    {
        if rank < CELLS {
            CollectionKey::Candidates(rank)
        } else {
            CollectionKey::Values(ValueKey::decode(rank - CELLS))
        }
    }
}

/// A set of options by its size and its key.
#[derive(Eq, PartialEq, Structural, Copy, Clone, Debug)]
pub struct Choice {
    pub possibilities: usize,
    pub key: CollectionKey,
}

impl Choice {
    /// The choice for a set of a given size under a key.
    pub fn new(possibilities: usize, key: CollectionKey) -> (r: Choice)
        ensures
            r.possibilities == possibilities,
            r.key == key,
    {
        Choice { possibilities, key }
    }

    /// The order of choices: fewer possibilities first, then by key.
    pub open spec fn precedes(self, other: Choice) -> bool {
        ||| self.possibilities < other.possibilities
        ||| self.possibilities == other.possibilities && self.key.precedes(other.key)
    }
}

} // verus!
