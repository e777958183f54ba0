//! Keys of the value store: a digit together with a row, a column or a box.

use crate::indices::{box_index, box_of, col_index, col_of, row_index, row_of, CELLS};
use vstd::prelude::*;

verus! {

/// The three kinds of region.
#[derive(PartialEq, Eq, Structural, Hash, Copy, Clone, Debug)]
pub enum SetType {
    Row,
    Col,
    Box,
}

impl SetType {
    /// Rows come before columns, columns before boxes.
    pub open spec fn rank(self) -> int {
        match self {
            SetType::Row => 0,
            SetType::Col => 1,
            SetType::Box => 2,
        }
    }

    /// The region of this kind that a cell lies in.
    pub open spec fn region_of(self, cell_index: usize) -> int {
        match self {
            SetType::Row => row_of(cell_index),
            SetType::Col => col_of(cell_index),
            SetType::Box => box_of(cell_index),
        }
    }

    /// The region of this kind that a cell lies in.
    pub fn region_index(&self, cell_index: usize) -> (r: usize)
        ensures
            r == self.region_of(cell_index),
    {
        match self {
            SetType::Row => row_index(cell_index),
            SetType::Col => col_index(cell_index),
            SetType::Box => box_index(cell_index),
        }
    }

    /// One letter for the kind of region.
    pub fn symbol(&self) -> (r: &'static str)
        ensures
            r@ == (match self {
                SetType::Row => "R"@,
                SetType::Col => "C"@,
                SetType::Box => "B"@,
            }),
    {
        match self {
            SetType::Row => "R",
            SetType::Col => "C",
            SetType::Box => "B",
        }
    }
}

/// A digit in a region.
#[derive(PartialEq, Eq, Structural, Hash, Copy, Clone, Debug)]
pub struct ValueKey {
    pub value: u8,
    pub set_type: SetType,
    pub set_index: usize,
}

proof fn lemma_decode_arith(code: u32, v: u32, t: u32, s: u32)
    by (bit_vector)
    requires
        code < 243,
        v == code / 27 + 1,
        t == code / 9 % 3,
        s == code % 9,
    ensures
        1 <= v <= 9,
        t < 3,
        s < 9,
        (v - 1) * 27 + t * 9 + s == code,
{
}

impl ValueKey {
    /// A digit from 1 to 9 in one of the nine regions of its kind.
    pub open spec fn valid(self) -> bool {
        1 <= self.value <= 9 && self.set_index < 9
    }

    /// The number of the key among all 243 keys: by digit, then by kind of
    /// region, then by region.
    pub open spec fn code(self) -> int {
        (self.value - 1) * 27 + self.set_type.rank() * 9 + self.set_index
    }

    /// Whether a cell lies in the region of the key.
    pub open spec fn covers(self, cell_index: usize) -> bool {
        cell_index < CELLS && self.set_type.region_of(cell_index) == self.set_index
    }

    /// The order of keys: by digit, then by kind of region, then by region.
    pub open spec fn precedes(self, other: ValueKey) -> bool {
        ||| self.value < other.value
        ||| self.value == other.value && self.set_type.rank() < other.set_type.rank()
        ||| self.value == other.value && self.set_type == other.set_type && self.set_index
            <= other.set_index
    }

    /// The codes of valid keys lie below 243, differ from key to key and
    /// follow the order of the keys.
    pub proof fn lemma_code(self, other: ValueKey)
        requires
            self.valid(),
            other.valid(),
        ensures
            0 <= self.code() < 243,
            self.code() == other.code() ==> self == other,
            self.precedes(other) <==> self.code() <= other.code(),
    {
    }

    /// The number of the key among all keys.
    pub fn encode(&self) -> (r: usize)
        requires
            self.valid(),
        ensures
            r == self.code(),
            r < 243,
    {
        let kind: usize = match self.set_type {
            SetType::Row => 0,
            SetType::Col => 1,
            SetType::Box => 2,
        };
        (self.value as usize - 1) * 27 + kind * 9 + self.set_index
    }

    /// The key with a given number.
    pub fn decode(code: usize) -> (r: ValueKey)
        requires
            code < 243,
        ensures
            r.valid(),
            r.code() == code,
    {
        let value: u8 = (code / 27 + 1) as u8;
        let kind: usize = code / 9 % 3;
        let set_index: usize = code % 9;
        proof {
            lemma_decode_arith(code as u32, value as u32, kind as u32, set_index as u32);
        }
        let set_type = if kind == 0 {
            SetType::Row
        } else if kind == 1 {
            SetType::Col
        } else {
            SetType::Box
        };
        ValueKey { value, set_type, set_index }
    }
}

} // verus!
