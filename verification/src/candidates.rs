//! Candidate digits of a cell, kept as a set of nine bits, and the upkeep of
//! the candidate store of a state.

pub mod traits;

use crate::board::{
    digit_allowed, is_grid, lemma_allowed_after_clear, lemma_allowed_after_fill, BoardView,
};
use crate::indices::{neighbors, peers, rcb_containing, CELLS};
use crate::persistent::members;
use crate::candidates::traits::{CandidateBase, Candidates};
use vstd::prelude::*;

verus! {

/// The bit that stands for a digit, zero for anything but 1 to 9.
pub open spec fn digit_bit(d: u8) -> u16 {
    if d == 1 {
        0x001
    } else if d == 2 {
        0x002
    } else if d == 3 {
        0x004
    } else if d == 4 {
        0x008
    } else if d == 5 {
        0x010
    } else if d == 6 {
        0x020
    } else if d == 7 {
        0x040
    } else if d == 8 {
        0x080
    } else if d == 9 {
        0x100
    } else {
        0
    }
}

/// Whether a bit pattern holds a digit.
pub open spec fn bits_have(bits: u16, d: u8) -> bool {
    1 <= d <= 9 && bits & digit_bit(d) != 0
}

/// The digits that a bit pattern holds.
pub open spec fn digits_of(bits: u16) -> Set<u8> {
    Set::new(|d: u8| bits_have(bits, d))
}

/// The digits up to `k` that a bit pattern holds, in ascending order.
pub open spec fn digits_upto(bits: u16, k: u8) -> Seq<u8>
    decreases k,
{
    if k == 0 {
        Seq::empty()
    } else if bits_have(bits, k) {
        digits_upto(bits, (k - 1) as u8).push(k)
    } else {
        digits_upto(bits, (k - 1) as u8)
    }
}

spec fn is_mask(x: u16) -> bool {
    x == 0x001 || x == 0x002 || x == 0x004 || x == 0x008 || x == 0x010 || x == 0x020 || x == 0x040
        || x == 0x080 || x == 0x100
}

proof fn lemma_mask_ops(b: u16, o: u16, x: u16)
    by (bit_vector)
    requires
        x == 0x001 || x == 0x002 || x == 0x004 || x == 0x008 || x == 0x010 || x == 0x020 || x
            == 0x040 || x == 0x080 || x == 0x100,
    ensures
        ((b & !o) & x != 0) <==> (b & x != 0 && o & x == 0),
        ((b | o) & x != 0) <==> (b & x != 0 || o & x != 0),
        (b & o == o) ==> (o & x != 0 ==> b & x != 0),
        0x1ffu16 & x != 0,
        0u16 & x == 0,
        (b & 0x1ff) & x == b & x,
{
}

proof fn lemma_mask_pair(x: u16, y: u16)
    by (bit_vector)
    requires
        x == 0x001 || x == 0x002 || x == 0x004 || x == 0x008 || x == 0x010 || x == 0x020 || x
            == 0x040 || x == 0x080 || x == 0x100,
        y == 0x001 || y == 0x002 || y == 0x004 || y == 0x008 || y == 0x010 || y == 0x020 || y
            == 0x040 || y == 0x080 || y == 0x100,
    ensures
        (x & y != 0) <==> x == y,
{
}

proof fn lemma_bits_bounds(b: u16, o: u16)
    by (bit_vector)
    ensures
        b < 512 ==> (b & !o) < 512,
        b < 512 && o < 512 ==> (b | o) < 512,
        (b & 0x1ff) < 512,
        b < 512 ==> b & 0x1ff == b,
{
}

proof fn lemma_bits_extensional(a: u16, b: u16)
    by (bit_vector)
    requires
        a < 512,
        b < 512,
        (a & 0x001 != 0) <==> (b & 0x001 != 0),
        (a & 0x002 != 0) <==> (b & 0x002 != 0),
        (a & 0x004 != 0) <==> (b & 0x004 != 0),
        (a & 0x008 != 0) <==> (b & 0x008 != 0),
        (a & 0x010 != 0) <==> (b & 0x010 != 0),
        (a & 0x020 != 0) <==> (b & 0x020 != 0),
        (a & 0x040 != 0) <==> (b & 0x040 != 0),
        (a & 0x080 != 0) <==> (b & 0x080 != 0),
        (a & 0x100 != 0) <==> (b & 0x100 != 0),
    ensures
        a == b,
{
}

proof fn lemma_bits_subset(b: u16, o: u16)
    by (bit_vector)
    requires
        o < 512,
        o & 0x001 != 0 ==> b & 0x001 != 0,
        o & 0x002 != 0 ==> b & 0x002 != 0,
        o & 0x004 != 0 ==> b & 0x004 != 0,
        o & 0x008 != 0 ==> b & 0x008 != 0,
        o & 0x010 != 0 ==> b & 0x010 != 0,
        o & 0x020 != 0 ==> b & 0x020 != 0,
        o & 0x040 != 0 ==> b & 0x040 != 0,
        o & 0x080 != 0 ==> b & 0x080 != 0,
        o & 0x100 != 0 ==> b & 0x100 != 0,
    ensures
        b & o == o,
{
}

/// A digit from 1 to 9 has a bit of its own.
proof fn lemma_digit_bit(d: u8)
    requires
        1 <= d <= 9,
    ensures
        is_mask(digit_bit(d)),
        digit_bit(d) < 512,
        forall|e: u8| 1 <= e <= 9 ==> (bits_have(digit_bit(d), e) <==> e == d),
{
    assert forall|e: u8| 1 <= e <= 9 implies (bits_have(digit_bit(d), e) <==> e == d) by {
        lemma_mask_pair(digit_bit(d), digit_bit(e));
    }
}

/// A digit is among the digits of a pattern exactly when its bit is set.
pub proof fn lemma_digits_of(bits: u16, d: u8)
    ensures
        digits_of(bits).contains(d) == bits_have(bits, d),
{
}

/// The bit of a digit from 1 to 9 holds that digit alone.
proof fn lemma_single_digit(d: u8)
    requires
        1 <= d <= 9,
    ensures
        digits_of(digit_bit(d)) == set![d],
{
    lemma_digit_bit(d);
    assert forall|e: u8| digits_of(digit_bit(d)).contains(e) <==> set![d].contains(e) by {
        lemma_digits_of(digit_bit(d), e);
    }
    assert(digits_of(digit_bit(d)) =~= set![d]);
}

/// Two bit patterns of nine bits that hold the same digits are the same.
pub proof fn lemma_digits_determine_bits(a: u16, b: u16)
    requires
        a < 512,
        b < 512,
        digits_of(a) == digits_of(b),
    ensures
        a == b,
{
    assert forall|d: u8| 1 <= d <= 9 implies (bits_have(a, d) <==> bits_have(b, d)) by {
        lemma_digits_of(a, d);
        lemma_digits_of(b, d);
    }
    assert(bits_have(a, 1) <==> bits_have(b, 1));
    assert(bits_have(a, 2) <==> bits_have(b, 2));
    assert(bits_have(a, 3) <==> bits_have(b, 3));
    assert(bits_have(a, 4) <==> bits_have(b, 4));
    assert(bits_have(a, 5) <==> bits_have(b, 5));
    assert(bits_have(a, 6) <==> bits_have(b, 6));
    assert(bits_have(a, 7) <==> bits_have(b, 7));
    assert(bits_have(a, 8) <==> bits_have(b, 8));
    assert(bits_have(a, 9) <==> bits_have(b, 9));
    lemma_bits_extensional(a, b);
}

/// The ascending list of the digits up to `k` holds exactly those digits,
/// each once.
pub proof fn lemma_digits_upto(bits: u16, k: u8)
    requires
        k <= 9,
    ensures
        digits_upto(bits, k).len() <= k,
        forall|i: int|
            0 <= i < digits_upto(bits, k).len() ==> 1 <= #[trigger] digits_upto(bits, k)[i] <= k
                && bits_have(bits, digits_upto(bits, k)[i]),
        forall|d: u8| bits_have(bits, d) && d <= k ==> digits_upto(bits, k).contains(d),
        forall|i: int, j: int|
            0 <= i < j < digits_upto(bits, k).len() ==> digits_upto(bits, k)[i] < digits_upto(
                bits,
                k,
            )[j],
        digits_upto(bits, k).no_duplicates(),
    decreases k,
{
    if k > 0 {
        let prev = digits_upto(bits, (k - 1) as u8);
        lemma_digits_upto(bits, (k - 1) as u8);
        let cur = digits_upto(bits, k);
        if bits_have(bits, k) {
            assert(cur == prev.push(k));
            assert forall|i: int| 0 <= i < cur.len() implies 1 <= #[trigger] cur[i] <= k
                && bits_have(bits, cur[i]) by {
                if i < prev.len() {
                    assert(cur[i] == prev[i]);
                }
            }
            assert forall|d: u8| bits_have(bits, d) && d <= k implies cur.contains(d) by {
                if d == k {
                    assert(cur[prev.len() as int] == d);
                } else {
                    assert(prev.contains(d));
                    let i = choose|i: int| 0 <= i < prev.len() && prev[i] == d;
                    assert(cur[i] == d);
                }
            }
            assert forall|i: int, j: int| 0 <= i < j < cur.len() implies cur[i] < cur[j] by {
                assert(cur[i] == prev[i]);
                if j < prev.len() {
                    assert(cur[j] == prev[j]);
                }
            }
        } else {
            assert(cur == prev);
            assert forall|d: u8| bits_have(bits, d) && d <= k implies cur.contains(d) by {
                assert(d <= k - 1);
            }
        }
    }
}

/// The digits of a bit pattern are finitely many, as many as its ascending
/// list is long.
pub proof fn lemma_digits_len(bits: u16)
    ensures
        digits_of(bits).finite(),
        digits_of(bits).len() == digits_upto(bits, 9).len(),
        digits_of(bits).len() <= 9,
        digits_upto(bits, 9).to_set() == digits_of(bits),
{
    lemma_digits_upto(bits, 9);
    let s = digits_upto(bits, 9);
    assert forall|d: u8| s.to_set().contains(d) <==> digits_of(bits).contains(d) by {
        lemma_digits_of(bits, d);
        if s.contains(d) {
            let i = choose|i: int| 0 <= i < s.len() && s[i] == d;
            assert(bits_have(bits, s[i]));
        }
    }
    assert(s.to_set() =~= digits_of(bits));
    s.unique_seq_to_set();
}

/// A set of digits from 1 to 9 has at most nine members.
pub proof fn lemma_digit_set_bound(digits: Set<u8>)
    requires
        forall|d: u8| digits.contains(d) ==> 1 <= d <= 9,
    ensures
        digits.finite(),
        digits.len() <= 9,
{
    let all = digits_of(0x1ffu16);
    lemma_digits_len(0x1ffu16);
    assert forall|d: u8| digits.contains(d) implies all.contains(d) by {
        lemma_digit_bit(d);
        lemma_mask_ops(0, 0, digit_bit(d));
        lemma_digits_of(0x1ffu16, d);
    }
    vstd::set_lib::lemma_len_subset(digits, all);
}

/// A set of digits between 1 and 9.
#[derive(Clone, Copy, Debug, PartialEq, Eq, Structural, Hash)]
pub struct CandidateSet {
    bits: u16,
}

impl View for CandidateSet {
    type V = Set<u8>;

    closed spec fn view(&self) -> Set<u8> {
        digits_of(self.bits)
    }
}

impl CandidateSet {
    #[verifier::type_invariant]
    spec fn well_formed(self) -> bool {
        self.bits < 512
    }

    /// The bit pattern behind the set.
    pub closed spec fn pattern(self) -> u16 {
        self.bits
    }

    /// The digits of the set in ascending order.
    pub open spec fn ordered(self) -> Seq<u8> {
        digits_upto(self.pattern(), 9)
    }

    /// The view is the set of digits of the pattern: finitely many, as many as
    /// the ascending list is long.
    pub proof fn lemma_view(self)
        ensures
            self@ == digits_of(self.pattern()),
            self@.finite(),
            self@.len() <= 9,
            self@.len() == self.ordered().len(),
            self.ordered().to_set() == self@,
            forall|i: int, j: int|
                0 <= i < j < self.ordered().len() ==> self.ordered()[i] < self.ordered()[j],
    {
        lemma_digits_len(self.bits);
        lemma_digits_upto(self.bits, 9);
    }

    /// The set without digits.
    pub fn empty() -> (r: Self)
        ensures
            r@ == Set::<u8>::empty(),
            r.pattern() == 0,
    {
        let r = CandidateSet { bits: 0 };
        proof {
            assert forall|d: u8| !bits_have(0u16, d) by {
                if 1 <= d <= 9 {
                    lemma_digit_bit(d);
                    lemma_mask_ops(0, 0, digit_bit(d));
                }
            }
            assert(r@ =~= Set::<u8>::empty());
        }
        r
    }

    /// The set of all nine digits.
    pub fn all() -> (r: Self)
        ensures
            r@ == Set::new(|d: u8| 1 <= d <= 9),
            r.pattern() == 0x1ff,
    {
        let r = CandidateSet { bits: 0x1ff };
        proof {
            assert forall|d: u8| 1 <= d <= 9 implies bits_have(0x1ffu16, d) by {
                lemma_digit_bit(d);
                lemma_mask_ops(0, 0, digit_bit(d));
            }
            assert(r@ =~= Set::new(|d: u8| 1 <= d <= 9));
        }
        r
    }

    /// The bit pattern behind the set.
    pub fn bits(&self) -> (r: u16)
        ensures
            r == self.pattern(),
            r < 512,
            digits_of(r) == self@,
    {
        proof {
            use_type_invariant(self);
        }
        self.bits
    }

    /// The set behind a bit pattern, if the pattern has no bit beyond the ninth.
    pub fn from_bits(bits: u16) -> (r: Option<Self>)
        ensures
            match r {
                Some(c) => bits < 512 && c.pattern() == bits && c@ == digits_of(bits),
                None => bits >= 512,
            },
    {
        if bits < 512 {
            Some(CandidateSet { bits })
        } else {
            None
        }
    }

    /// The set behind the nine low bits of a pattern.
    pub fn from_bits_truncate(bits: u16) -> (r: Self)
        ensures
            r@ == digits_of(bits),
            bits < 512 ==> r.pattern() == bits,
    {
        proof {
            lemma_bits_bounds(bits, 0);
            assert forall|d: u8| bits_have(bits & 0x1ff, d) <==> bits_have(bits, d) by {
                if 1 <= d <= 9 {
                    lemma_digit_bit(d);
                    lemma_mask_ops(bits, 0, digit_bit(d));
                }
            }
            assert(digits_of(bits & 0x1ff) =~= digits_of(bits));
        }
        CandidateSet { bits: bits & 0x1ff }
    }

    /// Whether the set has no digit.
    pub fn is_empty(&self) -> (r: bool)
        ensures
            r == self@.is_empty(),
            r == (self.pattern() == 0),
    {
        proof {
            use_type_invariant(self);
            if self.bits == 0 {
                assert forall|d: u8| !bits_have(0u16, d) by {
                    if 1 <= d <= 9 {
                        lemma_digit_bit(d);
                        lemma_mask_ops(0, 0, digit_bit(d));
                    }
                }
                assert(self@ =~= Set::<u8>::empty());
            } else {
                if self@.is_empty() {
                    assert(digits_of(0u16) =~= Set::<u8>::empty()) by {
                        assert forall|d: u8| !bits_have(0u16, d) by {
                            if 1 <= d <= 9 {
                                lemma_digit_bit(d);
                                lemma_mask_ops(0, 0, digit_bit(d));
                            }
                        }
                    }
                    lemma_digits_determine_bits(self.bits, 0);
                }
            }
        }
        self.bits == 0
    }

    /// Whether the set holds a digit.
    pub fn has(&self, digit: u8) -> (r: bool)
        ensures
            r == self@.contains(digit),
    {
        if 1 <= digit && digit <= 9 {
            let mask: u16 = Self::mask_of(digit);
            self.bits & mask != 0
        } else {
            false
        }
    }

    fn mask_of(digit: u8) -> (r: u16)
        ensures
            r == digit_bit(digit),
    {
        match digit {
            1 => 0x001,
            2 => 0x002,
            3 => 0x004,
            4 => 0x008,
            5 => 0x010,
            6 => 0x020,
            7 => 0x040,
            8 => 0x080,
            9 => 0x100,
            _ => 0,
        }
    }

    /// Whether every digit of `other` is in the set.
    pub fn contains(&self, other: CandidateSet) -> (r: bool)
        ensures
            r == other@.subset_of(self@),
    {
        proof {
            use_type_invariant(self);
            use_type_invariant(&other);
            let b = self.bits;
            let o = other.bits;
            if b & o == o {
                assert forall|d: u8| other@.contains(d) implies self@.contains(d) by {
                    lemma_digit_bit(d);
                    lemma_mask_ops(b, o, digit_bit(d));
                }
            }
            if other@.subset_of(self@) {
                assert forall|d: u8| 1 <= d <= 9 && bits_have(o, d) implies bits_have(b, d) by {
                    assert(other@.contains(d));
                    assert(self@.contains(d));
                }
                assert(bits_have(o, 1) ==> bits_have(b, 1));
                assert(bits_have(o, 2) ==> bits_have(b, 2));
                assert(bits_have(o, 3) ==> bits_have(b, 3));
                assert(bits_have(o, 4) ==> bits_have(b, 4));
                assert(bits_have(o, 5) ==> bits_have(b, 5));
                assert(bits_have(o, 6) ==> bits_have(b, 6));
                assert(bits_have(o, 7) ==> bits_have(b, 7));
                assert(bits_have(o, 8) ==> bits_have(b, 8));
                assert(bits_have(o, 9) ==> bits_have(b, 9));
                lemma_bits_subset(b, o);
            }
        }
        self.bits & other.bits == other.bits
    }

    /// Adds the digits of `other`.
    pub fn insert(&mut self, other: CandidateSet)
        ensures
            final(self)@ == old(self)@.union(other@),
    {
        proof {
            use_type_invariant(&*self);
            use_type_invariant(&other);
            lemma_bits_bounds(self.bits, other.bits);
            assert forall|d: u8|
                bits_have(self.bits | other.bits, d) <==> (bits_have(self.bits, d) || bits_have(
                    other.bits,
                    d,
                )) by {
                if 1 <= d <= 9 {
                    lemma_digit_bit(d);
                    lemma_mask_ops(self.bits, other.bits, digit_bit(d));
                }
            }
            assert forall|d: u8|
                digits_of(self.bits | other.bits).contains(d) <==> digits_of(self.bits).union(
                    digits_of(other.bits),
                ).contains(d) by {
                lemma_digits_of(self.bits | other.bits, d);
                lemma_digits_of(self.bits, d);
                lemma_digits_of(other.bits, d);
            }
            assert(digits_of(self.bits | other.bits) =~= digits_of(self.bits).union(
                digits_of(other.bits),
            ));
        }
        self.bits = self.bits | other.bits;
    }

    /// Takes the digits of `other` out. A digit that is not in the set is passed over.
    pub fn remove(&mut self, other: CandidateSet)
        ensures
            final(self)@ == old(self)@.difference(other@),
    {
        proof {
            use_type_invariant(&*self);
            use_type_invariant(&other);
            lemma_bits_bounds(self.bits, other.bits);
            assert forall|d: u8|
                bits_have(self.bits & !other.bits, d) <==> (bits_have(self.bits, d) && !bits_have(
                    other.bits,
                    d,
                )) by {
                if 1 <= d <= 9 {
                    lemma_digit_bit(d);
                    lemma_mask_ops(self.bits, other.bits, digit_bit(d));
                }
            }
            assert forall|d: u8|
                digits_of(self.bits & !other.bits).contains(d) <==> digits_of(
                    self.bits,
                ).difference(digits_of(other.bits)).contains(d) by {
                lemma_digits_of(self.bits & !other.bits, d);
                lemma_digits_of(self.bits, d);
                lemma_digits_of(other.bits, d);
            }
            assert(digits_of(self.bits & !other.bits) =~= digits_of(self.bits).difference(
                digits_of(other.bits),
            ));
        }
        self.bits = self.bits & !other.bits;
    }

    /// The number of digits in the set.
    pub fn len(&self) -> (r: usize)
        ensures
            r == self@.len(),
            r <= 9,
    {
        let mut count: usize = 0;
        let mut digit: u8 = 1;
        while digit <= 9
            invariant
                1 <= digit <= 10,
                count == digits_upto(self.bits, (digit - 1) as u8).len(),
                count < digit,
            decreases 10 - digit,
        {
            proof {
                lemma_digits_of(self.bits, digit);
            }
            if self.has(digit) {
                count += 1;
            }
            digit += 1;
        }
        proof {
            lemma_digits_len(self.bits);
        }
        count
    }

    /// The digits of the set, each as a set of its own, in ascending order.
    pub fn iter(&self) -> (r: Vec<CandidateSet>)
        ensures
            r@.len() == self.ordered().len(),
            forall|k: int| 0 <= k < r@.len() ==> (#[trigger] r@[k])@ == set![self.ordered()[k]],
            forall|k: int| 0 <= k < r@.len() ==> 1 <= #[trigger] self.ordered()[k] <= 9,
    {
        let mut items: Vec<CandidateSet> = Vec::new();
        let mut digit: u8 = 1;
        while digit <= 9
            invariant
                1 <= digit <= 10,
                items@.len() == digits_upto(self.bits, (digit - 1) as u8).len(),
                forall|k: int|
                    0 <= k < items@.len() ==> (#[trigger] items@[k])@ == set![digits_upto(
                        self.bits,
                        (digit - 1) as u8,
                    )[k]],
                forall|k: int|
                    0 <= k < items@.len() ==> 1 <= #[trigger] digits_upto(
                        self.bits,
                        (digit - 1) as u8,
                    )[k] <= 9,
            decreases 10 - digit,
        {
            proof {
                lemma_digits_of(self.bits, digit);
                lemma_digits_upto(self.bits, (digit - 1) as u8);
                lemma_from_digit(digit);
            }
            let ghost before = digits_upto(self.bits, (digit - 1) as u8);
            if self.has(digit) {
                items.push(CandidateSet::from(digit));
                assert(digits_upto(self.bits, digit) == before.push(digit));
            } else {
                assert(digits_upto(self.bits, digit) == before);
            }
            assert forall|k: int| 0 <= k < items@.len() implies (#[trigger] items@[k])@
                == set![digits_upto(self.bits, digit)[k]] by {
                if k < before.len() {
                    assert(digits_upto(self.bits, digit)[k] == before[k]);
                }
            }
            digit += 1;
        }
        items
    }

    /// The digit of a set of one digit, 0 for any other set.
    pub fn digit(&self) -> (r: u8)
        ensures
            r <= 9,
            r != 0 ==> self@ == set![r],
            r == 0 ==> forall|d: u8| self@ != set![d],
            forall|d: u8| self@ == #[trigger] set![d] ==> r == d,
    {
        let r: u8 = match self.bits {
            0x001 => 1,
            0x002 => 2,
            0x004 => 3,
            0x008 => 4,
            0x010 => 5,
            0x020 => 6,
            0x040 => 7,
            0x080 => 8,
            0x100 => 9,
            _ => 0,
        };
        proof {
            use_type_invariant(self);
            if r != 0 {
                assert(self.bits == digit_bit(r));
                lemma_single_digit(r);
            } else {
                assert forall|d: u8| self@ != set![d] by {
                    if self@ == set![d] {
                        assert(set![d].contains(d));
                        lemma_digits_of(self.bits, d);
                        lemma_single_digit(d);
                        lemma_digit_bit(d);
                        lemma_digits_determine_bits(self.bits, digit_bit(d));
                    }
                }
            }
            assert forall|d: u8| self@ == #[trigger] set![d] implies r == d by {
                assert(set![d].contains(d));
                assert(set![r].contains(d));
            }
        }
        r
    }
}

impl Default for CandidateSet {
    fn default() -> (r: Self)
        ensures
            r@ == Set::<u8>::empty(),
    {
        CandidateSet::empty()
    }
}

impl From<u8> for CandidateSet {
    fn from(item: u8) -> (r: CandidateSet) {
        let bits: u16 = match item {
            1 => 0x001,
            2 => 0x002,
            3 => 0x004,
            4 => 0x008,
            5 => 0x010,
            6 => 0x020,
            7 => 0x040,
            8 => 0x080,
            9 => 0x100,
            _ => 0,
        };
        CandidateSet { bits }
    }
}

impl vstd::std_specs::convert::FromSpecImpl<u8> for CandidateSet {
    open spec fn obeys_from_spec() -> bool {
        true
    }

    closed spec fn from_spec(item: u8) -> CandidateSet {
        CandidateSet { bits: digit_bit(item) }
    }
}

/// The set made from a digit holds that digit alone; from anything else it is empty.
pub proof fn lemma_from_digit(item: u8)
    ensures
        <CandidateSet as vstd::std_specs::convert::FromSpec<u8>>::from_spec(item)@ == (if 1 <= item <= 9 {
            set![item]
        } else {
            Set::<u8>::empty()
        }),
{
    let c = <CandidateSet as vstd::std_specs::convert::FromSpec<u8>>::from_spec(item);
    if 1 <= item <= 9 {
        lemma_single_digit(item);
    } else {
        assert forall|d: u8| !bits_have(0u16, d) by {
            if 1 <= d <= 9 {
                lemma_digit_bit(d);
                lemma_mask_ops(0, 0, digit_bit(d));
            }
        }
        assert(c@ =~= Set::<u8>::empty());
    }
}

/// Whether a digit is met in one of the first `k` cells of a list.
pub open spec fn met_among(cells: Seq<u8>, list: Seq<usize>, k: int, digit: u8) -> bool {
    exists|m: int| 0 <= m < k && cells[#[trigger] list[m] as int] == digit
}

/// Whether a cell has the same entry, or none, in two states.
pub open spec fn entry_same(a: BoardView, b: BoardView, cell_index: usize) -> bool {
    &&& a.candidates.contains_key(cell_index) == b.candidates.contains_key(cell_index)
    &&& a.candidates.contains_key(cell_index) ==> a.candidates[cell_index]
        == b.candidates[cell_index]
}

/// Whether a cell has an entry that holds exactly the digits allowed there.
pub open spec fn entry_fresh(b: BoardView, cell_index: usize) -> bool {
    &&& b.candidates.contains_key(cell_index)
    &&& forall|d: u8| #[trigger]
        b.candidates[cell_index].contains(d) <==> digit_allowed(b.cells, cell_index, d)
}

/// What making the entries of a region afresh leaves of the entry of a cell:
/// an empty cell of the region has a fresh entry, and all other cells keep
/// what they had.
pub open spec fn entry_refreshed(
    a: BoardView,
    b: BoardView,
    region: Set<usize>,
    cell_index: usize,
) -> bool {
    if region.contains(cell_index) && a.cells[cell_index as int] == 0 {
        entry_fresh(b, cell_index)
    } else {
        entry_same(a, b, cell_index)
    }
}

/// What a fill leaves of the entry of a cell: the cell that was filled has
/// none, a neighbour loses the digit and its entry with its last digit, and
/// all other cells keep what they had.
pub open spec fn entry_after_fill(
    a: BoardView,
    b: BoardView,
    index: usize,
    value: u8,
    cell_index: usize,
) -> bool {
    if cell_index == index {
        !b.candidates.contains_key(cell_index)
    } else if cell_index < CELLS && peers(index, cell_index) {
        if a.candidates.contains_key(cell_index) && !a.candidates[cell_index].remove(
            value,
        ).is_empty() {
            b.candidates.contains_key(cell_index) && b.candidates[cell_index]
                == a.candidates[cell_index].remove(value)
        } else {
            !b.candidates.contains_key(cell_index)
        }
    } else {
        entry_same(a, b, cell_index)
    }
}

/// The digits allowed in a cell.
pub open spec fn allowed_digits(cells: Seq<u8>, cell_index: usize) -> Set<u8> {
    Set::new(|d: u8| digit_allowed(cells, cell_index, d))
}

/// The candidate store that fits the cells and has entries for the cells in `dom`.
pub open spec fn fitting_candidates(cells: Seq<u8>, dom: Set<usize>) -> Map<usize, Set<u8>> {
    Map::new(|c: usize| dom.contains(c), |c: usize| allowed_digits(cells, c))
}

/// The cells that have an entry after a fill: those that had one, but for the
/// cell that was filled and for the neighbours that lost their last digit.
pub open spec fn dom_after_fill(
    candidates: Map<usize, Set<u8>>,
    index: usize,
    value: u8,
) -> Set<usize> {
    Set::new(
        |c: usize|
            candidates.contains_key(c) && c != index && !(c < CELLS && peers(index, c)
                && candidates[c].remove(value).is_empty()),
    )
}

/// The cells that have an entry after a clear: those that had one, and the
/// empty cells of the neighbourhood of the cell that was cleared.
pub open spec fn dom_after_clear(dom: Set<usize>, cleared: Seq<u8>, index: usize) -> Set<usize> {
    Set::new(
        |c: usize| dom.contains(c) || (c < CELLS && peers(index, c) && cleared[c as int] == 0),
    )
}

/// The cells that have an entry after a write. A digit that replaces
/// another one is taken out first.
pub open spec fn dom_after_set(v: BoardView, index: usize, value: u8) -> Set<usize> {
    let held = v.cells[index as int];
    let cleared = v.cells.update(index as int, 0);
    if held == value {
        v.candidates.dom()
    } else if value == 0 {
        dom_after_clear(v.candidates.dom(), cleared, index)
    } else if held == 0 {
        dom_after_fill(v.candidates, index, value)
    } else {
        dom_after_fill(
            fitting_candidates(cleared, dom_after_clear(v.candidates.dom(), cleared, index)),
            index,
            value,
        )
    }
}

/// A candidate store that fits the cells is the fitting store of its entries.
pub proof fn lemma_candidates_fit(v: BoardView)
    requires
        v.candidates_match(),
    ensures
        v.candidates == fitting_candidates(v.cells, v.candidates.dom()),
{
    let fit = fitting_candidates(v.cells, v.candidates.dom());
    assert forall|c: usize| v.candidates.contains_key(c) implies v.candidates[c] == fit[c] by {
        assert forall|d: u8| v.candidates[c].contains(d) <==> fit[c].contains(d) by {
            assert(v.has_candidate(c, d) <==> digit_allowed(v.cells, c, d));
        }
        assert(v.candidates[c] =~= fit[c]);
    }
    assert(v.candidates =~= fit);
}

/// The state of an entry while a fill is under way: the neighbours in
/// `done` and the filled cell are through, the others as they were.
pub open spec fn entry_during_fill(
    a: BoardView,
    b: BoardView,
    index: usize,
    value: u8,
    done: Set<usize>,
    cell_index: usize,
) -> bool {
    if cell_index == index || done.contains(cell_index) {
        entry_after_fill(a, b, index, value, cell_index)
    } else {
        entry_same(a, b, cell_index)
    }
}

/// The digits allowed in a cell are those met in none of its neighbours.
pub proof fn lemma_allowed_by_list(cells: Seq<u8>, cell_index: usize, list: Seq<usize>, digit: u8)
    requires
        list.to_set() == neighbors(cell_index),
        1 <= digit <= 9,
    ensures
        digit_allowed(cells, cell_index, digit) <==> !met_among(
            cells,
            list,
            list.len() as int,
            digit,
        ),
{
    if met_among(cells, list, list.len() as int, digit) {
        let m = choose|m: int| 0 <= m < list.len() && cells[#[trigger] list[m] as int] == digit;
        let j = list[m];
        assert(list.contains(j));
        assert(list.to_set().contains(j));
        assert(neighbors(cell_index).contains(j));
        assert(j < CELLS && peers(cell_index, j) && cells[j as int] == digit);
        assert(!digit_allowed(cells, cell_index, digit));
    }
    if !digit_allowed(cells, cell_index, digit) {
        let j = choose|j: usize| j < CELLS && peers(cell_index, j) && cells[j as int] == digit;
        assert(neighbors(cell_index).contains(j));
        assert(list.to_set().contains(j));
        assert(list.contains(j));
        let m = choose|m: int| 0 <= m < list.len() && list[m] == j;
        assert(cells[list[m] as int] == digit);
        assert(met_among(cells, list, list.len() as int, digit));
    }
}

/// One more item of a list makes the set of its first items one larger.
pub proof fn lemma_take_next<A>(list: Seq<A>, k: int)
    requires
        0 <= k < list.len(),
    ensures
        list.take(k + 1).to_set() == list.take(k).to_set().insert(list[k]),
        list.take(0).to_set() == Set::<A>::empty(),
        list.take(list.len() as int) == list,
{
    let prefix = list.take(k);
    let longer = list.take(k + 1);
    assert(longer == prefix.push(list[k]));
    assert forall|i: A| longer.to_set().contains(i) <==> prefix.to_set().insert(
        list[k],
    ).contains(i) by {
        if longer.contains(i) {
            let m = choose|m: int| 0 <= m < longer.len() && longer[m] == i;
            if m < k {
                assert(prefix[m] == i);
            }
        }
        if prefix.contains(i) {
            let m = choose|m: int| 0 <= m < prefix.len() && prefix[m] == i;
            assert(longer[m] == i);
        }
        if i == list[k] {
            assert(longer[k] == i);
        }
    }
    assert(longer.to_set() =~= prefix.to_set().insert(list[k]));
    assert(list.take(0).to_set() =~= Set::<A>::empty());
}

/// Gives each empty cell of a list a fresh entry: all digits but those met in
/// the neighbourhood of the cell. Filled cells are passed over.
pub fn generate_candidates<T: CandidateBase>(context: &mut T, indices: &Vec<usize>)
    requires
        old(context).structural(),
        old(context).board().cells.len() == CELLS,
        forall|m: int| 0 <= m < indices@.len() ==> indices@[m] < CELLS,
    ensures
        final(context).structural(),
        final(context).board().cells == old(context).board().cells,
        final(context).board().remaining == old(context).board().remaining,
        final(context).board().values == old(context).board().values,
        forall|i: usize| #[trigger]
            entry_refreshed(old(context).board(), final(context).board(), indices@.to_set(), i),
{
    let ghost before = context.board();
    let mut n: usize = 0;
    proof {
        assert(indices@.take(0).to_set() =~= Set::<usize>::empty());
        assert forall|i: usize| #[trigger]
            entry_refreshed(before, context.board(), indices@.take(0).to_set(), i) by {}
    }
    while n < indices.len()
        invariant
            n <= indices@.len(),
            context.structural(),
            context.board().cells == before.cells,
            context.board().remaining == before.remaining,
            context.board().values == before.values,
            before.cells.len() == CELLS,
            forall|m: int| 0 <= m < indices@.len() ==> indices@[m] < CELLS,
            forall|i: usize| #[trigger]
                entry_refreshed(before, context.board(), indices@.take(n as int).to_set(), i),
        decreases indices@.len() - n,
    {
        let cell_index = indices[n];
        let ghost prefix = indices@.take(n as int).to_set();
        let ghost longer = indices@.take(n as int + 1).to_set();
        let ghost earlier = context.board();
        proof {
            lemma_take_next(indices@, n as int);
        }
        n += 1;

        // A cell that holds a digit needs no candidates.
        if let Some(value) = context.cell(cell_index) {
            if value > 0 {
                proof {
                    assert forall|i: usize| #[trigger]
                        entry_refreshed(before, context.board(), longer, i) by {
                        assert(entry_refreshed(before, earlier, prefix, i));
                    }
                }
                continue;
            }
        }
        // Every digit met in the row, the column or the box of the cell
        // leaves its candidates.

        let mut candidates = CandidateSet::all();
        let associated = members(&rcb_containing(cell_index));
        let mut k: usize = 0;
        proof {
            assert forall|d: u8|
                candidates@.contains(d) <==> 1 <= d <= 9 && !met_among(
                    context.board().cells,
                    associated@,
                    0,
                    d,
                ) by {}
        }
        while k < associated.len()
            invariant
                k <= associated@.len(),
                cell_index < CELLS,
                context.board().cells.len() == CELLS,
                associated@.to_set() == neighbors(cell_index),
                forall|d: u8|
                    candidates@.contains(d) <==> 1 <= d <= 9 && !met_among(
                        context.board().cells,
                        associated@,
                        k as int,
                        d,
                    ),
            decreases associated@.len() - k,
        {
            let associated_index = associated[k];
            proof {
                assert(associated@.contains(associated_index));
                assert(associated@.to_set().contains(associated_index));
                assert(neighbors(cell_index).contains(associated_index));
            }
            let ghost kept = candidates@;
            let ghost cells = context.board().cells;
            if let Some(value) = context.cell(associated_index) {
                proof {
                    lemma_from_digit(value);
                }
                candidates.remove(CandidateSet::from(value));
            }
            proof {
                assert(cells[associated_index as int] == cells[associated@[k as int] as int]);
                assert forall|d: u8|
                    candidates@.contains(d) <==> 1 <= d <= 9 && !met_among(
                        cells,
                        associated@,
                        k as int + 1,
                        d,
                    ) by {
                    assert(candidates@.contains(d) <==> kept.contains(d) && cells[associated_index as int]
                        != d);
                    if met_among(cells, associated@, k as int + 1, d) {
                        let m = choose|m: int|
                            0 <= m < k + 1 && cells[#[trigger] associated@[m] as int] == d;
                        if m < k {
                            assert(met_among(cells, associated@, k as int, d));
                        }
                    }
                    if met_among(cells, associated@, k as int, d) {
                        let m = choose|m: int|
                            0 <= m < k && cells[#[trigger] associated@[m] as int] == d;
                        assert(0 <= m < k + 1 && cells[associated@[m] as int] == d);
                    }
                    if cells[associated_index as int] == d {
                        assert(cells[associated@[k as int] as int] == d);
                        assert(met_among(cells, associated@, k as int + 1, d));
                    }
                }
            }
            k += 1;
        }
        context.insert(cell_index, candidates);
        proof {
            assert forall|d: u8| #[trigger]
                context.board().candidates[cell_index].contains(d) <==> digit_allowed(
                    context.board().cells,
                    cell_index,
                    d,
                ) by {
                if 1 <= d <= 9 {
                    lemma_allowed_by_list(context.board().cells, cell_index, associated@, d);
                }
            }
            assert(entry_fresh(context.board(), cell_index));
            assert forall|i: usize| #[trigger]
                entry_refreshed(before, context.board(), longer, i) by {
                assert(entry_refreshed(before, earlier, prefix, i));
                if i != cell_index {
                    assert(entry_same(earlier, context.board(), i));
                    if prefix.contains(i) && before.cells[i as int] == 0 {
                        assert(entry_fresh(earlier, i));
                        assert(entry_fresh(context.board(), i));
                    }
                }
            }
        }
    }
    proof {
        lemma_take_all(indices@);
    }
}

/// The first no items of a list make the empty set.
pub proof fn lemma_take_none<A>(list: Seq<A>)
    ensures
        list.take(0).to_set() == Set::<A>::empty(),
{
    assert(list.take(0).to_set() =~= Set::<A>::empty());
}

/// A list taken whole is the list.
pub proof fn lemma_take_all<A>(list: Seq<A>)
    ensures
        list.take(list.len() as int) == list,
{
}

/// Takes a digit that went into a cell out of the candidates: the cell loses
/// its entry, and each neighbour loses the digit, and its entry with its last
/// digit.
pub fn remove_candidates<T: CandidateBase>(context: &mut T, index: usize, value: u8)
    requires
        old(context).structural(),
        index < CELLS,
        1 <= value <= 9,
    ensures
        final(context).structural(),
        final(context).board().cells == old(context).board().cells,
        final(context).board().remaining == old(context).board().remaining,
        final(context).board().values == old(context).board().values,
        forall|c: usize| #[trigger]
            entry_after_fill(old(context).board(), final(context).board(), index, value, c),
{
    let ghost before = context.board();
    context.remove(index);

    let associated = members(&rcb_containing(index));
    let mut k: usize = 0;
    proof {
        assert(associated@.take(0).to_set() =~= Set::<usize>::empty());
        assert forall|c: usize| #[trigger]
            entry_during_fill(
                before,
                context.board(),
                index,
                value,
                associated@.take(0).to_set(),
                c,
            ) by {}
    }
    while k < associated.len()
        invariant
            k <= associated@.len(),
            index < CELLS,
            1 <= value <= 9,
            context.structural(),
            context.board().cells == before.cells,
            context.board().remaining == before.remaining,
            context.board().values == before.values,
            associated@.to_set() == neighbors(index),
            forall|c: usize| #[trigger]
                entry_during_fill(
                    before,
                    context.board(),
                    index,
                    value,
                    associated@.take(k as int).to_set(),
                    c,
                ),
        decreases associated@.len() - k,
    {
        let cell_index = associated[k];
        let ghost prefix = associated@.take(k as int).to_set();
        let ghost longer = associated@.take(k as int + 1).to_set();
        let ghost earlier = context.board();
        proof {
            assert(associated@.contains(cell_index));
            assert(associated@.to_set().contains(cell_index));
            assert(neighbors(index).contains(cell_index));
            lemma_take_next(associated@, k as int);
            lemma_from_digit(value);
            assert(entry_during_fill(before, earlier, index, value, prefix, cell_index));
        }
        match context.remove_diff(cell_index, CandidateSet::from(value)) {
            Some(remaining) => {
                proof {
                    let had = earlier.candidates[cell_index];
                    assert(had.difference(set![value]) =~= had.remove(value));
                    assert(had.remove(value).remove(value) =~= had.remove(value));
                    assert(remaining@ == had.remove(value));
                }
                if remaining.is_empty() {
                    context.remove(cell_index);
                }
            },
            None => {},
        }
        proof {
            if cell_index != index {
                if earlier.candidates.contains_key(cell_index) {
                    let had = earlier.candidates[cell_index];
                    if had.remove(value).is_empty() {
                        assert(!context.board().candidates.contains_key(cell_index));
                    } else {
                        assert(context.board().candidates.contains_key(cell_index));
                        assert(context.board().candidates[cell_index] == had.remove(value));
                    }
                    if prefix.contains(cell_index) {
                        assert(entry_after_fill(before, earlier, index, value, cell_index));
                        assert(before.candidates.contains_key(cell_index));
                        assert(had == before.candidates[cell_index].remove(value));
                        assert(had.remove(value) =~= had);
                        assert(!had.is_empty());
                    } else {
                        assert(entry_same(before, earlier, cell_index));
                    }
                } else {
                    assert(!context.board().candidates.contains_key(cell_index));
                    if prefix.contains(cell_index) {
                        assert(entry_after_fill(before, earlier, index, value, cell_index));
                    } else {
                        assert(entry_same(before, earlier, cell_index));
                    }
                }
            } else {
                assert(entry_after_fill(before, earlier, index, value, cell_index));
                assert(!context.board().candidates.contains_key(cell_index));
            }
            assert(entry_after_fill(before, context.board(), index, value, cell_index));
            assert forall|c: usize| #[trigger]
                entry_during_fill(before, context.board(), index, value, longer, c) by {
                assert(entry_during_fill(before, earlier, index, value, prefix, c));
                if c != cell_index {
                    assert(entry_same(earlier, context.board(), c));
                }
            }
        }
        k += 1;
    }
    proof {
        lemma_take_all(associated@);
        assert forall|c: usize| #[trigger]
            entry_after_fill(before, context.board(), index, value, c) by {
            assert(entry_during_fill(before, context.board(), index, value, associated@.to_set(), c));
            if c != index && c < CELLS && peers(index, c) {
                assert(neighbors(index).contains(c));
            }
        }
    }
}

/// After a fill the candidate store fits the new grid, if it fitted the grid
/// before and every entry is what a fill leaves of it.
pub proof fn lemma_candidates_after_fill(mid: BoardView, now: BoardView, index: usize, value: u8)
    requires
        is_grid(mid.cells),
        index < CELLS,
        1 <= value <= 9,
        mid.cells[index as int] == value,
        mid.with_cells(mid.cells.update(index as int, 0)).candidates_match(),
        now.cells == mid.cells,
        forall|c: usize| #[trigger] entry_after_fill(mid, now, index, value, c),
        forall|i: usize| #[trigger] now.candidates.contains_key(i) ==> now.candidates[i].finite(),
    ensures
        now.candidates_match(),
{
    let past = mid.with_cells(mid.cells.update(index as int, 0));
    assert(mid.cells =~= past.cells.update(index as int, value));
    assert forall|i: usize| #[trigger] now.candidates.contains_key(i) implies i < CELLS
        && now.cells[i as int] == 0 && now.candidates[i].finite() by {
        assert(entry_after_fill(mid, now, index, value, i));
        assert(past.candidates.contains_key(i));
    }
    assert forall|i: usize, d: u8| i < CELLS && now.cells[i as int] == 0 implies (
    #[trigger] now.has_candidate(i, d) <==> digit_allowed(now.cells, i, d)) by {
        assert(entry_after_fill(mid, now, index, value, i));
        assert(past.has_candidate(i, d) <==> digit_allowed(past.cells, i, d));
        lemma_allowed_after_fill(past.cells, index, value, i, d);
    }
}

/// After a clear the candidate store fits the new grid, if it fitted the grid
/// before and the entries of the neighbourhood were made afresh.
pub proof fn lemma_candidates_after_clear(
    mid: BoardView,
    now: BoardView,
    index: usize,
    old_value: u8,
)
    requires
        is_grid(mid.cells),
        index < CELLS,
        1 <= old_value <= 9,
        mid.cells[index as int] == 0,
        mid.with_cells(mid.cells.update(index as int, old_value)).candidates_match(),
        now.cells == mid.cells,
        forall|i: usize| #[trigger] entry_refreshed(mid, now, neighbors(index), i),
        forall|i: usize| #[trigger] now.candidates.contains_key(i) ==> now.candidates[i].finite(),
    ensures
        now.candidates_match(),
{
    let past = mid.with_cells(mid.cells.update(index as int, old_value));
    assert(mid.cells =~= past.cells.update(index as int, 0));
    assert forall|i: usize| #[trigger] now.candidates.contains_key(i) implies i < CELLS
        && now.cells[i as int] == 0 && now.candidates[i].finite() by {
        assert(entry_refreshed(mid, now, neighbors(index), i));
        if !(neighbors(index).contains(i) && mid.cells[i as int] == 0) {
            assert(past.candidates.contains_key(i));
        }
    }
    assert forall|i: usize, d: u8| i < CELLS && now.cells[i as int] == 0 implies (
    #[trigger] now.has_candidate(i, d) <==> digit_allowed(now.cells, i, d)) by {
        assert(entry_refreshed(mid, now, neighbors(index), i));
        if !neighbors(index).contains(i) {
            assert(i != index);
            assert(past.has_candidate(i, d) <==> digit_allowed(past.cells, i, d));
            lemma_allowed_after_clear(past.cells, index, i, d);
        }
    }
}

/// The digit of the `t`-th item of the candidates of a cell.
pub(crate) fn digit_at(items: &Vec<CandidateSet>, t: usize, Ghost(ordered): Ghost<Seq<u8>>) -> (r:
    u8)
    requires
        t < items@.len(),
        items@.len() == ordered.len(),
        forall|k: int| 0 <= k < items@.len() ==> (#[trigger] items@[k])@ == set![ordered[k]],
    ensures
        r == ordered[t as int],
{
    let item = items[t];
    assert(item@ == set![ordered[t as int]]);
    item.digit()
}

/// All cells of the grid.
pub open spec fn all_cells() -> Set<usize> {
    Set::new(|i: usize| i < CELLS)
}

impl<T> Candidates for T where T: CandidateBase {
    fn init_candidates(&mut self) {
        let mut all: Vec<usize> = Vec::new();
        let mut i: usize = 0;
        while i < CELLS
            invariant
                i <= CELLS,
                all@.len() == i,
                forall|m: int| 0 <= m < i ==> all@[m] == m,
            decreases CELLS - i,
        {
            all.push(i);
            i += 1;
        }
        proof {
            assert forall|c: usize| all@.to_set().contains(c) <==> all_cells().contains(c) by {
                if c < CELLS {
                    assert(all@[c as int] == c);
                }
            }
            assert(all@.to_set() =~= all_cells());
        }
        generate_candidates(self, &all);
    }

    fn update_candidates(&mut self, index: usize, new_value: u8, _old_value: u8) {
        if new_value == 0 {
            let associated = members(&rcb_containing(index));
            proof {
                assert forall|m: int| 0 <= m < associated@.len() implies associated@[m]
                    < CELLS by {
                    assert(associated@.contains(associated@[m]));
                    assert(associated@.to_set().contains(associated@[m]));
                    assert(neighbors(index).contains(associated@[m]));
                }
            }
            generate_candidates(self, &associated);
        } else {
            remove_candidates(self, index, new_value);
        }
    }
}

} // verus!
