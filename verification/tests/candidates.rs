use waffle_iron::candidates::CandidateSet;

#[test]
fn empty_and_full_sets() {
    let empty = CandidateSet::empty();
    assert!(empty.is_empty());
    assert_eq!(empty.len(), 0);
    assert_eq!(empty.bits(), 0);
    let all = CandidateSet::all();
    assert!(!all.is_empty());
    assert_eq!(all.len(), 9);
    assert_eq!(all.bits(), 0x1ff);
    assert_eq!(CandidateSet::default(), empty);
    for digit in 1..=9u8 {
        assert!(all.has(digit));
        assert!(!empty.has(digit));
    }
    assert!(!all.has(0));
    assert!(!all.has(10));
}

#[test]
fn a_digit_becomes_its_own_bit() {
    assert_eq!(CandidateSet::from(1).bits(), 0x001);
    assert_eq!(CandidateSet::from(2).bits(), 0x002);
    assert_eq!(CandidateSet::from(3).bits(), 0x004);
    assert_eq!(CandidateSet::from(4).bits(), 0x008);
    assert_eq!(CandidateSet::from(5).bits(), 0x010);
    assert_eq!(CandidateSet::from(6).bits(), 0x020);
    assert_eq!(CandidateSet::from(7).bits(), 0x040);
    assert_eq!(CandidateSet::from(8).bits(), 0x080);
    assert_eq!(CandidateSet::from(9).bits(), 0x100);
    assert!(CandidateSet::from(0).is_empty());
    assert!(CandidateSet::from(10).is_empty());
    assert!(CandidateSet::from(255).is_empty());
}

#[test]
fn a_set_of_one_digit_gives_the_digit_back() {
    for digit in 1..=9u8 {
        assert_eq!(CandidateSet::from(digit).digit(), digit);
    }
    assert_eq!(CandidateSet::empty().digit(), 0);
    assert_eq!(CandidateSet::all().digit(), 0);
    let mut two = CandidateSet::from(3);
    two.insert(CandidateSet::from(4));
    assert_eq!(two.digit(), 0);
}

#[test]
fn removing_digits_from_a_set() {
    let mut set = CandidateSet::all();
    set.remove(CandidateSet::from(5));
    assert_eq!(set.len(), 8);
    assert!(!set.has(5));
    assert!(set.has(4));
    assert_eq!(set.bits(), 0x1ef);
    // A digit that is not in the set is passed over.
    set.remove(CandidateSet::from(5));
    assert_eq!(set.bits(), 0x1ef);
    set.remove(CandidateSet::from(0));
    assert_eq!(set.bits(), 0x1ef);
}

#[test]
fn inserting_digits_into_a_set() {
    let mut set = CandidateSet::empty();
    set.insert(CandidateSet::from(9));
    set.insert(CandidateSet::from(1));
    set.insert(CandidateSet::from(9));
    assert_eq!(set.bits(), 0x101);
    assert_eq!(set.len(), 2);
}

#[test]
fn one_set_contains_another() {
    let mut set = CandidateSet::empty();
    set.insert(CandidateSet::from(2));
    set.insert(CandidateSet::from(7));
    assert!(set.contains(CandidateSet::from(2)));
    assert!(set.contains(CandidateSet::from(7)));
    assert!(!set.contains(CandidateSet::from(3)));
    assert!(set.contains(CandidateSet::empty()));
    assert!(CandidateSet::all().contains(set));
    assert!(!set.contains(CandidateSet::all()));
}

#[test]
fn bit_patterns_beyond_nine_bits() {
    assert!(CandidateSet::from_bits(0x200).is_none());
    assert!(CandidateSet::from_bits(0xffff).is_none());
    assert_eq!(CandidateSet::from_bits(0x1ff), Some(CandidateSet::all()));
    assert_eq!(CandidateSet::from_bits(0), Some(CandidateSet::empty()));
    assert_eq!(CandidateSet::from_bits_truncate(0xffff), CandidateSet::all());
    assert_eq!(CandidateSet::from_bits_truncate(0x204).bits(), 0x004);
}

#[test]
fn digits_come_out_in_ascending_order() {
    let mut set = CandidateSet::empty();
    set.insert(CandidateSet::from(8));
    set.insert(CandidateSet::from(2));
    set.insert(CandidateSet::from(5));
    let digits: Vec<u8> = set.iter().iter().map(|item| item.digit()).collect();
    assert_eq!(digits, vec![2, 5, 8]);
    assert_eq!(CandidateSet::empty().iter().len(), 0);
    let all: Vec<u8> = CandidateSet::all().iter().iter().map(|item| item.digit()).collect();
    assert_eq!(all, vec![1, 2, 3, 4, 5, 6, 7, 8, 9]);
}
