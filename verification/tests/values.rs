use waffle_iron::sudoku::choices::{Choice, CollectionKey};
use waffle_iron::values::value_key::{SetType, ValueKey};
use waffle_iron::values::{associated_key, associated_sets, rcb_value_key, region_cells};

#[test]
fn keys_of_a_digit_at_a_cell() {
    let keys = rcb_value_key(33, 7);
    assert_eq!(keys[0], ValueKey { value: 7, set_type: SetType::Row, set_index: 3 });
    assert_eq!(keys[1], ValueKey { value: 7, set_type: SetType::Col, set_index: 6 });
    assert_eq!(keys[2], ValueKey { value: 7, set_type: SetType::Box, set_index: 5 });
}

#[test]
fn the_other_kinds_of_region() {
    assert_eq!(associated_sets(SetType::Row), [SetType::Col, SetType::Box]);
    assert_eq!(associated_sets(SetType::Col), [SetType::Row, SetType::Box]);
    assert_eq!(associated_sets(SetType::Box), [SetType::Row, SetType::Col]);
    assert_eq!(
        associated_key(4, SetType::Box, 80),
        ValueKey { value: 4, set_type: SetType::Box, set_index: 8 }
    );
    assert_eq!(
        associated_key(4, SetType::Col, 10),
        ValueKey { value: 4, set_type: SetType::Col, set_index: 1 }
    );
}

#[test]
fn cells_of_a_region_by_kind() {
    assert_eq!(region_cells(SetType::Row, 1), [9, 10, 11, 12, 13, 14, 15, 16, 17]);
    assert_eq!(region_cells(SetType::Col, 8), [8, 17, 26, 35, 44, 53, 62, 71, 80]);
    assert_eq!(region_cells(SetType::Box, 2), [6, 7, 8, 15, 16, 17, 24, 25, 26]);
    assert_eq!(SetType::Row.region_index(33), 3);
    assert_eq!(SetType::Col.region_index(33), 6);
    assert_eq!(SetType::Box.region_index(33), 5);
}

#[test]
fn letters_of_the_kinds_of_region() {
    assert_eq!(SetType::Row.symbol(), "R");
    assert_eq!(SetType::Col.symbol(), "C");
    assert_eq!(SetType::Box.symbol(), "B");
}

#[test]
fn key_codes_count_through_all_keys() {
    assert_eq!(ValueKey { value: 1, set_type: SetType::Row, set_index: 0 }.encode(), 0);
    assert_eq!(ValueKey { value: 1, set_type: SetType::Row, set_index: 8 }.encode(), 8);
    assert_eq!(ValueKey { value: 1, set_type: SetType::Col, set_index: 0 }.encode(), 9);
    assert_eq!(ValueKey { value: 1, set_type: SetType::Box, set_index: 0 }.encode(), 18);
    assert_eq!(ValueKey { value: 2, set_type: SetType::Row, set_index: 0 }.encode(), 27);
    assert_eq!(ValueKey { value: 9, set_type: SetType::Box, set_index: 8 }.encode(), 242);
    for code in 0..243usize {
        assert_eq!(ValueKey::decode(code).encode(), code);
    }
    assert_eq!(
        ValueKey::decode(100),
        ValueKey { value: 4, set_type: SetType::Box, set_index: 1 }
    );
}

#[test]
fn key_ranks_put_cells_before_digit_keys() {
    assert_eq!(CollectionKey::Candidates(0).to_rank(), 0);
    assert_eq!(CollectionKey::Candidates(80).to_rank(), 80);
    let first = ValueKey { value: 1, set_type: SetType::Row, set_index: 0 };
    assert_eq!(CollectionKey::Values(first).to_rank(), 81);
    let last = ValueKey { value: 9, set_type: SetType::Box, set_index: 8 };
    assert_eq!(CollectionKey::Values(last).to_rank(), 323);
    assert_eq!(CollectionKey::from_rank(17), CollectionKey::Candidates(17));
    assert_eq!(CollectionKey::from_rank(81), CollectionKey::Values(first));
    for rank in 0..324usize {
        assert_eq!(CollectionKey::from_rank(rank).to_rank(), rank);
    }
}

#[test]
fn a_choice_keeps_its_parts() {
    let choice = Choice::new(3, CollectionKey::Candidates(12));
    assert_eq!(choice.possibilities, 3);
    assert_eq!(choice.key, CollectionKey::Candidates(12));
}
