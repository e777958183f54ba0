use std::collections::HashSet;
use waffle_iron::indices::{
    box_at, box_index, col_at, col_index, rcb_containing, row_at, row_index, IndexMap,
};

#[test]
fn row_column_and_box_of_a_cell() {
    assert_eq!(row_index(0), 0);
    assert_eq!(col_index(0), 0);
    assert_eq!(box_index(0), 0);
    assert_eq!(row_index(40), 4);
    assert_eq!(col_index(40), 4);
    assert_eq!(box_index(40), 4);
    assert_eq!(row_index(80), 8);
    assert_eq!(col_index(80), 8);
    assert_eq!(box_index(80), 8);
    assert_eq!(row_index(33), 3);
    assert_eq!(col_index(33), 6);
    assert_eq!(box_index(33), 5);
    assert_eq!(box_index(27), 3);
    assert_eq!(box_index(8), 2);
    assert_eq!(box_index(72), 6);
}

#[test]
fn box_index_follows_the_formula_for_every_cell() {
    for idx in 0..81usize {
        assert_eq!(row_index(idx), idx / 9);
        assert_eq!(col_index(idx), idx % 9);
        assert_eq!(box_index(idx), (idx / 27) * 3 + (idx / 3) % 3);
    }
}

#[test]
fn cells_of_rows_columns_and_boxes() {
    assert_eq!(row_at(0), [0, 1, 2, 3, 4, 5, 6, 7, 8]);
    assert_eq!(row_at(8), [72, 73, 74, 75, 76, 77, 78, 79, 80]);
    assert_eq!(col_at(0), [0, 9, 18, 27, 36, 45, 54, 63, 72]);
    assert_eq!(col_at(5), [5, 14, 23, 32, 41, 50, 59, 68, 77]);
    assert_eq!(box_at(0), [0, 1, 2, 9, 10, 11, 18, 19, 20]);
    assert_eq!(box_at(4), [30, 31, 32, 39, 40, 41, 48, 49, 50]);
    assert_eq!(box_at(8), [60, 61, 62, 69, 70, 71, 78, 79, 80]);
}

#[test]
fn every_region_holds_the_cells_that_name_it() {
    for region in 0..9usize {
        for cell in row_at(region) {
            assert_eq!(row_index(cell), region);
        }
        for cell in col_at(region) {
            assert_eq!(col_index(cell), region);
        }
        for cell in box_at(region) {
            assert_eq!(box_index(cell), region);
        }
    }
}

#[test]
fn neighbourhood_of_the_first_cell() {
    let expected: HashSet<usize> = [
        0, 1, 2, 3, 4, 5, 6, 7, 8, 9, 18, 27, 36, 45, 54, 63, 72, 10, 11, 19, 20,
    ]
    .into_iter()
    .collect();
    assert_eq!(rcb_containing(0), expected);
}

#[test]
fn every_neighbourhood_has_21_cells_and_holds_its_cell() {
    for cell in 0..81usize {
        let set = rcb_containing(cell);
        assert_eq!(set.len(), 21);
        assert!(set.contains(&cell));
        for other in 0..81usize {
            let sees = row_index(cell) == row_index(other)
                || col_index(cell) == col_index(other)
                || box_index(cell) == box_index(other);
            assert_eq!(set.contains(&other), sees);
        }
    }
}

#[test]
fn index_map_agrees_with_the_functions() {
    let map = IndexMap::new();
    for region in 0..9usize {
        assert_eq!(map.rows[region], row_at(region));
        assert_eq!(map.columns[region], col_at(region));
        assert_eq!(map.boxes[region], box_at(region));
    }
    assert_eq!(map.rcb.len(), 81);
    for cell in 0..81usize {
        assert_eq!(map.rcb[cell], rcb_containing(cell));
    }
}
