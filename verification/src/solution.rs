//! What a solution of a grid is, and what a list of moves must offer so that
//! a search over it finds every solution once.

use crate::board::{
    count_empty, digit_allowed, empty_cells, is_grid, lemma_count_empty_update,
    lemma_count_empty_zero, lemma_view_determined, state_of, BoardView,
};
use crate::indices::{
    box_cell, box_index, box_position, col_cell, col_index, col_of, lemma_box_cell,
    lemma_col_cell, lemma_region_members, lemma_row_cell, peers, row_cell, row_index, row_of,
    CELLS,
};
use crate::sudoku::choices::{Choice, CollectionKey};
use crate::values::value_key::{SetType, ValueKey};
use vstd::prelude::*;
use vstd::relations::injective_on;
use vstd::set_lib::{lemma_int_range, lemma_map_size, lemma_subset_equality, set_int_range};

verus! {

/// Every cell holds a digit from 1 to 9.
pub open spec fn is_complete(s: Seq<u8>) -> bool {
    &&& s.len() == CELLS
    &&& forall|i: int| 0 <= i < s.len() ==> 1 <= #[trigger] s[i] <= 9
}

/// `s` holds every digit that `g` holds, in the same cell.
pub open spec fn extends(s: Seq<u8>, g: Seq<u8>) -> bool {
    &&& s.len() == g.len()
    &&& forall|i: int| 0 <= i < g.len() && g[i] != 0 ==> #[trigger] s[i] == g[i]
}

/// No two cells that see each other hold the same digit.
pub open spec fn no_conflicts(s: Seq<u8>) -> bool {
    forall|a: usize, b: usize|
        a < CELLS && b < CELLS && a != b && #[trigger] peers(a, b) && s[a as int] != 0 ==> s[a as int]
            != s[b as int]
}

/// `s` solves `g`: it fills every cell, keeps the digits of `g` and has no
/// digit twice in a row, a column or a box.
pub open spec fn is_solution_of(g: Seq<u8>, s: Seq<u8>) -> bool {
    &&& is_complete(s)
    &&& extends(s, g)
    &&& no_conflicts(s)
}

/// `s` completes `g`: it fills every cell, keeps the digits of `g`, and the
/// digit in a cell that `g` leaves empty is met in no cell that the cell
/// sees. Where `g` has no digit twice in a region, that is a solution.
pub open spec fn is_completion_of(g: Seq<u8>, s: Seq<u8>) -> bool {
    &&& is_complete(s)
    &&& extends(s, g)
    &&& forall|a: usize, b: usize|
        a < CELLS && b < CELLS && a != b && #[trigger] peers(a, b) && g[a as int] == 0 ==> s[a as int]
            != s[b as int]
}

/// Whether a grid holds the digit of a move in the cell of the move.
pub open spec fn move_fits(s: Seq<u8>, m: (usize, u8)) -> bool {
    m.0 < CELLS && s[m.0 as int] == m.1
}

/// Every move puts an allowed digit into an empty cell.
pub open spec fn moves_sound(g: Seq<u8>, moves: Seq<(usize, u8)>) -> bool {
    forall|t: int|
        0 <= t < moves.len() ==> (#[trigger] moves[t]).0 < CELLS && g[moves[t].0 as int] == 0
            && digit_allowed(g, moves[t].0, moves[t].1)
}

/// Every solution of the grid holds one of the moves.
pub open spec fn moves_complete(g: Seq<u8>, moves: Seq<(usize, u8)>) -> bool {
    forall|s: Seq<u8>| #[trigger]
        is_solution_of(g, s) ==> exists|t: int|
            0 <= t < moves.len() && #[trigger] move_fits(s, moves[t])
}

/// No completion of the grid holds two of the moves.
pub open spec fn moves_exclusive(g: Seq<u8>, moves: Seq<(usize, u8)>) -> bool {
    forall|s: Seq<u8>, t: int, u: int|
        is_completion_of(g, s) && 0 <= t < u < moves.len() ==> !(#[trigger] move_fits(s, moves[t])
            && #[trigger] move_fits(s, moves[u]))
}

/// The moves are the digits of one cell, in ascending order.
pub open spec fn lists_candidates(moves: Seq<(usize, u8)>, cell_index: usize, digits: Set<u8>) -> bool {
    &&& forall|t: int|
        0 <= t < moves.len() ==> (#[trigger] moves[t]).0 == cell_index && digits.contains(
            moves[t].1,
        )
    &&& forall|t: int, u: int|
        0 <= t < u < moves.len() ==> (#[trigger] moves[t]).1 < (#[trigger] moves[u]).1
    &&& forall|d: u8| #[trigger]
        digits.contains(d) ==> exists|t: int|
            0 <= t < moves.len() && #[trigger] moves[t] == (cell_index, d)
}

/// The moves are the locations of one digit, each once.
pub open spec fn lists_locations(moves: Seq<(usize, u8)>, value: u8, locations: Set<usize>) -> bool {
    &&& forall|t: int|
        0 <= t < moves.len() ==> (#[trigger] moves[t]).1 == value && locations.contains(
            moves[t].0,
        )
    &&& forall|t: int, u: int|
        0 <= t < u < moves.len() ==> (#[trigger] moves[t]).0 != (#[trigger] moves[u]).0
    &&& forall|c: usize| #[trigger]
        locations.contains(c) ==> exists|t: int|
            0 <= t < moves.len() && #[trigger] moves[t] == (c, value)
}

/// A solution is a completion.
pub proof fn lemma_solution_completes(g: Seq<u8>, s: Seq<u8>)
    requires
        is_solution_of(g, s),
    ensures
        is_completion_of(g, s),
{
}

/// A completion of a grid without conflicts is a solution.
pub proof fn lemma_completion_solves(g: Seq<u8>, s: Seq<u8>)
    requires
        is_completion_of(g, s),
        no_conflicts(g),
    ensures
        is_solution_of(g, s),
{
    assert forall|a: usize, b: usize|
        a < CELLS && b < CELLS && a != b && #[trigger] peers(a, b) && s[a as int]
            != 0 implies s[a as int] != s[b as int] by {
        if g[a as int] != 0 {
            if g[b as int] != 0 {
                assert(s[a as int] == g[a as int]);
                assert(s[b as int] == g[b as int]);
            } else {
                assert(peers(b, a));
            }
        }
    }
}

/// The digit that a completion puts into an empty cell is allowed there.
pub proof fn lemma_completion_allows(g: Seq<u8>, s: Seq<u8>, cell_index: usize)
    requires
        is_completion_of(g, s),
        cell_index < CELLS,
        g[cell_index as int] == 0,
    ensures
        digit_allowed(g, cell_index, s[cell_index as int]),
{
    let d = s[cell_index as int];
    assert forall|j: usize| j < CELLS && #[trigger] peers(cell_index, j) implies g[j as int]
        != d by {
        if g[j as int] == d {
            assert(s[j as int] == g[j as int]);
        }
    }
}

/// The `j`-th cell of the region of a key.
pub open spec fn key_cell(key: ValueKey, j: int) -> int {
    match key.set_type {
        SetType::Row => row_cell(key.set_index as int, j),
        SetType::Col => col_cell(key.set_index as int, j),
        SetType::Box => box_cell(key.set_index as int, j),
    }
}

/// The cells of the region of a key lie in the region, each at its own place.
pub proof fn lemma_key_cell(key: ValueKey, j: int)
    requires
        key.valid(),
        0 <= j < 9,
    ensures
        0 <= key_cell(key, j) < CELLS,
        key.covers(key_cell(key, j) as usize),
        (match key.set_type {
            SetType::Row => col_of(key_cell(key, j) as usize),
            SetType::Col => row_of(key_cell(key, j) as usize),
            SetType::Box => box_position(key_cell(key, j) as usize),
        }) == j,
{
    lemma_row_cell(key.set_index as int, j);
    lemma_col_cell(key.set_index as int, j);
    lemma_box_cell(key.set_index as int, j);
}

/// Two cells of one region see each other.
pub proof fn lemma_region_peers(key: ValueKey, a: usize, b: usize)
    requires
        key.covers(a),
        key.covers(b),
    ensures
        peers(a, b),
{
}

/// A grid that is filled without conflicts holds every digit in every region.
pub proof fn lemma_region_holds_digit(s: Seq<u8>, key: ValueKey)
    requires
        is_complete(s),
        no_conflicts(s),
        key.valid(),
    ensures
        exists|c: usize| #[trigger] key.covers(c) && s[c as int] == key.value,
{
    let places = set_int_range(0, 9);
    let digit_at = |j: int| s[key_cell(key, j)] as int;
    let met = places.map(digit_at);
    let digits = set_int_range(1, 10);
    lemma_int_range(0, 9);
    lemma_int_range(1, 10);
    assert forall|x1: int, x2: int|
        places.contains(x1) && places.contains(x2) && #[trigger] digit_at(x1) == #[trigger] digit_at(
            x2,
        ) implies x1 == x2 by {
        if x1 != x2 {
            lemma_key_cell(key, x1);
            lemma_key_cell(key, x2);
            let a = key_cell(key, x1) as usize;
            let b = key_cell(key, x2) as usize;
            lemma_region_peers(key, a, b);
            assert(a != b);
            assert(peers(a, b));
            assert(s[a as int] != 0);
            assert(s[a as int] != s[b as int]);
        }
    }
    assert(injective_on(digit_at, places));
    lemma_map_size(places, met, digit_at);
    assert forall|d: int| met.contains(d) implies digits.contains(d) by {
        let j = choose|j: int| places.contains(j) && d == digit_at(j);
        lemma_key_cell(key, j);
    }
    lemma_subset_equality(met, digits);
    assert(digits.contains(key.value as int));
    assert(met.contains(key.value as int));
    let j = choose|j: int| places.contains(j) && key.value as int == digit_at(j);
    lemma_key_cell(key, j);
    let c = key_cell(key, j) as usize;
    assert(key.covers(c) && s[c as int] == key.value);
}

/// The candidates of a cell, listed as moves, offer what a search needs.
pub proof fn lemma_moves_for_cell(v: BoardView, cell_index: usize, moves: Seq<(usize, u8)>)
    requires
        v.wf(),
        v.candidates.contains_key(cell_index),
        lists_candidates(moves, cell_index, v.candidates[cell_index]),
    ensures
        moves_sound(v.cells, moves),
        moves_complete(v.cells, moves),
        moves_exclusive(v.cells, moves),
{
    assert forall|t: int| 0 <= t < moves.len() implies (#[trigger] moves[t]).0 < CELLS
        && v.cells[moves[t].0 as int] == 0 && digit_allowed(v.cells, moves[t].0, moves[t].1) by {
        assert(v.has_candidate(cell_index, moves[t].1));
    }
    assert forall|s: Seq<u8>| #[trigger] is_solution_of(v.cells, s) implies exists|t: int|
        0 <= t < moves.len() && #[trigger] move_fits(s, moves[t]) by {
        lemma_solution_completes(v.cells, s);
        lemma_completion_allows(v.cells, s, cell_index);
        let d = s[cell_index as int];
        assert(v.has_candidate(cell_index, d));
        assert(v.candidates[cell_index].contains(d));
        let t = choose|t: int| 0 <= t < moves.len() && #[trigger] moves[t] == (cell_index, d);
        assert(move_fits(s, moves[t]));
    }
    assert forall|s: Seq<u8>, t: int, u: int|
        is_completion_of(v.cells, s) && 0 <= t < u < moves.len() implies !(#[trigger] move_fits(
            s,
            moves[t],
        ) && #[trigger] move_fits(s, moves[u])) by {
        assert(moves[t].0 == cell_index && moves[u].0 == cell_index);
        assert(moves[t].1 < moves[u].1);
    }
}

/// The locations of a digit key, listed as moves, offer what a search needs.
pub proof fn lemma_moves_for_key(v: BoardView, key: ValueKey, moves: Seq<(usize, u8)>)
    requires
        v.wf(),
        v.values.contains_key(key),
        lists_locations(moves, key.value, v.values[key]),
    ensures
        moves_sound(v.cells, moves),
        moves_complete(v.cells, moves),
        moves_exclusive(v.cells, moves),
{
    assert(key.valid());
    assert forall|t: int| 0 <= t < moves.len() implies (#[trigger] moves[t]).0 < CELLS
        && v.cells[moves[t].0 as int] == 0 && digit_allowed(v.cells, moves[t].0, moves[t].1) by {
        assert(v.has_location(key, moves[t].0));
    }
    assert forall|s: Seq<u8>| #[trigger] is_solution_of(v.cells, s) implies exists|t: int|
        0 <= t < moves.len() && #[trigger] move_fits(s, moves[t]) by {
        lemma_solution_completes(v.cells, s);
        lemma_region_holds_digit(s, key);
        let c = choose|c: usize| #[trigger] key.covers(c) && s[c as int] == key.value;
        // Some cell of the region can still take the digit, so the region
        // does not hold it yet: the solution puts it into an empty cell.
        assert(!v.values[key].is_empty());
        let open = choose|open: usize| v.values[key].contains(open);
        assert(v.has_location(key, open));
        lemma_region_peers(key, open, c);
        if v.cells[c as int] != 0 {
            assert(s[c as int] == v.cells[c as int]);
            assert(peers(open, c));
            assert(false);
        }
        lemma_completion_allows(v.cells, s, c);
        assert(v.has_location(key, c));
        let t = choose|t: int| 0 <= t < moves.len() && #[trigger] moves[t] == (c, key.value);
        assert(move_fits(s, moves[t]));
    }
    assert forall|s: Seq<u8>, t: int, u: int|
        is_completion_of(v.cells, s) && 0 <= t < u < moves.len() implies !(#[trigger] move_fits(
            s,
            moves[t],
        ) && #[trigger] move_fits(s, moves[u])) by {
        let a = moves[t].0;
        let b = moves[u].0;
        assert(v.has_location(key, a));
        assert(v.has_location(key, b));
        lemma_region_peers(key, a, b);
        assert(a != b);
        assert(peers(a, b));
    }
}

/// Where a grid has empty cells and the queue has no entry, the grid has no
/// solution.
pub proof fn lemma_no_choice(v: BoardView)
    requires
        v.wf(),
        v.remaining > 0,
        forall|c: Choice| !v.choices.contains(c),
    ensures
        moves_complete(v.cells, Seq::empty()),
{
    lemma_count_empty_zero(v.cells);
    let i = choose|i: int| 0 <= i < v.cells.len() && v.cells[i] == 0;
    let cell_index = i as usize;
    if v.candidates.contains_key(cell_index) {
        let choice = Choice {
            possibilities: v.candidates[cell_index].len() as usize,
            key: CollectionKey::Candidates(cell_index),
        };
        assert(v.candidates[cell_index].len() <= 9) by {
            assert forall|d: u8| v.candidates[cell_index].contains(d) implies 1 <= d <= 9 by {
                assert(v.has_candidate(cell_index, d));
            }
            crate::candidates::lemma_digit_set_bound(v.candidates[cell_index]);
        }
        assert(v.choices.contains(choice));
    }
    assert forall|s: Seq<u8>| #[trigger] is_solution_of(v.cells, s) implies false by {
        lemma_solution_completes(v.cells, s);
        lemma_completion_allows(v.cells, s, cell_index);
        assert(v.has_candidate(cell_index, s[cell_index as int]));
    }
}

/// A digit key has at most nine locations.
pub proof fn lemma_locations_bound(v: BoardView, key: ValueKey)
    requires
        v.wf(),
        v.values.contains_key(key),
    ensures
        v.values[key].finite(),
        v.values[key].len() <= 9,
{
    let region = Seq::new(9, |j: int| key_cell(key, j) as usize);
    assert forall|c: usize| v.values[key].contains(c) implies region.to_set().contains(c) by {
        assert(v.has_location(key, c));
        lemma_region_members(c);
        let place = match key.set_type {
            SetType::Row => col_of(c),
            SetType::Col => row_of(c),
            SetType::Box => box_position(c),
        };
        assert(region[place] == c);
    }
    vstd::seq_lib::seq_to_set_is_finite(region);
    region.lemma_cardinality_of_set();
    vstd::set_lib::lemma_len_subset(v.values[key], region.to_set());
}

/// The grid after a move.
pub open spec fn after_move(g: Seq<u8>, m: (usize, u8)) -> Seq<u8> {
    g.update(m.0 as int, m.1)
}

/// A completion of the grid after a move completes the grid before it, and
/// holds the move.
pub proof fn lemma_completion_lifts(g: Seq<u8>, m: (usize, u8), s: Seq<u8>)
    requires
        g.len() == CELLS,
        m.0 < CELLS,
        g[m.0 as int] == 0,
        digit_allowed(g, m.0, m.1),
        is_completion_of(after_move(g, m), s),
    ensures
        is_completion_of(g, s),
        move_fits(s, m),
{
    let child = after_move(g, m);
    assert(s[m.0 as int] == child[m.0 as int]);
    assert forall|i: int| 0 <= i < g.len() && g[i] != 0 implies #[trigger] s[i] == g[i] by {
        assert(child[i] == g[i]);
    }
    assert forall|a: usize, b: usize|
        a < CELLS && b < CELLS && a != b && #[trigger] peers(a, b) && g[a as int] == 0 implies s[a as int]
            != s[b as int] by {
        if a != m.0 {
            assert(child[a as int] == 0);
        } else {
            if child[b as int] == 0 {
                assert(peers(b, a));
            } else {
                assert(s[b as int] == child[b as int]);
                assert(child[b as int] == g[b as int]);
            }
        }
    }
}

/// A solution that holds a move solves the grid after the move.
pub proof fn lemma_solution_descends(g: Seq<u8>, m: (usize, u8), s: Seq<u8>)
    requires
        g.len() == CELLS,
        is_solution_of(g, s),
        move_fits(s, m),
    ensures
        is_solution_of(after_move(g, m), s),
{
    let child = after_move(g, m);
    assert forall|i: int| 0 <= i < child.len() && child[i] != 0 implies #[trigger] s[i]
        == child[i] by {
        if i != m.0 {
            assert(child[i] == g[i]);
        }
    }
}

/// An allowed digit in an empty cell brings no conflict into a grid.
pub proof fn lemma_move_keeps_valid(g: Seq<u8>, m: (usize, u8))
    requires
        g.len() == CELLS,
        no_conflicts(g),
        m.0 < CELLS,
        g[m.0 as int] == 0,
        digit_allowed(g, m.0, m.1),
    ensures
        no_conflicts(after_move(g, m)),
{
    let child = after_move(g, m);
    assert forall|a: usize, b: usize|
        a < CELLS && b < CELLS && a != b && #[trigger] peers(a, b) && child[a as int]
            != 0 implies child[a as int] != child[b as int] by {
        if a == m.0 {
            assert(child[b as int] == g[b as int]);
        } else if b == m.0 {
            assert(peers(b, a));
            assert(child[a as int] == g[a as int]);
        } else {
            assert(child[a as int] == g[a as int]);
            assert(child[b as int] == g[b as int]);
        }
    }
}

/// A grid without empty cells is its own and only completion.
pub proof fn lemma_full_grid(g: Seq<u8>)
    requires
        is_grid(g),
        count_empty(g) == 0,
    ensures
        is_completion_of(g, g),
        forall|s: Seq<u8>| #[trigger] is_solution_of(g, s) ==> s == g,
        forall|moves: Seq<(usize, u8)>| #[trigger] moves_sound(g, moves) ==> moves.len() == 0,
{
    lemma_count_empty_zero(g);
    assert forall|s: Seq<u8>| #[trigger] is_solution_of(g, s) implies s == g by {
        assert(s =~= g);
    }
    assert forall|moves: Seq<(usize, u8)>| #[trigger] moves_sound(g, moves) implies moves.len()
        == 0 by {
        if moves.len() > 0 {
            assert(g[moves[0].0 as int] == 0);
        }
    }
}

/// The last empty cell of a grid without conflicts has one move at most.
pub proof fn lemma_single_move(g: Seq<u8>, moves: Seq<(usize, u8)>)
    requires
        is_grid(g),
        no_conflicts(g),
        count_empty(g) == 1,
        moves_sound(g, moves),
        moves_exclusive(g, moves),
    ensures
        moves.len() <= 1,
{
    if moves.len() >= 2 {
        let m0 = moves[0];
        let m1 = moves[1];
        let c = m0.0;
        let s0 = after_move(g, m0);
        lemma_count_empty_update(g, c as int, m0.1);
        lemma_count_empty_zero(s0);
        assert(s0[m1.0 as int] != 0);
        assert(m1.0 == c);
        assert(is_complete(s0)) by {
            assert forall|i: int| 0 <= i < s0.len() implies 1 <= #[trigger] s0[i] <= 9 by {
                if i != c {
                    assert(s0[i] == g[i]);
                }
            }
        }
        assert(is_completion_of(g, s0)) by {
            assert forall|a: usize, b: usize|
                a < CELLS && b < CELLS && a != b && #[trigger] peers(a, b) && g[a as int]
                    == 0 implies s0[a as int] != s0[b as int] by {
                assert(s0[a as int] != 0);
                assert(a == c);
                assert(s0[b as int] == g[b as int]);
            }
        }
        assert(move_fits(s0, moves[0]));
        assert(!move_fits(s0, moves[1]));
        let d1 = m1.1;
        assert(d1 != m0.1);
        lemma_completion_solves(g, s0);
        lemma_region_members(c);
        let key = ValueKey { value: d1, set_type: SetType::Row, set_index: row_of(c) as usize };
        lemma_region_holds_digit(s0, key);
        let other = choose|other: usize| #[trigger] key.covers(other) && s0[other as int] == d1;
        assert(other != c);
        assert(g[other as int] == d1);
        assert(peers(c, other));
        assert(false);
    }
}

/// `s` solves `g`, and nothing else does.
pub open spec fn only_solution(g: Seq<u8>, s: Seq<u8>) -> bool {
    &&& is_solution_of(g, s)
    &&& forall|t: Seq<u8>| #[trigger] is_solution_of(g, t) ==> t == s
}

/// A solution of a grid still solves it after a cell was cleared.
pub proof fn lemma_cleared_keeps_solution(g: Seq<u8>, s: Seq<u8>, index: int)
    requires
        is_solution_of(g, s),
        0 <= index < g.len(),
    ensures
        is_solution_of(g.update(index, 0), s),
{
    let cleared = g.update(index, 0);
    assert forall|i: int| 0 <= i < cleared.len() && cleared[i] != 0 implies #[trigger] s[i]
        == cleared[i] by {
        assert(cleared[i] == g[i]);
    }
}

/// Whether two cells see each other.
pub fn sees(a: usize, b: usize) -> (r: bool)
    ensures
        r == peers(a, b),
{
    row_index(a) == row_index(b) || col_index(a) == col_index(b) || box_index(a) == box_index(b)
}

/// Whether the first `n` cells hold a digit from 1 to 9 that none of the
/// other cells that they see holds.
pub open spec fn checked_upto(s: Seq<u8>, n: int) -> bool {
    &&& forall|i: int| 0 <= i < n ==> 1 <= #[trigger] s[i] <= 9
    &&& forall|a: usize, b: usize|
        a < n && b < CELLS && a != b && #[trigger] peers(a, b) ==> s[a as int] != s[b as int]
}

/// Whether a grid is filled with digits from 1 to 9, none of them twice in a
/// row, a column or a box.
pub fn is_valid_solution(cells: &[u8; 81]) -> (r: bool)
    ensures
        r == (is_complete(cells@) && no_conflicts(cells@)),
{
    let mut a: usize = 0;
    while a < 81
        invariant
            a <= 81,
            checked_upto(cells@, a as int),
        decreases 81 - a,
    {
        let digit = cells[a];
        if digit < 1 || digit > 9 {
            return false;
        }
        let mut b: usize = 0;
        while b < 81
            invariant
                b <= 81,
                a < 81,
                1 <= digit <= 9,
                digit == cells@[a as int],
                forall|other: usize|
                    other < b && other != a && #[trigger] peers(a, other) ==> cells@[other as int]
                        != digit,
            decreases 81 - b,
        {
            if b != a && sees(a, b) && cells[b] == digit {
                proof {
                    assert(peers(a, b));
                    assert(cells@[a as int] != 0);
                }
                return false;
            }
            b += 1;
        }
        a += 1;
    }
    true
}

/// Whether a grid has a completion.
pub open spec fn completable(g: Seq<u8>) -> bool {
    exists|s: Seq<u8>| is_completion_of(g, s)
}

/// A consistent state over a grid that has a completion is the state of the
/// grid: every empty cell has an entry of candidates.
pub proof fn lemma_completable_state(v: BoardView)
    requires
        v.wf(),
        completable(v.cells),
    ensures
        v.candidates.dom() == empty_cells(v.cells),
        v == state_of(v.cells),
{
    let s = choose|s: Seq<u8>| is_completion_of(v.cells, s);
    assert forall|i: usize| v.candidates.dom().contains(i) <==> empty_cells(v.cells).contains(
        i,
    ) by {
        if i < CELLS && v.cells[i as int] == 0 {
            lemma_completion_allows(v.cells, s, i);
            assert(v.has_candidate(i, s[i as int]));
        }
    }
    assert(v.candidates.dom() =~= empty_cells(v.cells));
    lemma_view_determined(state_of(v.cells), v);
}

/// A grid that holds a digit twice in a row, a column or a box has no
/// solution: whatever fills its empty cells keeps the two digits.
pub proof fn lemma_conflict_stays(g: Seq<u8>, s: Seq<u8>, a: usize, b: usize)
    requires
        g.len() == CELLS,
        a < CELLS,
        b < CELLS,
        a != b,
        peers(a, b),
        g[a as int] != 0,
        g[a as int] == g[b as int],
        extends(s, g),
    ensures
        s[a as int] == s[b as int],
        !no_conflicts(s),
        !is_solution_of(g, s),
{
    assert(s[a as int] == g[a as int]);
    assert(s[b as int] == g[b as int]);
}

} // verus!
