//! Geometry of the 81-cell grid: rows, columns, boxes and neighbourhoods.

use std::collections::HashSet;
use vstd::prelude::*;

verus! {

/// Number of cells of the grid.
pub const CELLS: usize = 81;

/// Row of a cell.
#[verifier::opaque]
pub open spec fn row_of(cell_index: usize) -> int {
    cell_index as int / 9
}

/// Column of a cell.
#[verifier::opaque]
pub open spec fn col_of(cell_index: usize) -> int {
    cell_index as int % 9
}

/// Box of a cell, boxes counted row by row.
#[verifier::opaque]
pub open spec fn box_of(cell_index: usize) -> int {
    cell_index as int / 27 * 3 + cell_index as int / 3 % 3
}

/// Position of a cell within its box, positions counted row by row.
#[verifier::opaque]
pub open spec fn box_position(cell_index: usize) -> int {
    cell_index as int / 9 % 3 * 3 + cell_index as int % 3
}

/// The `k`-th cell of a row.
pub open spec fn row_cell(row: int, k: int) -> int {
    row * 9 + k
}

/// The `k`-th cell of a column.
pub open spec fn col_cell(col: int, k: int) -> int {
    k * 9 + col
}

/// The `k`-th cell of a box.
#[verifier::opaque]
pub open spec fn box_cell(b: int, k: int) -> int {
    (b / 3 * 3 + k / 3) * 9 + (b % 3 * 3 + k % 3)
}

/// Two cells see each other when they share a row, a column or a box.
/// Every cell sees itself.
pub open spec fn peers(a: usize, b: usize) -> bool {
    ||| row_of(a) == row_of(b)
    ||| col_of(a) == col_of(b)
    ||| box_of(a) == box_of(b)
}

/// The neighbourhood of a cell: the cell itself and the 20 others it sees.
pub open spec fn neighbors(cell_index: usize) -> Set<usize> {
    Set::new(|j: usize| j < CELLS && peers(cell_index, j))
}

proof fn lemma_cell_arith(c: u32, row: u32, col: u32, b: u32, p: u32)
    by (bit_vector)
    requires
        c < 81,
        row == c / 9,
        col == c % 9,
        b == c / 27 * 3 + c / 3 % 3,
        p == c / 9 % 3 * 3 + c % 3,
    ensures
        row < 9,
        col < 9,
        b < 9,
        p < 9,
        row * 9 + col == c,
        (b / 3 * 3 + p / 3) * 9 + (b % 3 * 3 + p % 3) == c,
{
}

proof fn lemma_region_arith(s: u32, k: u32, rc: u32, bc: u32)
    by (bit_vector)
    requires
        s < 9,
        k < 9,
        rc == s * 9 + k,
        bc == (s / 3 * 3 + k / 3) * 9 + (s % 3 * 3 + k % 3),
    ensures
        rc < 81,
        rc / 9 == s,
        rc % 9 == k,
        bc < 81,
        bc / 27 * 3 + bc / 3 % 3 == s,
        bc / 9 % 3 * 3 + bc % 3 == k,
{
}

/// Every cell is the member of its row at its column, of its column at its
/// row, and of its box at its position in the box.
pub proof fn lemma_region_members(cell_index: usize)
    requires
        cell_index < CELLS,
    ensures
        0 <= row_of(cell_index) < 9,
        0 <= col_of(cell_index) < 9,
        0 <= box_of(cell_index) < 9,
        0 <= box_position(cell_index) < 9,
        row_cell(row_of(cell_index), col_of(cell_index)) == cell_index,
        col_cell(col_of(cell_index), row_of(cell_index)) == cell_index,
        box_cell(box_of(cell_index), box_position(cell_index)) == cell_index,
{
    reveal(row_of);
    reveal(col_of);
    reveal(box_of);
    reveal(box_position);
    reveal(box_cell);
    lemma_cell_arith(
        cell_index as u32,
        row_of(cell_index) as u32,
        col_of(cell_index) as u32,
        box_of(cell_index) as u32,
        box_position(cell_index) as u32,
    );
}

/// The `k`-th member of a row lies in the grid, in that row and at column `k`.
pub proof fn lemma_row_cell(row: int, k: int)
    requires
        0 <= row < 9,
        0 <= k < 9,
    ensures
        0 <= row_cell(row, k) < CELLS,
        row_of(row_cell(row, k) as usize) == row,
        col_of(row_cell(row, k) as usize) == k,
{
    reveal(row_of);
    reveal(col_of);
    reveal(box_of);
    reveal(box_position);
    reveal(box_cell);
    lemma_region_arith(row as u32, k as u32, row_cell(row, k) as u32, box_cell(row, k) as u32);
}

/// The `k`-th member of a column lies in the grid, in that column and at row `k`.
pub proof fn lemma_col_cell(col: int, k: int)
    requires
        0 <= col < 9,
        0 <= k < 9,
    ensures
        0 <= col_cell(col, k) < CELLS,
        col_of(col_cell(col, k) as usize) == col,
        row_of(col_cell(col, k) as usize) == k,
{
    reveal(row_of);
    reveal(col_of);
    reveal(box_of);
    reveal(box_position);
    reveal(box_cell);
    lemma_region_arith(k as u32, col as u32, col_cell(col, k) as u32, box_cell(k, col) as u32);
}

/// The `k`-th member of a box lies in the grid, in that box and at position `k`.
pub proof fn lemma_box_cell(b: int, k: int)
    requires
        0 <= b < 9,
        0 <= k < 9,
    ensures
        0 <= box_cell(b, k) < CELLS,
        box_of(box_cell(b, k) as usize) == b,
        box_position(box_cell(b, k) as usize) == k,
{
    reveal(row_of);
    reveal(col_of);
    reveal(box_of);
    reveal(box_position);
    reveal(box_cell);
    lemma_region_arith(b as u32, k as u32, row_cell(b, k) as u32, box_cell(b, k) as u32);
}

/// The row of a cell.
pub fn row_index(cell_index: usize) -> (r: usize)
    ensures
        r == row_of(cell_index),
{
    proof {
        reveal(row_of);
    }
    cell_index / 9
}

/// The column of a cell.
pub fn col_index(cell_index: usize) -> (r: usize)
    ensures
        r == col_of(cell_index),
{
    proof {
        reveal(col_of);
    }
    cell_index % 9
}

/// The box of a cell, boxes counted row by row.
pub fn box_index(cell_index: usize) -> (r: usize)
    ensures
        r == box_of(cell_index),
{
    proof {
        reveal(box_of);
    }
    let box_y: usize = cell_index / 27 * 3;
    let box_x: usize = cell_index / 3 % 3;

    box_x + box_y
}

/// The nine cells of a row, left to right.
pub fn row_at(row_index: usize) -> (r: [usize; 9])
    requires
        row_index < 9,
    ensures
        forall|k: int| 0 <= k < 9 ==> r@[k] == row_cell(row_index as int, k),
{
    let mut cells: [usize; 9] = [0usize; 9];
    let mut x: usize = 0;
    while x < 9
        invariant
            x <= 9,
            row_index < 9,
            forall|k: int| 0 <= k < x ==> cells@[k] == row_cell(row_index as int, k),
        decreases 9 - x,
    {
        cells[x] = row_index * 9 + x;
        x += 1;
    }
    cells
}

/// The nine cells of a column, top to bottom.
pub fn col_at(col_index: usize) -> (r: [usize; 9])
    requires
        col_index < 9,
    ensures
        forall|k: int| 0 <= k < 9 ==> r@[k] == col_cell(col_index as int, k),
{
    let mut cells: [usize; 9] = [0usize; 9];
    let mut y: usize = 0;
    while y < 9
        invariant
            y <= 9,
            col_index < 9,
            forall|k: int| 0 <= k < y ==> cells@[k] == col_cell(col_index as int, k),
        decreases 9 - y,
    {
        cells[y] = y * 9 + col_index;
        y += 1;
    }
    cells
}

/// The nine cells of a box, row by row.
pub fn box_at(box_index: usize) -> (r: [usize; 9])
    requires
        box_index < 9,
    ensures
        forall|k: int| 0 <= k < 9 ==> r@[k] == box_cell(box_index as int, k),
{
    let mut cells: [usize; 9] = [0usize; 9];
    let mut c: usize = 0;
    while c < 9
        invariant
            c <= 9,
            box_index < 9,
            forall|k: int| 0 <= k < c ==> cells@[k] == box_cell(box_index as int, k),
        decreases 9 - c,
    {
        proof {
            reveal(box_cell);
        }
        let y: usize = box_index / 3 * 3 + c / 3;
        let x: usize = box_index % 3 * 3 + c % 3;
        cells[c] = y * 9 + x;
        c += 1;
    }
    cells
}

/// Whether `j` is among the first `n` members of the row, the column or the
/// box of `cell_index`.
pub open spec fn among_first(cell_index: usize, j: usize, n: int) -> bool {
    &&& j < CELLS
    &&& {
        ||| row_of(j) == row_of(cell_index) && col_of(j) < n
        ||| col_of(j) == col_of(cell_index) && row_of(j) < n
        ||| box_of(j) == box_of(cell_index) && box_position(j) < n
    }
}

/// The cells of a row, a column and a box, gathered into one set.
fn gather(cell_index: usize, r: &[usize; 9], c: &[usize; 9], b: &[usize; 9]) -> (set: HashSet<
    usize,
>)
    requires
        cell_index < CELLS,
        forall|k: int| 0 <= k < 9 ==> r@[k] == row_cell(row_of(cell_index), k),
        forall|k: int| 0 <= k < 9 ==> c@[k] == col_cell(col_of(cell_index), k),
        forall|k: int| 0 <= k < 9 ==> b@[k] == box_cell(box_of(cell_index), k),
    ensures
        set@ == neighbors(cell_index),
        set@.finite(),
{
    broadcast use vstd::std_specs::hash::group_hash_axioms;

    // Each neighbourhood has 21 members: 9 of the box, 6 of the row beyond
    // the box, and 6 of the column beyond the box.

    let mut set: HashSet<usize> = HashSet::with_capacity(21);
    assert forall|j: usize| !among_first(cell_index, j, 0) by {
        if j < CELLS {
            lemma_region_members(j);
        }
    }
    let mut i: usize = 0;
    while i < 9
        invariant
            i <= 9,
            cell_index < CELLS,
            set@.finite(),
            forall|k: int| 0 <= k < 9 ==> r@[k] == row_cell(row_of(cell_index), k),
            forall|k: int| 0 <= k < 9 ==> c@[k] == col_cell(col_of(cell_index), k),
            forall|k: int| 0 <= k < 9 ==> b@[k] == box_cell(box_of(cell_index), k),
            forall|j: usize| set@.contains(j) <==> among_first(cell_index, j, i as int),
        decreases 9 - i,
    {
        proof {
            lemma_region_members(cell_index);
            lemma_row_cell(row_of(cell_index), i as int);
            lemma_col_cell(col_of(cell_index), i as int);
            lemma_box_cell(box_of(cell_index), i as int);
        }
        set.insert(r[i]);
        set.insert(c[i]);
        set.insert(b[i]);
        assert forall|j: usize| set@.contains(j) <==> among_first(
            cell_index,
            j,
            i as int + 1,
        ) by {
            if j < CELLS {
                lemma_region_members(j);
            }
        }
        i += 1;
    }
    proof {
        assert forall|j: usize| set@.contains(j) <==> neighbors(cell_index).contains(j) by {
            if j < CELLS {
                lemma_region_members(j);
            }
        }
        assert(set@ =~= neighbors(cell_index));
    }
    set
}

/// The neighbourhood of a cell as a set of 21 cell indices.
pub fn rcb_containing(cell_index: usize) -> (r: HashSet<usize>)
    requires
        cell_index < CELLS,
    ensures
        r@ == neighbors(cell_index),
        r@.finite(),
{
    proof {
        lemma_region_members(cell_index);
    }
    let r = row_at(row_index(cell_index));
    let c = col_at(col_index(cell_index));
    let b = box_at(box_index(cell_index));
    gather(cell_index, &r, &c, &b)
}

/// The geometry of the grid as tables: the cells of every row, column and
/// box, and the neighbourhood of every cell.
pub struct IndexMap {
    pub rows: [[usize; 9]; 9],
    pub columns: [[usize; 9]; 9],
    pub boxes: [[usize; 9]; 9],
    pub rcb: Vec<HashSet<usize>>,
}

impl IndexMap {
    /// The three tables of regions are filled for the cells below `n`.
    pub open spec fn regions_filled(&self, n: int) -> bool {
        forall|i: usize|
            i < n && i < CELLS ==> self.rows@[#[trigger] row_of(i)]@[col_of(i)] == i
                && self.columns@[col_of(i)]@[row_of(i)] == i && self.boxes@[box_of(
                i,
            )]@[box_position(i)] == i
    }

    /// Every table holds what the geometry says.
    pub open spec fn wf(&self) -> bool {
        &&& forall|s: int, k: int|
            0 <= s < 9 && 0 <= k < 9 ==> #[trigger] self.rows@[s]@[k] == row_cell(s, k)
        &&& forall|s: int, k: int|
            0 <= s < 9 && 0 <= k < 9 ==> #[trigger] self.columns@[s]@[k] == col_cell(s, k)
        &&& forall|s: int, k: int|
            0 <= s < 9 && 0 <= k < 9 ==> #[trigger] self.boxes@[s]@[k] == box_cell(s, k)
        &&& self.rcb@.len() == CELLS
        &&& forall|i: int| 0 <= i < CELLS ==> (#[trigger] self.rcb@[i])@ == neighbors(i as usize)
    }

    /// The tables of the grid.
    pub fn new() -> (map: IndexMap)
        ensures
            map.wf(),
    {
        let mut map = IndexMap {
            rows: [[0usize;9];9],
            columns: [[0usize;9];9],
            boxes: [[0usize;9];9],
            rcb: Vec::new(),
        };

        map.populate_indices();
        map.generate_rcb();

        map
    }

    fn populate_indices(&mut self)
        ensures
            final(self).rcb == old(self).rcb,
            forall|s: int, k: int|
                0 <= s < 9 && 0 <= k < 9 ==> #[trigger] final(self).rows@[s]@[k] == row_cell(
                    s,
                    k,
                ),
            forall|s: int, k: int|
                0 <= s < 9 && 0 <= k < 9 ==> #[trigger] final(self).columns@[s]@[k] == col_cell(
                    s,
                    k,
                ),
            forall|s: int, k: int|
                0 <= s < 9 && 0 <= k < 9 ==> #[trigger] final(self).boxes@[s]@[k] == box_cell(
                    s,
                    k,
                ),
    {
        let mut cell_index: usize = 0;

        let mut y: usize = 0;
        while y < 9
            invariant
                y <= 9,
                cell_index == y * 9,
                self.rcb == old(self).rcb,
                self.regions_filled(cell_index as int),
            decreases 9 - y,
        {
            let mut x: usize = 0;
            while x < 9
                invariant
                    x <= 9,
                    y < 9,
                    cell_index == y * 9 + x,
                    self.rcb == old(self).rcb,
                    self.regions_filled(cell_index as int),
                decreases 9 - x,
            {
                // The box at this x and y, and the place of the cell in it.
                let b: usize = ((y / 3) * 3) + (x / 3);
                let c: usize = ((y % 3) * 3) + (x % 3);
                let ghost earlier = *self;
                proof {
                    lemma_row_cell(y as int, x as int);
                    lemma_region_members(cell_index);
                    lemma_coordinates(cell_index, y, x, b, c);
                }
                let mut row = self.rows[y];
                row[x] = cell_index;
                self.rows[y] = row;
                let mut column = self.columns[x];
                column[y] = cell_index;
                self.columns[x] = column;
                let mut members = self.boxes[b];
                members[c] = cell_index;
                self.boxes[b] = members;
                proof {
                    assert forall|i: usize| i < cell_index + 1 && i < CELLS implies self.rows@[
                    #[trigger] row_of(i)]@[col_of(i)] == i && self.columns@[col_of(i)]@[row_of(i)]
                        == i && self.boxes@[box_of(i)]@[box_position(i)] == i by {
                        lemma_region_members(i);
                        if i < cell_index {
                            assert(earlier.rows@[row_of(i)]@[col_of(i)] == i);
                            lemma_distinct_places(i, cell_index);
                        }
                    }
                }
                cell_index += 1;
                x += 1;
            }
            y += 1;
        }
        proof {
            assert forall|s: int, k: int| 0 <= s < 9 && 0 <= k < 9 implies
                #[trigger] self.rows@[s]@[k] == row_cell(s, k) by {
                lemma_row_cell(s, k);
                let i = row_cell(s, k) as usize;
                assert(self.rows@[row_of(i)]@[col_of(i)] == i);
            }
            assert forall|s: int, k: int| 0 <= s < 9 && 0 <= k < 9 implies
                #[trigger] self.columns@[s]@[k] == col_cell(s, k) by {
                lemma_col_cell(s, k);
                let i = col_cell(s, k) as usize;
                assert(self.rows@[row_of(i)]@[col_of(i)] == i);
            }
            assert forall|s: int, k: int| 0 <= s < 9 && 0 <= k < 9 implies
                #[trigger] self.boxes@[s]@[k] == box_cell(s, k) by {
                lemma_box_cell(s, k);
                let i = box_cell(s, k) as usize;
                assert(self.rows@[row_of(i)]@[col_of(i)] == i);
            }
        }
    }

    fn generate_rcb(&mut self)
        requires
            old(self).rcb@.len() == 0,
            forall|s: int, k: int|
                0 <= s < 9 && 0 <= k < 9 ==> #[trigger] old(self).rows@[s]@[k] == row_cell(s, k),
            forall|s: int, k: int|
                0 <= s < 9 && 0 <= k < 9 ==> #[trigger] old(self).columns@[s]@[k] == col_cell(
                    s,
                    k,
                ),
            forall|s: int, k: int|
                0 <= s < 9 && 0 <= k < 9 ==> #[trigger] old(self).boxes@[s]@[k] == box_cell(
                    s,
                    k,
                ),
        ensures
            final(self).wf(),
    {
        let mut position: usize = 0;
        while position < 81
            invariant
                position <= 81,
                self.rows == old(self).rows,
                self.columns == old(self).columns,
                self.boxes == old(self).boxes,
                self.rcb@.len() == position,
                forall|s: int, k: int|
                    0 <= s < 9 && 0 <= k < 9 ==> #[trigger] self.rows@[s]@[k] == row_cell(s, k),
                forall|s: int, k: int|
                    0 <= s < 9 && 0 <= k < 9 ==> #[trigger] self.columns@[s]@[k] == col_cell(
                        s,
                        k,
                    ),
                forall|s: int, k: int|
                    0 <= s < 9 && 0 <= k < 9 ==> #[trigger] self.boxes@[s]@[k] == box_cell(s, k),
                forall|i: int|
                    0 <= i < position ==> (#[trigger] self.rcb@[i])@ == neighbors(i as usize),
            decreases 81 - position,
        {
            proof {
                lemma_region_members(position);
            }
            let r = self.rows[row_index(position)];
            let c = self.columns[col_index(position)];
            let b = self.boxes[box_index(position)];

            proof {
                assert forall|k: int| 0 <= k < 9 implies r@[k] == row_cell(row_of(position), k) by {
                    assert(self.rows@[row_of(position)]@[k] == row_cell(row_of(position), k));
                }
                assert forall|k: int| 0 <= k < 9 implies c@[k] == col_cell(col_of(position), k) by {
                    assert(self.columns@[col_of(position)]@[k] == col_cell(col_of(position), k));
                }
                assert forall|k: int| 0 <= k < 9 implies b@[k] == box_cell(box_of(position), k) by {
                    assert(self.boxes@[box_of(position)]@[k] == box_cell(box_of(position), k));
                }
            }
            // All members of the row, the column and the box go into the set.
            let set = gather(position, &r, &c, &b);

            self.rcb.push(set);
            position += 1;
        }
    }
}

/// The row, the column, the box and the place in the box of a cell, from
/// its coordinates.
proof fn lemma_coordinates(cell_index: usize, y: usize, x: usize, b: usize, c: usize)
    requires
        y < 9,
        x < 9,
        cell_index == y * 9 + x,
        b == ((y / 3) * 3) + (x / 3),
        c == ((y % 3) * 3) + (x % 3),
    ensures
        row_of(cell_index) == y,
        col_of(cell_index) == x,
        box_of(cell_index) == b,
        box_position(cell_index) == c,
        b < 9,
        c < 9,
{
    reveal(row_of);
    reveal(col_of);
    reveal(box_of);
    reveal(box_position);
    lemma_coordinates_arith(cell_index as u32, y as u32, x as u32, b as u32, c as u32);
}

proof fn lemma_coordinates_arith(i: u32, y: u32, x: u32, b: u32, c: u32)
    by (bit_vector)
    requires
        y < 9,
        x < 9,
        i == y * 9 + x,
        b == ((y / 3) * 3) + (x / 3),
        c == ((y % 3) * 3) + (x % 3),
    ensures
        i / 9 == y,
        i % 9 == x,
        i / 27 * 3 + i / 3 % 3 == b,
        i / 9 % 3 * 3 + i % 3 == c,
        b < 9,
        c < 9,
{
}

/// Two cells differ in their row or their column, and in their box or their
/// place in the box.
proof fn lemma_distinct_places(a: usize, b: usize)
    requires
        a < CELLS,
        b < CELLS,
        a != b,
    ensures
        row_of(a) != row_of(b) || col_of(a) != col_of(b),
        box_of(a) != box_of(b) || box_position(a) != box_position(b),
{
    lemma_region_members(a);
    lemma_region_members(b);
}

} // verus!
