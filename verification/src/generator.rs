//! Making puzzles: a random solution with as many cells cleared as its
//! uniqueness allows.

pub mod output;
pub mod prefill;

use crate::board::{count_empty, is_grid, lemma_count_empty_bound};
use crate::generator::output::GeneratorOutput;
use crate::generator::prefill::prefill_solution;
use crate::indices::CELLS;
use crate::random::RandomIter;
use crate::solution::{
    is_complete, is_solution_of, is_valid_solution, lemma_cleared_keeps_solution,
    lemma_completion_solves, lemma_full_grid, no_conflicts, only_solution,
};
use crate::solver::{holds, lemma_search_finds, Solver, MAX_BRANCHES};
use crate::sudoku::traits::SudokuState;
use crate::sudoku::Sudoku;
use vstd::prelude::*;

verus! {

/// Makes puzzles from a number of samples, each of a number of iterations,
/// each of which clears a number of cells.
pub struct Generator {
    samples: u8,
    sample_iterations: u8,
    iteration_removals: u8,
}

/// Why no puzzle was made.
#[derive(Clone, Copy, Debug, PartialEq, Eq, Structural)]
pub enum GeneratorError {
    /// The random source of the system gave no bytes.
    NoRandomBytes,
    /// The grid that was filled at random first has no solution.
    NoSolution,
}

impl Default for Generator {
    fn default() -> (r: Self)
        ensures
            r.wf(),
            r.sample_count() == 21,
            r.iteration_count() == 58,
            r.removal_count() == 1,
    {
        Self { samples: 21, sample_iterations: 58, iteration_removals: 1 }
    }
}

/// The smaller of two numbers.
pub open spec fn least(a: int, b: int) -> int {
    if a <= b {
        a
    } else {
        b
    }
}

/// What a number of removals for each iteration is cut to: one at least,
/// and no more than 64 over all iterations.
pub open spec fn capped_removals(iteration_removals: u8, sample_iterations: u8) -> int {
    least(if iteration_removals >= 1 {
        iteration_removals as int
    } else {
        1
    }, 64int / (sample_iterations as int))
}

impl Generator {
    /// The number of samples.
    pub closed spec fn sample_count(&self) -> u8 {
        self.samples
    }

    /// The number of iterations for each sample.
    pub closed spec fn iteration_count(&self) -> u8 {
        self.sample_iterations
    }

    /// The number of cells cleared in each iteration.
    pub closed spec fn removal_count(&self) -> u8 {
        self.iteration_removals
    }

    /// A sample clears 64 cells at most, one at least in each iteration.
    pub open spec fn wf(&self) -> bool {
        &&& 1 <= self.iteration_count() <= 64
        &&& 1 <= self.removal_count()
        &&& self.removal_count() * self.iteration_count() <= 64
    }

    /// A generator of 21 samples of 58 iterations that clear one cell each.
    pub fn new() -> (r: Self)
        ensures
            r.wf(),
            r.sample_count() == 21,
            r.iteration_count() == 58,
            r.removal_count() == 1,
    {
        Self::default()
    }

    /// Sets the number of samples.
    pub fn samples(&mut self, samples: u8) -> (r: &mut Self)
        requires
            old(self).wf(),
        ensures
            *final(self) == *final(r),
            r.wf(),
            r.sample_count() == samples,
            r.iteration_count() == old(self).iteration_count(),
            r.removal_count() == old(self).removal_count(),
    {
        self.samples = samples;

        self
    }

    /// Sets the number of iterations for each sample, 64 at most. The
    /// removals for each iteration are cut to fit.
    pub fn iterations(&mut self, sample_iterations: u8) -> (r: &mut Self)
        requires
            old(self).wf(),
            sample_iterations >= 1,
        ensures
            *final(self) == *final(r),
            r.wf(),
            r.sample_count() == old(self).sample_count(),
            r.iteration_count() == least(sample_iterations as int, 64),
            r.removal_count() == capped_removals(
                old(self).removal_count(),
                least(sample_iterations as int, 64) as u8,
            ),
    {
        // No grid with fewer than 17 digits has one solution only, so there
        // is no point in more than 64 iterations for a sample.
        self.sample_iterations = if sample_iterations < 64 {
            sample_iterations
        } else {
            64
        };

        // The removals for each iteration follow the new number of iterations.
        self.removals(self.iteration_removals);

        self
    }

    /// Sets the number of cells cleared in each iteration: one at least, and
    /// no more than 64 over all iterations of a sample.
    pub fn removals(&mut self, iteration_removals: u8) -> (r: &mut Self)
        requires
            1 <= old(self).iteration_count() <= 64,
        ensures
            *final(self) == *final(r),
            r.wf(),
            r.sample_count() == old(self).sample_count(),
            r.iteration_count() == old(self).iteration_count(),
            r.removal_count() == capped_removals(iteration_removals, old(self).iteration_count()),
    {
        let wanted: u8 = if iteration_removals > 1 {
            iteration_removals
        } else {
            1
        };
        let most: u8 = 64 / self.sample_iterations;
        proof {
            let si = self.sample_iterations as int;
            assert((64int / si) * si <= 64 && 64int / si >= 1) by (nonlinear_arith)
                requires
                    1 <= si <= 64,
            ;
            assert(wanted <= most ==> wanted * si <= most * si) by (nonlinear_arith)
                requires
                    si >= 1,
                    wanted >= 0,
                    most >= 0,
            ;
        }
        self.iteration_removals = if wanted < most {
            wanted
        } else {
            most
        };

        self
    }

    /// A puzzle with one solution, and that solution.
    ///
    /// A grid is filled at random and solved. Cells of the solution are then
    /// cleared in random order, in several samples, as long as the solution
    /// stays the only one; the sample that makes the search branch most is
    /// kept and cleared further, cell by cell.
    pub fn generate(&self) -> (r: Result<GeneratorOutput, GeneratorError>)
        requires
            self.wf(),
        ensures
            r matches Ok(out) ==> (only_solution(out.puzzle@, out.solution@) && count_empty(
                out.puzzle@,
            ) <= out.difficulty <= MAX_BRANCHES * 100 + CELLS && (out.difficulty - count_empty(
                out.puzzle@,
            )) % 100 == 0),
    {
        let solver = Solver::with_limit(2);
        let prefilled = match prefill_solution() {
            Ok(grid) => grid,
            Err(e) => {
                return Err(e);
            },
        };
        let solve_output = match first_solution(&prefilled) {
            Ok(output) => output,
            Err(e) => {
                return Err(e);
            },
        };
        let solution = solve_output.result[0].solution;
        let ghost whole = solution@;
        let starting_state = Sudoku::new(&solution);
        proof {
            lemma_count_empty_full(whole);
            lemma_full_grid(whole);
        }
        let all = indices();
        let ghost removals = self.iteration_removals as int;
        let mut random_index = match shuffled(&all) {
            Ok(iter) => iter,
            Err(e) => {
                return Err(e);
            },
        };

        let mut best_state = starting_state.clone();
        let mut best_difficulty: usize = 0;
        let mut best_solve_output = solve_output;

        // Every sample starts from the solution itself and not from the best
        // puzzle so far: late in a sample most removals have to be undone,
        // and a fresh start has the better chance of a good run of removals.
        let mut sample: u8 = 0;
        while sample < self.samples
            invariant
                self.wf(),
                solver.limit() == 2,
                is_complete(whole),
                no_conflicts(whole),
                starting_state.well_formed(),
                starting_state@.cells == whole,
                only_solution(whole, whole),
                random_index.wf(),
                all_below(random_index.items(), CELLS),
                best_state.well_formed(),
                only_solution(best_state@.cells, whole),
                best_solve_output.result@.len() >= 1,
                best_solve_output.result@[0].solution@ == whole,
                best_solve_output.result@[0].branches <= MAX_BRANCHES,
                random_index.items().len() == CELLS,
                random_index.left() == CELLS,
            decreases self.samples - sample,
        {
            let mut sample_state = starting_state.clone();
            let mut sample_difficulty: usize = 0;

            let mut iteration: u8 = 0;
            while iteration < self.sample_iterations
                invariant
                    self.wf(),
                    solver.limit() == 2,
                    is_complete(whole),
                    no_conflicts(whole),
                    random_index.wf(),
                    all_below(random_index.items(), CELLS),
                    sample_state.well_formed(),
                    only_solution(sample_state@.cells, whole),
                    iteration <= self.sample_iterations,
                    random_index.items().len() == CELLS,
                    random_index.left() + iteration * self.iteration_removals == CELLS,
                decreases self.sample_iterations - iteration,
            {
                proof {
                    let done = iteration as int;
                    let each = self.iteration_removals as int;
                    let most = self.sample_iterations as int;
                    assert((done + 1) * each <= each * most && (done + 1) * each == done * each
                        + each) by (nonlinear_arith)
                        requires
                            0 <= done < most,
                            each >= 1,
                    ;
                    assert(each * most <= 64);
                }
                iteration += 1;
                let index = draw_index(&mut random_index);
                proof {
                    lemma_cleared_keeps_solution(sample_state@.cells, whole, index as int);
                }
                let mut state = sample_state.set(index, 0);

                let mut removal: u8 = 0;
                while removal < self.iteration_removals - 1
                    invariant
                        self.wf(),
                        1 <= iteration <= self.sample_iterations,
                        iteration * self.iteration_removals <= 64,
                        removal <= self.iteration_removals - 1,
                        random_index.wf(),
                        all_below(random_index.items(), CELLS),
                        random_index.items().len() == CELLS,
                        random_index.left() + (iteration - 1) * self.iteration_removals + 1
                            + removal == CELLS,
                        state.well_formed(),
                        is_solution_of(state@.cells, whole),
                    decreases self.iteration_removals - 1 - removal,
                {
                    proof {
                        let done = iteration as int;
                        let each = self.iteration_removals as int;
                        assert((done - 1) * each == done * each - each) by (nonlinear_arith);
                    }
                    removal += 1;
                    let index = draw_index(&mut random_index);
                    proof {
                        lemma_cleared_keeps_solution(state@.cells, whole, index as int);
                    }
                    state = state.set(index, 0);
                }

                proof {
                    let done = iteration as int;
                    let each = self.iteration_removals as int;
                    assert((done - 1) * each == done * each - each) by (nonlinear_arith);
                }
                let output = solver.solve_state(&state);
                proof {
                    lemma_search_finds(state@.cells, output, whole);
                    lemma_count_empty_bound(state@.cells);
                }

                if output.result.len() > 1 {
                    continue ;
                }
                let difficulty = output.result[0].branches * 100 + state.remaining();
                if sample_difficulty < difficulty {
                    sample_state = state;
                    sample_difficulty = difficulty
                }
            }

            if best_difficulty < sample_difficulty {
                best_state = sample_state;
                best_difficulty = sample_difficulty;
            }
            match random_index.reset() {
                Ok(_) => {},
                Err(_) => {
                    return Err(GeneratorError::NoRandomBytes);
                },
            }
            sample += 1;
        }

        // The best sample is cleared further, cell by cell.
        loop
            invariant
                solver.limit() == 2,
                is_complete(whole),
                no_conflicts(whole),
                random_index.wf(),
                random_index.items().len() == CELLS,
                all_below(random_index.items(), CELLS),
                best_state.well_formed(),
                only_solution(best_state@.cells, whole),
                best_solve_output.result@.len() >= 1,
                best_solve_output.result@[0].solution@ == whole,
                best_solve_output.result@[0].branches <= MAX_BRANCHES,
            decreases random_index.left(),
        {
            let ghost before = random_index;
            let index = match random_index.next() {
                Ok(Some(index)) => *index,
                Ok(None) => {
                    break ;
                },
                Err(_) => {
                    return Err(GeneratorError::NoRandomBytes);
                },
            };
            proof {
                before.lemma_wf();
                lemma_swapped_below(before.items(), before.picked(), before.cursor() as int, CELLS);
                lemma_cleared_keeps_solution(best_state@.cells, whole, index as int);
            }
            if let Some(value) = best_state.get(index) {
                if value == 0 {
                    continue ;
                }
            }
            let new_state = best_state.set(index, 0);
            let output = solver.solve_state(&new_state);
            proof {
                lemma_search_finds(new_state@.cells, output, whole);
            }

            if output.result.len() == 1 {
                best_state = new_state;
                best_solve_output = output;
            }
        }

        proof {
            lemma_count_empty_bound(best_state@.cells);
        }
        Ok(
            GeneratorOutput {
                difficulty: best_solve_output.result[0].branches * 100 + best_state.remaining(),
                solution: best_solve_output.result[0].solution,
                puzzle: best_state.to_array(),
            },
        )
    }
}

/// A grid that is filled has no empty cell.
pub proof fn lemma_count_empty_full(s: Seq<u8>)
    requires
        is_complete(s),
    ensures
        count_empty(s) == 0,
        is_grid(s),
{
    crate::board::lemma_count_empty_zero(s);
}

/// Whether every item of a list lies below a bound.
pub open spec fn all_below(items: Seq<&usize>, bound: usize) -> bool {
    forall|j: int| 0 <= j < items.len() ==> *(#[trigger] items[j]) < bound
}

/// Two items changing places leave every item below the bound.
pub proof fn lemma_swapped_below(items: Seq<&usize>, a: int, b: int, bound: usize)
    requires
        all_below(items, bound),
        0 <= a < items.len(),
        0 <= b < items.len(),
    ensures
        all_below(items.update(a, items[b]).update(b, items[a]), bound),
        *items[a] < bound,
{
    let swapped = items.update(a, items[b]).update(b, items[a]);
    assert forall|j: int| 0 <= j < swapped.len() implies *(#[trigger] swapped[j]) < bound by {
        if j == b {
            assert(*items[a] < bound);
        } else if j == a {
            assert(*items[b] < bound);
        } else {
            assert(*items[j] < bound);
        }
    }
}

/// The indices of all cells.
fn indices() -> (r: Vec<usize>)
    ensures
        r@.len() == CELLS,
        forall|i: int| 0 <= i < r@.len() ==> r@[i] == i,
{
    let mut all: Vec<usize> = Vec::new();
    let mut i: usize = 0;
    while i < 81
        invariant
            i <= 81,
            all@.len() == i,
            forall|k: int| 0 <= k < i ==> all@[k] == k,
        decreases 81 - i,
    {
        all.push(i);
        i += 1;
    }
    all
}

/// References to the items of a list, in order.
fn borrow_all<'a, T>(list: &'a Vec<T>) -> (r: Vec<&'a T>)
    ensures
        r@.len() == list@.len(),
        forall|i: int| 0 <= i < r@.len() ==> *(#[trigger] r@[i]) == list@[i],
{
    let mut all: Vec<&'a T> = Vec::new();
    let mut i: usize = 0;
    while i < list.len()
        invariant
            i <= list@.len(),
            all@.len() == i,
            forall|k: int| 0 <= k < i ==> *(#[trigger] all@[k]) == list@[k],
        decreases list@.len() - i,
    {
        all.push(&list[i]);
        i += 1;
    }
    all
}

/// The cells of a list in random order.
fn shuffled<'a>(list: &'a Vec<usize>) -> (r: Result<RandomIter<'a, usize>, GeneratorError>)
    requires
        list@.len() == CELLS,
        forall|i: int| 0 <= i < list@.len() ==> #[trigger] list@[i] < CELLS,
    ensures
        r matches Ok(iter) ==> (iter.wf() && all_below(iter.items(), CELLS) && iter.items().len()
            == CELLS && iter.left() == CELLS),
        r matches Err(e) ==> e == GeneratorError::NoRandomBytes,
{
    match RandomIter::new(borrow_all(list)) {
        Ok(iter) => Ok(iter),
        Err(_) => Err(GeneratorError::NoRandomBytes),
    }
}

/// The next cell of a random order that has cells left.
fn draw_index(choices: &mut RandomIter<usize>) -> (index: usize)
    requires
        old(choices).wf(),
        old(choices).left() > 0,
        all_below(old(choices).items(), CELLS),
    ensures
        final(choices).wf(),
        final(choices).left() == old(choices).left() - 1,
        final(choices).items().len() == old(choices).items().len(),
        all_below(final(choices).items(), CELLS),
        index < CELLS,
{
    let ghost before = *choices;
    proof {
        before.lemma_wf();
        lemma_swapped_below(before.items(), before.picked(), before.cursor() as int, CELLS);
    }
    match choices.next() {
        Ok(Some(index)) => *index,
        _ => {
            assert(false);
            0
        },
    }
}

/// The outcome of a search for one solution of a grid, if the grid has a
/// solution: its first record is a solution. A grid without solution is
/// told by the error.
pub fn first_solution(prefilled: &[u8; 81]) -> (r: Result<
    crate::solver::output::SolverOutput,
    GeneratorError,
>)
    requires
        forall|i: int| 0 <= i < 81 ==> prefilled@[i] <= 9,
    ensures
        match r {
            Ok(out) => out.result@.len() >= 1 && is_solution_of(
                prefilled@,
                out.result@[0].solution@,
            ) && out.result@[0].branches <= MAX_BRANCHES,
            Err(e) => e == GeneratorError::NoSolution && forall|s: Seq<u8>|
                !is_solution_of(prefilled@, s),
        },
{
    let solve_output = Solver::with_limit(1).solve(prefilled);
    if solve_output.result.len() == 0 {
        proof {
            assert forall|s: Seq<u8>| !is_solution_of(prefilled@, s) by {
                if is_solution_of(prefilled@, s) {
                    assert(holds(solve_output.result@, 0, s));
                }
            }
        }
        return Err(GeneratorError::NoSolution);
    }
    let solution = solve_output.result[0].solution;
    if !is_valid_solution(&solution) {
        proof {
            assert forall|s: Seq<u8>| !is_solution_of(prefilled@, s) by {
                if is_solution_of(prefilled@, s) {
                    lemma_solvable_is_valid(prefilled@, s);
                    lemma_completion_solves(prefilled@, solution@);
                }
            }
        }
        return Err(GeneratorError::NoSolution);
    }
    Ok(solve_output)
}

/// A grid that has a solution holds no digit twice in a row, a column or a box.
pub proof fn lemma_solvable_is_valid(g: Seq<u8>, s: Seq<u8>)
    requires
        is_solution_of(g, s),
    ensures
        no_conflicts(g),
{
    assert forall|a: usize, b: usize|
        a < CELLS && b < CELLS && a != b && #[trigger] crate::indices::peers(a, b) && g[a as int]
            != 0 implies g[a as int] != g[b as int] by {
        assert(s[a as int] == g[a as int]);
        if g[b as int] != 0 {
            assert(s[b as int] == g[b as int]);
        }
    }
}

} // verus!
