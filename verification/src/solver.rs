//! Depth-first search for the solutions of a grid.

pub mod output;

use crate::board::{count_empty, is_grid, lemma_count_empty_bound, lemma_count_empty_update};
use crate::indices::{peers, CELLS};
use crate::solution::{
    after_move, completable, is_completion_of, is_solution_of, lemma_completion_lifts,
    lemma_completion_solves, lemma_full_grid, lemma_move_keeps_valid, lemma_single_move,
    lemma_solution_descends, move_fits, moves_complete, moves_exclusive, moves_sound,
    no_conflicts, only_solution,
};
use crate::solver::output::{SolutionRecord, SolverOutput};
use crate::sudoku::traits::SudokuState;
use crate::sudoku::Sudoku;
use vstd::prelude::*;

verus! {

/// Searches for solutions, up to a limit.
pub struct Solver {
    solution_limit: usize,
}

/// Whether one of the records from `from` on holds a grid.
pub open spec fn holds(records: Seq<SolutionRecord>, from: int, s: Seq<u8>) -> bool {
    exists|k: int| from <= k < records.len() && (#[trigger] records[k]).solution@ == s
}

/// The most that the squares of the moves passed over can add up to.
pub const MAX_BRANCHES: usize = 5184;

/// The move that a grid holds among those that a state over the cells offers.
pub open spec fn branch_move<T: SudokuState>(g: Seq<u8>, s: Seq<u8>) -> (usize, u8) {
    choose|m: (usize, u8)| T::moves_at(g).contains(m) && move_fits(s, m)
}

/// The cost of the way from a grid to one of its completions: at every
/// state on the way, the square of the number of moves passed over.
pub open spec fn path_cost<T: SudokuState>(g: Seq<u8>, s: Seq<u8>) -> nat
    decreases count_empty(g),
{
    let m = branch_move::<T>(g, s);
    if count_empty(g) > 0 && m.0 < g.len() && g[m.0 as int] == 0 && m.1 != 0 {
        proof {
            lemma_count_empty_update(g, m.0 as int, m.1);
        }
        let skipped = T::moves_at(g).len() - 1;
        (skipped * skipped) as nat + path_cost::<T>(after_move(g, m), s)
    } else {
        0
    }
}

/// Every record from `from` on holds the cost of the way to its grid, on top
/// of the cost of the way to the state that the search began at.
pub open spec fn costed<T: SudokuState>(
    g: Seq<u8>,
    bf: usize,
    records: Seq<SolutionRecord>,
    from: int,
) -> bool {
    forall|k: int|
        from <= k < records.len() ==> (#[trigger] records[k]).branches == bf + path_cost::<T>(
            g,
            records[k].solution@,
        )
}

/// How far a search has come: the states whose moves were tried, and the
/// solutions found.
pub struct Progress {
    pub iterations: usize,
    pub records: Seq<SolutionRecord>,
}

/// How far the search behind an outcome has come.
pub open spec fn progress(out: SolverOutput) -> Progress {
    Progress { iterations: out.iterations, records: out.result@ }
}

/// What a search from a state adds to the records.
///
/// Every new record completes the grid, no two hold the same grid, and
/// unless the limit cut the search short, every solution of the grid is
/// among them. A grid without empty cells is recorded as it is.
pub open spec fn searched(
    g: Seq<u8>,
    limit: usize,
    bf: usize,
    before: Progress,
    after: Progress,
) -> bool {
    let from = before.records.len() as int;
    &&& before.iterations <= after.iterations
    &&& from <= after.records.len()
    &&& forall|k: int| 0 <= k < from ==> #[trigger] after.records[k] == before.records[k]
    &&& forall|k: int|
        from <= k < after.records.len() ==> is_completion_of(g, (#[trigger] after.records[k]).solution@)
            && bf <= after.records[k].branches <= MAX_BRANCHES && before.iterations
            <= after.records[k].iteration <= after.iterations && (after.records[k].iteration
            == usize::MAX || after.records[k].iteration >= before.iterations + count_empty(g))
    &&& forall|j: int, k: int|
        from <= j < k < after.records.len() ==> (#[trigger] after.records[j]).solution@ != (
        #[trigger] after.records[k]).solution@
    &&& limit == 0 || after.records.len() < limit ==> forall|s: Seq<u8>| #[trigger]
        is_solution_of(g, s) ==> holds(after.records, from, s)
    &&& count_empty(g) == 0 ==> after.records.len() == from + 1 && after.records[from].solution@
        == g && after.records[from].branches == bf && after.records[from].iteration
        == before.iterations && after.iterations == (if limit > 0 && from + 1 >= limit
        || before.iterations == usize::MAX {
        before.iterations
    } else {
        (before.iterations + 1) as usize
    })
    &&& count_empty(g) > 0 && !(limit > 0 && from >= limit) ==> after.iterations > 0
    &&& limit > 0 && no_conflicts(g) && from <= limit ==> after.records.len() <= limit
}

/// What a search of a grid hands back: the number of cells that were empty,
/// and what the search added to no records at all.
pub open spec fn searched_from_start(g: Seq<u8>, limit: usize, out: SolverOutput) -> bool {
    &&& out.steps == count_empty(g)
    &&& searched(g, limit, 0, Progress { iterations: 0, records: Seq::empty() }, progress(out))
}

impl Default for Solver {
    fn default() -> (r: Self)
        ensures
            r.limit() == 1,
    {
        Self { solution_limit: 1 }
    }
}

impl Solver {
    /// The number of solutions after which the search stops, 0 for a search
    /// without limit.
    pub closed spec fn limit(&self) -> usize {
        self.solution_limit
    }

    /// A solver that stops at the first solution.
    pub fn new() -> (r: Self)
        ensures
            r.limit() == 1,
    {
        Self::default()
    }

    /// A solver that stops after a number of solutions, or never for 0.
    pub fn with_limit(solution_limit: usize) -> (r: Self)
        ensures
            r.limit() == solution_limit,
    {
        Self { solution_limit }
    }

    /// The solutions of a grid of digits, 0 for an empty cell.
    pub fn solve(&self, puzzle: &[u8; 81]) -> (out: SolverOutput)
        requires
            forall|i: int| 0 <= i < 81 ==> puzzle@[i] <= 9,
        ensures
            searched_from_start(puzzle@, self.limit(), out),
            costed::<Sudoku>(puzzle@, 0, out.result@, 0),
    {
        self.solve_state(&Sudoku::new(puzzle))
    }

    /// The solutions of a board state.
    pub fn solve_state<T: SudokuState>(&self, state: &T) -> (out: SolverOutput)
        requires
            state.wf(),
        ensures
            searched_from_start(state.cells(), self.limit(), out),
            costed::<T>(state.cells(), 0, out.result@, 0),
    {
        let mut output = SolverOutput {
            steps: state.remaining(),
            iterations: 0,
            result: Vec::new(),
        };
        proof {
            state.lemma_wf();
            lemma_count_empty_bound(state.cells());
        }
        proof {
            assert(progress(output).records =~= Seq::empty());
        }
        self.solve_rec(state, 0, &mut output);

        output
    }

    fn solve_rec<T: SudokuState>(&self, state: &T, bf: usize, output: &mut SolverOutput)
        requires
            state.wf(),
            bf + 64 * count_empty(state.cells()) <= MAX_BRANCHES,
            self.limit() > 0 && no_conflicts(state.cells()) && count_empty(state.cells()) == 0
                ==> old(output).result@.len() < self.limit(),
        ensures
            final(output).steps == old(output).steps,
            searched(
                state.cells(),
                self.limit(),
                bf,
                progress(*old(output)),
                progress(*final(output)),
            ),
            costed::<T>(state.cells(), bf, final(output).result@, old(output).result@.len() as int),
        decreases count_empty(state.cells()),
    {
        let ghost g = state.cells();
        let ghost before = *output;
        let ghost from = before.result@.len() as int;
        proof {
            state.lemma_wf();
        }
        if state.remaining() == 0 {
            let mut solution = [0u8;81];
            let items = state.iter();
            let mut i: usize = 0;
            while i < 81
                invariant
                    i <= 81,
                    items@.len() == 81,
                    forall|k: int| 0 <= k < i ==> solution@[k] == items@[k],
                decreases 81 - i,
            {
                solution[i] = items[i];
                i += 1;
            }
            proof {
                assert(solution@ =~= g);
                lemma_full_grid(g);
            }
            let rec = SolutionRecord { solution, iteration: output.iterations, branches: bf };

            output.result.push(rec);
        }
        let ghost recorded = *output;

        if self.solution_limit > 0 && output.result.len() >= self.solution_limit {
            proof {
                if count_empty(g) > 0 {
                    assert(recorded.result@ == before.result@);
                }
                assert(searched(g, self.limit(), bf, progress(before), progress(*output)));
                assert(costed::<T>(g, bf, output.result@, from));
            }
            return ;
        }
        if output.iterations < usize::MAX {
            output.iterations += 1;
        }
        let ghost counted = *output;

        let choices = state.next_choice();
        let bc = choices.len();
        proof {
            if count_empty(g) == 0 {
                lemma_full_grid(g);
            }
            if count_empty(g) == 1 && no_conflicts(g) {
                lemma_single_move(g, choices@);
            }
        }

        let mut t: usize = 0;
        while t < bc
            invariant
                t <= bc,
                bc == choices@.len(),
                bc <= 9,
                state.wf(),
                g == state.cells(),
                is_grid(g),
                count_empty(g) > 0 || bc == 0,
                bf + 64 * count_empty(g) <= MAX_BRANCHES,
                moves_sound(g, choices@),
                moves_exclusive(g, choices@),
                count_empty(g) > 0 ==> moves_complete(g, choices@),
                completable(g) ==> choices@.no_duplicates() && choices@.to_set() == T::moves_at(g),
                costed::<T>(g, bf, output.result@, from as int),
                count_empty(g) == 1 && no_conflicts(g) ==> bc <= 1,
                from == before.result@.len(),
                recorded.result@.len() == from + (if count_empty(g) == 0 {
                    1int
                } else {
                    0int
                }),
                !(self.limit() > 0 && recorded.result@.len() >= self.limit()),
                output.steps == before.steps,
                counted.iterations <= output.iterations,
                recorded.result@.len() <= output.result@.len(),
                counted.iterations == usize::MAX || counted.iterations == before.iterations + 1,
                forall|k: int|
                    0 <= k < recorded.result@.len() ==> #[trigger] output.result@[k]
                        == recorded.result@[k],
                forall|k: int|
                    recorded.result@.len() <= k < output.result@.len() ==> is_completion_of(
                        g,
                        (#[trigger] output.result@[k]).solution@,
                    ) && bf <= output.result@[k].branches <= MAX_BRANCHES && counted.iterations
                        <= output.result@[k].iteration <= output.iterations && (
                    output.result@[k].iteration == usize::MAX || output.result@[k].iteration
                        >= before.iterations + count_empty(g)),
                forall|k: int|
                    recorded.result@.len() <= k < output.result@.len() ==> exists|u: int|
                        0 <= u < t && move_fits(
                            (#[trigger] output.result@[k]).solution@,
                            #[trigger] choices@[u],
                        ),
                forall|j: int, k: int|
                    recorded.result@.len() <= j < k < output.result@.len() ==> (
                    #[trigger] output.result@[j]).solution@ != (
                    #[trigger] output.result@[k]).solution@,
                self.limit() == 0 || output.result@.len() < self.limit() ==> forall|
                    s: Seq<u8>,
                    u: int,
                |
                    is_solution_of(g, s) && 0 <= u < t && #[trigger] move_fits(s, choices@[u])
                        ==> holds(output.result@, recorded.result@.len() as int, s),
                self.limit() > 0 && no_conflicts(g) && from <= self.limit()
                    ==> output.result@.len() <= self.limit(),
                t == 0 ==> output.result@ == recorded.result@ && output.iterations
                    == counted.iterations,
            decreases bc - t,
        {
            let (index, value) = choices[t];
            let ghost m = choices@[t as int];
            let ghost earlier = *output;
            proof {
                assert(choices@[t as int].0 < CELLS);
                lemma_count_empty_update(g, index as int, value);
                lemma_move_keeps_valid_if(g, m);
            }
            let child = state.set(index, value);
            proof {
                assert((bc - 1) * (bc - 1) <= 64) by (nonlinear_arith)
                    requires
                        1 <= bc <= 9,
                ;
                assert(child.cells() == after_move(g, m));
                lemma_move_needs_valid(g, m);
            }
            let cost: usize = bf + (bc - 1) * (bc - 1);
            self.solve_rec(&child, cost, output);
            proof {
                let low = recorded.result@.len() as int;
                let mid = earlier.result@.len() as int;
                let records = output.result@;
                assert forall|k: int| from <= k < records.len() implies (
                #[trigger] records[k]).branches == bf + path_cost::<T>(g, records[k].solution@) by {
                    if k < mid {
                        assert(records[k] == earlier.result@[k]);
                    } else {
                        let s = records[k].solution@;
                        lemma_completion_lifts(g, m, s);
                        lemma_path_step::<T>(g, s, choices@, t as int);
                    }
                }
                assert forall|k: int| low <= k < records.len() implies is_completion_of(
                    g,
                    (#[trigger] records[k]).solution@,
                ) && bf <= records[k].branches <= MAX_BRANCHES && counted.iterations
                    <= records[k].iteration <= output.iterations && (records[k].iteration
                    == usize::MAX || records[k].iteration >= before.iterations + count_empty(
                    g,
                )) by {
                    if k < mid {
                        assert(records[k] == earlier.result@[k]);
                    } else {
                        lemma_completion_lifts(g, m, records[k].solution@);
                    }
                }
                assert forall|k: int| low <= k < records.len() implies exists|u: int|
                    0 <= u < t + 1 && move_fits(
                        (#[trigger] records[k]).solution@,
                        #[trigger] choices@[u],
                    ) by {
                    if k < mid {
                        assert(records[k] == earlier.result@[k]);
                        let u = choose|u: int|
                            0 <= u < t && move_fits(
                                earlier.result@[k].solution@,
                                #[trigger] choices@[u],
                            );
                        assert(move_fits(records[k].solution@, choices@[u]));
                    } else {
                        lemma_completion_lifts(g, m, records[k].solution@);
                        assert(move_fits(records[k].solution@, choices@[t as int]));
                    }
                }
                assert forall|j: int, k: int| low <= j < k < records.len() implies (
                #[trigger] records[j]).solution@ != (#[trigger] records[k]).solution@ by {
                    if k < mid {
                        assert(records[j] == earlier.result@[j]);
                        assert(records[k] == earlier.result@[k]);
                    } else if j >= mid {
                    } else {
                        assert(records[j] == earlier.result@[j]);
                        let u = choose|u: int|
                            0 <= u < t && move_fits(
                                earlier.result@[j].solution@,
                                #[trigger] choices@[u],
                            );
                        lemma_completion_lifts(g, m, records[k].solution@);
                        if records[j].solution@ == records[k].solution@ {
                            let s = records[k].solution@;
                            assert(is_completion_of(g, s));
                            assert(move_fits(s, choices@[u]));
                            assert(move_fits(s, choices@[t as int]));
                            assert(false);
                        }
                    }
                }
                if self.limit() == 0 || records.len() < self.limit() {
                    assert forall|s: Seq<u8>, u: int|
                        is_solution_of(g, s) && 0 <= u < t + 1 && #[trigger] move_fits(
                            s,
                            choices@[u],
                        ) implies holds(records, low, s) by {
                        if u < t {
                            assert(holds(earlier.result@, low, s));
                            let k = choose|k: int|
                                low <= k < earlier.result@.len() && (
                                #[trigger] earlier.result@[k]).solution@ == s;
                            assert(records[k] == earlier.result@[k]);
                            assert(records[k].solution@ == s);
                        } else {
                            lemma_solution_descends(g, m, s);
                            assert(holds(records, mid, s));
                            let k = choose|k: int|
                                mid <= k < records.len() && (#[trigger] records[k]).solution@ == s;
                            assert(low <= k < records.len() && records[k].solution@ == s);
                        }
                    }
                }
            }
            t += 1;
        }
        proof {
            let low = recorded.result@.len() as int;
            let records = output.result@;
            if count_empty(g) == 0 {
                assert(bc == 0);
                assert(records.len() == low);
            }
            assert forall|k: int| 0 <= k < from implies #[trigger] records[k]
                == before.result@[k] by {
                assert(records[k] == recorded.result@[k]);
            }
            if self.limit() == 0 || records.len() < self.limit() {
                assert forall|s: Seq<u8>| #[trigger] is_solution_of(g, s) implies holds(
                    records,
                    from,
                    s,
                ) by {
                    if count_empty(g) == 0 {
                        lemma_full_grid(g);
                        assert(records[from].solution@ == s);
                    } else {
                        let u = choose|u: int|
                            0 <= u < choices@.len() && #[trigger] move_fits(s, choices@[u]);
                        assert(holds(records, low, s));
                    }
                }
            }
            assert(searched(g, self.limit(), bf, progress(before), progress(*output)));
        }
    }
}

/// A grid has no conflict if the grid after a move has none.
pub proof fn lemma_move_needs_valid(g: Seq<u8>, m: (usize, u8))
    requires
        g.len() == CELLS,
        m.0 < CELLS,
        g[m.0 as int] == 0,
    ensures
        no_conflicts(after_move(g, m)) ==> no_conflicts(g),
{
    let child = after_move(g, m);
    if no_conflicts(child) {
        assert forall|a: usize, b: usize|
            a < CELLS && b < CELLS && a != b && #[trigger] peers(a, b) && g[a as int]
                != 0 implies g[a as int] != g[b as int] by {
            assert(child[a as int] == g[a as int]);
            if b != m.0 {
                assert(child[b as int] == g[b as int]);
            }
        }
    }
}

/// The grid after an allowed move has no conflict if the grid before had none.
pub proof fn lemma_move_keeps_valid_if(g: Seq<u8>, m: (usize, u8))
    requires
        g.len() == CELLS,
        m.0 < CELLS,
        g[m.0 as int] == 0,
        crate::board::digit_allowed(g, m.0, m.1),
    ensures
        no_conflicts(g) ==> no_conflicts(after_move(g, m)),
{
    if no_conflicts(g) {
        lemma_move_keeps_valid(g, m);
    }
}

/// A search with a limit of two finds one solution at least if the grid has
/// one, and with exactly one record the grid has no other solution.
pub proof fn lemma_search_finds(g: Seq<u8>, out: SolverOutput, s: Seq<u8>)
    requires
        searched_from_start(g, 2, out),
        is_solution_of(g, s),
    ensures
        out.result@.len() >= 1,
        out.result@.len() == 1 ==> out.result@[0].solution@ == s && only_solution(g, s),
{
    let records = out.result@;
    if records.len() < 2 {
        assert(holds(records, 0, s));
        assert forall|t: Seq<u8>| #[trigger] is_solution_of(g, t) implies t == s by {
            assert(holds(records, 0, t));
        }
    }
}

/// A grid without conflicts has exactly one solution if and only if a search
/// with a limit of two comes back with exactly one record.
pub proof fn lemma_unique_solution(g: Seq<u8>, out: SolverOutput)
    requires
        no_conflicts(g),
        searched_from_start(g, 2, out),
    ensures
        out.result@.len() == 1 <==> exists|s: Seq<u8>| only_solution(g, s),
{
    let records = out.result@;
    if records.len() == 1 {
        let s = records[0].solution@;
        lemma_completion_solves(g, s);
        assert forall|t: Seq<u8>| #[trigger] is_solution_of(g, t) implies t == s by {
            assert(holds(records, 0, t));
        }
        assert(only_solution(g, s));
    }
    if exists|s: Seq<u8>| only_solution(g, s) {
        let s = choose|s: Seq<u8>| only_solution(g, s);
        lemma_search_finds(g, out, s);
        if records.len() >= 2 {
            lemma_completion_solves(g, records[0].solution@);
            lemma_completion_solves(g, records[1].solution@);
            assert(records[0].solution@ == s);
            assert(records[1].solution@ == s);
        }
    }
}

/// A search with a limit of one hands a grid without empty cells back as
/// its only record.
pub proof fn lemma_full_grid_solved(g: Seq<u8>, out: SolverOutput)
    requires
        count_empty(g) == 0,
        searched_from_start(g, 1, out),
    ensures
        out.steps == 0,
        out.iterations == 0,
        out.result@.len() == 1,
        out.result@[0].solution@ == g,
        out.result@[0].branches == 0,
        out.result@[0].iteration == 0,
{
}

/// One step of the way to a completion: the cost of the way from a grid is
/// the square of the moves passed over there and the cost of the way from
/// the grid after the move that the completion holds.
pub proof fn lemma_path_step<T: SudokuState>(
    g: Seq<u8>,
    s: Seq<u8>,
    moves: Seq<(usize, u8)>,
    t: int,
)
    requires
        g.len() == CELLS,
        count_empty(g) > 0,
        is_completion_of(g, s),
        moves_sound(g, moves),
        moves_exclusive(g, moves),
        moves.no_duplicates(),
        moves.to_set() == T::moves_at(g),
        0 <= t < moves.len(),
        move_fits(s, moves[t]),
    ensures
        path_cost::<T>(g, s) == (moves.len() - 1) * (moves.len() - 1) + path_cost::<T>(
            after_move(g, moves[t]),
            s,
        ),
{
    let m = moves[t];
    assert(moves.contains(m));
    assert(T::moves_at(g).contains(m) && move_fits(s, m));
    let picked = branch_move::<T>(g, s);
    assert(T::moves_at(g).contains(picked) && move_fits(s, picked));
    assert(moves.to_set().contains(picked));
    assert(moves.contains(picked));
    let u = choose|u: int| 0 <= u < moves.len() && moves[u] == picked;
    if u != t {
        if u < t {
            assert(!(move_fits(s, moves[u]) && move_fits(s, moves[t])));
        } else {
            assert(!(move_fits(s, moves[t]) && move_fits(s, moves[u])));
        }
    }
    assert(picked == m);
    moves.unique_seq_to_set();
    assert(m.0 < CELLS && g[m.0 as int] == 0 && m.1 != 0);
}

} // verus!
