//! What holds of every call that solves a board.

use crate::board::BoardState;
use crate::grid::{
    consistent, is_grid, is_repeat, is_solved, lemma_coordinates, lemma_counted_twice,
    lemma_pair_counted, unit_count, unit_of, UnitKind,
};
use crate::solution::{
    has_solution, is_first_solution, is_solution, lemma_first_solution_unique,
    lemma_solvable_is_consistent, lemma_solved_is_first,
};
use crate::text::{
    board_digits, is_board, is_board_char, is_outcome, lemma_board_cells, lemma_filled_board,
    SolveError,
};
use crate::witness::{lemma_shifted_grid_is_solved, shifted_grid};
use vstd::prelude::*;

verus! {

/// The search is deterministic: two searches from states that hold the same grid give
/// the same answer, and the same state where they find a solution.
pub proof fn search_is_deterministic(g: Seq<u8>, r1: Option<BoardState>, r2: Option<BoardState>)
    requires
        r1 is Some <==> has_solution(g),
        r1 matches Some(s) ==> s.wf() && is_first_solution(g, s@),
        r2 is Some <==> has_solution(g),
        r2 matches Some(s) ==> s.wf() && is_first_solution(g, s@),
    ensures
        r1 == r2,
{
    if r1 is Some {
        let s1 = r1->Some_0;
        let s2 = r2->Some_0;
        lemma_first_solution_unique(g, s1@, s2@);
        s1.lemma_wf_determined(s2);
    }
}

/// Solving is deterministic: two calls on the same board give the same answer and
/// leave the same board.
pub proof fn solving_is_deterministic(
    input: Seq<Seq<char>>,
    r1: Result<(), SolveError>,
    output1: Seq<Seq<char>>,
    r2: Result<(), SolveError>,
    output2: Seq<Seq<char>>,
)
    requires
        is_outcome(input, r1, output1),
        is_outcome(input, r2, output2),
    ensures
        r1 == r2,
        output1 == output2,
{
    let g = board_digits(input);
    if r1 is Ok {
        assert(is_solution(g, board_digits(output1)));
    }
    if r2 is Ok {
        assert(is_solution(g, board_digits(output2)));
    }
    if r1 is Ok && r2 is Ok {
        lemma_first_solution_unique(g, board_digits(output1), board_digits(output2));
        assert(r1->Ok_0 == r2->Ok_0);
    }
}

/// No digit stands twice in a unit of a grid exactly when no two different cells of
/// one row, one column or one group hold the same digit.
pub proof fn consistent_means_no_repeat(g: Seq<u8>)
    requires
        is_grid(g),
    ensures
        consistent(g) <==> !exists|k: UnitKind, p: int, q: int| is_repeat(g, k, p, q),
{
    if exists|k: UnitKind, p: int, q: int| is_repeat(g, k, p, q) {
        let (k, p, q) = choose|k: UnitKind, p: int, q: int| is_repeat(g, k, p, q);
        lemma_coordinates(k, p);
        lemma_pair_counted(g, k, p, q);
        assert(unit_count(g, k, unit_of(k, p), g[p]) >= 2);
    }
    if !consistent(g) {
        let (k, u, d) = choose|k: UnitKind, u: int, d: u8|
            0 <= u < 9 && 1 <= d <= 9 && !(#[trigger] unit_count(g, k, u, d) <= 1);
        lemma_counted_twice(g, k, u, d);
    }
}

/// In a solved grid no two different cells of one row, one column or one group hold
/// the same digit.
pub proof fn solved_grid_has_no_repeat(g: Seq<u8>, k: UnitKind, p: int, q: int)
    requires
        is_solved(g),
    ensures
        !is_repeat(g, k, p, q),
{
    consistent_means_no_repeat(g);
}

/// A board that holds the same digit in two cells of one row, one column or one group
/// has no solution, whatever its other cells hold: solving it fails with `NoSolution`
/// and leaves the board as it was.
pub proof fn duplicate_in_unit_is_unsolvable(
    input: Seq<Seq<char>>,
    k: UnitKind,
    p: int,
    q: int,
    r: Result<(), SolveError>,
    output: Seq<Seq<char>>,
)
    requires
        is_board(input),
        0 <= p < q < 81,
        unit_of(k, p) == unit_of(k, q),
        input[p / 9][p % 9] != '.',
        input[p / 9][p % 9] == input[q / 9][q % 9],
        is_outcome(input, r, output),
    ensures
        !has_solution(board_digits(input)),
        r == Err::<(), SolveError>(SolveError::NoSolution),
        output == input,
{
    let g = board_digits(input);
    lemma_board_cells(input);
    assert(is_board_char(input[p / 9][p % 9]));
    let d = g[p];
    assert(g[q] == d && 1 <= d <= 9);
    if has_solution(g) {
        lemma_solvable_is_consistent(g);
        lemma_coordinates(k, p);
        lemma_pair_counted(g, k, p, q);
        assert(unit_count(g, k, unit_of(k, p), d) <= 1);
    }
    if r is Ok {
        assert(is_solution(g, board_digits(output)));
    }
}

/// A board that is solved already is returned as it is.
pub proof fn solved_board_is_kept(
    input: Seq<Seq<char>>,
    r: Result<(), SolveError>,
    output: Seq<Seq<char>>,
)
    requires
        is_board(input),
        is_solved(board_digits(input)),
        is_outcome(input, r, output),
    ensures
        r is Ok,
        output == input,
{
    let g = board_digits(input);
    lemma_solved_is_first(g);
    assert(is_solution(g, g));
    lemma_first_solution_unique(g, g, board_digits(output));
    assert forall|row: int, col: int| 0 <= row < 9 && 0 <= col < 9 implies
        #[trigger] input[row][col] != '.' by {
        assert(g[9 * row + col] != 0);
    }
    lemma_filled_board(input);
}

/// A board without any digit is solved: some solved grid comes back.
pub proof fn empty_board_is_solvable(
    input: Seq<Seq<char>>,
    r: Result<(), SolveError>,
    output: Seq<Seq<char>>,
)
    requires
        is_board(input),
        forall|row: int, col: int|
            0 <= row < 9 && 0 <= col < 9 ==> #[trigger] input[row][col] == '.',
        is_outcome(input, r, output),
    ensures
        has_solution(board_digits(input)),
        r is Ok,
        is_solved(board_digits(output)),
{
    let g = board_digits(input);
    lemma_shifted_grid_is_solved();
    assert forall|p: int| 0 <= p < 81 implies g[p] == 0 by {
        assert(input[p / 9][p % 9] == '.');
    }
    assert(is_solution(g, shifted_grid()));
}

} // verus!
