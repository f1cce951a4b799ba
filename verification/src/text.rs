//! Boards as text: a grid of characters, `'1'` to `'9'` for a digit and `'.'` for an
//! empty cell.

use crate::board::{digit_grid, digit_of, is_digit_board, BoardState};
use crate::grid::{col_of, is_filled, is_grid, is_solved, row_of};
use crate::solution::{
    extends, first_solution, has_solution, is_first_solution, lemma_solvable_is_consistent,
};
use vstd::prelude::*;

verus! {

/// Why a board was not solved.
#[derive(Clone, Copy, Debug, PartialEq, Eq)]
pub enum SolveError {
    /// The board does not have nine rows of nine characters, or holds a character
    /// other than `'1'` to `'9'` and `'.'`.
    Malformed,
    /// No filling of the empty cells gives a solved grid.
    NoSolution,
}

/// The characters that a board may hold.
pub open spec fn is_board_char(c: char) -> bool {
    c == '.' || ('1' <= c && c <= '9')
}

/// The digit that a character stands for: 0 for every character that is no digit
/// from 1 to 9.
pub open spec fn char_digit(c: char) -> u8 {
    if '1' <= c && c <= '9' {
        (c as u8 - 48) as u8
    } else {
        0
    }
}

/// The cell that a character of a board stands for.
pub open spec fn char_cell(c: char) -> Option<u8> {
    if c == '.' {
        None
    } else {
        Some(char_digit(c))
    }
}

/// The character of a digit.
pub open spec fn digit_char(d: u8) -> char {
    (d + 48) as char
}

/// A board has nine rows of nine characters, each a digit from 1 to 9 or the mark of
/// an empty cell.
pub open spec fn is_board(board: Seq<Seq<char>>) -> bool {
    &&& board.len() == 9
    &&& forall|r: int| 0 <= r < 9 ==> (#[trigger] board[r]).len() == 9
    &&& forall|r: int, c: int| 0 <= r < 9 && 0 <= c < 9 ==> is_board_char(#[trigger] board[r][c])
}

/// The grid of a board: the digits of its characters in row-major order.
pub open spec fn board_digits(board: Seq<Seq<char>>) -> Seq<u8> {
    Seq::new(81, |p: int| char_digit(board[row_of(p)][col_of(p)]))
}

/// The cells of a board, row by row.
pub open spec fn board_cells(board: Seq<Seq<char>>) -> Seq<Seq<Option<u8>>> {
    Seq::new(9, |r: int| Seq::new(9, |c: int| char_cell(board[r][c])))
}

/// The board of a grid: nine rows of nine characters.
pub open spec fn digit_board(g: Seq<u8>) -> Seq<Seq<char>> {
    Seq::new(9, |r: int| Seq::new(9, |c: int| digit_char(g[9 * r + c])))
}

/// Reads one character of a board: a digit, an empty cell, or an error for any other
/// character.
pub fn parse_board_char(c: &char) -> (r: Result<Option<u8>, SolveError>)
    ensures
        is_board_char(*c) ==> r == Ok::<Option<u8>, SolveError>(char_cell(*c)),
        !is_board_char(*c) ==> r == Err::<Option<u8>, SolveError>(SolveError::Malformed),
{
    match *c {
        '1' => Ok(Some(1)),
        '2' => Ok(Some(2)),
        '3' => Ok(Some(3)),
        '4' => Ok(Some(4)),
        '5' => Ok(Some(5)),
        '6' => Ok(Some(6)),
        '7' => Ok(Some(7)),
        '8' => Ok(Some(8)),
        '9' => Ok(Some(9)),
        '.' => Ok(None),
        _ => Err(SolveError::Malformed),
    }
}

/// Writes one digit as a character.
pub fn reverse_parse_board_char(c: &u8) -> (r: char)
    requires
        1 <= *c <= 9,
    ensures
        r == digit_char(*c),
        char_digit(r) == *c,
{
    match *c {
        1 => '1',
        2 => '2',
        3 => '3',
        4 => '4',
        5 => '5',
        6 => '6',
        7 => '7',
        8 => '8',
        _ => '9',
    }
}

/// The cells of a board are a board of given digits, with the grid of the board.
pub proof fn lemma_board_cells(board: Seq<Seq<char>>)
    requires
        is_board(board),
    ensures
        is_digit_board(board_cells(board)),
        digit_grid(board_cells(board)) == board_digits(board),
        is_grid(board_digits(board)),
{
    let cells = board_cells(board);
    assert forall|r: int, c: int| 0 <= r < 9 && 0 <= c < 9 implies
        (#[trigger] cells[r][c] matches Some(d) ==> 1 <= d <= 9)
        && digit_of(cells[r][c]) == char_digit(board[r][c]) by {
        assert(is_board_char(board[r][c]));
    }
    assert forall|p: int| 0 <= p < 81 implies digit_grid(cells)[p] == board_digits(board)[p]
        && board_digits(board)[p] <= 9 by {
        assert(digit_of(cells[row_of(p)][col_of(p)]) == char_digit(board[row_of(p)][col_of(p)]));
    }
    assert(digit_grid(cells) =~= board_digits(board));
}

/// Writing a filled grid as a board and reading the board gives the grid.
pub proof fn lemma_digit_board(g: Seq<u8>)
    requires
        is_grid(g),
        is_filled(g),
    ensures
        is_board(digit_board(g)),
        board_digits(digit_board(g)) == g,
{
    let b = digit_board(g);
    assert forall|r: int, c: int| 0 <= r < 9 && 0 <= c < 9 implies is_board_char(
        #[trigger] b[r][c],
    ) && char_digit(b[r][c]) == g[9 * r + c] by {
        let d = g[9 * r + c];
        assert(d != 0 && d <= 9);
    }
    assert forall|p: int| 0 <= p < 81 implies board_digits(b)[p] == g[p] by {
        assert(char_digit(b[row_of(p)][col_of(p)]) == g[9 * row_of(p) + col_of(p)]);
    }
    assert(board_digits(b) =~= g);
}

/// Reading a board that holds a digit in every cell and writing the grid gives the
/// board.
pub proof fn lemma_filled_board(board: Seq<Seq<char>>)
    requires
        is_board(board),
        forall|r: int, c: int| 0 <= r < 9 && 0 <= c < 9 ==> #[trigger] board[r][c] != '.',
    ensures
        digit_board(board_digits(board)) == board,
{
    let b = digit_board(board_digits(board));
    assert forall|r: int| 0 <= r < 9 implies #[trigger] b[r] =~= board[r] by {
        assert forall|c: int| 0 <= c < 9 implies b[r][c] == board[r][c] by {
            assert(is_board_char(board[r][c]));
            assert(board_digits(board)[9 * r + c] == char_digit(board[r][c]));
        }
    }
    assert(b =~= board);
}

/// Reads a board of characters into a board of given digits.
///
/// Fails where the board does not have nine rows of nine characters or holds a
/// character that stands for no cell.
pub fn parse_board(board: &Vec<Vec<char>>) -> (r: Result<Vec<Vec<Option<u8>>>, SolveError>)
    ensures
        r is Ok <==> is_board(board.deep_view()),
        r matches Ok(cells) ==> cells.deep_view() == board_cells(board.deep_view()),
        r matches Err(e) ==> e == SolveError::Malformed,
{
    let ghost b = board.deep_view();
    if board.len() != 9 {
        return Err(SolveError::Malformed);
    }
    let mut parsed: Vec<Vec<Option<u8>>> = Vec::new();
    let mut row: usize = 0;
    while row < 9
        invariant
            row <= 9,
            b == board.deep_view(),
            board.len() == 9,
            parsed.len() == row,
            forall|i: int| 0 <= i < row ==> (#[trigger] b[i]).len() == 9,
            forall|i: int| 0 <= i < row ==> (#[trigger] parsed@[i]).len() == 9,
            forall|i: int, j: int|
                0 <= i < row && 0 <= j < 9 ==> is_board_char(#[trigger] b[i][j]),
            forall|i: int, j: int|
                0 <= i < row && 0 <= j < 9 ==> #[trigger] parsed@[i]@[j] == char_cell(b[i][j]),
        decreases 9 - row,
    {
        let line = &board[row];
        assert(b[row as int] == line@);
        if line.len() != 9 {
            return Err(SolveError::Malformed);
        }
        let mut cells: Vec<Option<u8>> = Vec::new();
        let mut col: usize = 0;
        while col < 9
            invariant
                col <= 9,
                row < 9,
                line.len() == 9,
                b == board.deep_view(),
                b.len() == 9,
                b[row as int] == line@,
                cells.len() == col,
                forall|j: int| 0 <= j < col ==> is_board_char(#[trigger] line@[j]),
                forall|j: int| 0 <= j < col ==> #[trigger] cells@[j] == char_cell(line@[j]),
            decreases 9 - col,
        {
            match parse_board_char(&line[col]) {
                Ok(cell) => {
                    cells.push(cell);
                },
                Err(e) => {
                    assert(!is_board_char(b[row as int][col as int]));
                    return Err(e);
                },
            }
            col += 1;
        }
        parsed.push(cells);
        row += 1;
    }
    proof {
        assert(parsed.deep_view() =~~= board_cells(b));
    }
    Ok(parsed)
}

/// Writes the grid of a state without an empty cell as a board of characters.
pub fn unparse_board(state: &BoardState) -> (board: Vec<Vec<char>>)
    requires
        is_grid(state@),
        is_filled(state@),
    ensures
        board.deep_view() == digit_board(state@),
{
    let mut board: Vec<Vec<char>> = Vec::new();
    let mut row: usize = 0;
    while row < 9
        invariant
            row <= 9,
            is_grid(state@),
            is_filled(state@),
            board.len() == row,
            forall|i: int| 0 <= i < row ==> (#[trigger] board@[i]).len() == 9,
            forall|i: int, j: int|
                0 <= i < row && 0 <= j < 9 ==> #[trigger] board@[i]@[j] == digit_char(
                    state@[9 * i + j],
                ),
        decreases 9 - row,
    {
        let mut line: Vec<char> = Vec::new();
        let mut col: usize = 0;
        while col < 9
            invariant
                col <= 9,
                row < 9,
                is_grid(state@),
                is_filled(state@),
                line.len() == col,
                forall|j: int|
                    0 <= j < col ==> #[trigger] line@[j] == digit_char(
                        state@[9 * row + j],
                    ),
            decreases 9 - col,
        {
            let position: usize = row * 9 + col;
            assert(state@[position as int] != 0 && state@[position as int] <= 9);
            line.push(reverse_parse_board_char(&state.state[position]));
            col += 1;
        }
        board.push(line);
        row += 1;
    }
    proof {
        assert(board.deep_view() =~~= digit_board(state@));
    }
    board
}

/// What solving makes of a board: `output` is the board and `r` the answer after a
/// call on the board `input`.
///
/// On success the board is written from the first solution of what it held. On
/// failure the board is as it was; the error is `Malformed` where what was given is
/// no board, and `NoSolution` where it is a board that has no solution.
pub open spec fn is_outcome(
    input: Seq<Seq<char>>,
    r: Result<(), SolveError>,
    output: Seq<Seq<char>>,
) -> bool {
    match r {
        Ok(_) => {
            &&& is_board(input)
            &&& is_first_solution(board_digits(input), board_digits(output))
            &&& output == digit_board(board_digits(output))
        },
        Err(SolveError::Malformed) => !is_board(input) && output == input,
        Err(SolveError::NoSolution) => {
            &&& is_board(input)
            &&& !has_solution(board_digits(input))
            &&& output == input
        },
    }
}

/// Solves the board in place.
///
/// On success every cell of the board holds a digit: the board is the first solution
/// of what it held, in the order that compares the cells row by row and lets the
/// first cell that differs decide. Each digit stands once in every row, column and
/// 3×3 block, and every cell that was filled keeps its digit.
///
/// Fails with `Malformed` where what was given is no board, and with `NoSolution`
/// where it is one that no filling of the empty cells solves; either way the board is
/// left as it was.
pub fn solve_sudoku(board: &mut Vec<Vec<char>>) -> (r: Result<(), SolveError>)
    ensures
        is_outcome(old(board).deep_view(), r, final(board).deep_view()),
        r is Ok <==> is_board(old(board).deep_view()) && has_solution(
            board_digits(old(board).deep_view()),
        ),
        r is Ok ==> final(board).deep_view() == digit_board(
            first_solution(board_digits(old(board).deep_view())),
        ),
        r is Ok ==> is_board(final(board).deep_view()) && is_solved(
            board_digits(final(board).deep_view()),
        ),
        r is Ok ==> forall|row: int, col: int|
            0 <= row < 9 && 0 <= col < 9 && old(board).deep_view()[row][col] != '.' ==> #[trigger]
                final(board).deep_view()[row][col] == old(board).deep_view()[row][col],
        r is Err ==> *final(board) == *old(board),
{
    let ghost input = board.deep_view();
    let parsed = match parse_board(board) {
        Ok(parsed) => parsed,
        Err(e) => {
            return Err(e);
        },
    };
    proof {
        lemma_board_cells(input);
    }
    let state = match BoardState::from_board(&parsed) {
        Some(state) => state,
        None => {
            proof {
                if has_solution(board_digits(input)) {
                    lemma_solvable_is_consistent(board_digits(input));
                }
            }
            return Err(SolveError::NoSolution);
        },
    };
    let solved_state = match BoardState::solve(state) {
        Some(solved_state) => solved_state,
        None => {
            return Err(SolveError::NoSolution);
        },
    };
    proof {
        lemma_digit_board(solved_state@);
        lemma_given_chars_kept(input, solved_state@);
    }
    *board = unparse_board(&solved_state);
    Ok(())
}

/// The board of a grid that keeps the filled cells of a board holds the characters of
/// that board wherever that board holds a digit.
pub proof fn lemma_given_chars_kept(input: Seq<Seq<char>>, g: Seq<u8>)
    requires
        is_board(input),
        extends(g, board_digits(input)),
    ensures
        forall|row: int, col: int|
            0 <= row < 9 && 0 <= col < 9 && input[row][col] != '.' ==> #[trigger] digit_board(
                g,
            )[row][col] == input[row][col],
{
    assert forall|row: int, col: int|
        0 <= row < 9 && 0 <= col < 9 && input[row][col] != '.' implies #[trigger] digit_board(
        g,
    )[row][col] == input[row][col] by {
        let p = 9 * row + col;
        let c = input[row][col];
        assert(is_board_char(c));
        assert(board_digits(input)[p] == char_digit(c));
        assert(g[p] == char_digit(c));
    }
}

} // verus!
