use sudoku::text::{solve_sudoku, SolveError};

fn board_of(rows: [&str; 9]) -> Vec<Vec<char>> {
    rows.iter().map(|row| row.chars().collect()).collect()
}

fn classic_puzzle() -> Vec<Vec<char>> {
    board_of([
        "53..7....",
        "6..195...",
        ".98....6.",
        "8...6...3",
        "4..8.3..1",
        "7...2...6",
        ".6....28.",
        "...419..5",
        "....8..79",
    ])
}

fn classic_solution() -> Vec<Vec<char>> {
    board_of([
        "534678912",
        "672195348",
        "198342567",
        "859761423",
        "426853791",
        "713924856",
        "961537284",
        "287419635",
        "345286179",
    ])
}

fn is_valid_solution(board: &Vec<Vec<char>>) -> bool {
    if board.len() != 9 || board.iter().any(|row| row.len() != 9) {
        return false;
    }
    for unit in 0..9 {
        for digit in "123456789".chars() {
            let in_row = (0..9).filter(|&i| board[unit][i] == digit).count();
            let in_col = (0..9).filter(|&i| board[i][unit] == digit).count();
            let in_block = (0..9)
                .filter(|&i| board[unit / 3 * 3 + i / 3][unit % 3 * 3 + i % 3] == digit)
                .count();
            if in_row != 1 || in_col != 1 || in_block != 1 {
                return false;
            }
        }
    }
    true
}

#[test]
fn classic_puzzle_is_solved() {
    let mut board = classic_puzzle();
    assert_eq!(solve_sudoku(&mut board), Ok(()));
    assert_eq!(board, classic_solution());
}

#[test]
fn solution_is_valid() {
    let mut board = classic_puzzle();
    assert_eq!(solve_sudoku(&mut board), Ok(()));
    assert!(is_valid_solution(&board));
}

#[test]
fn given_cells_are_kept() {
    let puzzle = classic_puzzle();
    let mut board = puzzle.clone();
    assert_eq!(solve_sudoku(&mut board), Ok(()));
    for row in 0..9 {
        for col in 0..9 {
            if puzzle[row][col] != '.' {
                assert_eq!(board[row][col], puzzle[row][col]);
            } else {
                assert!(('1'..='9').contains(&board[row][col]));
            }
        }
    }
}

#[test]
fn solving_twice_gives_the_same_board() {
    let mut first = classic_puzzle();
    let mut second = classic_puzzle();
    assert_eq!(solve_sudoku(&mut first), Ok(()));
    assert_eq!(solve_sudoku(&mut second), Ok(()));
    assert_eq!(first, second);
}

#[test]
fn duplicate_in_a_row_has_no_solution() {
    let mut board = board_of([
        "5...5....",
        ".........",
        ".........",
        ".........",
        ".........",
        ".........",
        ".........",
        ".........",
        ".........",
    ]);
    let before = board.clone();
    assert_eq!(solve_sudoku(&mut board), Err(SolveError::NoSolution));
    assert_eq!(board, before);
}

#[test]
fn duplicate_in_a_column_has_no_solution() {
    let mut board = board_of([
        "..7......",
        ".........",
        ".........",
        ".........",
        ".........",
        ".........",
        ".........",
        ".........",
        "..7......",
    ]);
    assert_eq!(solve_sudoku(&mut board), Err(SolveError::NoSolution));
}

#[test]
fn duplicate_in_a_block_has_no_solution() {
    let mut board = board_of([
        ".........",
        ".........",
        ".........",
        "...3.....",
        ".........",
        ".....3...",
        ".........",
        ".........",
        ".........",
    ]);
    assert_eq!(solve_sudoku(&mut board), Err(SolveError::NoSolution));
}

#[test]
fn consistent_board_without_solution() {
    // The last cell of the first row can only hold 9, which its column holds already.
    let mut board = board_of([
        "12345678.",
        "........9",
        ".........",
        ".........",
        ".........",
        ".........",
        ".........",
        ".........",
        ".........",
    ]);
    let before = board.clone();
    assert_eq!(solve_sudoku(&mut board), Err(SolveError::NoSolution));
    assert_eq!(board, before);
}

#[test]
fn empty_board_has_a_solution() {
    let mut board = board_of(["........."; 9]);
    assert_eq!(solve_sudoku(&mut board), Ok(()));
    assert!(is_valid_solution(&board));
}

#[test]
fn empty_board_gives_the_first_solution() {
    let mut board = board_of(["........."; 9]);
    assert_eq!(solve_sudoku(&mut board), Ok(()));
    assert_eq!(
        board,
        board_of([
            "123456789",
            "456789123",
            "789123456",
            "214365897",
            "365897214",
            "897214365",
            "531642978",
            "642978531",
            "978531642",
        ])
    );
}

#[test]
fn solved_board_is_returned_unchanged() {
    let mut board = classic_solution();
    assert_eq!(solve_sudoku(&mut board), Ok(()));
    assert_eq!(board, classic_solution());
}

#[test]
fn first_of_two_solutions_is_chosen() {
    // Taking the four cells of a rectangle out of a solved grid whose corners hold
    // two digits crosswise leaves two solutions; the one with the smaller digit in
    // the first empty cell is the first.
    let solution = classic_solution();
    let mut found = None;
    'search: for r1 in 0..9 {
        for r2 in r1 + 1..9 {
            for c1 in 0..9 {
                for c2 in c1 + 1..9 {
                    let same_band = r1 / 3 == r2 / 3;
                    let same_stack = c1 / 3 == c2 / 3;
                    if same_band != same_stack
                        && solution[r1][c1] == solution[r2][c2]
                        && solution[r1][c2] == solution[r2][c1]
                    {
                        found = Some((r1, r2, c1, c2));
                        break 'search;
                    }
                }
            }
        }
    }
    let (r1, r2, c1, c2) = found.expect("the grid holds such a rectangle");
    let a = solution[r1][c1];
    let b = solution[r1][c2];
    let mut board = solution.clone();
    for (r, c) in [(r1, c1), (r1, c2), (r2, c1), (r2, c2)] {
        board[r][c] = '.';
    }
    assert_eq!(solve_sudoku(&mut board), Ok(()));
    assert!(is_valid_solution(&board));
    let (low, high) = if a < b { (a, b) } else { (b, a) };
    assert_eq!(board[r1][c1], low);
    assert_eq!(board[r1][c2], high);
    assert_eq!(board[r2][c1], high);
    assert_eq!(board[r2][c2], low);
}

#[test]
fn unknown_character_is_malformed() {
    let mut board = classic_puzzle();
    board[4][4] = '0';
    let before = board.clone();
    assert_eq!(solve_sudoku(&mut board), Err(SolveError::Malformed));
    assert_eq!(board, before);
    board[4][4] = 'x';
    assert_eq!(solve_sudoku(&mut board), Err(SolveError::Malformed));
    board[4][4] = ' ';
    assert_eq!(solve_sudoku(&mut board), Err(SolveError::Malformed));
}

#[test]
fn wrong_shape_is_malformed() {
    let mut short = classic_puzzle();
    short.pop();
    assert_eq!(solve_sudoku(&mut short), Err(SolveError::Malformed));

    let mut long = classic_puzzle();
    long.push(vec!['.'; 9]);
    assert_eq!(solve_sudoku(&mut long), Err(SolveError::Malformed));

    let mut ragged = classic_puzzle();
    ragged[3].pop();
    assert_eq!(solve_sudoku(&mut ragged), Err(SolveError::Malformed));

    let mut wide = classic_puzzle();
    wide[8].push('.');
    assert_eq!(solve_sudoku(&mut wide), Err(SolveError::Malformed));

    let mut none: Vec<Vec<char>> = Vec::new();
    assert_eq!(solve_sudoku(&mut none), Err(SolveError::Malformed));
}

#[test]
fn malformed_comes_before_no_solution() {
    let mut board = board_of([
        "55.......",
        ".........",
        ".........",
        ".........",
        ".........",
        ".........",
        ".........",
        ".........",
        "........?",
    ]);
    assert_eq!(solve_sudoku(&mut board), Err(SolveError::Malformed));
}
