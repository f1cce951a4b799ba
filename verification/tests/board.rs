use sudoku::board::BoardState;
use sudoku::mask::ALL_POSSIBILITIES;

fn digits_of(rows: [&str; 9]) -> Vec<Vec<Option<u8>>> {
    rows.iter()
        .map(|row| {
            row.chars()
                .map(|c| if c == '.' { None } else { Some(c as u8 - b'0') })
                .collect()
        })
        .collect()
}

fn classic_digits() -> Vec<Vec<Option<u8>>> {
    digits_of([
        "53..7....",
        "6..195...",
        ".98....6.",
        "8...6...3",
        "4..8.3..1",
        "7...2...6",
        ".6....28.",
        "...419..5",
        "....8..79",
    ])
}

const CLASSIC_SOLUTION: [u8; 81] = [
    5, 3, 4, 6, 7, 8, 9, 1, 2, //
    6, 7, 2, 1, 9, 5, 3, 4, 8, //
    1, 9, 8, 3, 4, 2, 5, 6, 7, //
    8, 5, 9, 7, 6, 1, 4, 2, 3, //
    4, 2, 6, 8, 5, 3, 7, 9, 1, //
    7, 1, 3, 9, 2, 4, 8, 5, 6, //
    9, 6, 1, 5, 3, 7, 2, 8, 4, //
    2, 8, 7, 4, 1, 9, 6, 3, 5, //
    3, 4, 5, 2, 8, 6, 1, 7, 9, //
];

/// Checks by counting what the masks and counters must hold for the cells.
fn assert_well_formed(state: &BoardState) {
    let mut empty = 0;
    for unit in 0..9 {
        let row: Vec<u8> = (0..9).map(|i| state.state[unit * 9 + i]).collect();
        let col: Vec<u8> = (0..9).map(|i| state.state[i * 9 + unit]).collect();
        let block: Vec<u8> = (0..9)
            .map(|i| state.state[(unit / 3 * 3 + i / 3) * 9 + unit % 3 * 3 + i % 3])
            .collect();
        let checks = [
            (row, state.rows[unit], state.row_left[unit]),
            (col, state.cols[unit], state.col_left[unit]),
            (block, state.groups[unit], state.group_left[unit]),
        ];
        for (cells, mask, left) in checks {
            let mut expected: u16 = 0;
            for digit in 1..=9u8 {
                let count = cells.iter().filter(|&&c| c == digit).count();
                assert!(count <= 1);
                if count == 0 {
                    expected |= 1 << digit;
                }
            }
            assert_eq!(mask, expected);
            assert_eq!(left as usize, cells.iter().filter(|&&c| c == 0).count());
            assert_eq!(mask.count_ones(), left as u32);
        }
        empty += (0..9).filter(|&i| state.state[unit * 9 + i] == 0).count();
    }
    assert_eq!(state.state_left as usize, empty);
}

#[test]
fn all_possibilities_holds_the_nine_digits() {
    assert_eq!(ALL_POSSIBILITIES, 0b11_1111_1110);
    assert_eq!(ALL_POSSIBILITIES.count_ones(), 9);
}

#[test]
fn new_state_is_empty() {
    let state = BoardState::new();
    assert_eq!(state.state, [0u8; 81]);
    assert_eq!(state.rows, [ALL_POSSIBILITIES; 9]);
    assert_eq!(state.cols, [ALL_POSSIBILITIES; 9]);
    assert_eq!(state.groups, [ALL_POSSIBILITIES; 9]);
    assert_eq!(state.row_left, [9u8; 9]);
    assert_eq!(state.col_left, [9u8; 9]);
    assert_eq!(state.group_left, [9u8; 9]);
    assert_eq!(state.state_left, 81);
    assert_well_formed(&state);
}

#[test]
fn row_col_group_of_corners_and_centre() {
    assert_eq!(BoardState::row_col_group(0), (0, 0, 0));
    assert_eq!(BoardState::row_col_group(8), (0, 8, 2));
    assert_eq!(BoardState::row_col_group(9), (1, 0, 0));
    assert_eq!(BoardState::row_col_group(40), (4, 4, 4));
    assert_eq!(BoardState::row_col_group(33), (3, 6, 5));
    assert_eq!(BoardState::row_col_group(72), (8, 0, 6));
    assert_eq!(BoardState::row_col_group(80), (8, 8, 8));
}

#[test]
fn row_col_group_of_every_position() {
    for row in 0..9 {
        for col in 0..9 {
            let expected = (row, col, row / 3 * 3 + col / 3);
            assert_eq!(BoardState::row_col_group(row * 9 + col), expected);
        }
    }
}

#[test]
fn set_cell_updates_masks_and_counters() {
    let mut state = BoardState::new();
    // Position 33 lies in row 3, column 6, block 5.
    assert!(state.set_cell(33, 5));
    assert_eq!(state.state[33], 5);
    assert_eq!(state.state.iter().filter(|&&c| c != 0).count(), 1);
    let without_five: u16 = 0b11_1101_1110;
    for unit in 0..9 {
        assert_eq!(state.rows[unit], if unit == 3 { without_five } else { ALL_POSSIBILITIES });
        assert_eq!(state.cols[unit], if unit == 6 { without_five } else { ALL_POSSIBILITIES });
        assert_eq!(state.groups[unit], if unit == 5 { without_five } else { ALL_POSSIBILITIES });
        assert_eq!(state.row_left[unit], if unit == 3 { 8 } else { 9 });
        assert_eq!(state.col_left[unit], if unit == 6 { 8 } else { 9 });
        assert_eq!(state.group_left[unit], if unit == 5 { 8 } else { 9 });
    }
    assert_eq!(state.state_left, 80);
    assert_well_formed(&state);
}

#[test]
fn set_cell_twice_in_a_row() {
    let mut state = BoardState::new();
    assert!(state.set_cell(0, 1));
    assert!(state.set_cell(8, 9));
    assert_eq!(state.rows[0], 0b01_1111_1100);
    assert_eq!(state.row_left[0], 7);
    assert_eq!(state.cols[0], 0b11_1111_1100);
    assert_eq!(state.cols[8], 0b01_1111_1110);
    assert_eq!(state.groups[0], 0b11_1111_1100);
    assert_eq!(state.groups[2], 0b01_1111_1110);
    assert_eq!(state.state_left, 79);
    assert_well_formed(&state);
}

#[test]
fn candidates_are_the_digits_missing_around_a_cell() {
    let state = BoardState::from_board(&classic_digits()).expect("the givens do not conflict");
    // Row 0 holds 5, 3, 7; column 2 holds 8; block 0 holds 5, 3, 6, 9, 8.
    assert_eq!(state.candidates(2), (1 << 1) | (1 << 2) | (1 << 4));
    // The centre cell: row 4 holds 4, 8, 3, 1; column 4 holds 7, 9, 6, 2, 1, 8;
    // block 4 holds 6, 8, 3, 2.
    assert_eq!(state.candidates(40), 1 << 5);
    assert_eq!(BoardState::new().candidates(17), ALL_POSSIBILITIES);
}

#[test]
fn from_board_places_the_given_digits() {
    let board = classic_digits();
    let state = BoardState::from_board(&board).expect("the givens do not conflict");
    for row in 0..9 {
        for col in 0..9 {
            assert_eq!(state.state[row * 9 + col], board[row][col].unwrap_or(0));
        }
    }
    assert_eq!(state.state_left, 51);
    assert_eq!(state.rows[0], ALL_POSSIBILITIES & !(1 << 5) & !(1 << 3) & !(1 << 7));
    assert_eq!(state.row_left[0], 6);
    assert_well_formed(&state);
}

#[test]
fn from_board_of_an_empty_board_is_new() {
    let state = BoardState::from_board(&digits_of(["........."; 9])).expect("nothing conflicts");
    let new = BoardState::new();
    assert_eq!(state.state, new.state);
    assert_eq!(state.rows, new.rows);
    assert_eq!(state.cols, new.cols);
    assert_eq!(state.groups, new.groups);
    assert_eq!(state.state_left, 81);
}

#[test]
fn from_board_fails_on_a_digit_twice_in_a_row() {
    let mut board = digits_of(["........."; 9]);
    board[4][1] = Some(6);
    board[4][7] = Some(6);
    assert!(BoardState::from_board(&board).is_none());
}

#[test]
fn from_board_fails_on_a_digit_twice_in_a_column() {
    let mut board = digits_of(["........."; 9]);
    board[0][3] = Some(2);
    board[8][3] = Some(2);
    assert!(BoardState::from_board(&board).is_none());
}

#[test]
fn from_board_fails_on_a_digit_twice_in_a_block() {
    let mut board = digits_of(["........."; 9]);
    board[6][6] = Some(9);
    board[8][8] = Some(9);
    assert!(BoardState::from_board(&board).is_none());
}

#[test]
fn from_board_takes_equal_digits_in_different_units() {
    let mut board = digits_of(["........."; 9]);
    board[0][0] = Some(4);
    board[3][1] = Some(4);
    board[7][8] = Some(4);
    let state = BoardState::from_board(&board).expect("the digits do not meet");
    assert_eq!(state.state_left, 78);
    assert_well_formed(&state);
}

#[test]
fn solve_finds_the_classic_solution() {
    let state = BoardState::from_board(&classic_digits()).expect("the givens do not conflict");
    let solved = BoardState::solve(state).expect("the puzzle has a solution");
    assert_eq!(solved.state, CLASSIC_SOLUTION);
    assert_eq!(solved.state_left, 0);
    assert_eq!(solved.rows, [0u16; 9]);
    assert_eq!(solved.cols, [0u16; 9]);
    assert_eq!(solved.groups, [0u16; 9]);
    assert_eq!(solved.row_left, [0u8; 9]);
    assert_well_formed(&solved);
}

#[test]
fn solve_rec_from_a_later_position() {
    let mut board = digits_of(["........."; 9]);
    for col in 0..9 {
        board[0][col] = Some(9 - col as u8);
    }
    let state = BoardState::from_board(&board).expect("the givens do not conflict");
    let from_start = BoardState::solve_rec(&state, 0).expect("the puzzle has a solution");
    let from_second_row = BoardState::solve_rec(&state, 9).expect("the puzzle has a solution");
    assert_eq!(from_start.state, from_second_row.state);
    assert_eq!(&from_start.state[..9], &[9, 8, 7, 6, 5, 4, 3, 2, 1]);
    assert_well_formed(&from_start);
    assert_eq!(from_start.state_left, 0);
}

#[test]
fn solve_rec_at_the_end_returns_the_state() {
    let board: Vec<Vec<Option<u8>>> = CLASSIC_SOLUTION
        .chunks(9)
        .map(|row| row.iter().map(|&d| Some(d)).collect())
        .collect();
    let state = BoardState::from_board(&board).expect("the grid is solved");
    let same = BoardState::solve_rec(&state, 81).expect("nothing is left to fill");
    assert_eq!(same.state, CLASSIC_SOLUTION);
}

#[test]
fn solve_finds_no_way_out_of_a_dead_end() {
    let mut board = digits_of(["........."; 9]);
    for col in 0..8 {
        board[0][col] = Some(col as u8 + 1);
    }
    board[1][8] = Some(9);
    let state = BoardState::from_board(&board).expect("the givens do not conflict");
    assert_eq!(state.candidates(8), 0);
    assert!(BoardState::solve(state).is_none());
}

#[test]
fn solve_gives_up_a_first_choice_that_leads_nowhere() {
    // The 9 in the second row bars 9 from the last three cells of the first row. The
    // search fills the first row with 1 to 6 at first, finds no place for 9 behind
    // them, and has to come back: the first row that works holds 9 in its sixth cell.
    let mut board = digits_of(["........."; 9]);
    board[1][8] = Some(9);
    let state = BoardState::from_board(&board).expect("the givens do not conflict");
    let solved = BoardState::solve(state).expect("the puzzle has a solution");
    assert_eq!(&solved.state[..9], &[1, 2, 3, 4, 5, 9, 6, 7, 8]);
    assert_eq!(solved.state[17], 9);
    assert_eq!(solved.state_left, 0);
    assert_well_formed(&solved);
}

#[test]
fn set_cell_stays_feasible_while_units_fill_up() {
    let mut state = BoardState::new();
    // The first row takes 1 to 9 in order: its mask and its counter shrink together.
    for col in 0..9usize {
        let digit = col as u8 + 1;
        assert!(state.set_cell(col, digit));
        assert_eq!(state.rows[0].count_ones(), 8 - col as u32);
        assert_eq!(state.row_left[0] as usize, 8 - col);
        assert_eq!(state.rows[0], ALL_POSSIBILITIES >> (digit + 1) << (digit + 1));
    }
    assert_eq!(state.rows[0], 0);
    // The first column takes the digits that are left for it, from 9 down.
    for row in 1..9usize {
        assert!(state.set_cell(row * 9, 10 - row as u8));
    }
    assert_eq!(state.cols[0], 0);
    assert_eq!(state.col_left[0], 0);
    assert_eq!(state.groups[0], ALL_POSSIBILITIES & !0b1100_001110);
    assert_eq!(state.group_left[0], 4);
    assert_eq!(state.state_left, 64);
    assert_well_formed(&state);
}
