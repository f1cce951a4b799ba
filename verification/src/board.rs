//! The state of one node of the search: the cells, the digits still allowed in each
//! row, column and group, and how many cells are still empty.

use crate::grid::{
    can_place, col_of, consistent, empty_count, fill_delta, group_of, is_grid, lemma_cell_counted,
    lemma_coordinates, lemma_count_bounds, lemma_empty_count_of_empty, lemma_empty_counts,
    lemma_fill_counts, lemma_fill_empty_count, row_of, unit_count, unit_of, UnitKind,
};
use crate::mask::{
    has_bit, is_mask, lemma_all_possibilities, lemma_bit_test, lemma_clear_bit,
    lemma_intersection, lemma_mask_bounds, lemma_mask_equal, popcount, ALL_POSSIBILITIES,
};
use crate::solution::{extends, lemma_extension_counts_at};
use vstd::prelude::*;

verus! {

/// The cells of a board together with what the search keeps beside them.
///
/// `state` holds the cells in row-major order, 0 for an empty one. `rows`, `cols` and
/// `groups` hold, for each row, column and group, the mask of the digits that do not
/// stand in it yet. `row_left`, `col_left` and `group_left` hold the number of empty
/// cells of each, and `state_left` that of the whole board.
#[derive(Clone, Copy, Debug)]
pub struct BoardState {
    pub rows: [u16; 9],
    pub cols: [u16; 9],
    pub groups: [u16; 9],
    pub state: [u8; 81],
    pub row_left: [u8; 9],
    pub col_left: [u8; 9],
    pub group_left: [u8; 9],
    pub state_left: u8,
}

impl View for BoardState {
    type V = Seq<u8>;

    /// The grid that the state holds.
    open spec fn view(&self) -> Seq<u8> {
        self.state@
    }
}

/// The grid without any digit.
pub open spec fn empty_grid() -> Seq<u8> {
    Seq::new(81, |p: int| 0u8)
}

/// The digit that a cell of a board of given digits stands for: 0 for an empty one.
pub open spec fn digit_of(cell: Option<u8>) -> u8 {
    match cell {
        Some(d) => d,
        None => 0,
    }
}

/// A board of given digits has nine rows of nine cells, each empty or a digit from 1
/// to 9.
pub open spec fn is_digit_board(board: Seq<Seq<Option<u8>>>) -> bool {
    &&& board.len() == 9
    &&& forall|r: int| 0 <= r < 9 ==> (#[trigger] board[r]).len() == 9
    &&& forall|r: int, c: int|
        0 <= r < 9 && 0 <= c < 9 ==> (#[trigger] board[r][c] matches Some(d) ==> 1 <= d <= 9)
}

/// The grid of a board of given digits: its cells in row-major order.
pub open spec fn digit_grid(board: Seq<Seq<Option<u8>>>) -> Seq<u8> {
    Seq::new(81, |p: int| digit_of(board[row_of(p)][col_of(p)]))
}

/// The grid that holds the first `n` cells of `g` and is empty from there on.
pub open spec fn given_before(g: Seq<u8>, n: int) -> Seq<u8> {
    Seq::new(
        81,
        |p: int|
            if p < n {
                g[p]
            } else {
                0u8
            },
    )
}

impl BoardState {
    /// The mask of unit `u` of kind `k`.
    pub open spec fn mask(&self, k: UnitKind, u: int) -> u16 {
        match k {
            UnitKind::Row => self.rows[u],
            UnitKind::Col => self.cols[u],
            UnitKind::Group => self.groups[u],
        }
    }

    /// The counter of unit `u` of kind `k`.
    pub open spec fn left(&self, k: UnitKind, u: int) -> u8 {
        match k {
            UnitKind::Row => self.row_left[u],
            UnitKind::Col => self.col_left[u],
            UnitKind::Group => self.group_left[u],
        }
    }

    /// The state is well formed: no digit stands twice in a row, a column or a group;
    /// a digit's bit is set in the mask of a unit exactly while the digit is missing
    /// there; each counter is the number of empty cells, and that of a unit is also
    /// the number of bits of its mask.
    pub open spec fn wf(&self) -> bool {
        &&& consistent(self@)
        &&& forall|k: UnitKind, u: int|
            0 <= u < 9 ==> is_mask(#[trigger] self.mask(k, u)) && popcount(self.mask(k, u))
                == self.left(k, u)
        &&& forall|k: UnitKind, u: int|
            0 <= u < 9 ==> self.left(k, u) == #[trigger] unit_count(self@, k, u, 0)
        &&& forall|k: UnitKind, u: int, d: u8|
            0 <= u < 9 && 1 <= d <= 9 ==> (has_bit(self.mask(k, u), d) <==> #[trigger] unit_count(
                self@,
                k,
                u,
                d,
            ) == 0)
        &&& self.state_left == empty_count(self@)
    }

    /// The digits that may still be placed at `position`: those that are allowed in its
    /// row, in its column and in its group.
    pub open spec fn spec_candidates(&self, position: usize) -> u16 {
        self.rows[row_of(position as int)] & self.cols[col_of(position as int)]
            & self.groups[group_of(position as int)]
    }

    /// Each of the row, the column and the group of `position` has at least as many
    /// digits left as it has empty cells.
    pub open spec fn feasible_at(&self, position: usize) -> bool {
        let p = position as int;
        &&& popcount(self.rows[row_of(p)]) >= self.row_left[row_of(p)]
        &&& popcount(self.cols[col_of(p)]) >= self.col_left[col_of(p)]
        &&& popcount(self.groups[group_of(p)]) >= self.group_left[group_of(p)]
    }

    /// This state is `pre` after digit `val` was placed at `position`: the digit is
    /// written into the cell and cleared from the masks of the cell's row, column and
    /// group, the counters of these three and of the board are one less, and nothing
    /// else has changed.
    pub open spec fn is_placed(&self, pre: Self, position: usize, val: u8) -> bool {
        let row = row_of(position as int);
        let col = col_of(position as int);
        let group = group_of(position as int);
        &&& self.state@ == pre.state@.update(position as int, val)
        &&& self.rows@ == pre.rows@.update(row, pre.rows[row] & !(1u16 << val))
        &&& self.cols@ == pre.cols@.update(col, pre.cols[col] & !(1u16 << val))
        &&& self.groups@ == pre.groups@.update(group, pre.groups[group] & !(1u16 << val))
        &&& self.row_left@ == pre.row_left@.update(row, (pre.row_left[row] - 1) as u8)
        &&& self.col_left@ == pre.col_left@.update(col, (pre.col_left[col] - 1) as u8)
        &&& self.group_left@ == pre.group_left@.update(group, (pre.group_left[group] - 1) as u8)
        &&& self.state_left == pre.state_left - 1
    }

    /// In a well-formed state the candidates of a position are the digits that stand
    /// nowhere in its row, its column and its group.
    pub proof fn lemma_candidates(&self, position: usize)
        requires
            self.wf(),
            position < 81,
        ensures
            is_mask(self.spec_candidates(position)),
            forall|d: u8| #[trigger]
                has_bit(self.spec_candidates(position), d) <==> 1 <= d <= 9 && can_place(
                    self@,
                    position as int,
                    d,
                ),
    {
        let p = position as int;
        let row = self.mask(UnitKind::Row, unit_of(UnitKind::Row, p));
        let col = self.mask(UnitKind::Col, unit_of(UnitKind::Col, p));
        let group = self.mask(UnitKind::Group, unit_of(UnitKind::Group, p));
        lemma_coordinates(UnitKind::Row, p);
        lemma_coordinates(UnitKind::Col, p);
        lemma_coordinates(UnitKind::Group, p);
        lemma_intersection(row, col, group);
        lemma_mask_bounds(row);
        assert forall|d: u8| #[trigger]
            has_bit(self.spec_candidates(position), d) <==> 1 <= d <= 9 && can_place(
                self@,
                p,
                d,
            ) by {
            if 1 <= d <= 9 {
                assert(has_bit(row, d) <==> unit_count(self@, UnitKind::Row, row_of(p), d) == 0);
                assert(has_bit(col, d) <==> unit_count(self@, UnitKind::Col, col_of(p), d) == 0);
                assert(has_bit(group, d) <==> unit_count(self@, UnitKind::Group, group_of(p), d)
                    == 0);
                if can_place(self@, p, d) {
                    assert(unit_count(self@, UnitKind::Row, unit_of(UnitKind::Row, p), d) == 0);
                    assert(unit_count(self@, UnitKind::Col, unit_of(UnitKind::Col, p), d) == 0);
                    assert(unit_count(self@, UnitKind::Group, unit_of(UnitKind::Group, p), d)
                        == 0);
                }
            }
        }
    }

    /// The grid of a well-formed state decides its masks and counters: two well-formed
    /// states that hold the same grid are equal.
    pub proof fn lemma_wf_determined(&self, other: Self)
        requires
            self.wf(),
            other.wf(),
            self@ == other@,
        ensures
            *self == other,
    {
        assert forall|k: UnitKind, u: int| 0 <= u < 9 implies #[trigger] self.mask(k, u)
            == other.mask(k, u) && self.left(k, u) == other.left(k, u) by {
            assert(is_mask(other.mask(k, u)));
            assert(self.left(k, u) == unit_count(self@, k, u, 0));
            assert(other.left(k, u) == unit_count(other@, k, u, 0));
            assert forall|d: u8| 1 <= d <= 9 implies (#[trigger] has_bit(self.mask(k, u), d)
                <==> has_bit(other.mask(k, u), d)) by {
                assert(has_bit(self.mask(k, u), d) <==> unit_count(self@, k, u, d) == 0);
                assert(has_bit(other.mask(k, u), d) <==> unit_count(other@, k, u, d) == 0);
            }
            lemma_mask_equal(self.mask(k, u), other.mask(k, u));
        }
        assert forall|u: int| 0 <= u < 9 implies self.rows[u] == other.rows[u] && self.cols[u]
            == other.cols[u] && self.groups[u] == other.groups[u] && self.row_left[u]
            == other.row_left[u] && self.col_left[u] == other.col_left[u] && self.group_left[u]
            == other.group_left[u] by {
            assert(self.mask(UnitKind::Row, u) == other.mask(UnitKind::Row, u));
            assert(self.mask(UnitKind::Col, u) == other.mask(UnitKind::Col, u));
            assert(self.mask(UnitKind::Group, u) == other.mask(UnitKind::Group, u));
            assert(self.left(UnitKind::Row, u) == other.left(UnitKind::Row, u));
            assert(self.left(UnitKind::Col, u) == other.left(UnitKind::Col, u));
            assert(self.left(UnitKind::Group, u) == other.left(UnitKind::Group, u));
        }
        assert(self.state =~= other.state);
        assert(self.rows =~= other.rows);
        assert(self.cols =~= other.cols);
        assert(self.groups =~= other.groups);
        assert(self.row_left =~= other.row_left);
        assert(self.col_left =~= other.col_left);
        assert(self.group_left =~= other.group_left);
    }

    /// An empty cell is counted by the counters of its row, its column, its group and
    /// the board.
    pub proof fn lemma_empty_cell_counted(&self, position: usize)
        requires
            self.wf(),
            position < 81,
            self@[position as int] == 0,
        ensures
            self.row_left[row_of(position as int)] >= 1,
            self.col_left[col_of(position as int)] >= 1,
            self.group_left[group_of(position as int)] >= 1,
            self.state_left >= 1,
    {
        let p = position as int;
        lemma_fill_empty_count(self@, p, 1);
        assert forall|k: UnitKind| 1 <= #[trigger] self.left(k, unit_of(k, p)) by {
            lemma_coordinates(k, p);
            lemma_cell_counted(self@, k, p);
        }
        assert(1 <= self.left(UnitKind::Row, unit_of(UnitKind::Row, p)));
        assert(1 <= self.left(UnitKind::Col, unit_of(UnitKind::Col, p)));
        assert(1 <= self.left(UnitKind::Group, unit_of(UnitKind::Group, p)));
    }

    /// In a well-formed state each unit of a position has as many digits left as it
    /// has empty cells.
    pub proof fn lemma_left_is_popcount(&self, position: usize)
        requires
            self.wf(),
            position < 81,
        ensures
            popcount(self.rows[row_of(position as int)]) == self.row_left[row_of(position as int)],
            popcount(self.cols[col_of(position as int)]) == self.col_left[col_of(position as int)],
            popcount(self.groups[group_of(position as int)]) == self.group_left[group_of(
                position as int,
            )],
            self.feasible_at(position),
    {
        let p = position as int;
        assert forall|k: UnitKind|
            popcount(#[trigger] self.mask(k, unit_of(k, p))) == self.left(k, unit_of(k, p)) by {
            lemma_coordinates(k, p);
        }
        assert(popcount(self.mask(UnitKind::Row, unit_of(UnitKind::Row, p))) == self.left(
            UnitKind::Row,
            unit_of(UnitKind::Row, p),
        ));
        assert(popcount(self.mask(UnitKind::Col, unit_of(UnitKind::Col, p))) == self.left(
            UnitKind::Col,
            unit_of(UnitKind::Col, p),
        ));
        assert(popcount(self.mask(UnitKind::Group, unit_of(UnitKind::Group, p))) == self.left(
            UnitKind::Group,
            unit_of(UnitKind::Group, p),
        ));
    }

    /// Placing a candidate in an empty cell of a well-formed state leaves the state
    /// well formed.
    pub proof fn lemma_placed(&self, pre: Self, position: usize, val: u8)
        requires
            pre.wf(),
            position < 81,
            pre@[position as int] == 0,
            has_bit(pre.spec_candidates(position), val),
            self.is_placed(pre, position, val),
        ensures
            self.wf(),
    {
        let p = position as int;
        let g = pre@;
        let g2 = self@;
        pre.lemma_candidates(position);
        pre.lemma_empty_cell_counted(position);
        lemma_fill_empty_count(g, p, val);
        assert forall|k: UnitKind, u: int| 0 <= u < 9 implies #[trigger] self.mask(k, u) == (if u
            == unit_of(k, p) {
            pre.mask(k, u) & !(1u16 << val)
        } else {
            pre.mask(k, u)
        }) by {
            lemma_coordinates(k, p);
        }
        assert forall|k: UnitKind, u: int| 0 <= u < 9 implies #[trigger] self.left(k, u) == (if u
            == unit_of(k, p) {
            pre.left(k, u) - 1
        } else {
            pre.left(k, u) as int
        }) by {
            lemma_coordinates(k, p);
        }
        assert forall|k: UnitKind, u: int, d: u8| 0 <= u < 9 implies #[trigger] unit_count(
            g2,
            k,
            u,
            d,
        ) == unit_count(g, k, u, d) + fill_delta(u == unit_of(k, p), val, d) by {
            lemma_fill_counts(g, p, val, k, u, d);
        }
        assert forall|k: UnitKind| #[trigger] unit_count(g, k, unit_of(k, p), 0) >= 1 && has_bit(
            pre.mask(k, unit_of(k, p)),
            val,
        ) && 0 <= unit_of(k, p) < 9 by {
            lemma_coordinates(k, p);
            lemma_cell_counted(g, k, p);
            assert(unit_count(g, k, unit_of(k, p), val) == 0);
        }
        assert forall|k: UnitKind, u: int| 0 <= u < 9 implies is_mask(#[trigger] self.mask(k, u))
            && popcount(self.mask(k, u)) == self.left(k, u) by {
            assert(unit_count(g, k, unit_of(k, p), 0) >= 1);
            if u == unit_of(k, p) {
                lemma_clear_bit(pre.mask(k, u), val);
            }
        }
        assert forall|k: UnitKind, u: int| 0 <= u < 9 implies self.left(k, u)
            == #[trigger] unit_count(g2, k, u, 0) by {
            assert(unit_count(g, k, unit_of(k, p), 0) >= 1);
        }
        assert forall|k: UnitKind, u: int, d: u8| 0 <= u < 9 && 1 <= d <= 9 implies (has_bit(
            self.mask(k, u),
            d,
        ) <==> #[trigger] unit_count(g2, k, u, d) == 0) by {
            assert(unit_count(g, k, unit_of(k, p), 0) >= 1);
            lemma_count_bounds(g, k, u, d);
            if u == unit_of(k, p) {
                lemma_clear_bit(pre.mask(k, u), val);
            }
        }
        assert(is_grid(g2));
    }

    /// The state of the board without any digit.
    pub fn new() -> (s: Self)
        ensures
            s.wf(),
            s@ == empty_grid(),
            forall|u: int|
                0 <= u < 9 ==> s.rows[u] == ALL_POSSIBILITIES && s.cols[u] == ALL_POSSIBILITIES
                    && s.groups[u] == ALL_POSSIBILITIES,
            forall|u: int|
                0 <= u < 9 ==> s.row_left[u] == 9 && s.col_left[u] == 9 && s.group_left[u] == 9,
            s.state_left == 81,
    {
        let s = Self {
            rows: [ALL_POSSIBILITIES;9],
            cols: [ALL_POSSIBILITIES;9],
            groups: [ALL_POSSIBILITIES;9],
            state: [0;81],
            row_left: [9;9],
            col_left: [9;9],
            group_left: [9;9],
            state_left: 81,
        };
        proof {
            lemma_all_possibilities();
            lemma_empty_count_of_empty(s@);
            assert forall|k: UnitKind, u: int, d: u8| 0 <= u < 9 implies #[trigger] unit_count(
                s@,
                k,
                u,
                d,
            ) == (if d == 0 {
                9int
            } else {
                0int
            }) by {
                lemma_empty_counts(s@, k, u, d);
            }
            assert(s@ =~= empty_grid());
        }
        s
    }

    /// The row, the column and the group of the cell at `position`.
    pub fn row_col_group(position: usize) -> (r: (usize, usize, usize))
        requires
            position < 81,
        ensures
            r.0 == row_of(position as int),
            r.1 == col_of(position as int),
            r.2 == group_of(position as int),
            r.0 < 9,
            r.1 < 9,
            r.2 < 9,
    {
        let row: usize = position / 9;
        let col: usize = position % 9;
        let group: usize = col / 3 + (row / 3) * 3;
        (row, col, group)
    }

    /// The digits that may still be placed at `position`, as a mask.
    #[verifier::when_used_as_spec(spec_candidates)]
    pub fn candidates(&self, position: usize) -> (m: u16)
        requires
            position < 81,
        ensures
            m == self.spec_candidates(position),
    {
        let (row, col, group) = Self::row_col_group(position);
        self.rows[row] & self.cols[col] & self.groups[group]
    }

    /// Writes digit `val` into the empty cell at `position`, takes the digit out of the
    /// masks of the cell's row, column and group, and counts the cell as filled.
    ///
    /// Returns whether each of the three still has at least as many digits left as it
    /// has empty cells. Where a candidate is placed in a well-formed state the two
    /// numbers are equal, so the answer is yes.
    pub fn set_cell(&mut self, position: usize, val: u8) -> (ok: bool)
        requires
            old(self).wf(),
            position < 81,
            1 <= val <= 9,
            old(self)@[position as int] == 0,
            has_bit(old(self).spec_candidates(position), val),
        ensures
            final(self).wf(),
            final(self).is_placed(*old(self), position, val),
            ok == final(self).feasible_at(position),
            ok,
    {
        let val_mask: u16 = !(1u16 << val);
        let (row, col, group) = Self::row_col_group(position);
        proof {
            self.lemma_empty_cell_counted(position);
        }

        self.rows[row] &= val_mask;
        self.cols[col] &= val_mask;
        self.groups[group] &= val_mask;
        self.state[position] = val;

        self.row_left[row] -= 1;
        self.col_left[col] -= 1;
        self.group_left[group] -= 1;
        self.state_left -= 1;

        proof {
            assert(self@ =~= old(self)@.update(position as int, val));
            self.lemma_placed(*old(self), position, val);
            self.lemma_left_is_popcount(position);
        }

        self.rows[row].count_ones() as u8 >= self.row_left[row] && self.cols[col].count_ones() as u8
            >= self.col_left[col] && self.groups[group].count_ones() as u8 >= self.group_left[group]
    }

    /// Builds the state of a board of given digits, placing them in row-major order.
    ///
    /// Fails, with `None`, exactly where a given digit stands twice in a row, a column
    /// or a group.
    pub fn from_board(board: &Vec<Vec<Option<u8>>>) -> (r: Option<Self>)
        requires
            is_digit_board(board.deep_view()),
        ensures
            r is Some <==> consistent(digit_grid(board.deep_view())),
            r matches Some(s) ==> s.wf() && s@ == digit_grid(board.deep_view()),
    {
        let ghost cells = digit_grid(board.deep_view());
        let mut state = Self::new();
        assert(state@ =~= given_before(cells, 0));
        let mut row: usize = 0;
        while row < 9
            invariant
                row <= 9,
                is_digit_board(board.deep_view()),
                cells == digit_grid(board.deep_view()),
                state.wf(),
                state@ == given_before(cells, 9 * row),
            decreases 9 - row,
        {
            let mut col: usize = 0;
            while col < 9
                invariant
                    row < 9,
                    col <= 9,
                    is_digit_board(board.deep_view()),
                    cells == digit_grid(board.deep_view()),
                    state.wf(),
                    state@ == given_before(cells, 9 * row + col),
                decreases 9 - col,
            {
                let position: usize = row * 9 + col;
                assert(cells[position as int] == digit_of(board@[row as int]@[col as int])) by {
                    assert(board.deep_view()[row as int][col as int]
                        == board@[row as int]@[col as int]);
                }
                if let Some(s) = board[row][col] {
                    proof {
                        lemma_bit_test(state.spec_candidates(position), s);
                    }
                    if state.candidates(position) & (1u16 << s) == 0 {
                        proof {
                            state.lemma_candidates(position);
                            lemma_given_conflict(cells, position as int);
                        }
                        return None;
                    }
                    if !state.set_cell(position, s) {
                        return None;
                    }
                }
                assert(state@ =~= given_before(cells, 9 * row + col + 1));
                col += 1;
            }
            row += 1;
        }
        assert(state@ =~= cells);
        Some(state)
    }
}

/// Where the digit at position `n` of `g` stands already in a unit of that position
/// among the cells before it, a digit stands twice in a unit of `g`.
proof fn lemma_given_conflict(g: Seq<u8>, n: int)
    requires
        is_grid(g),
        0 <= n < 81,
        g[n] != 0,
        !can_place(given_before(g, n), n, g[n]),
    ensures
        !consistent(g),
{
    let part = given_before(g, n);
    let d = g[n];
    assert(extends(g, part));
    let k = choose|k: UnitKind| unit_count(part, k, unit_of(k, n), d) != 0;
    lemma_coordinates(k, n);
    lemma_extension_counts_at(part, g, k, n);
    lemma_count_bounds(part, k, unit_of(k, n), d);
}

} // verus!
