//! The mathematical model of a Sudoku grid.
//!
//! A grid is a sequence of 81 cells in row-major order. A cell holds 0 while it is
//! empty and a digit from 1 to 9 once it is filled. The rows, the columns and the
//! 3×3 blocks, here called groups, are the units of the grid. The units of each kind
//! are numbered from 0 to 8, the groups row by row, three to a band. Each unit has
//! nine cells, numbered from 0 to 8 as well.

use vstd::prelude::*;

verus! {

/// The three kinds of unit.
pub enum UnitKind {
    Row,
    Col,
    Group,
}

/// The row that holds the cell at position `p`.
pub open spec fn row_of(p: int) -> int {
    p / 9
}

/// The column that holds the cell at position `p`.
pub open spec fn col_of(p: int) -> int {
    p % 9
}

/// The group that holds the cell at position `p`.
pub open spec fn group_of(p: int) -> int {
    (p / 27) * 3 + (p % 9) / 3
}

/// The unit of kind `k` that holds the cell at position `p`.
pub open spec fn unit_of(k: UnitKind, p: int) -> int {
    match k {
        UnitKind::Row => row_of(p),
        UnitKind::Col => col_of(p),
        UnitKind::Group => group_of(p),
    }
}

/// The number that the cell at position `p` has within its unit of kind `k`.
pub open spec fn slot_of(k: UnitKind, p: int) -> int {
    match k {
        UnitKind::Row => p % 9,
        UnitKind::Col => p / 9,
        UnitKind::Group => ((p / 9) % 3) * 3 + p % 3,
    }
}

/// The position of cell `i` of unit `u` of kind `k`.
pub open spec fn unit_cell(k: UnitKind, u: int, i: int) -> int {
    match k {
        UnitKind::Row => 9 * u + i,
        UnitKind::Col => 9 * i + u,
        UnitKind::Group => 27 * (u / 3) + 3 * (u % 3) + 9 * (i / 3) + i % 3,
    }
}

/// 1 if the cell at `p` holds `d`, else 0.
pub open spec fn hit(g: Seq<u8>, p: int, d: u8) -> int {
    if g[p] == d {
        1
    } else {
        0
    }
}

/// How many of the nine cells of unit `u` of kind `k` hold `d`. With `d == 0` this is
/// the number of empty cells of the unit.
#[verifier::opaque]
pub open spec fn unit_count(g: Seq<u8>, k: UnitKind, u: int, d: u8) -> int {
    hit(g, unit_cell(k, u, 0), d) + hit(g, unit_cell(k, u, 1), d) + hit(g, unit_cell(k, u, 2), d)
        + hit(g, unit_cell(k, u, 3), d) + hit(g, unit_cell(k, u, 4), d) + hit(
        g,
        unit_cell(k, u, 5),
        d,
    ) + hit(g, unit_cell(k, u, 6), d) + hit(g, unit_cell(k, u, 7), d) + hit(
        g,
        unit_cell(k, u, 8),
        d,
    )
}

/// How many cells of the whole grid are empty: the empty cells of the nine rows.
#[verifier::opaque]
pub open spec fn empty_count(g: Seq<u8>) -> int {
    unit_count(g, UnitKind::Row, 0, 0) + unit_count(g, UnitKind::Row, 1, 0) + unit_count(
        g,
        UnitKind::Row,
        2,
        0,
    ) + unit_count(g, UnitKind::Row, 3, 0) + unit_count(g, UnitKind::Row, 4, 0) + unit_count(
        g,
        UnitKind::Row,
        5,
        0,
    ) + unit_count(g, UnitKind::Row, 6, 0) + unit_count(g, UnitKind::Row, 7, 0) + unit_count(
        g,
        UnitKind::Row,
        8,
        0,
    )
}

/// A grid has 81 cells, each empty or a digit from 1 to 9.
pub open spec fn is_grid(g: Seq<u8>) -> bool {
    &&& g.len() == 81
    &&& forall|p: int| 0 <= p < 81 ==> #[trigger] g[p] <= 9
}

/// Every cell of the grid is filled.
pub open spec fn is_filled(g: Seq<u8>) -> bool {
    forall|p: int| 0 <= p < 81 ==> #[trigger] g[p] != 0
}

/// No digit stands twice in a row, a column or a group.
pub open spec fn consistent(g: Seq<u8>) -> bool {
    &&& is_grid(g)
    &&& forall|k: UnitKind, u: int, d: u8|
        0 <= u < 9 && 1 <= d <= 9 ==> #[trigger] unit_count(g, k, u, d) <= 1
}

/// Every cell is filled, and every row, column and group holds each digit from 1 to 9
/// exactly once.
pub open spec fn is_solved(g: Seq<u8>) -> bool {
    &&& is_grid(g)
    &&& is_filled(g)
    &&& forall|k: UnitKind, u: int, d: u8|
        0 <= u < 9 && 1 <= d <= 9 ==> #[trigger] unit_count(g, k, u, d) == 1
}

/// Digit `d` stands nowhere in the row, the column and the group of position `p`.
pub open spec fn can_place(g: Seq<u8>, p: int, d: u8) -> bool {
    forall|k: UnitKind| #[trigger] unit_count(g, k, unit_of(k, p), d) == 0
}

/// The cells at the two different positions `p` and `q` lie in one unit of kind `k` and
/// hold the same digit.
pub open spec fn is_repeat(g: Seq<u8>, k: UnitKind, p: int, q: int) -> bool {
    &&& 0 <= p < 81
    &&& 0 <= q < 81
    &&& p != q
    &&& unit_of(k, p) == unit_of(k, q)
    &&& g[p] != 0
    &&& g[p] == g[q]
}

/// The change that filling an empty cell with `v` makes to the number of cells that
/// hold `d`, in a unit that holds the cell (`here`) or does not.
pub open spec fn fill_delta(here: bool, v: u8, d: u8) -> int {
    if !here {
        0
    } else if d == v {
        1
    } else if d == 0 {
        -1
    } else {
        0
    }
}

/// Every position is a cell of its row, of its column and of its group.
pub proof fn lemma_coordinates(k: UnitKind, p: int)
    requires
        0 <= p < 81,
    ensures
        0 <= unit_of(k, p) < 9,
        0 <= slot_of(k, p) < 9,
        unit_cell(k, unit_of(k, p), slot_of(k, p)) == p,
{
    if k is Group {
        let band = p / 27;
        let down = (p / 9) % 3;
        let stack = (p % 9) / 3;
        let across = p % 3;
        assert(p / 9 == 3 * band + down);
        assert(p % 9 == 3 * stack + across);
        let u = unit_of(k, p);
        let i = slot_of(k, p);
        assert(u == 3 * band + stack && i == 3 * down + across);
        assert(u / 3 == band && u % 3 == stack);
        assert(i / 3 == down && i % 3 == across);
    }
}

/// The cells of a unit are positions of the grid, and lie in that unit.
pub proof fn lemma_unit_cells(k: UnitKind, u: int, i: int)
    requires
        0 <= u < 9,
        0 <= i < 9,
    ensures
        0 <= unit_cell(k, u, i) < 81,
        unit_of(k, unit_cell(k, u, i)) == u,
        slot_of(k, unit_cell(k, u, i)) == i,
{
    if k is Group {
        let band = u / 3;
        let stack = u % 3;
        let down = i / 3;
        let across = i % 3;
        let p = unit_cell(k, u, i);
        assert(p == 9 * (3 * band + down) + (3 * stack + across));
        assert(p / 9 == 3 * band + down);
        assert(p % 9 == 3 * stack + across);
        assert(p / 27 == band);
        assert(p % 3 == across);
    }
}

/// The nine cells of a unit are positions of the grid, and lie in that unit.
pub proof fn lemma_unit_cells_all(k: UnitKind, u: int)
    requires
        0 <= u < 9,
    ensures
        forall|i: int|
            0 <= i < 9 ==> 0 <= #[trigger] unit_cell(k, u, i) < 81 && unit_of(
                k,
                unit_cell(k, u, i),
            ) == u && slot_of(k, unit_cell(k, u, i)) == i,
{
    assert forall|i: int| 0 <= i < 9 implies 0 <= #[trigger] unit_cell(k, u, i) < 81 && unit_of(
        k,
        unit_cell(k, u, i),
    ) == u && slot_of(k, unit_cell(k, u, i)) == i by {
        lemma_unit_cells(k, u, i);
    }
}

/// No unit holds a value more than nine times.
pub proof fn lemma_count_bounds(g: Seq<u8>, k: UnitKind, u: int, d: u8)
    ensures
        0 <= unit_count(g, k, u, d) <= 9,
{
    reveal(unit_count);
}

/// What a cell holds is counted in each unit of the cell.
pub proof fn lemma_cell_counted(g: Seq<u8>, k: UnitKind, p: int)
    requires
        0 <= p < 81,
    ensures
        unit_count(g, k, unit_of(k, p), g[p]) >= 1,
{
    reveal(unit_count);
    lemma_coordinates(k, p);
}

/// A digit that two cells of a unit hold is counted twice in the unit.
pub proof fn lemma_pair_counted(g: Seq<u8>, k: UnitKind, p: int, q: int)
    requires
        g.len() == 81,
        0 <= p < 81,
        0 <= q < 81,
        p != q,
        unit_of(k, p) == unit_of(k, q),
        g[p] == g[q],
        g[p] != 0,
    ensures
        unit_count(g, k, unit_of(k, p), g[p]) >= 2,
{
    let d = g[p];
    let without = g.update(p, 0);
    lemma_coordinates(k, p);
    lemma_cell_counted(without, k, q);
    lemma_fill_counts(without, p, d, k, unit_of(k, p), d);
    assert(without.update(p, d) =~= g);
}

/// A unit that holds a digit more than once holds it in two different cells.
pub proof fn lemma_counted_twice(g: Seq<u8>, k: UnitKind, u: int, d: u8)
    requires
        0 <= u < 9,
        d != 0,
        unit_count(g, k, u, d) >= 2,
    ensures
        exists|p: int, q: int| is_repeat(g, k, p, q),
{
    assert(exists|i: int, j: int|
        0 <= i < j < 9 && hit(g, unit_cell(k, u, i), d) == 1 && hit(g, unit_cell(k, u, j), d)
            == 1) by {
        reveal(unit_count);
    }
    let (i, j) = choose|i: int, j: int|
        0 <= i < j < 9 && hit(g, unit_cell(k, u, i), d) == 1 && hit(g, unit_cell(k, u, j), d)
            == 1;
    lemma_unit_cells(k, u, i);
    lemma_unit_cells(k, u, j);
    assert(is_repeat(g, k, unit_cell(k, u, i), unit_cell(k, u, j)));
}

/// In a grid without a digit every unit holds nine empty cells.
pub proof fn lemma_empty_counts(g: Seq<u8>, k: UnitKind, u: int, d: u8)
    requires
        0 <= u < 9,
        forall|p: int| 0 <= p < 81 ==> #[trigger] g[p] == 0,
    ensures
        unit_count(g, k, u, d) == (if d == 0 {
            9int
        } else {
            0int
        }),
{
    reveal(unit_count);
    lemma_unit_cells_all(k, u);
}

/// In a filled grid no unit holds an empty cell.
pub proof fn lemma_filled_counts(g: Seq<u8>, k: UnitKind, u: int)
    requires
        0 <= u < 9,
        is_filled(g),
    ensures
        unit_count(g, k, u, 0) == 0,
{
    reveal(unit_count);
    lemma_unit_cells_all(k, u);
}

/// Filling an empty cell changes what is counted in that cell, and in no other cell of
/// any unit.
proof fn lemma_fill_hit(g: Seq<u8>, p: int, v: u8, k: UnitKind, u: int, i: int, d: u8)
    requires
        g.len() == 81,
        0 <= p < 81,
        0 <= u < 9,
        0 <= i < 9,
        g[p] == 0,
        v != 0,
    ensures
        hit(g.update(p, v), unit_cell(k, u, i), d) == hit(g, unit_cell(k, u, i), d) + fill_delta(
            u == unit_of(k, p) && i == slot_of(k, p),
            v,
            d,
        ),
{
    lemma_coordinates(k, p);
    lemma_unit_cells(k, u, i);
}

/// Filling an empty cell changes the counts of the units of that cell only: the digit
/// is counted once more there, and the empty cells once less.
pub proof fn lemma_fill_counts(g: Seq<u8>, p: int, v: u8, k: UnitKind, u: int, d: u8)
    requires
        g.len() == 81,
        0 <= p < 81,
        0 <= u < 9,
        g[p] == 0,
        v != 0,
    ensures
        unit_count(g.update(p, v), k, u, d) == unit_count(g, k, u, d) + fill_delta(
            u == unit_of(k, p),
            v,
            d,
        ),
{
    reveal(unit_count);
    lemma_coordinates(k, p);
    lemma_fill_hit(g, p, v, k, u, 0, d);
    lemma_fill_hit(g, p, v, k, u, 1, d);
    lemma_fill_hit(g, p, v, k, u, 2, d);
    lemma_fill_hit(g, p, v, k, u, 3, d);
    lemma_fill_hit(g, p, v, k, u, 4, d);
    lemma_fill_hit(g, p, v, k, u, 5, d);
    lemma_fill_hit(g, p, v, k, u, 6, d);
    lemma_fill_hit(g, p, v, k, u, 7, d);
    lemma_fill_hit(g, p, v, k, u, 8, d);
}

/// A grid with an empty cell holds between 1 and 81 empty cells, and one less once
/// the cell is filled.
pub proof fn lemma_fill_empty_count(g: Seq<u8>, p: int, v: u8)
    requires
        g.len() == 81,
        0 <= p < 81,
        g[p] == 0,
        v != 0,
    ensures
        empty_count(g.update(p, v)) == empty_count(g) - 1,
        1 <= empty_count(g) <= 81,
{
    reveal(empty_count);
    let k = UnitKind::Row;
    lemma_coordinates(k, p);
    lemma_cell_counted(g, k, p);
    assert forall|r: int| 0 <= r < 9 implies 0 <= #[trigger] unit_count(g, k, r, 0) <= 9
        && unit_count(g.update(p, v), k, r, 0) == unit_count(g, k, r, 0) + fill_delta(
        r == unit_of(k, p),
        v,
        0,
    ) by {
        lemma_count_bounds(g, k, r, 0);
        lemma_fill_counts(g, p, v, k, r, 0);
    }
}

/// A grid without a digit holds 81 empty cells.
pub proof fn lemma_empty_count_of_empty(g: Seq<u8>)
    requires
        forall|p: int| 0 <= p < 81 ==> #[trigger] g[p] == 0,
    ensures
        empty_count(g) == 81,
{
    reveal(empty_count);
    assert forall|r: int| 0 <= r < 9 implies #[trigger] unit_count(g, UnitKind::Row, r, 0) == 9 by {
        lemma_empty_counts(g, UnitKind::Row, r, 0);
    }
}

} // verus!
