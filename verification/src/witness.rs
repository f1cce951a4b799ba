//! A solved grid, written down to show that there is one.

use crate::grid::{hit, is_solved, lemma_unit_cells, unit_cell, unit_count, UnitKind};
use vstd::prelude::*;

verus! {

/// A grid in which each row is the row above it moved on by three places, and by one
/// more from one band of three rows to the next.
pub open spec fn shifted_grid() -> Seq<u8> {
    Seq::new(81, |p: int| ((p % 9 + 3 * ((p / 9) % 3) + p / 27) % 9 + 1) as u8)
}

/// The number that stands, moved on round a ring of nine, in cell `i` of a unit of kind
/// `k` of the shifted grid.
spec fn number_in(k: UnitKind, i: int) -> int {
    match k {
        UnitKind::Row => i,
        UnitKind::Col => 3 * (i % 3) + i / 3,
        UnitKind::Group => i,
    }
}

/// By how many places the numbers in unit `u` of kind `k` of the shifted grid are
/// moved on.
spec fn moved_by(k: UnitKind, u: int) -> int {
    match k {
        UnitKind::Row => 3 * (u % 3) + u / 3,
        UnitKind::Col => u,
        UnitKind::Group => 3 * (u % 3) + u / 3,
    }
}

/// 1 if number `j`, moved on by `c` places round a ring of nine, comes to place `e`,
/// else 0.
spec fn lands_on(j: int, c: int, e: int) -> int {
    if (j + c) % 9 == e {
        1
    } else {
        0
    }
}

/// Of the numbers from 0 to 8, moved on round a ring of nine, one comes to each place.
proof fn lemma_one_lands(c: int, e: int)
    requires
        0 <= c < 9,
        0 <= e < 9,
    ensures
        lands_on(0, c, e) + lands_on(1, c, e) + lands_on(2, c, e) + lands_on(3, c, e) + lands_on(
            4,
            c,
            e,
        ) + lands_on(5, c, e) + lands_on(6, c, e) + lands_on(7, c, e) + lands_on(8, c, e) == 1,
{
}

/// What the shifted grid holds in cell `i` of unit `u` of kind `k`.
proof fn lemma_shifted_cell(k: UnitKind, u: int, i: int, d: u8)
    requires
        0 <= u < 9,
        0 <= i < 9,
        1 <= d <= 9,
    ensures
        0 <= unit_cell(k, u, i) < 81,
        0 <= number_in(k, i) < 9,
        0 <= moved_by(k, u) < 9,
        shifted_grid()[unit_cell(k, u, i)] == (number_in(k, i) + moved_by(k, u)) % 9 + 1,
        hit(shifted_grid(), unit_cell(k, u, i), d) == lands_on(
            number_in(k, i),
            moved_by(k, u),
            d - 1,
        ),
{
    let p = unit_cell(k, u, i);
    lemma_unit_cells(k, u, i);
    if k is Group {
        assert(p / 9 == 3 * (u / 3) + i / 3);
        assert(p % 9 == 3 * (u % 3) + i % 3);
        assert(p / 27 == u / 3);
        assert((p / 9) % 3 == i / 3);
    }
    assert(p % 9 + 3 * ((p / 9) % 3) + p / 27 == number_in(k, i) + moved_by(k, u));
}

/// Every unit of the shifted grid holds each digit once.
proof fn lemma_shifted_unit(k: UnitKind, u: int, d: u8)
    requires
        0 <= u < 9,
        1 <= d <= 9,
    ensures
        unit_count(shifted_grid(), k, u, d) == 1,
{
    reveal(unit_count);
    lemma_shifted_cell(k, u, 0, d);
    lemma_shifted_cell(k, u, 1, d);
    lemma_shifted_cell(k, u, 2, d);
    lemma_shifted_cell(k, u, 3, d);
    lemma_shifted_cell(k, u, 4, d);
    lemma_shifted_cell(k, u, 5, d);
    lemma_shifted_cell(k, u, 6, d);
    lemma_shifted_cell(k, u, 7, d);
    lemma_shifted_cell(k, u, 8, d);
    lemma_one_lands(moved_by(k, u), d - 1);
}

/// The shifted grid is solved.
pub proof fn lemma_shifted_grid_is_solved()
    ensures
        is_solved(shifted_grid()),
{
    let w = shifted_grid();
    assert forall|k: UnitKind, u: int, d: u8| 0 <= u < 9 && 1 <= d <= 9 implies
        #[trigger] unit_count(w, k, u, d) == 1 by {
        lemma_shifted_unit(k, u, d);
    }
}

} // verus!
