//! The solutions of a puzzle, and the order in which the search finds them.

use crate::grid::{
    can_place, consistent, hit, is_grid, is_solved, lemma_coordinates, lemma_count_bounds,
    lemma_unit_cells_all, slot_of, unit_cell, unit_count, unit_of, UnitKind,
};
use vstd::prelude::*;

verus! {

/// Grid `h` keeps every filled cell of `g`.
pub open spec fn extends(h: Seq<u8>, g: Seq<u8>) -> bool {
    forall|p: int| #![trigger h[p]] 0 <= p < 81 && g[p] != 0 ==> h[p] == g[p]
}

/// Grid `h` is a solution of puzzle `g`: it is solved and keeps the filled cells of
/// `g`.
pub open spec fn is_solution(g: Seq<u8>, h: Seq<u8>) -> bool {
    is_solved(h) && extends(h, g)
}

/// Puzzle `g` has at least one solution.
pub open spec fn has_solution(g: Seq<u8>) -> bool {
    exists|h: Seq<u8>| is_solution(g, h)
}

/// Every cell before position `n` is filled.
pub open spec fn filled_before(g: Seq<u8>, n: int) -> bool {
    forall|q: int| 0 <= q < n ==> #[trigger] g[q] != 0
}

/// Grids `a` and `b` hold the same in every cell before position `p`, and at `p` grid
/// `a` holds the smaller digit.
pub open spec fn differs_first_at(a: Seq<u8>, b: Seq<u8>, p: int) -> bool {
    &&& 0 <= p < 81
    &&& a[p] < b[p]
    &&& forall|q: int| #![trigger a[q]] 0 <= q < p ==> a[q] == b[q]
}

/// Grid `a` comes before grid `b`: the cells are compared in row-major order, and the
/// first cell in which the two differ decides.
pub open spec fn precedes(a: Seq<u8>, b: Seq<u8>) -> bool {
    exists|p: int| differs_first_at(a, b, p)
}

/// Grid `s` is the solution of `g` that comes before every other solution of `g`.
pub open spec fn is_first_solution(g: Seq<u8>, s: Seq<u8>) -> bool {
    &&& is_solution(g, s)
    &&& forall|h: Seq<u8>| #[trigger] is_solution(g, h) ==> h == s || precedes(s, h)
}

/// The first solution of a puzzle that has a solution.
pub open spec fn first_solution(g: Seq<u8>) -> Seq<u8> {
    choose|s: Seq<u8>| is_first_solution(g, s)
}

/// A puzzle has at most one first solution.
pub proof fn lemma_first_solution_unique(g: Seq<u8>, a: Seq<u8>, b: Seq<u8>)
    requires
        is_first_solution(g, a),
        is_first_solution(g, b),
    ensures
        a == b,
{
    if a != b {
        assert(is_solution(g, a) && is_solution(g, b));
        let p = choose|p: int| differs_first_at(a, b, p);
        let q = choose|q: int| differs_first_at(b, a, q);
        if p < q {
            assert(b[p] == a[p]);
        } else if q < p {
            assert(a[q] == b[q]);
        }
    }
}

/// Where `h` keeps the filled cells of `g`, a unit holds a digit in `h` at least as
/// often as in `g`.
pub proof fn lemma_extension_counts(g: Seq<u8>, h: Seq<u8>, k: UnitKind, u: int, d: u8)
    requires
        0 <= u < 9,
        d != 0,
        extends(h, g),
    ensures
        unit_count(g, k, u, d) <= unit_count(h, k, u, d),
{
    reveal(unit_count);
    lemma_unit_cells_all(k, u);
    assert forall|i: int| 0 <= i < 9 implies hit(g, #[trigger] unit_cell(k, u, i), d) <= hit(
        h,
        unit_cell(k, u, i),
        d,
    ) by {
        let q = unit_cell(k, u, i);
        assert(g[q] != 0 ==> h[q] == g[q]);
    }
}

/// Where `h` keeps the filled cells of `g` and holds a digit in a cell that is empty
/// in `g`, each unit of that cell holds the digit more often in `h` than in `g`.
pub proof fn lemma_extension_counts_at(g: Seq<u8>, h: Seq<u8>, k: UnitKind, p: int)
    requires
        0 <= p < 81,
        extends(h, g),
        g[p] == 0,
        h[p] != 0,
    ensures
        unit_count(g, k, unit_of(k, p), h[p]) < unit_count(h, k, unit_of(k, p), h[p]),
{
    let d = h[p];
    let u = unit_of(k, p);
    reveal(unit_count);
    lemma_coordinates(k, p);
    lemma_unit_cells_all(k, u);
    assert forall|i: int| 0 <= i < 9 implies hit(g, #[trigger] unit_cell(k, u, i), d) + (if i
        == slot_of(k, p) {
        1int
    } else {
        0int
    }) <= hit(h, unit_cell(k, u, i), d) by {
        let q = unit_cell(k, u, i);
        assert(g[q] != 0 ==> h[q] == g[q]);
    }
}

/// A grid whose filled cells are kept by a grid in which no digit stands twice in a
/// unit holds no digit twice in a unit either.
pub proof fn lemma_extension_consistent(g: Seq<u8>, h: Seq<u8>)
    requires
        is_grid(g),
        extends(h, g),
        consistent(h),
    ensures
        consistent(g),
{
    assert forall|k: UnitKind, u: int, d: u8| 0 <= u < 9 && 1 <= d <= 9 implies
        #[trigger] unit_count(g, k, u, d) <= 1 by {
        lemma_extension_counts(g, h, k, u, d);
        assert(unit_count(h, k, u, d) <= 1);
    }
}

/// A puzzle that has a solution holds no digit twice in a row, a column or a group.
pub proof fn lemma_solvable_is_consistent(g: Seq<u8>)
    requires
        is_grid(g),
        has_solution(g),
    ensures
        consistent(g),
{
    let h = choose|h: Seq<u8>| is_solution(g, h);
    lemma_extension_consistent(g, h);
}

/// What a solution holds in a cell that the puzzle leaves empty is a digit that stands
/// nowhere in the row, the column and the group of that cell in the puzzle.
pub proof fn lemma_solution_digit(g: Seq<u8>, h: Seq<u8>, p: int)
    requires
        0 <= p < 81,
        is_solution(g, h),
        g[p] == 0,
    ensures
        1 <= h[p] <= 9,
        can_place(g, p, h[p]),
{
    let d = h[p];
    assert(h[p] != 0 && h[p] <= 9);
    assert forall|k: UnitKind| #[trigger] unit_count(g, k, unit_of(k, p), d) == 0 by {
        lemma_coordinates(k, p);
        lemma_extension_counts_at(g, h, k, p);
        lemma_count_bounds(g, k, unit_of(k, p), d);
        assert(unit_count(h, k, unit_of(k, p), d) == 1);
    }
}

/// The solutions of a puzzle that hold `v` in an empty cell of it are the solutions of
/// the puzzle with `v` filled in there.
pub proof fn lemma_solution_of_filled(g: Seq<u8>, h: Seq<u8>, p: int, v: u8)
    requires
        g.len() == 81,
        0 <= p < 81,
        g[p] == 0,
        v != 0,
    ensures
        is_solution(g.update(p, v), h) <==> is_solution(g, h) && h[p] == v,
{
    let g2 = g.update(p, v);
    if is_solution(g2, h) {
        assert(g2[p] == v);
        assert(h[p] == v);
        assert forall|q: int| #![trigger h[q]] 0 <= q < 81 && g[q] != 0 implies h[q] == g[q] by {
            assert(g2[q] == g[q]);
        }
    }
    if is_solution(g, h) && h[p] == v {
        assert forall|q: int| #![trigger h[q]] 0 <= q < 81 && g2[q] != 0 implies h[q] == g2[q] by {
            if q != p {
                assert(g2[q] == g[q]);
            }
        }
    }
}

/// A solved grid is its own first solution, and has no other solution.
pub proof fn lemma_solved_is_first(g: Seq<u8>)
    requires
        is_solved(g),
    ensures
        is_first_solution(g, g),
        forall|h: Seq<u8>| #[trigger] is_solution(g, h) ==> h == g,
{
    assert forall|h: Seq<u8>| #[trigger] is_solution(g, h) implies h == g by {
        assert forall|p: int| 0 <= p < 81 implies h[p] == g[p] by {
            assert(g[p] != 0);
        }
        assert(h =~= g);
    }
}

/// The first solution of a puzzle with `v` filled into an empty cell is the first
/// solution of the puzzle itself, where every cell before that one is filled and no
/// solution of the puzzle holds a smaller digit than `v` in it.
pub proof fn lemma_first_solution_step(g: Seq<u8>, s: Seq<u8>, p: int, v: u8)
    requires
        g.len() == 81,
        0 <= p < 81,
        filled_before(g, p),
        g[p] == 0,
        v != 0,
        is_first_solution(g.update(p, v), s),
        forall|h: Seq<u8>| #[trigger] is_solution(g, h) ==> h[p] >= v,
    ensures
        is_first_solution(g, s),
{
    lemma_solution_of_filled(g, s, p, v);
    assert forall|h: Seq<u8>| #[trigger] is_solution(g, h) implies h == s || precedes(s, h) by {
        lemma_solution_of_filled(g, h, p, v);
        if h[p] == v {
            assert(is_solution(g.update(p, v), h));
        } else {
            assert forall|q: int| #![trigger s[q]] 0 <= q < p implies s[q] == h[q] by {
                assert(g[q] != 0);
                assert(h[q] == g[q]);
            }
            assert(differs_first_at(s, h, p));
        }
    }
}

/// The smallest digit that a solution of the puzzle holds in an empty cell of it.
proof fn lemma_least_digit(g: Seq<u8>, p: int, from: u8) -> (v: u8)
    requires
        g.len() == 81,
        0 <= p < 81,
        g[p] == 0,
        1 <= from <= 9,
        has_solution(g),
        forall|h: Seq<u8>| #[trigger] is_solution(g, h) ==> h[p] >= from,
    ensures
        from <= v <= 9,
        has_solution(g.update(p, v)),
        forall|h: Seq<u8>| #[trigger] is_solution(g, h) ==> h[p] >= v,
    decreases 10 - from,
{
    if has_solution(g.update(p, from)) {
        from
    } else {
        assert forall|h: Seq<u8>| #[trigger] is_solution(g, h) implies h[p] > from by {
            lemma_solution_of_filled(g, h, p, from);
        }
        if from == 9 {
            let h = choose|h: Seq<u8>| is_solution(g, h);
            assert(h[p] <= 9);
            from
        } else {
            lemma_least_digit(g, p, (from + 1) as u8)
        }
    }
}

/// A puzzle that has a solution and is filled before position `n` has a first
/// solution.
proof fn lemma_first_solution_from(g: Seq<u8>, n: int)
    requires
        g.len() == 81,
        0 <= n <= 81,
        filled_before(g, n),
        has_solution(g),
    ensures
        exists|s: Seq<u8>| is_first_solution(g, s),
    decreases 81 - n,
{
    if n == 81 {
        let h = choose|h: Seq<u8>| is_solution(g, h);
        assert forall|p: int| 0 <= p < 81 implies h[p] == g[p] by {
            assert(g[p] != 0);
        }
        assert(h =~= g);
        lemma_solved_is_first(g);
    } else if g[n] != 0 {
        lemma_first_solution_from(g, n + 1);
    } else {
        assert forall|h: Seq<u8>| #[trigger] is_solution(g, h) implies h[n] >= 1 by {
            assert(h[n] != 0);
        }
        let v = lemma_least_digit(g, n, 1);
        assert(filled_before(g.update(n, v), n + 1)) by {
            assert forall|q: int| 0 <= q < n + 1 implies #[trigger] g.update(n, v)[q] != 0 by {
                if q < n {
                    assert(g[q] != 0);
                }
            }
        }
        lemma_first_solution_from(g.update(n, v), n + 1);
        let s = choose|s: Seq<u8>| is_first_solution(g.update(n, v), s);
        lemma_first_solution_step(g, s, n, v);
    }
}

/// A puzzle that has a solution has exactly one first solution.
pub proof fn lemma_first_solution(g: Seq<u8>)
    requires
        g.len() == 81,
        has_solution(g),
    ensures
        is_first_solution(g, first_solution(g)),
        forall|s: Seq<u8>| #[trigger] is_first_solution(g, s) ==> s == first_solution(g),
{
    lemma_first_solution_from(g, 0);
    assert forall|s: Seq<u8>| #[trigger] is_first_solution(g, s) implies s == first_solution(
        g,
    ) by {
        lemma_first_solution_unique(g, s, first_solution(g));
    }
}

} // verus!
