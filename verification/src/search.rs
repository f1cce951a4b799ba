//! The depth-first search: cell by cell in row-major order, digit by digit in
//! increasing order.

use crate::board::BoardState;
use crate::grid::{
    is_filled, is_solved, lemma_count_bounds, lemma_filled_counts, unit_count, UnitKind,
};
use crate::mask::{
    has_bit, is_mask, lemma_clear_bit, lemma_empty_mask, lemma_lowest_bit, lemma_mask_bounds,
};
use crate::solution::{
    filled_before, first_solution, has_solution, is_first_solution, is_solution,
    lemma_first_solution, lemma_first_solution_step, lemma_solution_digit,
    lemma_solution_of_filled, lemma_solved_is_first,
};
use vstd::prelude::*;

verus! {

impl BoardState {
    /// A well-formed state without an empty cell holds a solved grid.
    pub proof fn lemma_filled_is_solved(&self)
        requires
            self.wf(),
            is_filled(self@),
        ensures
            is_solved(self@),
    {
        let g = self@;
        assert forall|k: UnitKind, u: int, d: u8| 0 <= u < 9 && 1 <= d <= 9 implies
            #[trigger] unit_count(g, k, u, d) == 1 by {
            lemma_filled_counts(g, k, u);
            lemma_mask_bounds(self.mask(k, u));
            lemma_count_bounds(g, k, u, d);
            assert(self.left(k, u) == 0);
            assert(self.mask(k, u) == 0);
            lemma_empty_mask(d);
        }
    }

    /// Searches for the first solution of the grid that `state` holds.
    ///
    /// Returns the state of the solution that comes before every other one, or `None`
    /// where the grid has no solution.
    pub fn solve(state: BoardState) -> (r: Option<BoardState>)
        requires
            state.wf(),
        ensures
            r is Some <==> has_solution(state@),
            r matches Some(s) ==> s.wf() && is_first_solution(state@, s@) && s@ == first_solution(
                state@,
            ),
    {
        let r = Self::solve_rec(&state, 0);
        proof {
            if r is Some {
                lemma_first_solution(state@);
            }
        }
        r
    }

    /// Searches from `position` on, where every cell before `position` is filled.
    ///
    /// A filled cell is passed over. For an empty cell the candidates are tried in
    /// increasing order, each on a copy of the state, and the first one from which the
    /// rest of the grid can be solved decides.
    pub fn solve_rec(state: &BoardState, position: usize) -> (r: Option<BoardState>)
        requires
            state.wf(),
            position <= 81,
            filled_before(state@, position as int),
        ensures
            r is Some <==> has_solution(state@),
            r matches Some(s) ==> s.wf() && is_first_solution(state@, s@),
        decreases 81 - position,
    {
        if position == 81 {
            proof {
                state.lemma_filled_is_solved();
                lemma_solved_is_first(state@);
            }
            Some(state.clone())
        } else if state.state[position] != 0 {
            Self::solve_rec(state, position + 1)
        } else {
            let mut possible: u16 = state.candidates(position);
            proof {
                state.lemma_candidates(position);
                assert forall|h: Seq<u8>| #[trigger] is_solution(state@, h) implies has_bit(
                    possible,
                    h[position as int],
                ) by {
                    lemma_solution_digit(state@, h, position as int);
                }
            }
            while possible != 0
                invariant
                    state.wf(),
                    position < 81,
                    state@[position as int] == 0,
                    filled_before(state@, position as int),
                    is_mask(possible),
                    forall|d: u8| #[trigger]
                        has_bit(possible, d) ==> has_bit(state.spec_candidates(position), d),
                    forall|h: Seq<u8>| #[trigger]
                        is_solution(state@, h) ==> has_bit(possible, h[position as int]),
                decreases possible,
            {
                let ghost untried = possible;
                let val: u8 = possible.trailing_zeros() as u8;
                proof {
                    lemma_lowest_bit(possible);
                    lemma_clear_bit(possible, val);
                }
                possible &= !(1u16 << val);
                let mut new_state = state.clone();
                if !new_state.set_cell(position, val) {
                    continue ;
                }
                assert(filled_before(new_state@, position + 1)) by {
                    assert forall|q: int| 0 <= q < position + 1 implies #[trigger] new_state@[q]
                        != 0 by {
                        if q < position {
                            assert(state@[q] != 0);
                        }
                    }
                }
                if let Some(solved_state) = Self::solve_rec(&new_state, position + 1) {
                    proof {
                        assert forall|h: Seq<u8>| #[trigger] is_solution(state@, h) implies
                            h[position as int] >= val by {
                            assert(has_bit(untried, h[position as int]));
                        }
                        lemma_first_solution_step(state@, solved_state@, position as int, val);
                    }
                    return Some(solved_state);
                }
                assert forall|h: Seq<u8>| #[trigger] is_solution(state@, h) implies has_bit(
                    possible,
                    h[position as int],
                ) by {
                    lemma_solution_of_filled(state@, h, position as int, val);
                    assert(has_bit(untried, h[position as int]));
                }
            }
            assert forall|h: Seq<u8>| !is_solution(state@, h) by {
                if is_solution(state@, h) {
                    assert(has_bit(possible, h[position as int]));
                    lemma_empty_mask(h[position as int]);
                }
            }
            None
        }
    }
}

} // verus!
