//! The solver's entry points: all solutions, any solution, and the uniqueness test.

use crate::grid::{blanks, cell, grid_wf, Grid, Puzzle, Solution};
use crate::search::{comes_before, count_solutions, find_solution, find_solutions};
use crate::search::{agree_before, holds_only, solutions_of};
use crate::search::{has_one_solution, is_digit_order, is_one_solution_of};
use crate::search::{is_solution_of, is_solved, lex_lt, precedes};
use crate::search::{lemma_full_grid_solves_itself, lemma_solvable_is_valid};
use crate::validate::{grid_is_valid, is_valid_puzzle};
use vstd::prelude::*;

verus! {

/// A plain array of 1..=9 digits, just for convenience.
pub const DIGITS_ARRAY: [u8; 9] = [1, 2, 3, 4, 5, 6, 7, 8, 9];

/// The grid without any digit.
pub open spec fn empty_grid() -> Grid {
    [
        [0u8, 0u8, 0u8, 0u8, 0u8, 0u8, 0u8, 0u8, 0u8],
        [0u8, 0u8, 0u8, 0u8, 0u8, 0u8, 0u8, 0u8, 0u8],
        [0u8, 0u8, 0u8, 0u8, 0u8, 0u8, 0u8, 0u8, 0u8],
        [0u8, 0u8, 0u8, 0u8, 0u8, 0u8, 0u8, 0u8, 0u8],
        [0u8, 0u8, 0u8, 0u8, 0u8, 0u8, 0u8, 0u8, 0u8],
        [0u8, 0u8, 0u8, 0u8, 0u8, 0u8, 0u8, 0u8, 0u8],
        [0u8, 0u8, 0u8, 0u8, 0u8, 0u8, 0u8, 0u8, 0u8],
        [0u8, 0u8, 0u8, 0u8, 0u8, 0u8, 0u8, 0u8, 0u8],
        [0u8, 0u8, 0u8, 0u8, 0u8, 0u8, 0u8, 0u8, 0u8],
    ]
}

/// The digits 1 to 9 in their natural order.
pub open spec fn natural_digits() -> Seq<u8> {
    seq![1u8, 2u8, 3u8, 4u8, 5u8, 6u8, 7u8, 8u8, 9u8]
}

/// `found` holds each solution of `g` once, the smaller first: where two of them first
/// differ, in reading order, the earlier one holds the smaller digit.
pub open spec fn is_solution_list(g: Grid, found: Seq<Grid>) -> bool {
    &&& forall|i: int| 0 <= i < found.len() ==> is_solution_of(g, #[trigger] found[i])
    &&& forall|s: Grid| #[trigger] is_solution_of(g, s) ==> found.contains(s)
    &&& forall|i: int, j: int|
        0 <= i < j < found.len() ==> lex_lt(#[trigger] found[i], #[trigger] found[j])
}

/// `s` is the smallest solution of `g`.
pub open spec fn is_least_solution(g: Grid, s: Grid) -> bool {
    &&& is_solution_of(g, s)
    &&& forall|t: Grid| #[trigger] is_solution_of(g, t) && t != s ==> lex_lt(s, t)
}

/// The natural order is a digit order, and in it the smaller digit is tried first.
pub proof fn lemma_natural_digits()
    ensures
        is_digit_order(natural_digits()),
        forall|x: u8, y: u8| comes_before(natural_digits(), x, y) ==> x < y,
        forall|a: Grid, b: Grid| precedes(natural_digits(), a, b) ==> lex_lt(a, b),
{
    let ds = natural_digits();
    assert forall|i: int| 0 <= i < 9 implies #[trigger] ds[i] == i + 1 by {}
    assert forall|v: u8| ds.contains(v) <==> 1 <= v <= 9 by {
        if 1 <= v <= 9 {
            assert(ds[v - 1] == v);
        }
    }
    assert forall|x: u8, y: u8| comes_before(ds, x, y) implies x < y by {
        let (i, j) = choose|i: int, j: int| 0 <= i < j < ds.len() && ds[i] == x && ds[j] == y;
        assert(ds[i] == i + 1 && ds[j] == j + 1);
    }
    assert forall|a: Grid, b: Grid| precedes(ds, a, b) implies lex_lt(a, b) by {
        let (r, c) = choose|r: int, c: int|
            0 <= r < 9 && 0 <= c < 9 && agree_before(a, b, r, c) && comes_before(
                ds,
                #[trigger] cell(a, r, c),
                cell(b, r, c),
            );
        assert(cell(a, r, c) < cell(b, r, c));
    }
}

/// A solved grid has one solution list: itself, alone.
pub proof fn lemma_solution_list_of_solved(g: Grid, found: Seq<Grid>)
    requires
        is_solved(g),
        is_solution_list(g, found),
    ensures
        found == seq![g],
{
    lemma_full_grid_solves_itself(g);
    lemma_unique_solution_listed_once(g, found);
    assert(is_solution_of(g, found[0]));
    assert(found =~= seq![g]);
}

/// The smallest solution of a solved grid is the grid itself.
pub proof fn lemma_least_solution_of_solved(g: Grid, s: Grid)
    requires
        is_solved(g),
        is_least_solution(g, s),
    ensures
        s == g,
{
    lemma_full_grid_solves_itself(g);
}

/// A grid with exactly one solution has a solution list of length one.
pub proof fn lemma_unique_solution_listed_once(g: Grid, found: Seq<Grid>)
    requires
        has_one_solution(g),
        is_solution_list(g, found),
    ensures
        found.len() == 1,
{
    let s = choose|s: Grid| is_one_solution_of(g, s);
    assert(found.contains(s));
    if found.len() >= 2 {
        assert(is_solution_of(g, found[0]) && is_solution_of(g, found[1]));
        assert(lex_lt(found[0], found[1]));
    }
}

/// There is a solved grid.
pub proof fn lemma_a_solved_grid_exists()
    ensures
        exists|s: Grid| is_solved(s),
{
    let w: Grid = [
        [1u8, 2u8, 3u8, 4u8, 5u8, 6u8, 7u8, 8u8, 9u8],
        [4u8, 5u8, 6u8, 7u8, 8u8, 9u8, 1u8, 2u8, 3u8],
        [7u8, 8u8, 9u8, 1u8, 2u8, 3u8, 4u8, 5u8, 6u8],
        [2u8, 3u8, 4u8, 5u8, 6u8, 7u8, 8u8, 9u8, 1u8],
        [5u8, 6u8, 7u8, 8u8, 9u8, 1u8, 2u8, 3u8, 4u8],
        [8u8, 9u8, 1u8, 2u8, 3u8, 4u8, 5u8, 6u8, 7u8],
        [3u8, 4u8, 5u8, 6u8, 7u8, 8u8, 9u8, 1u8, 2u8],
        [6u8, 7u8, 8u8, 9u8, 1u8, 2u8, 3u8, 4u8, 5u8],
        [9u8, 1u8, 2u8, 3u8, 4u8, 5u8, 6u8, 7u8, 8u8],
    ];
    assert forall|r: int, c: int| 0 <= r < 9 && 0 <= c < 9 implies 1 <= #[trigger] cell(w, r, c)
        <= 9 by {}
    assert(grid_is_valid(w));
    assert(is_solved(w));
}

/// Every solution list of the empty grid holds at least one grid, and holds solved grids
/// only: valid ones without a blank.
pub proof fn lemma_empty_grid_has_solutions(found: Seq<Grid>)
    requires
        is_solution_list(empty_grid(), found),
    ensures
        found.len() > 0,
        forall|i: int| 0 <= i < found.len() ==> is_solved(#[trigger] found[i]),
{
    lemma_a_solved_grid_exists();
    let s = choose|s: Grid| is_solved(s);
    assert(is_solution_of(empty_grid(), s));
    assert(found.contains(s));
    assert forall|i: int| 0 <= i < found.len() implies is_solved(#[trigger] found[i]) by {
        assert(is_solution_of(empty_grid(), found[i]));
    }
}

/// An invalid grid has no solution.
pub proof fn lemma_invalid_has_no_solution(g: Grid)
    requires
        !grid_is_valid(g),
    ensures
        forall|s: Grid| !is_solution_of(g, s),
        !has_one_solution(g),
{
    assert forall|s: Grid| !is_solution_of(g, s) by {
        if is_solution_of(g, s) {
            lemma_solvable_is_valid(g, s);
        }
    }
}

/// Finds all solutions to the given puzzle, if any.
pub fn solve(puzzle: Puzzle) -> (out: Vec<Solution>)
    requires
        grid_wf(puzzle),
    ensures
        is_solution_list(puzzle, out@),
        is_solved(puzzle) ==> out@ == seq![puzzle],
        !grid_is_valid(puzzle) ==> out@.len() == 0,
{
    if !is_valid_puzzle(&puzzle) {
        proof {
            lemma_invalid_has_no_solution(puzzle);
        }
        return Vec::new();
    }
    let blanks = blanks(puzzle);
    if blanks.len() == 0 {
        let out = vec![puzzle];
        proof {
            lemma_full_grid_solves_itself(puzzle);
            assert(out@[0] == puzzle);
            assert(out@ =~= seq![puzzle]);
        }
        return out;
    }
    let mut solutions = Vec::new();
    let digits = DIGITS_ARRAY;
    proof {
        assert(digits@ =~= natural_digits());
        lemma_natural_digits();
    }
    find_solutions(puzzle, blanks.as_slice(), &digits, &mut solutions);
    proof {
        assert(solutions@.skip(0) =~= solutions@);
        if is_solved(puzzle) {
            lemma_solution_list_of_solved(puzzle, solutions@);
        }
    }
    solutions
}

/// Finds a solution to the given puzzle, if any: the smallest one.
pub fn solve_any(puzzle: Puzzle) -> (out: Option<Solution>)
    requires
        grid_wf(puzzle),
    ensures
        out is None <==> forall|s: Grid| !is_solution_of(puzzle, s),
        out is Some ==> is_least_solution(puzzle, out->Some_0),
        is_solved(puzzle) ==> out == Some(puzzle),
        !grid_is_valid(puzzle) ==> out is None,
{
    if !is_valid_puzzle(&puzzle) {
        proof {
            lemma_invalid_has_no_solution(puzzle);
        }
        return None;
    }
    let blanks = blanks(puzzle);
    if blanks.len() == 0 {
        proof {
            lemma_full_grid_solves_itself(puzzle);
        }
        return Some(puzzle);
    }
    let digits = DIGITS_ARRAY;
    proof {
        assert(digits@ =~= natural_digits());
        lemma_natural_digits();
    }
    let out = find_solution(puzzle, blanks.as_slice(), &digits);
    proof {
        if is_solved(puzzle) {
            assert(cell(puzzle, blanks@[0].0 as int, blanks@[0].1 as int) == 0);
        }
    }
    out
}

/// Verifies whether a puzzle has exactly one solution.
pub fn has_unique_solution(puzzle: Puzzle) -> (out: bool)
    requires
        grid_wf(puzzle),
    ensures
        out == has_one_solution(puzzle),
        is_solved(puzzle) ==> out,
        !grid_is_valid(puzzle) ==> !out,
{
    proof {
        if is_solved(puzzle) {
            lemma_full_grid_solves_itself(puzzle);
        }
    }
    if !is_valid_puzzle(&puzzle) {
        proof {
            lemma_invalid_has_no_solution(puzzle);
        }
        return false;
    }
    let blanks = blanks(puzzle);
    if blanks.len() == 0 {
        proof {
            lemma_full_grid_solves_itself(puzzle);
        }
        return true;
    }
    let mut count_cache: u8 = 0;
    let digits = DIGITS_ARRAY;
    proof {
        assert(digits@ =~= natural_digits());
        lemma_natural_digits();
    }
    count_solutions(puzzle, blanks.as_slice(), &digits, &mut count_cache);
    proof {
        let set = solutions_of(puzzle);
        if count_cache == 1 {
            let x = choose|x: Grid| holds_only(set, x);
            assert(is_one_solution_of(puzzle, x)) by {
                assert(set.contains(x));
                assert forall|t: Grid| #[trigger] is_solution_of(puzzle, t) implies t == x by {
                    assert(set.contains(t));
                }
            }
        }
        if has_one_solution(puzzle) {
            let s = choose|s: Grid| is_one_solution_of(puzzle, s);
            assert(holds_only(set, s));
        }
    }
    count_cache == 1
}

} // verus!
