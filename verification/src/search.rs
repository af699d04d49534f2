//! Backtracking search: every solution, the first solution, and whether there is exactly one.

use crate::grid::{cell, grid_wf, is_blank_list, is_put, lemma_grid_ext, pos_lt, with_digit};
use crate::grid::{Grid, GridPos, Puzzle, Solution};
use crate::validate::{grid_is_valid, is_blanking_of, is_valid_puzzle};
use crate::validate::lemma_blanking_preserves_validity;
use vstd::prelude::*;
use vstd::slice::slice_subrange;

verus! {

/// `s` keeps every digit that `g` already holds.
pub open spec fn extends(g: Grid, s: Grid) -> bool {
    forall|r: int, c: int|
        0 <= r < 9 && 0 <= c < 9 && #[trigger] cell(g, r, c) != 0 ==> cell(s, r, c) == cell(
            g,
            r,
            c,
        )
}

/// `s` is valid and has a digit in every cell.
pub open spec fn is_solved(s: Grid) -> bool {
    &&& grid_is_valid(s)
    &&& forall|r: int, c: int| 0 <= r < 9 && 0 <= c < 9 ==> 1 <= #[trigger] cell(s, r, c) <= 9
}

/// `s` solves `g`: it is solved and keeps the digits of `g`.
pub open spec fn is_solution_of(g: Grid, s: Grid) -> bool {
    is_solved(s) && extends(g, s)
}

/// `g` has exactly one solution.
pub open spec fn has_one_solution(g: Grid) -> bool {
    exists|s: Grid| is_one_solution_of(g, s)
}

/// `s` solves `g`, and nothing else does.
pub open spec fn is_one_solution_of(g: Grid, s: Grid) -> bool {
    is_solution_of(g, s) && forall|t: Grid| #[trigger] is_solution_of(g, t) ==> t == s
}

/// `ds` holds each of the digits 1 to 9 once: an order in which to try them.
pub open spec fn is_digit_order(ds: Seq<u8>) -> bool {
    &&& ds.len() == 9
    &&& ds.no_duplicates()
    &&& forall|v: u8| ds.contains(v) <==> 1 <= v <= 9
}

/// `x` is tried before `y` in the order `ds`.
pub open spec fn comes_before(ds: Seq<u8>, x: u8, y: u8) -> bool {
    exists|i: int, j: int| 0 <= i < j < ds.len() && ds[i] == x && ds[j] == y
}

/// `a` and `b` hold the same digit in every cell that is read before (`r`, `c`).
pub open spec fn agree_before(a: Grid, b: Grid, r: int, c: int) -> bool {
    forall|r2: int, c2: int|
        0 <= r2 < 9 && 0 <= c2 < 9 && (r2 < r || (r2 == r && c2 < c)) ==> #[trigger] cell(
            a,
            r2,
            c2,
        ) == cell(b, r2, c2)
}

/// At the first cell, in reading order, where `a` and `b` differ, the digit of `a` is tried
/// before that of `b`.
pub open spec fn precedes(ds: Seq<u8>, a: Grid, b: Grid) -> bool {
    exists|r: int, c: int|
        0 <= r < 9 && 0 <= c < 9 && agree_before(a, b, r, c) && comes_before(
            ds,
            #[trigger] cell(a, r, c),
            cell(b, r, c),
        )
}

/// At the first cell, in reading order, where `a` and `b` differ, `a` holds the smaller digit.
pub open spec fn lex_lt(a: Grid, b: Grid) -> bool {
    exists|r: int, c: int|
        0 <= r < 9 && 0 <= c < 9 && agree_before(a, b, r, c) && #[trigger] cell(a, r, c) < cell(
            b,
            r,
            c,
        )
}

/// `v` is among the first `k` digits of `ds`.
pub open spec fn tried_within(ds: Seq<u8>, k: int, v: u8) -> bool {
    exists|i: int| 0 <= i < k && ds[i] == v
}

/// `found` holds each solution of `g` once, in the order in which a search meets them
/// that tries the digits as `ds` gives them.
pub open spec fn lists_solutions(g: Grid, ds: Seq<u8>, found: Seq<Grid>) -> bool {
    &&& forall|i: int| 0 <= i < found.len() ==> is_solution_of(g, #[trigger] found[i])
    &&& forall|s: Grid| #[trigger] is_solution_of(g, s) ==> found.contains(s)
    &&& forall|i: int, j: int|
        0 <= i < j < found.len() ==> precedes(ds, #[trigger] found[i], #[trigger] found[j])
}

/// As [`lists_solutions`], of the solutions whose digit at (`r`, `c`) is among the first `k`
/// of `ds`.
pub open spec fn lists_solutions_within(
    g: Grid,
    ds: Seq<u8>,
    k: int,
    r: int,
    c: int,
    found: Seq<Grid>,
) -> bool {
    &&& forall|i: int|
        0 <= i < found.len() ==> is_solution_of(g, #[trigger] found[i]) && tried_within(
            ds,
            k,
            cell(found[i], r, c),
        )
    &&& forall|s: Grid|
        #[trigger] is_solution_of(g, s) && tried_within(ds, k, cell(s, r, c)) ==> found.contains(s)
    &&& forall|i: int, j: int|
        0 <= i < j < found.len() ==> precedes(ds, #[trigger] found[i], #[trigger] found[j])
}

/// `s` solves `g`, and the search meets it before any other solution.
pub open spec fn is_first_solution(g: Grid, ds: Seq<u8>, s: Grid) -> bool {
    &&& is_solution_of(g, s)
    &&& forall|t: Grid| #[trigger] is_solution_of(g, t) && t != s ==> precedes(ds, s, t)
}

/// The solutions of `g`, as a set.
pub open spec fn solutions_of(g: Grid) -> Set<Grid> {
    Set::new(|s: Grid| is_solution_of(g, s))
}

/// The solutions of `g` whose digit at (`r`, `c`) is among the first `k` of `ds`.
pub open spec fn solutions_within(g: Grid, ds: Seq<u8>, k: int, r: int, c: int) -> Set<Grid> {
    Set::new(|s: Grid| is_solution_of(g, s) && tried_within(ds, k, cell(s, r, c)))
}

/// `set` holds nothing.
pub open spec fn holds_none(set: Set<Grid>) -> bool {
    forall|s: Grid| !set.contains(s)
}

/// `set` holds `x` and nothing else.
pub open spec fn holds_only(set: Set<Grid>, x: Grid) -> bool {
    set.contains(x) && forall|t: Grid| set.contains(t) ==> t == x
}

/// How many grids `set` holds, counted no further than two.
pub open spec fn count_to_two(set: Set<Grid>) -> int {
    if holds_none(set) {
        0
    } else if exists|x: Grid| holds_only(set, x) {
        1
    } else {
        2
    }
}

/// The smaller of `n` and two.
pub open spec fn at_most_two(n: int) -> int {
    if n < 2 {
        n
    } else {
        2
    }
}

/// A grid that has a solution is valid.
pub proof fn lemma_solvable_is_valid(g: Grid, s: Grid)
    requires
        is_solution_of(g, s),
    ensures
        grid_is_valid(g),
{
    assert(is_blanking_of(g, s));
    lemma_blanking_preserves_validity(g, s);
}

/// A well-formed valid grid without blanks is solved, and is its own only solution.
pub proof fn lemma_full_grid_solves_itself(g: Grid)
    requires
        grid_wf(g),
        grid_is_valid(g),
        forall|r: int, c: int| 0 <= r < 9 && 0 <= c < 9 ==> cell(g, r, c) != 0,
    ensures
        is_one_solution_of(g, g),
{
    assert forall|t: Grid| #[trigger] is_solution_of(g, t) implies t == g by {
        lemma_grid_ext(t, g);
    }
}

/// Writing a digit into the first blank of `g` leaves the other blanks as the blank list,
/// and as solutions those solutions of `g` that hold this digit there.
proof fn lemma_fill_first_blank(g: Grid, bl: Seq<GridPos>, d: u8, h: Grid)
    requires
        grid_wf(g),
        is_blank_list(g, bl),
        bl.len() > 0,
        1 <= d <= 9,
        is_put(g, bl[0].0 as int, bl[0].1 as int, d, h),
    ensures
        grid_wf(h),
        is_blank_list(h, bl.subrange(1, bl.len() as int)),
        forall|s: Grid|
            #![trigger is_solution_of(h, s)]
            #![trigger is_solution_of(g, s)]
            is_solution_of(h, s) <==> is_solution_of(g, s) && cell(
                s,
                bl[0].0 as int,
                bl[0].1 as int,
            ) == d,
{
    let r0 = bl[0].0 as int;
    let c0 = bl[0].1 as int;
    let rest = bl.subrange(1, bl.len() as int);
    assert(cell(g, r0, c0) == 0);
    assert forall|r: int, c: int| 0 <= r < 9 && 0 <= c < 9 implies #[trigger] cell(h, r, c)
        <= 9 by {
        assert(cell(g, r, c) <= 9);
    }
    assert forall|i: int| 0 <= i < rest.len() implies (#[trigger] rest[i]).0 < 9 && rest[i].1 < 9
        && cell(h, rest[i].0 as int, rest[i].1 as int) == 0 by {
        assert(rest[i] == bl[i + 1]);
        assert(pos_lt(bl[0], bl[i + 1]));
    }
    assert forall|i: int, j: int| 0 <= i < j < rest.len() implies pos_lt(
        #[trigger] rest[i],
        #[trigger] rest[j],
    ) by {
        assert(rest[i] == bl[i + 1] && rest[j] == bl[j + 1]);
    }
    assert forall|r: int, c: int|
        0 <= r < 9 && 0 <= c < 9 && #[trigger] cell(h, r, c) == 0 implies rest.contains(
        (r as usize, c as usize),
    ) by {
        assert(r != r0 || c != c0);
        assert(cell(g, r, c) == 0);
        let p = (r as usize, c as usize);
        assert(bl.contains(p));
        let i = choose|i: int| 0 <= i < bl.len() && bl[i] == p;
        assert(i != 0);
        assert(rest[i - 1] == p);
    }
    assert forall|s: Grid|
        #![trigger is_solution_of(h, s)]
        #![trigger is_solution_of(g, s)]
        is_solution_of(h, s) <==> is_solution_of(g, s) && cell(s, r0, c0) == d by {
        if is_solution_of(h, s) {
            assert(cell(h, r0, c0) != 0);
            assert forall|r: int, c: int|
                0 <= r < 9 && 0 <= c < 9 && #[trigger] cell(g, r, c) != 0 implies cell(s, r, c)
                == cell(g, r, c) by {
                assert(cell(h, r, c) == cell(g, r, c));
            }
        }
        if is_solution_of(g, s) && cell(s, r0, c0) == d {
            assert forall|r: int, c: int|
                0 <= r < 9 && 0 <= c < 9 && #[trigger] cell(h, r, c) != 0 implies cell(s, r, c)
                == cell(h, r, c) by {
                if r != r0 || c != c0 {
                    assert(cell(h, r, c) == cell(g, r, c));
                }
            }
        }
    }
}

/// Two grids that keep the digits of `g` and differ at its first blank come in the order of
/// their digits there.
proof fn lemma_first_blank_orders(
    g: Grid,
    bl: Seq<GridPos>,
    ds: Seq<u8>,
    a: Grid,
    b: Grid,
    i: int,
    j: int,
)
    requires
        is_blank_list(g, bl),
        bl.len() > 0,
        extends(g, a),
        extends(g, b),
        0 <= i < j < ds.len(),
        cell(a, bl[0].0 as int, bl[0].1 as int) == ds[i],
        cell(b, bl[0].0 as int, bl[0].1 as int) == ds[j],
    ensures
        precedes(ds, a, b),
{
    let r0 = bl[0].0 as int;
    let c0 = bl[0].1 as int;
    assert forall|r2: int, c2: int|
        0 <= r2 < 9 && 0 <= c2 < 9 && (r2 < r0 || (r2 == r0 && c2 < c0)) implies #[trigger] cell(
        a,
        r2,
        c2,
    ) == cell(b, r2, c2) by {
        if cell(g, r2, c2) == 0 {
            let p = (r2 as usize, c2 as usize);
            assert(bl.contains(p));
            let m = choose|m: int| 0 <= m < bl.len() && bl[m] == p;
            if m > 0 {
                assert(pos_lt(bl[0], bl[m]));
            }
            assert(false);
        }
    }
    assert(agree_before(a, b, r0, c0));
    assert(comes_before(ds, cell(a, r0, c0), cell(b, r0, c0)));
}

/// Every digit of a digit order is tried within its nine places.
proof fn lemma_order_tries_every_digit(ds: Seq<u8>, v: u8)
    requires
        is_digit_order(ds),
        1 <= v <= 9,
    ensures
        tried_within(ds, 9, v),
{
    assert(ds.contains(v));
    let i = choose|i: int| 0 <= i < ds.len() && ds[i] == v;
    assert(0 <= i < 9 && ds[i] == v);
}

/// One round of the search for all solutions: the solutions found under the next digit
/// follow those found under the digits before it.
proof fn lemma_extend_found(
    g: Grid,
    bl: Seq<GridPos>,
    ds: Seq<u8>,
    k: int,
    h: Grid,
    found: Seq<Grid>,
    more: Seq<Grid>,
)
    requires
        grid_wf(g),
        is_blank_list(g, bl),
        bl.len() > 0,
        is_digit_order(ds),
        0 <= k < 9,
        is_put(g, bl[0].0 as int, bl[0].1 as int, ds[k], h),
        lists_solutions_within(g, ds, k, bl[0].0 as int, bl[0].1 as int, found),
        grid_is_valid(h) ==> lists_solutions(h, ds, more),
        !grid_is_valid(h) ==> more.len() == 0,
    ensures
        lists_solutions_within(g, ds, k + 1, bl[0].0 as int, bl[0].1 as int, found + more),
{
    let r0 = bl[0].0 as int;
    let c0 = bl[0].1 as int;
    let all = found + more;
    assert(ds.contains(ds[k]));
    lemma_fill_first_blank(g, bl, ds[k], h);
    assert forall|i: int| 0 <= i < all.len() implies is_solution_of(g, #[trigger] all[i])
        && tried_within(ds, k + 1, cell(all[i], r0, c0)) by {
        if i < found.len() {
            assert(all[i] == found[i]);
            let w = choose|w: int| 0 <= w < k && ds[w] == cell(found[i], r0, c0);
            assert(0 <= w < k + 1 && ds[w] == cell(all[i], r0, c0));
        } else {
            assert(all[i] == more[i - found.len()]);
            assert(is_solution_of(h, all[i]));
            assert(0 <= k < k + 1 && ds[k] == cell(all[i], r0, c0));
        }
    }
    assert forall|s: Grid|
        #[trigger] is_solution_of(g, s) && tried_within(ds, k + 1, cell(s, r0, c0)) implies
        all.contains(s) by {
        let w = choose|w: int| 0 <= w < k + 1 && ds[w] == cell(s, r0, c0);
        if w < k {
            assert(tried_within(ds, k, cell(s, r0, c0)));
            assert(found.contains(s));
            let i = choose|i: int| 0 <= i < found.len() && found[i] == s;
            assert(all[i] == s);
        } else {
            assert(is_solution_of(h, s));
            lemma_solvable_is_valid(h, s);
            assert(more.contains(s));
            let i = choose|i: int| 0 <= i < more.len() && more[i] == s;
            assert(all[found.len() + i] == s);
        }
    }
    assert forall|i: int, j: int| 0 <= i < j < all.len() implies precedes(
        ds,
        #[trigger] all[i],
        #[trigger] all[j],
    ) by {
        if j < found.len() {
            assert(all[i] == found[i] && all[j] == found[j]);
        } else if i >= found.len() {
            assert(all[i] == more[i - found.len()] && all[j] == more[j - found.len()]);
        } else {
            assert(all[i] == found[i] && all[j] == more[j - found.len()]);
            assert(is_solution_of(h, all[j]));
            let w = choose|w: int| 0 <= w < k && ds[w] == cell(found[i], r0, c0);
            lemma_first_blank_orders(g, bl, ds, all[i], all[j], w, k);
        }
    }
}

/// Finds all [Solution]s to a [Puzzle], and appends them to `solutions` in the order in
/// which the search meets them.
///
/// `digits` is the sequence of digits to use for searching.
pub fn find_solutions(
    puzzle: Puzzle,
    blanks: &[GridPos],
    digits: &[u8; 9],
    solutions: &mut Vec<Solution>,
)
    requires
        grid_wf(puzzle),
        grid_is_valid(puzzle),
        is_blank_list(puzzle, blanks@),
        is_digit_order(digits@),
    ensures
        final(solutions)@.len() >= old(solutions)@.len(),
        final(solutions)@.take(old(solutions)@.len() as int) == old(solutions)@,
        lists_solutions(puzzle, digits@, final(solutions)@.skip(old(solutions)@.len() as int)),
    decreases blanks@.len(),
{
    let ghost before = solutions@;
    if blanks.len() == 0 {
        // We have run out of blanks to fill, so this is a solution.
        solutions.push(puzzle);
        proof {
            let found = solutions@.skip(before.len() as int);
            assert(solutions@.take(before.len() as int) =~= before);
            assert(found =~= seq![puzzle]);
            lemma_full_grid_solves_itself(puzzle);
            assert(found[0] == puzzle);
        }
        return;
    }
    let (row, col) = blanks[0];
    let rest = slice_subrange(blanks, 1, blanks.len());
    let mut k: usize = 0;
    while k < 9
        invariant
            k <= 9,
            row == blanks@[0].0,
            col == blanks@[0].1,
            row < 9,
            col < 9,
            blanks@.len() > 0,
            rest@ == blanks@.subrange(1, blanks@.len() as int),
            grid_wf(puzzle),
            is_blank_list(puzzle, blanks@),
            is_digit_order(digits@),
            solutions@.len() >= before.len(),
            solutions@.take(before.len() as int) == before,
            lists_solutions_within(
                puzzle,
                digits@,
                k as int,
                row as int,
                col as int,
                solutions@.skip(before.len() as int),
            ),
        decreases 9 - k,
    {
        let ghost found = solutions@.skip(before.len() as int);
        let ghost mid = solutions@;
        let trial = with_digit(puzzle, row, col, digits[k]);
        proof {
            assert(digits@.contains(digits@[k as int]));
            lemma_fill_first_blank(puzzle, blanks@, digits@[k as int], trial);
        }
        if is_valid_puzzle(&trial) {
            find_solutions(trial, rest, digits, solutions);
        }
        proof {
            let more = solutions@.skip(mid.len() as int);
            lemma_extend_found(puzzle, blanks@, digits@, k as int, trial, found, more);
            assert(solutions@.skip(before.len() as int) =~= found + more) by {
                assert(solutions@.take(mid.len() as int) == mid);
                assert forall|i: int| 0 <= i < found.len() implies solutions@[before.len() + i]
                    == found[i] by {
                    assert(solutions@.take(mid.len() as int)[before.len() + i] == mid[before.len()
                        + i]);
                }
            }
            assert(solutions@.take(before.len() as int) =~= before) by {
                assert forall|i: int| 0 <= i < before.len() implies solutions@[i] == before[i] by {
                    assert(solutions@.take(mid.len() as int)[i] == mid[i]);
                    assert(mid.take(before.len() as int)[i] == before[i]);
                }
            }
        }
        k += 1;
    }
    proof {
        let found = solutions@.skip(before.len() as int);
        assert forall|s: Grid| #[trigger] is_solution_of(puzzle, s) implies found.contains(s) by {
            lemma_order_tries_every_digit(digits@, cell(s, row as int, col as int));
        }
    }
}


/// One round of the search for a first solution, where the next digit leads to one: it
/// is the first solution of the whole grid.
proof fn lemma_first_under_digit(
    g: Grid,
    bl: Seq<GridPos>,
    ds: Seq<u8>,
    k: int,
    h: Grid,
    s: Grid,
)
    requires
        grid_wf(g),
        is_blank_list(g, bl),
        bl.len() > 0,
        is_digit_order(ds),
        0 <= k < 9,
        is_put(g, bl[0].0 as int, bl[0].1 as int, ds[k], h),
        forall|t: Grid| #[trigger]
            is_solution_of(g, t) ==> !tried_within(ds, k, cell(t, bl[0].0 as int, bl[0].1 as int)),
        is_first_solution(h, ds, s),
    ensures
        is_first_solution(g, ds, s),
{
    let r0 = bl[0].0 as int;
    let c0 = bl[0].1 as int;
    assert(ds.contains(ds[k]));
    lemma_fill_first_blank(g, bl, ds[k], h);
    assert(is_solution_of(h, s));
    assert forall|t: Grid| #[trigger] is_solution_of(g, t) && t != s implies precedes(ds, s, t) by {
        assert(ds.contains(cell(t, r0, c0)));
        let j = choose|j: int| 0 <= j < ds.len() && ds[j] == cell(t, r0, c0);
        if j < k {
            assert(tried_within(ds, k, cell(t, r0, c0)));
        } else if j == k {
            assert(is_solution_of(h, t));
        } else {
            lemma_first_blank_orders(g, bl, ds, s, t, k, j);
        }
    }
}

/// One round of the search for a first solution, where the next digit leads to none: no
/// solution holds this digit at the first blank either.
proof fn lemma_none_under_digit(g: Grid, bl: Seq<GridPos>, ds: Seq<u8>, k: int, h: Grid)
    requires
        grid_wf(g),
        is_blank_list(g, bl),
        bl.len() > 0,
        is_digit_order(ds),
        0 <= k < 9,
        is_put(g, bl[0].0 as int, bl[0].1 as int, ds[k], h),
        forall|t: Grid| #[trigger]
            is_solution_of(g, t) ==> !tried_within(ds, k, cell(t, bl[0].0 as int, bl[0].1 as int)),
        grid_is_valid(h) ==> forall|s: Grid| !is_solution_of(h, s),
    ensures
        forall|t: Grid| #[trigger]
            is_solution_of(g, t) ==> !tried_within(
                ds,
                k + 1,
                cell(t, bl[0].0 as int, bl[0].1 as int),
            ),
{
    let r0 = bl[0].0 as int;
    let c0 = bl[0].1 as int;
    assert(ds.contains(ds[k]));
    lemma_fill_first_blank(g, bl, ds[k], h);
    assert forall|t: Grid| #[trigger] is_solution_of(g, t) implies !tried_within(
        ds,
        k + 1,
        cell(t, r0, c0),
    ) by {
        if tried_within(ds, k + 1, cell(t, r0, c0)) {
            let w = choose|w: int| 0 <= w < k + 1 && ds[w] == cell(t, r0, c0);
            if w < k {
                assert(tried_within(ds, k, cell(t, r0, c0)));
            } else {
                assert(is_solution_of(h, t));
                lemma_solvable_is_valid(h, t);
            }
        }
    }
}

/// Finds a [Solution] to a [Puzzle] by backtracking: the first that the search meets.
///
/// `digits` is the sequence of digits to use for searching.
pub fn find_solution(puzzle: Puzzle, blanks: &[GridPos], digits: &[u8; 9]) -> (out: Option<
    Solution,
>)
    requires
        grid_wf(puzzle),
        grid_is_valid(puzzle),
        is_blank_list(puzzle, blanks@),
        is_digit_order(digits@),
    ensures
        out is None <==> forall|s: Grid| !is_solution_of(puzzle, s),
        out is Some ==> is_first_solution(puzzle, digits@, out->Some_0),
    decreases blanks@.len(),
{
    if blanks.len() == 0 {
        // We have run out of blanks to fill, so this is a solution.
        proof {
            lemma_full_grid_solves_itself(puzzle);
        }
        return Some(puzzle);
    }
    let (row, col) = blanks[0];
    let rest = slice_subrange(blanks, 1, blanks.len());
    let mut k: usize = 0;
    while k < 9
        invariant
            k <= 9,
            row == blanks@[0].0,
            col == blanks@[0].1,
            row < 9,
            col < 9,
            blanks@.len() > 0,
            rest@ == blanks@.subrange(1, blanks@.len() as int),
            grid_wf(puzzle),
            is_blank_list(puzzle, blanks@),
            is_digit_order(digits@),
            forall|t: Grid| #[trigger]
                is_solution_of(puzzle, t) ==> !tried_within(
                    digits@,
                    k as int,
                    cell(t, row as int, col as int),
                ),
        decreases 9 - k,
    {
        let trial = with_digit(puzzle, row, col, digits[k]);
        proof {
            assert(digits@.contains(digits@[k as int]));
            lemma_fill_first_blank(puzzle, blanks@, digits@[k as int], trial);
        }
        if is_valid_puzzle(&trial) {
            if let Some(solution) = find_solution(trial, rest, digits) {
                proof {
                    lemma_first_under_digit(puzzle, blanks@, digits@, k as int, trial, solution);
                }
                return Some(solution);
            }
        }
        proof {
            lemma_none_under_digit(puzzle, blanks@, digits@, k as int, trial);
        }
        k += 1;
    }
    proof {
        assert forall|s: Grid| !is_solution_of(puzzle, s) by {
            if is_solution_of(puzzle, s) {
                lemma_order_tries_every_digit(digits@, cell(s, row as int, col as int));
            }
        }
    }
    None
}

/// Counting to two: a part holds no more than the whole.
proof fn lemma_count_of_subset(a: Set<Grid>, b: Set<Grid>)
    requires
        forall|s: Grid| a.contains(s) ==> b.contains(s),
    ensures
        count_to_two(a) <= count_to_two(b),
{
    if !holds_none(a) {
        let x = choose|x: Grid| a.contains(x);
        assert(b.contains(x));
        assert(!holds_none(b));
        if !(exists|x: Grid| holds_only(a, x)) {
            if exists|z: Grid| holds_only(b, z) {
                let z = choose|z: Grid| holds_only(b, z);
                assert(x == z);
                assert(holds_only(a, z));
            }
        }
    }
}

/// Counting to two: a set in two disjoint parts holds as many as the parts together.
proof fn lemma_count_of_parts(a: Set<Grid>, b: Set<Grid>, c: Set<Grid>)
    requires
        forall|s: Grid| c.contains(s) <==> a.contains(s) || b.contains(s),
        forall|s: Grid| !(a.contains(s) && b.contains(s)),
    ensures
        count_to_two(c) == at_most_two(count_to_two(a) + count_to_two(b)),
{
    lemma_count_of_subset(a, c);
    lemma_count_of_subset(b, c);
    if holds_none(a) {
        lemma_count_of_subset(c, b);
    } else if holds_none(b) {
        lemma_count_of_subset(c, a);
    } else {
        let x = choose|x: Grid| a.contains(x);
        let y = choose|y: Grid| b.contains(y);
        assert(c.contains(x) && c.contains(y));
        assert(!holds_none(c));
        if exists|z: Grid| holds_only(c, z) {
            let z = choose|z: Grid| holds_only(c, z);
            assert(x == z && y == z);
            assert(a.contains(z) && b.contains(z));
        }
    }
}

/// One round of the bounded count: the solutions under the next digit are counted on top
/// of those under the digits before it.
proof fn lemma_count_under_digit(g: Grid, bl: Seq<GridPos>, ds: Seq<u8>, k: int, h: Grid)
    requires
        grid_wf(g),
        is_blank_list(g, bl),
        bl.len() > 0,
        is_digit_order(ds),
        0 <= k < 9,
        is_put(g, bl[0].0 as int, bl[0].1 as int, ds[k], h),
    ensures
        count_to_two(solutions_within(g, ds, k + 1, bl[0].0 as int, bl[0].1 as int))
            == at_most_two(
            count_to_two(solutions_within(g, ds, k, bl[0].0 as int, bl[0].1 as int))
                + count_to_two(solutions_of(h)),
        ),
        !grid_is_valid(h) ==> count_to_two(solutions_of(h)) == 0,
        count_to_two(solutions_within(g, ds, k + 1, bl[0].0 as int, bl[0].1 as int))
            <= count_to_two(solutions_of(g)),
{
    let r0 = bl[0].0 as int;
    let c0 = bl[0].1 as int;
    let a = solutions_within(g, ds, k, r0, c0);
    let b = solutions_of(h);
    let c = solutions_within(g, ds, k + 1, r0, c0);
    assert(ds.contains(ds[k]));
    lemma_fill_first_blank(g, bl, ds[k], h);
    assert forall|s: Grid| c.contains(s) <==> a.contains(s) || b.contains(s) by {
        if c.contains(s) {
            let w = choose|w: int| 0 <= w < k + 1 && ds[w] == cell(s, r0, c0);
            if w < k {
                assert(tried_within(ds, k, cell(s, r0, c0)));
            } else {
                assert(is_solution_of(h, s));
            }
        }
        if a.contains(s) {
            let w = choose|w: int| 0 <= w < k && ds[w] == cell(s, r0, c0);
            assert(0 <= w < k + 1 && ds[w] == cell(s, r0, c0));
        }
        if b.contains(s) {
            assert(is_solution_of(h, s));
            assert(0 <= k < k + 1 && ds[k] == cell(s, r0, c0));
        }
    }
    assert forall|s: Grid| !(a.contains(s) && b.contains(s)) by {
        if a.contains(s) && b.contains(s) {
            let w = choose|w: int| 0 <= w < k && ds[w] == cell(s, r0, c0);
            assert(is_solution_of(h, s));
            assert(ds[w] == ds[k]);
        }
    }
    lemma_count_of_parts(a, b, c);
    if !grid_is_valid(h) {
        assert forall|s: Grid| !b.contains(s) by {
            if b.contains(s) {
                lemma_solvable_is_valid(h, s);
            }
        }
    }
    lemma_count_of_subset(c, solutions_of(g));
}

/// Checks whether a [Puzzle] has 0, 1 or 2 or more [Solution]s.
///
/// Adds the number of solutions to `count_cache`, and stops as soon as that reaches 2.
///
/// `digits` is the sequence of digits to use for searching.
pub fn count_solutions(puzzle: Puzzle, blanks: &[GridPos], digits: &[u8; 9], count_cache: &mut u8)
    requires
        grid_wf(puzzle),
        grid_is_valid(puzzle),
        is_blank_list(puzzle, blanks@),
        is_digit_order(digits@),
        *old(count_cache) <= 1,
    ensures
        *final(count_cache) == at_most_two(
            *old(count_cache) + count_to_two(solutions_of(puzzle)),
        ),
    decreases blanks@.len(),
{
    let ghost before = *count_cache;
    if blanks.len() == 0 {
        // We have run out of blanks to fill, so this is a solution.
        *count_cache += 1;
        proof {
            lemma_full_grid_solves_itself(puzzle);
            assert(holds_only(solutions_of(puzzle), puzzle));
        }
        return;
    }
    let (row, col) = blanks[0];
    let rest = slice_subrange(blanks, 1, blanks.len());
    let mut k: usize = 0;
    while k < 9
        invariant
            k <= 9,
            row == blanks@[0].0,
            col == blanks@[0].1,
            row < 9,
            col < 9,
            blanks@.len() > 0,
            rest@ == blanks@.subrange(1, blanks@.len() as int),
            grid_wf(puzzle),
            is_blank_list(puzzle, blanks@),
            is_digit_order(digits@),
            before == *old(count_cache),
            before <= 1,
            *count_cache <= 1,
            *count_cache == before + count_to_two(
                solutions_within(puzzle, digits@, k as int, row as int, col as int),
            ),
        decreases 9 - k,
    {
        let trial = with_digit(puzzle, row, col, digits[k]);
        proof {
            assert(digits@.contains(digits@[k as int]));
            lemma_fill_first_blank(puzzle, blanks@, digits@[k as int], trial);
            lemma_count_under_digit(puzzle, blanks@, digits@, k as int, trial);
        }
        if is_valid_puzzle(&trial) {
            count_solutions(trial, rest, digits, count_cache);
            if *count_cache > 1 {
                proof {
                    let so_far = count_to_two(
                        solutions_within(puzzle, digits@, k as int, row as int, col as int),
                    );
                    let under = count_to_two(solutions_of(trial));
                    let next = count_to_two(
                        solutions_within(puzzle, digits@, k + 1, row as int, col as int),
                    );
                    assert(before + so_far + under >= 2);
                    assert(next == at_most_two(so_far + under));
                    assert(before + next >= 2);
                    assert(before + count_to_two(solutions_of(puzzle)) >= 2);
                }
                return;
            }
        }
        k += 1;
    }
    proof {
        let within = solutions_within(puzzle, digits@, 9, row as int, col as int);
        assert forall|s: Grid| solutions_of(puzzle).contains(s) implies within.contains(s) by {
            lemma_order_tries_every_digit(digits@, cell(s, row as int, col as int));
        }
        lemma_count_of_subset(solutions_of(puzzle), within);
        lemma_count_of_subset(within, solutions_of(puzzle));
    }
}

} // verus!
