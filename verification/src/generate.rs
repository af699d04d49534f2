//! Generating a puzzle: a random solved grid, with cells blanked for as long as the
//! solution stays the only one.

use crate::grid::{blanks, cell, grid_wf, lemma_grid_ext, with_cell, with_digit};
use crate::grid::{Grid, GridPos, Puzzle, Solution};
use crate::search::{find_solution, has_one_solution, is_digit_order, is_first_solution};
use crate::search::is_one_solution_of;
use crate::search::{is_solution_of, is_solved, lemma_full_grid_solves_itself};
use crate::search::lemma_solvable_is_valid;
use crate::solver::{empty_grid, has_unique_solution, lemma_a_solved_grid_exists};
use crate::solver::{lemma_natural_digits, natural_digits, DIGITS_ARRAY};
use crate::validate::is_blanking_of;
use vstd::pervasive::unreached;
use vstd::prelude::*;

verus! {

/// A plain array of 0..=8 indexes into slices, puzzles (row, col), just for convenience.
pub const INDICES_ARRAY: [usize; 9] = [0, 1, 2, 3, 4, 5, 6, 7, 8];

/// The number of random blanks to create when generating a puzzle.
pub const TARGET_BLANKS_TO_GENERATE: usize = 35;

/// The upper limit of random blanks that can be created.
pub const MAX_BLANKS_TO_GENERATE: usize = 64;

/// `fastrand::shuffle` reorders a slice in place, by swaps under the thread's random
/// generator. Which order comes out is left open: all that is claimed is that the slice
/// holds the same items as before, each as often as before.
pub assume_specification<T>[ fastrand::shuffle::<T> ](slice: &mut [T])
    ensures
        final(slice)@.to_multiset() == old(slice)@.to_multiset(),
;

/// The 81 positions in reading order.
pub open spec fn every_position() -> Seq<GridPos> {
    Seq::new(81, |i: int| ((i / 9) as usize, (i % 9) as usize))
}

/// The indices 0 to 8 in their natural order.
pub open spec fn natural_indices() -> Seq<usize> {
    seq![0usize, 1usize, 2usize, 3usize, 4usize, 5usize, 6usize, 7usize, 8usize]
}

/// `order` holds each of the 81 positions once.
pub open spec fn is_position_order(order: Seq<GridPos>) -> bool {
    order.to_multiset() == every_position().to_multiset()
}

/// `order` holds each of the indices 0 to 8 once.
pub open spec fn is_index_order(order: Seq<usize>) -> bool {
    &&& order.len() == 9
    &&& forall|i: int| 0 <= i < 9 ==> #[trigger] order[i] < 9
    &&& forall|v: usize| v < 9 ==> order.contains(v)
}

/// `h` is `g` with row `row` blanked.
pub open spec fn is_row_blanked(g: Grid, row: int, h: Grid) -> bool {
    forall|r: int, c: int|
        0 <= r < 9 && 0 <= c < 9 ==> #[trigger] cell(h, r, c) == (if r == row {
            0u8
        } else {
            cell(g, r, c)
        })
}

/// `g` with row `row` blanked.
pub open spec fn with_blank_row(g: Grid, row: int) -> Grid {
    choose|h: Grid| is_row_blanked(g, row, h)
}

/// `h` is `g` with column `col` blanked.
pub open spec fn is_col_blanked(g: Grid, col: int, h: Grid) -> bool {
    forall|r: int, c: int|
        0 <= r < 9 && 0 <= c < 9 ==> #[trigger] cell(h, r, c) == (if c == col {
            0u8
        } else {
            cell(g, r, c)
        })
}

/// `g` with column `col` blanked.
pub open spec fn with_blank_col(g: Grid, col: int) -> Grid {
    choose|h: Grid| is_col_blanked(g, col, h)
}

/// What greedy carving makes of `g`: the positions are taken in the order given; each is
/// blanked, and stays blank if the grid then has exactly one solution; carving ends after
/// `count` blanks that stayed, or with the last position.
pub open spec fn carved(g: Grid, order: Seq<GridPos>, count: nat) -> Grid
    decreases order.len(),
{
    if count == 0 || order.len() == 0 {
        g
    } else {
        let h = with_cell(g, order[0].0 as int, order[0].1 as int, 0);
        if has_one_solution(h) {
            carved(h, order.drop_first(), (count - 1) as nat)
        } else {
            carved(g, order.drop_first(), count)
        }
    }
}

/// `p` is `g` after greedy carving of up to `count` blanks, in some order of the positions.
pub open spec fn is_carving_of(g: Grid, count: nat, p: Grid) -> bool {
    exists|order: Seq<GridPos>| is_position_order(order) && p == carved(g, order, count)
}

/// `q` is `p` without one row, and has exactly one solution; or no row can go from `p`
/// on these terms, and `q` is `p`.
pub open spec fn is_row_carving_of(p: Grid, q: Grid) -> bool {
    ||| exists|r: int| 0 <= r < 9 && q == #[trigger] with_blank_row(p, r) && has_one_solution(q)
    ||| q == p && forall|r: int|
        0 <= r < 9 ==> !has_one_solution(#[trigger] with_blank_row(p, r))
}

/// `q` is `p` without one column, and has exactly one solution; or no column can go from
/// `p` on these terms, and `q` is `p`.
pub open spec fn is_col_carving_of(p: Grid, q: Grid) -> bool {
    ||| exists|c: int| 0 <= c < 9 && q == #[trigger] with_blank_col(p, c) && has_one_solution(q)
    ||| q == p && forall|c: int|
        0 <= c < 9 ==> !has_one_solution(#[trigger] with_blank_col(p, c))
}

/// `out` comes of the solved grid `s` by the three steps of carving: single cells, up to
/// the target number, then one row, then one column.
pub open spec fn is_puzzle_of(s: Grid, out: Grid) -> bool {
    exists|p: Grid, q: Grid|
        #![trigger is_row_carving_of(p, q), is_col_carving_of(q, out)]
        is_carving_of(s, TARGET_BLANKS_TO_GENERATE as nat, p) && is_row_carving_of(p, q)
            && is_col_carving_of(q, out)
}

/// A grid that is `g` with a row blanked is the grid that `with_blank_row` names.
proof fn lemma_with_blank_row(g: Grid, row: int, h: Grid)
    requires
        is_row_blanked(g, row, h),
    ensures
        with_blank_row(g, row) == h,
{
    let w = with_blank_row(g, row);
    assert(is_row_blanked(g, row, w));
    assert forall|r: int, c: int| 0 <= r < 9 && 0 <= c < 9 implies cell(w, r, c) == cell(
        h,
        r,
        c,
    ) by {
        assert(cell(h, r, c) == (if r == row { 0u8 } else { cell(g, r, c) }));
    }
    lemma_grid_ext(w, h);
}

/// A grid that is `g` with a column blanked is the grid that `with_blank_col` names.
proof fn lemma_with_blank_col(g: Grid, col: int, h: Grid)
    requires
        is_col_blanked(g, col, h),
    ensures
        with_blank_col(g, col) == h,
{
    let w = with_blank_col(g, col);
    assert(is_col_blanked(g, col, w));
    assert forall|r: int, c: int| 0 <= r < 9 && 0 <= c < 9 implies cell(w, r, c) == cell(
        h,
        r,
        c,
    ) by {
        assert(cell(h, r, c) == (if c == col { 0u8 } else { cell(g, r, c) }));
    }
    lemma_grid_ext(w, h);
}

/// A reordering of the digits 1 to 9 is a digit order.
proof fn lemma_shuffled_digits(ds: Seq<u8>)
    requires
        ds.to_multiset() == natural_digits().to_multiset(),
    ensures
        is_digit_order(ds),
{
    lemma_natural_digits();
    ds.to_multiset_ensures();
    natural_digits().to_multiset_ensures();
    natural_digits().lemma_multiset_has_no_duplicates();
    ds.lemma_multiset_has_no_duplicates_conv();
    assert forall|v: u8| ds.contains(v) <==> 1 <= v <= 9 by {
        assert(ds.contains(v) <==> ds.to_multiset().count(v) > 0);
        assert(natural_digits().contains(v) <==> natural_digits().to_multiset().count(v) > 0);
    }
}

/// A reordering of the indices 0 to 8 is an index order.
proof fn lemma_shuffled_indices(order: Seq<usize>)
    requires
        order.to_multiset() == natural_indices().to_multiset(),
    ensures
        is_index_order(order),
{
    let base = natural_indices();
    order.to_multiset_ensures();
    base.to_multiset_ensures();
    assert forall|i: int| 0 <= i < 9 implies #[trigger] order[i] < 9 by {
        assert(order.contains(order[i]));
        assert(order.to_multiset().count(order[i]) > 0);
        assert(base.contains(order[i]));
    }
    assert forall|v: usize| v < 9 implies order.contains(v) by {
        assert(base[v as int] == v);
        assert(base.contains(v));
        assert(base.to_multiset().count(v) > 0);
    }
}

/// Every position of a position order lies on the grid.
proof fn lemma_position_order_on_grid(order: Seq<GridPos>)
    requires
        is_position_order(order),
    ensures
        forall|i: int| 0 <= i < order.len() ==> (#[trigger] order[i]).0 < 9 && order[i].1 < 9,
{
    let every = every_position();
    order.to_multiset_ensures();
    every.to_multiset_ensures();
    assert forall|i: int| 0 <= i < order.len() implies (#[trigger] order[i]).0 < 9 && order[i].1
        < 9 by {
        assert(order.contains(order[i]));
        assert(order.to_multiset().count(order[i]) > 0);
        assert(every.contains(order[i]));
        let j = choose|j: int| 0 <= j < every.len() && every[j] == order[i];
        assert(every[j] == ((j / 9) as usize, (j % 9) as usize));
    }
}

/// Lists the 81 positions in reading order.
pub fn all_positions() -> (out: Vec<GridPos>)
    ensures
        out@ == every_position(),
{
    let mut out: Vec<GridPos> = Vec::new();
    let mut row: usize = 0;
    while row < 9
        invariant
            row <= 9,
            out@.len() == 9 * row,
            forall|i: int|
                0 <= i < out@.len() ==> #[trigger] out@[i] == ((i / 9) as usize, (i % 9) as usize),
        decreases 9 - row,
    {
        let mut col: usize = 0;
        while col < 9
            invariant
                row < 9,
                col <= 9,
                out@.len() == 9 * row + col,
                forall|i: int|
                    0 <= i < out@.len() ==> #[trigger] out@[i] == (
                        (i / 9) as usize,
                        (i % 9) as usize,
                    ),
            decreases 9 - col,
        {
            out.push((row, col));
            col += 1;
        }
        row += 1;
    }
    assert(out@ =~= every_position());
    out
}

/// Copies `puzzle` with one row blanked.
pub fn blank_row(puzzle: Puzzle, row: usize) -> (out: Puzzle)
    requires
        row < 9,
    ensures
        out == with_blank_row(puzzle, row as int),
        is_row_blanked(puzzle, row as int, out),
{
    let mut out = puzzle;
    let mut col: usize = 0;
    while col < 9
        invariant
            row < 9,
            col <= 9,
            forall|r: int, c: int|
                0 <= r < 9 && 0 <= c < 9 ==> #[trigger] cell(out, r, c) == (if r == row && c
                    < col {
                    0u8
                } else {
                    cell(puzzle, r, c)
                }),
        decreases 9 - col,
    {
        let ghost prev = out;
        out[row][col] = 0;
        proof {
            assert forall|r: int, c: int| 0 <= r < 9 && 0 <= c < 9 implies #[trigger] cell(
                out,
                r,
                c,
            ) == (if r == row && c < col + 1 {
                0u8
            } else {
                cell(puzzle, r, c)
            }) by {
                if r != row || c != col {
                    assert(cell(out, r, c) == cell(prev, r, c));
                }
            }
        }
        col += 1;
    }
    proof {
        lemma_with_blank_row(puzzle, row as int, out);
    }
    out
}

/// Copies `puzzle` with one column blanked.
pub fn blank_col(puzzle: Puzzle, col: usize) -> (out: Puzzle)
    requires
        col < 9,
    ensures
        out == with_blank_col(puzzle, col as int),
        is_col_blanked(puzzle, col as int, out),
{
    let mut out = puzzle;
    let mut row: usize = 0;
    while row < 9
        invariant
            col < 9,
            row <= 9,
            forall|r: int, c: int|
                0 <= r < 9 && 0 <= c < 9 ==> #[trigger] cell(out, r, c) == (if c == col && r
                    < row {
                    0u8
                } else {
                    cell(puzzle, r, c)
                }),
        decreases 9 - row,
    {
        let ghost prev = out;
        out[row][col] = 0;
        proof {
            assert forall|r: int, c: int| 0 <= r < 9 && 0 <= c < 9 implies #[trigger] cell(
                out,
                r,
                c,
            ) == (if c == col && r < row + 1 {
                0u8
            } else {
                cell(puzzle, r, c)
            }) by {
                if r != row || c != col {
                    assert(cell(out, r, c) == cell(prev, r, c));
                }
            }
        }
        row += 1;
    }
    proof {
        lemma_with_blank_col(puzzle, col as int, out);
    }
    out
}

/// Finds the first solution of the empty grid under the given order of digits.
pub fn solution_in_order(digits: &[u8; 9]) -> (out: Solution)
    requires
        is_digit_order(digits@),
    ensures
        is_solved(out),
        is_first_solution(empty_grid(), digits@, out),
{
    // Search for a solution for an empty puzzle, but we jumble up the digits to fill.
    let puzzle = [[0u8; 9]; 9];
    assert(puzzle == empty_grid()) by {
        lemma_grid_ext(puzzle, empty_grid());
    }
    let blanks = blanks(puzzle);
    proof {
        lemma_a_solved_grid_exists();
        let s = choose|s: Grid| is_solved(s);
        assert(is_solution_of(puzzle, s));
        lemma_solvable_is_valid(puzzle, s);
    }
    match find_solution(puzzle, blanks.as_slice(), digits) {
        Some(solution) => solution,
        None => unreached(),
    }
}

/// Creates a random [Solution].
pub fn create_random_solution() -> (out: Solution)
    ensures
        is_solved(out),
        exists|ds: Seq<u8>| is_digit_order(ds) && is_first_solution(empty_grid(), ds, out),
{
    let mut digits = DIGITS_ARRAY;
    assert(digits@ =~= natural_digits());
    fastrand::shuffle(&mut digits);
    proof {
        lemma_shuffled_digits(digits@);
    }
    solution_in_order(&digits)
}

/// Carves up to `count` blanks into the given [Puzzle], taking the positions in the order
/// given. A blank stays only where the puzzle then has exactly one solution.
pub fn blank_positions_in_order(puzzle: Puzzle, count: usize, positions: &[GridPos]) -> (out:
    Puzzle)
    requires
        grid_wf(puzzle),
        forall|i: int|
            0 <= i < positions@.len() ==> (#[trigger] positions@[i]).0 < 9 && positions@[i].1 < 9,
    ensures
        out == carved(puzzle, positions@, count as nat),
        grid_wf(out),
        is_blanking_of(out, puzzle),
        out == puzzle || has_one_solution(out),
{
    let ghost start = puzzle;
    let mut puzzle = puzzle;
    let mut blanks_created: usize = 0;
    let mut i: usize = 0;
    assert(positions@.skip(0) =~= positions@);
    while i < positions.len() && blanks_created < count
        invariant
            i <= positions@.len(),
            blanks_created <= count,
            blanks_created <= i,
            forall|n: int|
                0 <= n < positions@.len() ==> (#[trigger] positions@[n]).0 < 9 && positions@[n].1
                    < 9,
            grid_wf(puzzle),
            is_blanking_of(puzzle, start),
            puzzle == start || has_one_solution(puzzle),
            carved(start, positions@, count as nat) == carved(
                puzzle,
                positions@.skip(i as int),
                (count - blanks_created) as nat,
            ),
        decreases positions@.len() - i,
    {
        let ghost rest = positions@.skip(i as int);
        let (row, col) = positions[i];
        let blanked = with_digit(puzzle, row, col, 0);
        proof {
            assert(rest[0] == positions@[i as int]);
            assert(rest.drop_first() =~= positions@.skip(i + 1));
            assert forall|r: int, c: int| 0 <= r < 9 && 0 <= c < 9 implies #[trigger] cell(
                blanked,
                r,
                c,
            ) <= 9 && (cell(blanked, r, c) == 0 || cell(blanked, r, c) == cell(start, r, c)) by {
                assert(cell(puzzle, r, c) <= 9);
                assert(cell(puzzle, r, c) == 0 || cell(puzzle, r, c) == cell(start, r, c));
            }
        }
        if has_unique_solution(blanked) {
            puzzle = blanked;
            blanks_created += 1;
        }
        i += 1;
    }
    puzzle
}

/// Creates up to count random blanks in the given [Puzzle]. Ensures that the resultant [Puzzle]
/// retains its unique [Solution].
pub fn create_random_blank_positions(puzzle: Puzzle, count: usize) -> (out: Option<Puzzle>)
    requires
        grid_wf(puzzle),
    ensures
        out is None <==> !(1 <= count <= MAX_BLANKS_TO_GENERATE),
        out is Some ==> is_carving_of(puzzle, count as nat, out->Some_0),
        out is Some ==> grid_wf(out->Some_0) && is_blanking_of(out->Some_0, puzzle) && (out->Some_0
            == puzzle || has_one_solution(out->Some_0)),
{
    if !(1 <= count && count <= MAX_BLANKS_TO_GENERATE) {
        return None;
    }
    let mut positions = all_positions();
    fastrand::shuffle(positions.as_mut_slice());
    proof {
        lemma_position_order_on_grid(positions@);
    }
    let out = blank_positions_in_order(puzzle, count, positions.as_slice());
    assert(is_position_order(positions@) && out == carved(puzzle, positions@, count as nat));
    Some(out)
}

/// Blanks the first row, in the order given, without which the [Puzzle] retains its unique
/// [Solution].
///
/// Returns None if every row fails to retain the unique [Solution] after blanking.
pub fn blank_row_in_order(puzzle: Puzzle, rows: &[usize; 9]) -> (out: Option<Puzzle>)
    requires
        grid_wf(puzzle),
        forall|i: int| 0 <= i < 9 ==> #[trigger] rows@[i] < 9,
    ensures
        out is None <==> forall|i: int|
            0 <= i < 9 ==> !has_one_solution(#[trigger] with_blank_row(puzzle, rows@[i] as int)),
        out is Some ==> exists|i: int|
            0 <= i < 9 && out->Some_0 == #[trigger] with_blank_row(puzzle, rows@[i] as int)
                && forall|j: int|
                0 <= j < i ==> !has_one_solution(
                    #[trigger] with_blank_row(puzzle, rows@[j] as int),
                ),
        out is Some ==> grid_wf(out->Some_0) && has_one_solution(out->Some_0) && is_blanking_of(
            out->Some_0,
            puzzle,
        ),
{
    let mut i: usize = 0;
    while i < 9
        invariant
            i <= 9,
            grid_wf(puzzle),
            forall|n: int| 0 <= n < 9 ==> #[trigger] rows@[n] < 9,
            forall|j: int|
                0 <= j < i ==> !has_one_solution(
                    #[trigger] with_blank_row(puzzle, rows@[j] as int),
                ),
        decreases 9 - i,
    {
        let row = rows[i];
        let blanked = blank_row(puzzle, row);
        proof {
            assert forall|r: int, c: int| 0 <= r < 9 && 0 <= c < 9 implies #[trigger] cell(
                blanked,
                r,
                c,
            ) <= 9 && (cell(blanked, r, c) == 0 || cell(blanked, r, c) == cell(puzzle, r, c)) by {
                assert(cell(puzzle, r, c) <= 9);
            }
        }
        if has_unique_solution(blanked) {
            assert(blanked == with_blank_row(puzzle, rows@[i as int] as int));
            return Some(blanked);
        }
        i += 1;
    }
    None
}

/// Blanks the first column, in the order given, without which the [Puzzle] retains its
/// unique [Solution].
///
/// Returns None if every column fails to retain the unique [Solution] after blanking.
pub fn blank_col_in_order(puzzle: Puzzle, cols: &[usize; 9]) -> (out: Option<Puzzle>)
    requires
        grid_wf(puzzle),
        forall|i: int| 0 <= i < 9 ==> #[trigger] cols@[i] < 9,
    ensures
        out is None <==> forall|i: int|
            0 <= i < 9 ==> !has_one_solution(#[trigger] with_blank_col(puzzle, cols@[i] as int)),
        out is Some ==> exists|i: int|
            0 <= i < 9 && out->Some_0 == #[trigger] with_blank_col(puzzle, cols@[i] as int)
                && forall|j: int|
                0 <= j < i ==> !has_one_solution(
                    #[trigger] with_blank_col(puzzle, cols@[j] as int),
                ),
        out is Some ==> grid_wf(out->Some_0) && has_one_solution(out->Some_0) && is_blanking_of(
            out->Some_0,
            puzzle,
        ),
{
    let mut i: usize = 0;
    while i < 9
        invariant
            i <= 9,
            grid_wf(puzzle),
            forall|n: int| 0 <= n < 9 ==> #[trigger] cols@[n] < 9,
            forall|j: int|
                0 <= j < i ==> !has_one_solution(
                    #[trigger] with_blank_col(puzzle, cols@[j] as int),
                ),
        decreases 9 - i,
    {
        let col = cols[i];
        let blanked = blank_col(puzzle, col);
        proof {
            assert forall|r: int, c: int| 0 <= r < 9 && 0 <= c < 9 implies #[trigger] cell(
                blanked,
                r,
                c,
            ) <= 9 && (cell(blanked, r, c) == 0 || cell(blanked, r, c) == cell(puzzle, r, c)) by {
                assert(cell(puzzle, r, c) <= 9);
            }
        }
        if has_unique_solution(blanked) {
            assert(blanked == with_blank_col(puzzle, cols@[i as int] as int));
            return Some(blanked);
        }
        i += 1;
    }
    None
}

/// Creates a randomly chosen blank row in the given [Puzzle]. Ensures that the resultant [Puzzle]
/// retains its unique [Solution].
///
/// Returns None if every row fails to retain the unique [Solution] after blanking.
pub fn create_random_blank_row(puzzle: Puzzle) -> (out: Option<Puzzle>)
    requires
        grid_wf(puzzle),
    ensures
        out is None <==> forall|r: int|
            0 <= r < 9 ==> !has_one_solution(#[trigger] with_blank_row(puzzle, r)),
        out is Some ==> exists|r: int|
            0 <= r < 9 && out->Some_0 == #[trigger] with_blank_row(puzzle, r),
        out is Some ==> grid_wf(out->Some_0) && has_one_solution(out->Some_0) && is_blanking_of(
            out->Some_0,
            puzzle,
        ),
        is_row_carving_of(puzzle, out.unwrap_or(puzzle)),
{
    let mut rows = INDICES_ARRAY;
    assert(rows@ =~= natural_indices());
    fastrand::shuffle(&mut rows);
    proof {
        lemma_shuffled_indices(rows@);
    }
    let out = blank_row_in_order(puzzle, &rows);
    proof {
        if out is None {
            assert forall|r: int| 0 <= r < 9 implies !has_one_solution(
                #[trigger] with_blank_row(puzzle, r),
            ) by {
                assert(rows@.contains(r as usize));
                let i = choose|i: int| 0 <= i < rows@.len() && rows@[i] == r as usize;
                assert(!has_one_solution(with_blank_row(puzzle, rows@[i] as int)));
            }
        } else {
            let i = choose|i: int|
                0 <= i < 9 && out->Some_0 == #[trigger] with_blank_row(puzzle, rows@[i] as int);
            assert(out->Some_0 == with_blank_row(puzzle, rows@[i] as int));
        }
    }
    out
}

/// Creates a randomly chosen blank col in the given [Puzzle]. Ensures that the resultant [Puzzle]
/// retains its unique [Solution].
///
/// Returns None if every column fails to retain the unique [Solution] after blanking.
pub fn create_random_blank_col(puzzle: Puzzle) -> (out: Option<Puzzle>)
    requires
        grid_wf(puzzle),
    ensures
        out is None <==> forall|c: int|
            0 <= c < 9 ==> !has_one_solution(#[trigger] with_blank_col(puzzle, c)),
        out is Some ==> exists|c: int|
            0 <= c < 9 && out->Some_0 == #[trigger] with_blank_col(puzzle, c),
        out is Some ==> grid_wf(out->Some_0) && has_one_solution(out->Some_0) && is_blanking_of(
            out->Some_0,
            puzzle,
        ),
        is_col_carving_of(puzzle, out.unwrap_or(puzzle)),
{
    let mut cols = INDICES_ARRAY;
    assert(cols@ =~= natural_indices());
    fastrand::shuffle(&mut cols);
    proof {
        lemma_shuffled_indices(cols@);
    }
    let out = blank_col_in_order(puzzle, &cols);
    proof {
        if out is None {
            assert forall|c: int| 0 <= c < 9 implies !has_one_solution(
                #[trigger] with_blank_col(puzzle, c),
            ) by {
                assert(cols@.contains(c as usize));
                let i = choose|i: int| 0 <= i < cols@.len() && cols@[i] == c as usize;
                assert(!has_one_solution(with_blank_col(puzzle, cols@[i] as int)));
            }
        } else {
            let i = choose|i: int|
                0 <= i < 9 && out->Some_0 == #[trigger] with_blank_col(puzzle, cols@[i] as int);
            assert(out->Some_0 == with_blank_col(puzzle, cols@[i] as int));
        }
    }
    out
}

/// Generates a puzzle with an unique solution: the solved grid that it was carved from. The
/// puzzle will be generally considered as easy-to-medium difficulty.
pub fn generate() -> (out: Puzzle)
    ensures
        grid_wf(out),
        has_one_solution(out),
        exists|s: Grid| is_solved(s) && #[trigger] is_puzzle_of(s, out) && is_one_solution_of(out, s),
{
    let solution = create_random_solution();
    proof {
        lemma_full_grid_solves_itself(solution);
    }
    let carved = create_random_blank_positions(solution, TARGET_BLANKS_TO_GENERATE).unwrap_or(
        solution,
    );
    let without_row = create_random_blank_row(carved).unwrap_or(carved);
    let puzzle = create_random_blank_col(without_row).unwrap_or(without_row);
    proof {
        assert(is_row_carving_of(carved, without_row) && is_col_carving_of(without_row, puzzle));
        assert(is_puzzle_of(solution, puzzle));
        assert(is_blanking_of(puzzle, solution)) by {
            assert forall|r: int, c: int| 0 <= r < 9 && 0 <= c < 9 implies #[trigger] cell(
                puzzle,
                r,
                c,
            ) == 0 || cell(puzzle, r, c) == cell(solution, r, c) by {
                assert(cell(without_row, r, c) == 0 || cell(without_row, r, c) == cell(carved, r, c));
                assert(cell(carved, r, c) == 0 || cell(carved, r, c) == cell(solution, r, c));
            }
        }
        assert(is_solution_of(puzzle, solution));
    }
    puzzle
}

} // verus!
