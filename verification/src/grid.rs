//! The grid, its cells, and the three kinds of unit (row, column, box).

use vstd::prelude::*;

verus! {

/// 9x9 Sudoku grid in reading order.
///
/// Use 1-9 to represent a digit, and 0 to represent a blank or unknown.
pub type Grid = [[u8; 9]; 9];

/// A grid that may hold blanks, to be solved.
pub type Puzzle = Grid;

/// A grid as a solver or the generator gives it.
pub type Solution = Grid;

/// (row, col)
pub type GridPos = (usize, usize);

/// The digit at (`r`, `c`).
pub open spec fn cell(g: Grid, r: int, c: int) -> u8 {
    g[r][c]
}

/// Every cell holds a blank or a digit: nothing above 9.
pub open spec fn grid_wf(g: Grid) -> bool {
    forall|r: int, c: int| 0 <= r < 9 && 0 <= c < 9 ==> #[trigger] cell(g, r, c) <= 9
}

/// The nine digits of row `r`, left to right.
pub open spec fn row_view(g: Grid, r: int) -> Seq<u8> {
    Seq::new(9, |k: int| cell(g, r, k))
}

/// The nine digits of column `c`, top to bottom.
pub open spec fn col_view(g: Grid, c: int) -> Seq<u8> {
    Seq::new(9, |k: int| cell(g, k, c))
}

/// Row of the `k`-th cell of box `b`.
pub open spec fn box_row(b: int, k: int) -> int {
    3 * (b / 3) + k / 3
}

/// Column of the `k`-th cell of box `b`.
pub open spec fn box_col(b: int, k: int) -> int {
    3 * (b % 3) + k % 3
}

/// The nine digits of box `b`, in reading order within the box.
pub open spec fn box_view(g: Grid, b: int) -> Seq<u8> {
    Seq::new(9, |k: int| cell(g, box_row(b, k), box_col(b, k)))
}

/// Reading order on positions: earlier row first, then earlier column.
pub open spec fn pos_lt(p: GridPos, q: GridPos) -> bool {
    p.0 < q.0 || (p.0 == q.0 && p.1 < q.1)
}

/// `bl` lists the blank cells of `g`, all of them, once each, in reading order.
pub open spec fn is_blank_list(g: Grid, bl: Seq<GridPos>) -> bool {
    &&& forall|i: int|
        0 <= i < bl.len() ==> (#[trigger] bl[i]).0 < 9 && bl[i].1 < 9 && cell(
            g,
            bl[i].0 as int,
            bl[i].1 as int,
        ) == 0
    &&& forall|i: int, j: int| 0 <= i < j < bl.len() ==> pos_lt(#[trigger] bl[i], #[trigger] bl[j])
    &&& forall|r: int, c: int|
        0 <= r < 9 && 0 <= c < 9 && #[trigger] cell(g, r, c) == 0 ==> bl.contains(
            (r as usize, c as usize),
        )
}

/// `h` is `g` with the digit `d` written at (`r`, `c`).
pub open spec fn is_put(g: Grid, r: int, c: int, d: u8, h: Grid) -> bool {
    &&& cell(h, r, c) == d
    &&& forall|r2: int, c2: int|
        0 <= r2 < 9 && 0 <= c2 < 9 && (r2 != r || c2 != c) ==> #[trigger] cell(h, r2, c2) == cell(
            g,
            r2,
            c2,
        )
}

/// `g` with the digit `d` written at (`r`, `c`).
pub open spec fn with_cell(g: Grid, r: int, c: int, d: u8) -> Grid {
    choose|h: Grid| is_put(g, r, c, d, h)
}

/// Two grids with the same 81 cells are the same grid.
pub proof fn lemma_grid_ext(a: Grid, b: Grid)
    requires
        forall|r: int, c: int| 0 <= r < 9 && 0 <= c < 9 ==> cell(a, r, c) == cell(b, r, c),
    ensures
        a == b,
{
    assert forall|r: int| 0 <= r < 9 implies a[r] == b[r] by {
        assert forall|c: int| 0 <= c < 9 implies a[r][c] == b[r][c] by {
            assert(cell(a, r, c) == cell(b, r, c));
        }
        assert(a[r] =~= b[r]);
    }
    assert(a =~= b);
}

/// A grid that is `g` with one cell rewritten is the grid that `with_cell` names.
pub proof fn lemma_with_cell(g: Grid, r: int, c: int, d: u8, h: Grid)
    requires
        0 <= r < 9,
        0 <= c < 9,
        is_put(g, r, c, d, h),
    ensures
        with_cell(g, r, c, d) == h,
{
    let w = with_cell(g, r, c, d);
    assert(is_put(g, r, c, d, w));
    assert forall|r2: int, c2: int| 0 <= r2 < 9 && 0 <= c2 < 9 implies cell(w, r2, c2) == cell(
        h,
        r2,
        c2,
    ) by {
        if r2 != r || c2 != c {
            assert(cell(w, r2, c2) == cell(g, r2, c2));
            assert(cell(h, r2, c2) == cell(g, r2, c2));
        }
    }
    lemma_grid_ext(w, h);
}

/// Copies `grid` with one digit written into it.
pub fn with_digit(grid: Grid, row: usize, col: usize, digit: u8) -> (out: Grid)
    requires
        row < 9,
        col < 9,
    ensures
        out == with_cell(grid, row as int, col as int, digit),
        is_put(grid, row as int, col as int, digit, out),
{
    let mut out = grid;
    out[row][col] = digit;
    proof {
        assert forall|r2: int, c2: int|
            0 <= r2 < 9 && 0 <= c2 < 9 && (r2 != row || c2 != col) implies #[trigger] cell(
            out,
            r2,
            c2,
        ) == cell(grid, r2, c2) by {}
        lemma_with_cell(grid, row as int, col as int, digit, out);
    }
    out
}

/// Tells whether every cell holds a blank or a digit.
pub fn is_well_formed(grid: &Grid) -> (out: bool)
    ensures
        out == grid_wf(*grid),
{
    let mut row: usize = 0;
    while row < 9
        invariant
            row <= 9,
            forall|r: int, c: int| 0 <= r < row && 0 <= c < 9 ==> #[trigger] cell(*grid, r, c) <= 9,
        decreases 9 - row,
    {
        let mut col: usize = 0;
        while col < 9
            invariant
                row < 9,
                col <= 9,
                forall|r: int, c: int|
                    0 <= r < row && 0 <= c < 9 ==> #[trigger] cell(*grid, r, c) <= 9,
                forall|c: int| 0 <= c < col ==> #[trigger] cell(*grid, row as int, c) <= 9,
            decreases 9 - col,
        {
            if grid[row][col] > 9 {
                assert(cell(*grid, row as int, col as int) > 9);
                return false;
            }
            col += 1;
        }
        row += 1;
    }
    true
}

/// Gets a copy of a row of a [Puzzle]; `None` for a row past the last.
pub fn horizontal_slice(puzzle: &Puzzle, row: usize) -> (out: Option<[u8; 9]>)
    ensures
        row >= 9 <==> out is None,
        row < 9 ==> out->Some_0@ == row_view(*puzzle, row as int),
{
    if row >= 9 {
        return None;
    }
    let slice = puzzle[row];
    assert(slice@ =~= row_view(*puzzle, row as int));
    Some(slice)
}

/// Gets a copy of a column of a [Puzzle]; `None` for a column past the last.
pub fn vertical_slice(puzzle: &Puzzle, col: usize) -> (out: Option<[u8; 9]>)
    ensures
        col >= 9 <==> out is None,
        col < 9 ==> out->Some_0@ == col_view(*puzzle, col as int),
{
    if col >= 9 {
        return None;
    }
    let mut slice = [0u8; 9];
    let mut row: usize = 0;
    while row < 9
        invariant
            row <= 9,
            col < 9,
            forall|k: int| 0 <= k < row ==> slice[k] == cell(*puzzle, k, col as int),
        decreases 9 - row,
    {
        slice[row] = puzzle[row][col];
        row += 1;
    }
    assert(slice@ =~= col_view(*puzzle, col as int));
    Some(slice)
}

/// Gets a copy of a 3x3 square of a [Puzzle]; `None` for a square past the last.
///
/// Squares are indexed as follows:
///
/// ```text
/// +-+-+-+
/// |0|1|2|
/// +-+-+-+
/// |3|4|5|
/// +-+-+-+
/// |6|7|8|
/// +-+-+-+
/// ```
///
/// Elements in each square are indexed as follows:
/// ```text
/// +---+
/// |012|
/// |345|
/// |678|
/// +---+
/// ```
pub fn square_slice(puzzle: &Puzzle, square: usize) -> (out: Option<[u8; 9]>)
    ensures
        square >= 9 <==> out is None,
        square < 9 ==> out->Some_0@ == box_view(*puzzle, square as int),
{
    if square >= 9 {
        return None;
    }
    let top: usize = 3 * (square / 3);
    let left: usize = 3 * (square % 3);
    let mut slice = [0u8; 9];
    let mut k: usize = 0;
    while k < 9
        invariant
            k <= 9,
            square < 9,
            top == box_row(square as int, 0),
            left == box_col(square as int, 0),
            forall|i: int|
                0 <= i < k ==> slice[i] == cell(
                    *puzzle,
                    box_row(square as int, i),
                    box_col(square as int, i),
                ),
        decreases 9 - k,
    {
        slice[k] = puzzle[top + k / 3][left + k % 3];
        k += 1;
    }
    assert(slice@ =~= box_view(*puzzle, square as int));
    Some(slice)
}

/// Finds all the blank positions in a [Puzzle] that need to be filled in to form a [Solution].
pub fn blanks(puzzle: Puzzle) -> (out: Vec<GridPos>)
    ensures
        is_blank_list(puzzle, out@),
{
    let mut out: Vec<GridPos> = Vec::new();
    let mut row: usize = 0;
    while row < 9
        invariant
            row <= 9,
            forall|i: int|
                0 <= i < out.len() ==> (#[trigger] out[i]).0 < row && out[i].1 < 9 && cell(
                    puzzle,
                    out[i].0 as int,
                    out[i].1 as int,
                ) == 0,
            forall|i: int, j: int|
                0 <= i < j < out.len() ==> pos_lt(#[trigger] out[i], #[trigger] out[j]),
            forall|r: int, c: int|
                0 <= r < row && 0 <= c < 9 && #[trigger] cell(puzzle, r, c) == 0
                    ==> out@.contains((r as usize, c as usize)),
        decreases 9 - row,
    {
        let mut col: usize = 0;
        while col < 9
            invariant
                row < 9,
                col <= 9,
                forall|i: int|
                    0 <= i < out.len() ==> pos_lt(#[trigger] out[i], (row, col)) && out[i].0 < 9
                        && out[i].1 < 9 && cell(puzzle, out[i].0 as int, out[i].1 as int) == 0,
                forall|i: int, j: int|
                    0 <= i < j < out.len() ==> pos_lt(#[trigger] out[i], #[trigger] out[j]),
                forall|r: int, c: int|
                    0 <= r < 9 && 0 <= c < 9 && pos_lt((r as usize, c as usize), (row, col))
                        && #[trigger] cell(puzzle, r, c) == 0 ==> out@.contains(
                        (r as usize, c as usize),
                    ),
            decreases 9 - col,
        {
            if puzzle[row][col] == 0 {
                let ghost before = out@;
                out.push((row, col));
                proof {
                    assert forall|r: int, c: int|
                        0 <= r < 9 && 0 <= c < 9 && pos_lt(
                            (r as usize, c as usize),
                            (row, (col + 1) as usize),
                        ) && #[trigger] cell(puzzle, r, c) == 0 implies out@.contains(
                        (r as usize, c as usize),
                    ) by {
                        if r == row && c == col {
                            assert(out@[before.len() as int] == (row, col));
                        } else {
                            assert(before.contains((r as usize, c as usize)));
                            let i = choose|i: int|
                                0 <= i < before.len() && before[i] == (r as usize, c as usize);
                            assert(out@[i] == (r as usize, c as usize));
                        }
                    }
                }
            }
            col += 1;
        }
        row += 1;
    }
    out
}

} // verus!
