//! Grids as text: nine lines of nine characters, with or without a frame around the
//! squares.

use crate::grid::{cell, grid_wf, Grid};
use vstd::prelude::*;

verus! {

/// The character that stands for the digit `d`.
pub open spec fn digit_char(d: u8) -> char {
    (d + 48) as char
}

/// The digits of `row`, each as its character.
pub open spec fn digits_text(row: Seq<u8>) -> Seq<char> {
    Seq::new(row.len(), |i: int| digit_char(row[i]))
}

/// `text` with every `'0'` replaced by `blank`.
pub open spec fn zeros_replaced(text: Seq<char>, blank: Seq<char>) -> Seq<char>
    decreases text.len(),
{
    if text.len() == 0 {
        text
    } else if text.last() == '0' {
        zeros_replaced(text.drop_last(), blank) + blank
    } else {
        zeros_replaced(text.drop_last(), blank).push(text.last())
    }
}

/// The first `n` rows of `g` as lines of digits, each line with `blank` for its zeros
/// and a newline at its end.
pub open spec fn plain_text(g: Grid, n: int, blank: Seq<char>) -> Seq<char>
    decreases n,
{
    if n <= 0 {
        Seq::empty()
    } else {
        plain_text(g, n - 1, blank) + zeros_replaced(digits_text(g[n - 1]@), blank).push('\n')
    }
}

/// One row of digits between the frame's upright bars, with a newline at its end.
pub open spec fn border_row_text(row: Seq<u8>) -> Seq<char> {
    seq!['║', digit_char(row[0]), digit_char(row[1]), digit_char(row[2]), '│', digit_char(row[3]), digit_char(row[4]), digit_char(row[5]), '│', digit_char(row[6]), digit_char(row[7]), digit_char(row[8]), '║', '\n']
}

/// The frame's top line.
pub open spec fn border_top() -> Seq<char> {
    seq!['╔', '═', '═', '═', '╤', '═', '═', '═', '╤', '═', '═', '═', '╗', '\n']
}

/// The frame's line between two bands of squares.
pub open spec fn border_middle() -> Seq<char> {
    seq!['╟', '─', '─', '─', '┼', '─', '─', '─', '┼', '─', '─', '─', '╢', '\n']
}

/// The frame's bottom line.
pub open spec fn border_bottom() -> Seq<char> {
    seq!['╚', '═', '═', '═', '╧', '═', '═', '═', '╧', '═', '═', '═', '╝', '\n']
}

/// The three rows of band `band`, framed.
pub open spec fn border_band_text(g: Grid, band: int) -> Seq<char> {
    border_row_text(g[3 * band]@) + border_row_text(g[3 * band + 1]@) + border_row_text(
        g[3 * band + 2]@,
    )
}

/// The whole grid in its frame, zeros still as `'0'`.
pub open spec fn framed_text(g: Grid) -> Seq<char> {
    border_top() + border_band_text(g, 0) + border_middle() + border_band_text(g, 1)
        + border_middle() + border_band_text(g, 2) + border_bottom()
}

/// Gives the character of a digit.
pub fn digit_to_char(digit: u8) -> (out: char)
    requires
        digit <= 9,
    ensures
        out == digit_char(digit),
{
    let chars = ['0', '1', '2', '3', '4', '5', '6', '7', '8', '9'];
    chars[digit as usize]
}

/// Copies `text` with every `'0'` replaced by `blank`.
pub fn replace_zeros(text: &[char], blank: &[char]) -> (out: Vec<char>)
    ensures
        out@ == zeros_replaced(text@, blank@),
{
    let mut out: Vec<char> = Vec::new();
    let mut i: usize = 0;
    while i < text.len()
        invariant
            i <= text@.len(),
            out@ == zeros_replaced(text@.take(i as int), blank@),
        decreases text@.len() - i,
    {
        proof {
            assert(text@.take(i + 1).drop_last() =~= text@.take(i as int));
        }
        if text[i] == '0' {
            let ghost before = out@;
            out.extend_from_slice(blank);
            assert(out@ =~= before + blank@);
        } else {
            out.push(text[i]);
        }
        i += 1;
    }
    assert(text@.take(i as int) =~= text@);
    out
}

/// Converts one row of a [Grid] to a line between the frame's upright bars.
///
/// Output will end with a newline char.
pub fn grid_row_to_border_string(row: [u8; 9]) -> (out: Vec<char>)
    requires
        forall|i: int| 0 <= i < 9 ==> row@[i] <= 9,
    ensures
        out@ == border_row_text(row@),
{
    let mut out: Vec<char> = Vec::new();
    out.push('║');
    out.push(digit_to_char(row[0]));
    out.push(digit_to_char(row[1]));
    out.push(digit_to_char(row[2]));
    out.push('│');
    out.push(digit_to_char(row[3]));
    out.push(digit_to_char(row[4]));
    out.push(digit_to_char(row[5]));
    out.push('│');
    out.push(digit_to_char(row[6]));
    out.push(digit_to_char(row[7]));
    out.push(digit_to_char(row[8]));
    out.push('║');
    out.push('\n');
    assert(out@ =~= border_row_text(row@));
    out
}

/// Converts a [Grid] to lines of digits for printing, with `blank_char` in place of
/// each blank.
///
/// Output will end with a newline char.
pub fn grid_to_string(grid: Grid, blank_char: &[char]) -> (out: Vec<char>)
    requires
        grid_wf(grid),
    ensures
        out@ == plain_text(grid, 9, blank_char@),
{
    let mut out: Vec<char> = Vec::new();
    let mut row: usize = 0;
    while row < 9
        invariant
            row <= 9,
            grid_wf(grid),
            out@ == plain_text(grid, row as int, blank_char@),
        decreases 9 - row,
    {
        let mut digits: Vec<char> = Vec::new();
        let mut col: usize = 0;
        while col < 9
            invariant
                row < 9,
                col <= 9,
                grid_wf(grid),
                digits@.len() == col,
                forall|i: int| 0 <= i < col ==> digits@[i] == digit_char(grid[row as int]@[i]),
            decreases 9 - col,
        {
            assert(cell(grid, row as int, col as int) <= 9);
            digits.push(digit_to_char(grid[row][col]));
            col += 1;
        }
        assert(digits@ =~= digits_text(grid[row as int]@));
        let line = replace_zeros(digits.as_slice(), blank_char);
        let ghost before = out@;
        out.extend_from_slice(line.as_slice());
        out.push('\n');
        assert(out@ =~= before + line@.push('\n'));
        row += 1;
    }
    out
}

/// Converts a [Grid] to framed lines for printing, with `blank_char` in place of each
/// blank.
///
/// Output will end with a newline char.
pub fn grid_to_border_string(grid: Grid, blank_char: &[char]) -> (out: Vec<char>)
    requires
        grid_wf(grid),
    ensures
        out@ == zeros_replaced(framed_text(grid), blank_char@),
{
    let top = ['╔', '═', '═', '═', '╤', '═', '═', '═', '╤', '═', '═', '═', '╗', '\n'];
    let middle = ['╟', '─', '─', '─', '┼', '─', '─', '─', '┼', '─', '─', '─', '╢', '\n'];
    let bottom = ['╚', '═', '═', '═', '╧', '═', '═', '═', '╧', '═', '═', '═', '╝', '\n'];
    assert(top@ =~= border_top());
    assert(middle@ =~= border_middle());
    assert(bottom@ =~= border_bottom());
    let mut framed: Vec<char> = Vec::new();
    framed.extend_from_slice(&top);
    assert(framed@ =~= border_top());
    let mut band: usize = 0;
    while band < 3
        invariant
            band <= 3,
            grid_wf(grid),
            middle@ == border_middle(),
            band == 0 ==> framed@ == border_top(),
            band == 1 ==> framed@ == border_top() + border_band_text(grid, 0),
            band == 2 ==> framed@ == border_top() + border_band_text(grid, 0) + border_middle()
                + border_band_text(grid, 1),
            band == 3 ==> framed@ == border_top() + border_band_text(grid, 0) + border_middle()
                + border_band_text(grid, 1) + border_middle() + border_band_text(grid, 2),
        decreases 3 - band,
    {
        let ghost before = framed@;
        if band > 0 {
            framed.extend_from_slice(&middle);
        }
        let ghost opened = framed@;
        assert(opened =~= if band > 0 {
            before + border_middle()
        } else {
            before
        });
        let mut k: usize = 0;
        while k < 3
            invariant
                band < 3,
                k <= 3,
                grid_wf(grid),
                k == 0 ==> framed@ == opened,
                k == 1 ==> framed@ == opened + border_row_text(grid[3 * band as int]@),
                k == 2 ==> framed@ == opened + border_row_text(grid[3 * band as int]@)
                    + border_row_text(grid[3 * band + 1]@),
                k == 3 ==> framed@ == opened + border_band_text(grid, band as int),
            decreases 3 - k,
        {
            let row = grid[3 * band + k];
            assert forall|i: int| 0 <= i < 9 implies row@[i] <= 9 by {
                assert(cell(grid, 3 * band + k, i) <= 9);
            }
            let line = grid_row_to_border_string(row);
            let ghost prev = framed@;
            framed.extend_from_slice(line.as_slice());
            assert(framed@ =~= prev + line@);
            k += 1;
        }
        band += 1;
    }
    let ghost body = framed@;
    framed.extend_from_slice(&bottom);
    assert(framed@ =~= body + border_bottom());
    replace_zeros(framed.as_slice(), blank_char)
}


/// Why lines of text hold no grid.
#[derive(Clone, Copy, Debug, PartialEq, Eq, Structural)]
pub enum ParseError {
    /// The lines that are not empty are neither 9 nor 13.
    RowCount,
    /// Of 13 lines, one is not 13 characters long.
    RowLen,
}

impl ParseError {
    /// Says in words what is wrong with the input.
    pub fn message(&self) -> (out: &'static str)
        ensures
            *self == ParseError::RowCount ==> out@ == "Invalid input: incorrect number of rows."@,
            *self == ParseError::RowLen ==> out@ == "Invalid input: incorrect row len."@,
    {
        match self {
            ParseError::RowCount => "Invalid input: incorrect number of rows.",
            ParseError::RowLen => "Invalid input: incorrect row len.",
        }
    }
}

/// The characters of each line.
pub open spec fn texts(lines: Seq<Vec<char>>) -> Seq<Seq<char>> {
    Seq::new(lines.len(), |i: int| lines[i]@)
}

/// The lines that hold at least one character, in their order.
pub open spec fn non_empty(lines: Seq<Seq<char>>) -> Seq<Seq<char>> {
    lines.filter(|line: Seq<char>| line.len() > 0)
}

/// The digit that `c` stands for; 0 where it is none of `'1'` to `'9'`.
pub open spec fn digit_of(c: char) -> u8 {
    if '1' <= c && c <= '9' {
        (c as u32 - 48) as u8
    } else {
        0
    }
}

/// The digit at line `r`, character `c`; 0 where the text ends before it.
pub open spec fn text_digit(rows: Seq<Seq<char>>, r: int, c: int) -> u8 {
    if 0 <= r < rows.len() && 0 <= c < rows[r].len() {
        digit_of(rows[r][c])
    } else {
        0
    }
}

/// Where the `i`-th row or column of the grid stands in framed text: after one line or
/// character of frame for each band or stack begun.
pub open spec fn framed_index(i: int) -> int {
    i + i / 3 + 1
}

/// `g` holds the digits of nine plain lines.
pub open spec fn is_plain_grid(rows: Seq<Seq<char>>, g: Grid) -> bool {
    forall|r: int, c: int|
        0 <= r < 9 && 0 <= c < 9 ==> #[trigger] cell(g, r, c) == text_digit(rows, r, c)
}

/// `g` holds the digits of thirteen framed lines.
pub open spec fn is_framed_grid(rows: Seq<Seq<char>>, g: Grid) -> bool {
    forall|r: int, c: int|
        0 <= r < 9 && 0 <= c < 9 ==> #[trigger] cell(g, r, c) == text_digit(
            rows,
            framed_index(r),
            framed_index(c),
        )
}

/// Every line is 13 characters long.
pub open spec fn all_framed_width(rows: Seq<Seq<char>>) -> bool {
    forall|r: int| 0 <= r < rows.len() ==> (#[trigger] rows[r]).len() == 13
}

/// No line holds a digit past its ninth character.
pub open spec fn digits_fit(rows: Seq<Seq<char>>) -> bool {
    forall|r: int, c: int|
        0 <= r < rows.len() && 9 <= c < rows[r].len() ==> digit_of(#[trigger] rows[r][c]) == 0
}

/// Gives the digit that a character stands for, and 0 for any other character.
pub fn char_to_digit(c: char) -> (out: u8)
    ensures
        out == digit_of(c),
        out <= 9,
{
    if c >= '1' && c <= '9' {
        (c as u32 - 48) as u8
    } else {
        0
    }
}

/// Finds the lines that are not empty: the index of each, in their order.
fn non_empty_lines(lines: &[Vec<char>]) -> (kept: Vec<usize>)
    ensures
        kept@.len() == non_empty(texts(lines@)).len(),
        forall|k: int|
            0 <= k < kept@.len() ==> #[trigger] kept@[k] < lines@.len() && lines@[kept@[k] as int]@
                == non_empty(texts(lines@))[k],
        forall|k: int, n: int| 0 <= k < n < kept@.len() ==> kept@[k] < kept@[n],
{
    let ghost all = texts(lines@);
    let ghost pred = |line: Seq<char>| line.len() > 0;
    let mut kept: Vec<usize> = Vec::new();
    let mut i: usize = 0;
    proof {
        reveal(Seq::filter);
        assert(all.take(0).filter(pred) =~= Seq::<Seq<char>>::empty());
    }
    while i < lines.len()
        invariant
            i <= lines@.len(),
            all == texts(lines@),
            pred == |line: Seq<char>| line.len() > 0,
            kept@.len() == all.take(i as int).filter(pred).len(),
            forall|k: int|
                0 <= k < kept@.len() ==> #[trigger] kept@[k] < i && lines@[kept@[k] as int]@
                    == all.take(i as int).filter(pred)[k],
            forall|k: int, n: int| 0 <= k < n < kept@.len() ==> kept@[k] < kept@[n],
        decreases lines@.len() - i,
    {
        proof {
            reveal(Seq::filter);
            assert(all.take(i + 1).drop_last() =~= all.take(i as int));
            assert(all.take(i + 1).last() == lines@[i as int]@);
        }
        if lines[i].len() > 0 {
            kept.push(i);
        }
        i += 1;
    }
    assert(all.take(i as int) =~= all);
    kept
}

/// Tells whether [`lines_to_grid`] can read these lines: where nine of them are not
/// empty, none of the nine may hold a digit past its ninth character.
pub fn lines_fit_grid(lines: &[Vec<char>]) -> (out: bool)
    ensures
        out == (non_empty(texts(lines@)).len() == 9 ==> digits_fit(non_empty(texts(lines@)))),
{
    let kept = non_empty_lines(lines);
    let ghost rows = non_empty(texts(lines@));
    if kept.len() != 9 {
        return true;
    }
    let mut row: usize = 0;
    while row < 9
        invariant
            row <= 9,
            kept@.len() == 9,
            rows == non_empty(texts(lines@)),
            rows.len() == 9,
            forall|n: int|
                0 <= n < 9 ==> #[trigger] kept@[n] < lines@.len() && lines@[kept@[n] as int]@
                    == rows[n],
            forall|r: int, c: int|
                0 <= r < row && 9 <= c < rows[r].len() ==> digit_of(#[trigger] rows[r][c]) == 0,
        decreases 9 - row,
    {
        let line = &lines[kept[row]];
        let mut col: usize = 9;
        while col < line.len()
            invariant
                row < 9,
                9 <= col,
                line@ == rows[row as int],
                rows == non_empty(texts(lines@)),
                rows.len() == 9,
                forall|c: int| 9 <= c < col && c < line@.len() ==> digit_of(#[trigger] line@[c]) == 0,
            decreases line@.len() - col,
        {
            if char_to_digit(line[col]) != 0 {
                assert(digit_of(rows[row as int][col as int]) != 0);
                return false;
            }
            col += 1;
        }
        row += 1;
    }
    true
}

/// Reads a [Grid] from lines of text. Empty lines are passed over.
///
/// The lines can either be exactly one of:
/// (i)  9 lines, with digits 1-9 in the appropriate positions.
/// (ii) 13 lines of 13 characters, which is the same as the 9 lines, but with an
///      additional 1-char border around each 3x3 digit square.
/// Non-digit chars, as well as the digit 0, will be regarded as blanks or part of the
/// grid border.
pub fn lines_to_grid(lines: &[Vec<char>]) -> (out: Result<Grid, ParseError>)
    requires
        non_empty(texts(lines@)).len() == 9 ==> digits_fit(non_empty(texts(lines@))),
    ensures
        match out {
            Ok(g) => {
                let rows = non_empty(texts(lines@));
                &&& grid_wf(g)
                &&& rows.len() == 9 || rows.len() == 13
                &&& rows.len() == 9 ==> is_plain_grid(rows, g)
                &&& rows.len() == 13 ==> all_framed_width(rows) && is_framed_grid(rows, g)
            },
            Err(ParseError::RowCount) => {
                let rows = non_empty(texts(lines@));
                rows.len() != 9 && rows.len() != 13
            },
            Err(ParseError::RowLen) => {
                let rows = non_empty(texts(lines@));
                rows.len() == 13 && !all_framed_width(rows)
            },
        },
{
    let kept = non_empty_lines(lines);
    let ghost rows = non_empty(texts(lines@));
    if kept.len() != 9 && kept.len() != 13 {
        return Err(ParseError::RowCount);
    }
    let mut grid = [[0u8; 9]; 9];
    if kept.len() == 13 {
        let mut k: usize = 0;
        while k < 13
            invariant
                k <= 13,
                kept@.len() == 13,
                rows.len() == 13,
                rows == non_empty(texts(lines@)),
                forall|n: int|
                    0 <= n < 13 ==> #[trigger] kept@[n] < lines@.len() && lines@[kept@[n] as int]@
                        == rows[n],
                forall|n: int| 0 <= n < k ==> (#[trigger] rows[n]).len() == 13,
            decreases 13 - k,
        {
            if lines[kept[k]].len() != 13 {
                assert(rows[k as int].len() != 13);
                return Err(ParseError::RowLen);
            }
            k += 1;
        }
        // Extract the embedded digits from the grid.
        let mut row: usize = 0;
        while row < 9
            invariant
                row <= 9,
                kept@.len() == 13,
                rows.len() == 13,
                rows == non_empty(texts(lines@)),
                all_framed_width(rows),
                forall|n: int|
                    0 <= n < 13 ==> #[trigger] kept@[n] < lines@.len() && lines@[kept@[n] as int]@
                        == rows[n],
                forall|r: int, c: int|
                    0 <= r < 9 && 0 <= c < 9 ==> #[trigger] cell(grid, r, c) <= 9,
                forall|r: int, c: int|
                    0 <= r < row && 0 <= c < 9 ==> #[trigger] cell(grid, r, c) == text_digit(
                        rows,
                        framed_index(r),
                        framed_index(c),
                    ),
            decreases 9 - row,
        {
            let line = &lines[kept[row + row / 3 + 1]];
            assert(line@ == rows[framed_index(row as int)]);
            let mut col: usize = 0;
            while col < 9
                invariant
                    row < 9,
                    col <= 9,
                    line@.len() == 13,
                    line@ == rows[framed_index(row as int)],
                    rows.len() == 13,
                rows == non_empty(texts(lines@)),
                    forall|r: int, c: int|
                        0 <= r < 9 && 0 <= c < 9 ==> #[trigger] cell(grid, r, c) <= 9,
                    forall|r: int, c: int|
                        0 <= r < row && 0 <= c < 9 ==> #[trigger] cell(grid, r, c) == text_digit(
                            rows,
                            framed_index(r),
                            framed_index(c),
                        ),
                    forall|c: int|
                        0 <= c < col ==> #[trigger] cell(grid, row as int, c) == text_digit(
                            rows,
                            framed_index(row as int),
                            framed_index(c),
                        ),
                decreases 9 - col,
            {
                let ghost prev = grid;
                grid[row][col] = char_to_digit(line[col + col / 3 + 1]);
                proof {
                    assert forall|r: int, c: int|
                        0 <= r < 9 && 0 <= c < 9 && (r != row || c != col) implies cell(grid, r, c)
                        == cell(prev, r, c) by {}
                    assert forall|r: int, c: int| 0 <= r < 9 && 0 <= c < 9 implies #[trigger] cell(
                        grid,
                        r,
                        c,
                    ) <= 9 by {
                        if r != row || c != col {
                            assert(cell(grid, r, c) == cell(prev, r, c));
                        }
                    }
                }
                col += 1;
            }
            row += 1;
        }
        return Ok(grid);
    }
    let mut row: usize = 0;
    while row < 9
        invariant
            row <= 9,
            kept@.len() == 9,
            rows.len() == 9,
            rows == non_empty(texts(lines@)),
            digits_fit(rows),
            forall|n: int|
                0 <= n < 9 ==> #[trigger] kept@[n] < lines@.len() && lines@[kept@[n] as int]@
                    == rows[n],
            forall|r: int, c: int| 0 <= r < 9 && 0 <= c < 9 ==> #[trigger] cell(grid, r, c) <= 9,
            forall|r: int, c: int|
                0 <= r < row && 0 <= c < 9 ==> #[trigger] cell(grid, r, c) == text_digit(
                    rows,
                    r,
                    c,
                ),
            forall|r: int, c: int| row <= r < 9 && 0 <= c < 9 ==> #[trigger] cell(grid, r, c) == 0,
        decreases 9 - row,
    {
        let line = &lines[kept[row]];
        let mut col: usize = 0;
        while col < line.len()
            invariant
                row < 9,
                col <= line@.len(),
                line@ == rows[row as int],
                rows.len() == 9,
                digits_fit(rows),
                forall|r: int, c: int|
                    0 <= r < 9 && 0 <= c < 9 ==> #[trigger] cell(grid, r, c) <= 9,
                forall|r: int, c: int|
                    0 <= r < row && 0 <= c < 9 ==> #[trigger] cell(grid, r, c) == text_digit(
                        rows,
                        r,
                        c,
                    ),
                forall|r: int, c: int|
                    row < r < 9 && 0 <= c < 9 ==> #[trigger] cell(grid, r, c) == 0,
                forall|c: int|
                    0 <= c < 9 ==> #[trigger] cell(grid, row as int, c) == (if c < col {
                        text_digit(rows, row as int, c)
                    } else {
                        0
                    }),
            decreases line@.len() - col,
        {
            let digit = char_to_digit(line[col]);
            if digit != 0 {
                assert(col < 9) by {
                    if col >= 9 {
                        assert(digit_of(rows[row as int][col as int]) == 0);
                    }
                }
                let ghost prev = grid;
                grid[row][col] = digit;
                proof {
                    assert forall|r: int, c: int|
                        0 <= r < 9 && 0 <= c < 9 && (r != row || c != col) implies cell(grid, r, c)
                        == cell(prev, r, c) by {}
                    assert forall|r: int, c: int| 0 <= r < 9 && 0 <= c < 9 implies #[trigger] cell(
                        grid,
                        r,
                        c,
                    ) <= 9 by {
                        if r != row || c != col {
                            assert(cell(grid, r, c) == cell(prev, r, c));
                        }
                    }
                }
            }
            col += 1;
        }
        row += 1;
    }
    Ok(grid)
}

} // verus!
