use sudoku::{
    grid_row_to_border_string, grid_to_border_string, grid_to_string, is_well_formed,
    lines_fit_grid, lines_to_grid, ParseError, Puzzle,
};

const EXAMPLE: Puzzle = [
    [5, 3, 0, 0, 7, 0, 0, 0, 0],
    [6, 0, 0, 1, 9, 5, 0, 0, 0],
    [0, 9, 8, 0, 0, 0, 0, 6, 0],
    [8, 0, 0, 0, 6, 0, 0, 0, 3],
    [4, 0, 0, 8, 0, 3, 0, 0, 1],
    [7, 0, 0, 0, 2, 0, 0, 0, 6],
    [0, 6, 0, 0, 0, 0, 2, 8, 0],
    [0, 0, 0, 4, 1, 9, 0, 0, 5],
    [0, 0, 0, 0, 8, 0, 0, 7, 9],
];

const PLAIN: &str = "\
53..7....
6..195...
.98....6.
8...6...3
4..8.3..1
7...2...6
.6....28.
...419..5
....8..79
";

const FRAMED: &str = "\
+---+---+---+
|53 | 7 |   |
|6  |195|   |
| 98|   | 6 |
+---+---+---+
|8  | 6 |  3|
|4  |8 3|  1|
|7  | 2 |  6|
+---+---+---+
| 6 |   |28 |
|   |419|  5|
|   | 8 | 79|
+---+---+---+
";

const BORDERED: &str = "\
╔═══╤═══╤═══╗
║53 │ 7 │   ║
║6  │195│   ║
║ 98│   │ 6 ║
╟───┼───┼───╢
║8  │ 6 │  3║
║4  │8 3│  1║
║7  │ 2 │  6║
╟───┼───┼───╢
║ 6 │   │28 ║
║   │419│  5║
║   │ 8 │ 79║
╚═══╧═══╧═══╝
";

fn lines_of(text: &str) -> Vec<Vec<char>> {
    text.lines().map(|line| line.chars().collect()).collect()
}

fn chars_of(text: &str) -> Vec<char> {
    text.chars().collect()
}

fn string_of(chars: Vec<char>) -> String {
    chars.into_iter().collect()
}

#[test]
fn plain_text_is_written() {
    assert_eq!(string_of(grid_to_string(EXAMPLE, &['.'])), PLAIN);
    assert_eq!(string_of(grid_to_string(EXAMPLE, &[' '])), PLAIN.replace(".", " "));
    assert_eq!(string_of(grid_to_string(EXAMPLE, &[])), PLAIN.replace(".", ""));
    assert_eq!(string_of(grid_to_string(EXAMPLE, &chars_of("[]"))), PLAIN.replace(".", "[]"));
    assert_eq!(string_of(grid_to_string([[0; 9]; 9], &['0'])), "000000000\n".repeat(9));
}

#[test]
fn framed_text_is_written() {
    assert_eq!(string_of(grid_to_border_string(EXAMPLE, &[' '])), BORDERED);
    assert_eq!(string_of(grid_to_border_string(EXAMPLE, &['.'])), BORDERED.replace(" ", "."));
    assert_eq!(
        string_of(grid_to_border_string(EXAMPLE, &chars_of("<0>"))),
        BORDERED.replace(" ", "<0>")
    );
    assert_eq!(string_of(grid_to_border_string(EXAMPLE, &[' '])).lines().count(), 13);
}

#[test]
fn framed_row_keeps_its_zeros() {
    assert_eq!(
        string_of(grid_row_to_border_string([5, 3, 0, 0, 7, 0, 0, 0, 9])),
        "║530│070│009║\n"
    );
    assert_eq!(
        string_of(grid_row_to_border_string([1, 2, 3, 4, 5, 6, 7, 8, 9])),
        "║123│456│789║\n"
    );
}

#[test]
fn plain_lines_are_read() {
    assert_eq!(lines_to_grid(&lines_of(PLAIN)), Ok(EXAMPLE));
    assert_eq!(lines_to_grid(&lines_of(&PLAIN.replace(".", "0"))), Ok(EXAMPLE));
    assert_eq!(lines_to_grid(&lines_of(&PLAIN.replace(".", "x"))), Ok(EXAMPLE));
    assert_eq!(lines_to_grid(&lines_of(&PLAIN.replace("\n", "\n\n"))), Ok(EXAMPLE));
    assert_eq!(lines_to_grid(&lines_of(&PLAIN.replace("\n", "\r\n"))), Ok(EXAMPLE));
}

#[test]
fn short_and_long_plain_lines_are_read() {
    let mut lines = lines_of(PLAIN);
    lines[0] = chars_of("53");
    lines[8] = chars_of("....8..79   and no digit after");
    assert!(lines_fit_grid(&lines));
    let mut expected = EXAMPLE;
    expected[0] = [5, 3, 0, 0, 0, 0, 0, 0, 0];
    assert_eq!(lines_to_grid(&lines), Ok(expected));
}

#[test]
fn framed_lines_are_read() {
    assert_eq!(lines_to_grid(&lines_of(FRAMED)), Ok(EXAMPLE));
    assert_eq!(lines_to_grid(&lines_of(BORDERED)), Ok(EXAMPLE));
    // A digit in the frame is not read.
    assert_eq!(lines_to_grid(&lines_of(&FRAMED.replace("+", "7"))), Ok(EXAMPLE));
    assert_eq!(lines_to_grid(&lines_of(&FRAMED.replace("|", "1"))), Ok(EXAMPLE));
}

#[test]
fn written_text_is_read_back() {
    let plain = string_of(grid_to_string(EXAMPLE, &[' ']));
    assert_eq!(lines_to_grid(&lines_of(&plain)), Ok(EXAMPLE));
    let framed = string_of(grid_to_border_string(EXAMPLE, &[' ']));
    assert_eq!(lines_to_grid(&lines_of(&framed)), Ok(EXAMPLE));
}

#[test]
fn wrong_number_of_lines_is_refused() {
    assert_eq!(lines_to_grid(&[]), Err(ParseError::RowCount));
    assert_eq!(lines_to_grid(&lines_of("\n\n\n")), Err(ParseError::RowCount));
    assert_eq!(lines_to_grid(&lines_of(&PLAIN[10..])), Err(ParseError::RowCount));
    assert_eq!(lines_to_grid(&lines_of(&format!("{PLAIN}123456789\n"))), Err(ParseError::RowCount));
    assert_eq!(lines_to_grid(&lines_of(&FRAMED[14..])), Err(ParseError::RowCount));
    assert_eq!(
        ParseError::RowCount.message(),
        "Invalid input: incorrect number of rows."
    );
}

#[test]
fn wrong_length_of_framed_line_is_refused() {
    let mut lines = lines_of(FRAMED);
    lines[12].push('+');
    assert_eq!(lines_to_grid(&lines), Err(ParseError::RowLen));
    let mut lines = lines_of(FRAMED);
    lines[5].pop();
    assert_eq!(lines_to_grid(&lines), Err(ParseError::RowLen));
    assert_eq!(ParseError::RowLen.message(), "Invalid input: incorrect row len.");
}

#[test]
fn digit_past_the_ninth_column_does_not_fit() {
    let mut lines = lines_of(PLAIN);
    assert!(lines_fit_grid(&lines));
    lines[3].push('0');
    assert!(lines_fit_grid(&lines));
    lines[3].push('4');
    assert!(!lines_fit_grid(&lines));
    // Thirteen lines, or a wrong number of them, are judged by the reader itself.
    lines.push(chars_of("1234567890123"));
    assert!(lines_fit_grid(&lines));
    assert!(lines_fit_grid(&lines_of(FRAMED)));
}

#[test]
fn well_formed_grids_hold_digits_only() {
    assert!(is_well_formed(&EXAMPLE));
    assert!(is_well_formed(&[[0; 9]; 9]));
    assert!(is_well_formed(&[[9; 9]; 9]));
    let mut grid = EXAMPLE;
    grid[8][8] = 10;
    assert!(!is_well_formed(&grid));
    grid[8][8] = 255;
    assert!(!is_well_formed(&grid));
}
