use sudoku::generate::{all_positions, blank_col, blank_row};
use sudoku::grid::with_digit;
use sudoku::text::{char_to_digit, digit_to_char, replace_zeros};
use sudoku::Puzzle;

const SOLVED: Puzzle = [
    [5, 3, 4, 6, 7, 8, 9, 1, 2],
    [6, 7, 2, 1, 9, 5, 3, 4, 8],
    [1, 9, 8, 3, 4, 2, 5, 6, 7],
    [8, 5, 9, 7, 6, 1, 4, 2, 3],
    [4, 2, 6, 8, 5, 3, 7, 9, 1],
    [7, 1, 3, 9, 2, 4, 8, 5, 6],
    [9, 6, 1, 5, 3, 7, 2, 8, 4],
    [2, 8, 7, 4, 1, 9, 6, 3, 5],
    [3, 4, 5, 2, 8, 6, 1, 7, 9],
];

#[test]
fn digit_is_written_into_a_copy() {
    let written = with_digit(SOLVED, 8, 0, 0);
    let mut expected = SOLVED;
    expected[8][0] = 0;
    assert_eq!(written, expected);
    assert_eq!(with_digit(written, 8, 0, 3), SOLVED);
    assert_eq!(with_digit(SOLVED, 0, 8, 2), SOLVED);
}

#[test]
fn row_and_col_are_blanked_in_a_copy() {
    for index in 0..9 {
        let without_row = blank_row(SOLVED, index);
        let without_col = blank_col(SOLVED, index);
        for row in 0..9 {
            for col in 0..9 {
                let kept = SOLVED[row][col];
                assert_eq!(without_row[row][col], if row == index { 0 } else { kept });
                assert_eq!(without_col[row][col], if col == index { 0 } else { kept });
            }
        }
    }
}

#[test]
fn positions_are_listed_in_reading_order() {
    let positions = all_positions();
    assert_eq!(positions.len(), 81);
    assert_eq!(positions[0], (0, 0));
    assert_eq!(positions[8], (0, 8));
    assert_eq!(positions[9], (1, 0));
    assert_eq!(positions[40], (4, 4));
    assert_eq!(positions[80], (8, 8));
    for (index, pos) in positions.iter().enumerate() {
        assert_eq!(*pos, (index / 9, index % 9));
    }
}

#[test]
fn digits_and_their_chars() {
    let chars = ['0', '1', '2', '3', '4', '5', '6', '7', '8', '9'];
    for digit in 0..=9u8 {
        assert_eq!(digit_to_char(digit), chars[digit as usize]);
        assert_eq!(char_to_digit(chars[digit as usize]), digit);
    }
    for other in [' ', '.', '/', ':', 'a', '|', '║', '٣', '９'] {
        assert_eq!(char_to_digit(other), 0);
    }
}

#[test]
fn zeros_are_replaced() {
    let text = |chars: Vec<char>| chars.into_iter().collect::<String>();
    let chars = |text: &str| text.chars().collect::<Vec<char>>();
    assert_eq!(text(replace_zeros(&chars("10203"), &chars("."))), "1.2.3");
    assert_eq!(text(replace_zeros(&chars("10203"), &chars(""))), "123");
    assert_eq!(text(replace_zeros(&chars("000"), &chars("ab"))), "ababab");
    assert_eq!(text(replace_zeros(&chars("000"), &chars("00"))), "000000");
    assert_eq!(text(replace_zeros(&chars(""), &chars("x"))), "");
    assert_eq!(text(replace_zeros(&chars("abc"), &chars("x"))), "abc");
}
