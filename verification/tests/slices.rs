use sudoku::{
    blanks, horizontal_slice, is_valid_puzzle, slice_has_unique_digits, square_slice,
    vertical_slice, Puzzle,
};

const SLICE_TEST_1: Puzzle = [
    [0, 0, 0, 1, 1, 1, 2, 2, 2],
    [0, 0, 0, 1, 1, 1, 2, 2, 2],
    [0, 0, 0, 1, 1, 1, 2, 2, 2],
    [3, 3, 3, 4, 4, 4, 5, 5, 5],
    [3, 3, 3, 4, 4, 4, 5, 5, 5],
    [3, 3, 3, 4, 4, 4, 5, 5, 5],
    [6, 6, 6, 7, 7, 7, 8, 8, 8],
    [6, 6, 6, 7, 7, 7, 8, 8, 8],
    [6, 6, 6, 7, 7, 7, 8, 8, 8],
];
const SLICE_TEST_2: Puzzle = [
    [1, 2, 3, 1, 2, 3, 1, 2, 3],
    [4, 5, 6, 4, 5, 6, 4, 5, 6],
    [7, 8, 9, 7, 8, 9, 7, 8, 9],
    [1, 2, 3, 1, 2, 3, 1, 2, 3],
    [4, 5, 6, 4, 5, 6, 4, 5, 6],
    [7, 8, 9, 7, 8, 9, 7, 8, 9],
    [1, 2, 3, 1, 2, 3, 1, 2, 3],
    [4, 5, 6, 4, 5, 6, 4, 5, 6],
    [7, 8, 9, 7, 8, 9, 7, 8, 9],
];

const SOLVED: Puzzle = [
    [5, 3, 4, 6, 7, 8, 9, 1, 2],
    [6, 7, 2, 1, 9, 5, 3, 4, 8],
    [1, 9, 8, 3, 4, 2, 5, 6, 7],
    [8, 5, 9, 7, 6, 1, 4, 2, 3],
    [4, 2, 6, 8, 5, 3, 7, 9, 1],
    [7, 1, 3, 9, 2, 4, 8, 5, 6],
    [9, 6, 1, 5, 3, 7, 2, 8, 4],
    [2, 8, 7, 4, 1, 9, 6, 3, 5],
    [3, 4, 5, 2, 8, 6, 1, 7, 9],
];

fn row(puzzle: &Puzzle, index: usize) -> Option<Vec<u8>> {
    horizontal_slice(puzzle, index).map(|slice| slice.to_vec())
}

fn col(puzzle: &Puzzle, index: usize) -> Option<Vec<u8>> {
    vertical_slice(puzzle, index).map(|slice| slice.to_vec())
}

fn square(puzzle: &Puzzle, index: usize) -> Option<Vec<u8>> {
    square_slice(puzzle, index).map(|slice| slice.to_vec())
}

#[test]
fn check_horizontal_slice() {
    assert_eq!(row(&SLICE_TEST_1, 0), Some(vec![0, 0, 0, 1, 1, 1, 2, 2, 2]));
    assert_eq!(row(&SLICE_TEST_1, 4), Some(vec![3, 3, 3, 4, 4, 4, 5, 5, 5]));
    assert_eq!(row(&SLICE_TEST_1, 8), Some(vec![6, 6, 6, 7, 7, 7, 8, 8, 8]));

    assert_eq!(row(&SLICE_TEST_1, 1), row(&SLICE_TEST_1, 2));
    assert_eq!(row(&SLICE_TEST_1, 3), row(&SLICE_TEST_1, 5));
    assert_eq!(row(&SLICE_TEST_1, 6), row(&SLICE_TEST_1, 7));

    for index in [0, 3, 6] {
        assert_eq!(row(&SLICE_TEST_2, index), Some(vec![1, 2, 3, 1, 2, 3, 1, 2, 3]));
    }
    for index in [1, 4, 7] {
        assert_eq!(row(&SLICE_TEST_2, index), Some(vec![4, 5, 6, 4, 5, 6, 4, 5, 6]));
    }
    for index in [2, 5, 8] {
        assert_eq!(row(&SLICE_TEST_2, index), Some(vec![7, 8, 9, 7, 8, 9, 7, 8, 9]));
    }
}

#[test]
fn check_invalid_horizontal_slice() {
    assert!(horizontal_slice(&SLICE_TEST_1, 9).is_none());
}

#[test]
fn check_vertical_slice() {
    assert_eq!(col(&SLICE_TEST_1, 0), Some(vec![0, 0, 0, 3, 3, 3, 6, 6, 6]));
    assert_eq!(col(&SLICE_TEST_1, 4), Some(vec![1, 1, 1, 4, 4, 4, 7, 7, 7]));
    assert_eq!(col(&SLICE_TEST_1, 8), Some(vec![2, 2, 2, 5, 5, 5, 8, 8, 8]));

    assert_eq!(col(&SLICE_TEST_1, 1), col(&SLICE_TEST_1, 2));
    assert_eq!(col(&SLICE_TEST_1, 3), col(&SLICE_TEST_1, 5));
    assert_eq!(col(&SLICE_TEST_1, 6), col(&SLICE_TEST_1, 7));

    for index in [0, 3, 6] {
        assert_eq!(col(&SLICE_TEST_2, index), Some(vec![1, 4, 7, 1, 4, 7, 1, 4, 7]));
    }
    for index in [1, 4, 7] {
        assert_eq!(col(&SLICE_TEST_2, index), Some(vec![2, 5, 8, 2, 5, 8, 2, 5, 8]));
    }
    for index in [2, 5, 8] {
        assert_eq!(col(&SLICE_TEST_2, index), Some(vec![3, 6, 9, 3, 6, 9, 3, 6, 9]));
    }
}

#[test]
fn check_invalid_vertical_slice() {
    assert!(vertical_slice(&SLICE_TEST_1, 9).is_none());
}

#[test]
fn check_square_slice() {
    for index in 0..9 {
        let square_slice = square_slice(&SLICE_TEST_1, index);
        assert!(square_slice.is_some());

        if let Some(slice) = square_slice {
            assert!(slice.iter().all(|digit| *digit == index as u8));
        }
    }

    for index in 0..9 {
        assert_eq!(square(&SLICE_TEST_2, index), Some(vec![1, 2, 3, 4, 5, 6, 7, 8, 9]));
    }
}

#[test]
fn check_invalid_square_slice() {
    assert!(square_slice(&SLICE_TEST_1, 9).is_none());
}

#[test]
fn check_slice_uniqueness() {
    assert!(slice_has_unique_digits(&[1, 2, 3, 4, 5, 6, 7, 8, 9]));
    assert!(slice_has_unique_digits(&[9, 8, 7, 6, 5, 4, 3, 2, 1]));

    assert!(slice_has_unique_digits(&[0, 2, 0, 4, 0, 6, 0, 8, 0]));
    assert!(slice_has_unique_digits(&[9, 0, 7, 0, 5, 0, 3, 0, 1]));

    assert!(!slice_has_unique_digits(&[1, 1, 2, 2, 3, 3, 4, 4, 5]));
    assert!(!slice_has_unique_digits(&[9, 8, 7, 6, 5, 4, 3, 2, 2]));

    assert!(slice_has_unique_digits(&[0; 9]));
}

#[test]
fn slices_far_past_the_last_are_refused() {
    for index in [9, 10, 81, usize::MAX] {
        assert!(horizontal_slice(&SOLVED, index).is_none());
        assert!(vertical_slice(&SOLVED, index).is_none());
        assert!(square_slice(&SOLVED, index).is_none());
    }
}

#[test]
fn square_cells_come_in_reading_order() {
    assert_eq!(square(&SOLVED, 0), Some(vec![5, 3, 4, 6, 7, 2, 1, 9, 8]));
    assert_eq!(square(&SOLVED, 1), Some(vec![6, 7, 8, 1, 9, 5, 3, 4, 2]));
    assert_eq!(square(&SOLVED, 5), Some(vec![4, 2, 3, 7, 9, 1, 8, 5, 6]));
    assert_eq!(square(&SOLVED, 6), Some(vec![9, 6, 1, 2, 8, 7, 3, 4, 5]));
    assert_eq!(square(&SOLVED, 8), Some(vec![2, 8, 4, 6, 3, 5, 1, 7, 9]));
}

#[test]
fn uniqueness_of_short_and_repeated_blank_slices() {
    assert!(slice_has_unique_digits(&[]));
    assert!(slice_has_unique_digits(&[7]));
    assert!(slice_has_unique_digits(&[0, 0]));
    assert!(!slice_has_unique_digits(&[7, 0, 7]));
}

#[test]
fn valid_grids_have_no_repeat_in_any_unit() {
    assert!(is_valid_puzzle(&SOLVED));
    assert!(is_valid_puzzle(&[[0; 9]; 9]));

    // Twice in one row, in different columns and squares.
    let mut in_row = [[0u8; 9]; 9];
    in_row[4][0] = 5;
    in_row[4][8] = 5;
    assert!(!is_valid_puzzle(&in_row));

    // Twice in one column, in different rows and squares.
    let mut in_col = [[0u8; 9]; 9];
    in_col[0][4] = 5;
    in_col[8][4] = 5;
    assert!(!is_valid_puzzle(&in_col));

    // Twice in one square, in different rows and columns.
    let mut in_square = [[0u8; 9]; 9];
    in_square[3][3] = 5;
    in_square[4][4] = 5;
    assert!(!is_valid_puzzle(&in_square));

    // The same digit in different rows, columns and squares is no conflict.
    let mut apart = [[0u8; 9]; 9];
    apart[0][0] = 5;
    apart[4][4] = 5;
    apart[8][8] = 5;
    assert!(is_valid_puzzle(&apart));

    // Neither are the test grids, which repeat digits throughout.
    assert!(!is_valid_puzzle(&SLICE_TEST_1));
    assert!(!is_valid_puzzle(&SLICE_TEST_2));
}

#[test]
fn blanking_cells_of_a_solved_grid_keeps_it_valid() {
    let mut grid = SOLVED;
    let mut step = 0usize;
    for row in 0..9 {
        for col in 0..9 {
            step += 1;
            if step % 2 == 0 || step % 7 == 0 {
                grid[row][col] = 0;
                assert!(is_valid_puzzle(&grid));
            }
        }
    }
    for row in 0..9 {
        for col in 0..9 {
            grid[row][col] = 0;
            assert!(is_valid_puzzle(&grid));
        }
    }
}

#[test]
fn blanks_are_listed_in_reading_order() {
    assert_eq!(blanks(SOLVED), vec![]);

    let mut grid = SOLVED;
    grid[8][8] = 0;
    grid[0][3] = 0;
    grid[3][0] = 0;
    grid[0][1] = 0;
    assert_eq!(blanks(grid), vec![(0, 1), (0, 3), (3, 0), (8, 8)]);

    let all = blanks([[0; 9]; 9]);
    assert_eq!(all.len(), 81);
    for (index, pos) in all.iter().enumerate() {
        assert_eq!(*pos, (index / 9, index % 9));
    }
}
