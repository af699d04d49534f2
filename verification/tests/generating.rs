use sudoku::{
    blank_col_in_order, blank_positions_in_order, blank_row_in_order, create_random_blank_col,
    create_random_blank_positions, create_random_blank_row, create_random_solution, generate,
    has_unique_solution, is_valid_puzzle, solution_in_order, solve, solve_any, GridPos, Puzzle,
    MAX_BLANKS_TO_GENERATE, TARGET_BLANKS_TO_GENERATE,
};

const SOLVED: Puzzle = [
    [5, 3, 4, 6, 7, 8, 9, 1, 2],
    [6, 7, 2, 1, 9, 5, 3, 4, 8],
    [1, 9, 8, 3, 4, 2, 5, 6, 7],
    [8, 5, 9, 7, 6, 1, 4, 2, 3],
    [4, 2, 6, 8, 5, 3, 7, 9, 1],
    [7, 1, 3, 9, 2, 4, 8, 5, 6],
    [9, 6, 1, 5, 3, 7, 2, 8, 4],
    [2, 8, 7, 4, 1, 9, 6, 3, 5],
    [3, 4, 5, 2, 8, 6, 1, 7, 9],
];

const FIRST_OF_EMPTY: Puzzle = [
    [1, 2, 3, 4, 5, 6, 7, 8, 9],
    [4, 5, 6, 7, 8, 9, 1, 2, 3],
    [7, 8, 9, 1, 2, 3, 4, 5, 6],
    [2, 1, 4, 3, 6, 5, 8, 9, 7],
    [3, 6, 5, 8, 9, 7, 2, 1, 4],
    [8, 9, 7, 2, 1, 4, 3, 6, 5],
    [5, 3, 1, 6, 4, 2, 9, 7, 8],
    [6, 4, 2, 9, 7, 8, 5, 3, 1],
    [9, 7, 8, 5, 3, 1, 6, 4, 2],
];

const INDICES: [usize; 9] = [0, 1, 2, 3, 4, 5, 6, 7, 8];

fn count_blanks(grid: &Puzzle) -> usize {
    grid.iter().flatten().filter(|&digit| *digit == 0).count()
}

fn reading_order() -> Vec<GridPos> {
    (0..9).flat_map(|row| (0..9).map(move |col| (row, col))).collect()
}

/// Each cell of `puzzle` is blank or as in `solution`.
fn is_blanking_of(puzzle: &Puzzle, solution: &Puzzle) -> bool {
    (0..9).all(|row| {
        (0..9).all(|col| puzzle[row][col] == 0 || puzzle[row][col] == solution[row][col])
    })
}

#[test]
fn check_random_solution() {
    let solution = create_random_solution();

    assert!(is_valid_puzzle(&solution));
    assert!(solution.into_iter().flatten().all(|digit| digit != 0));
}

#[test]
fn check_random_blanks() {
    let solution = create_random_solution();
    assert_eq!(solution.iter().flatten().filter(|&digit| *digit == 0).count(), 0);

    // TARGET_BLANKS_TO_GENERATE should never fail.
    let puzzle = create_random_blank_positions(solution, TARGET_BLANKS_TO_GENERATE);
    assert!(puzzle.is_some());

    if let Some(puzzle) = puzzle {
        assert_eq!(
            puzzle.iter().flatten().filter(|&digit| *digit == 0).count(),
            TARGET_BLANKS_TO_GENERATE
        );
    }
}

#[test]
fn blank_limits_are_as_documented() {
    assert_eq!(TARGET_BLANKS_TO_GENERATE, 35);
    assert_eq!(MAX_BLANKS_TO_GENERATE, 64);
}

#[test]
fn solution_in_natural_order_is_the_first_of_the_empty_grid() {
    assert_eq!(solution_in_order(&[1, 2, 3, 4, 5, 6, 7, 8, 9]), FIRST_OF_EMPTY);
    assert_eq!(
        solution_in_order(&[9, 8, 7, 6, 5, 4, 3, 2, 1]),
        FIRST_OF_EMPTY.map(|row| row.map(|digit| 10 - digit))
    );
    let order = [4, 1, 7, 2, 9, 3, 8, 6, 5];
    let solution = solution_in_order(&order);
    assert_eq!(solution[0], order);
    assert!(is_valid_puzzle(&solution));
    assert_eq!(count_blanks(&solution), 0);
}

#[test]
fn random_solutions_follow_the_shuffled_digits() {
    let natural = solution_in_order(&[1, 2, 3, 4, 5, 6, 7, 8, 9]);
    let mut differs = false;
    for _ in 0..8 {
        let solution = create_random_solution();
        let mut first_row = solution[0];
        first_row.sort();
        assert_eq!(first_row, [1, 2, 3, 4, 5, 6, 7, 8, 9]);
        assert_eq!(solution, solution_in_order(&solution[0]));
        if solution != natural {
            differs = true;
        }
    }
    assert!(differs);
}

#[test]
fn blank_count_outside_the_limits_is_refused() {
    assert_eq!(create_random_blank_positions(SOLVED, 0), None);
    assert_eq!(create_random_blank_positions(SOLVED, MAX_BLANKS_TO_GENERATE + 1), None);
    assert_eq!(create_random_blank_positions(SOLVED, usize::MAX), None);
}

#[test]
fn one_random_blank_is_always_made() {
    let puzzle = create_random_blank_positions(SOLVED, 1);
    assert!(puzzle.is_some());
    if let Some(puzzle) = puzzle {
        assert_eq!(count_blanks(&puzzle), 1);
        assert!(is_blanking_of(&puzzle, &SOLVED));
        assert_eq!(solve(puzzle), vec![SOLVED]);
    }
}

#[test]
fn largest_blank_count_is_accepted() {
    let puzzle = create_random_blank_positions(SOLVED, MAX_BLANKS_TO_GENERATE);
    assert!(puzzle.is_some());
    if let Some(puzzle) = puzzle {
        assert!(count_blanks(&puzzle) <= MAX_BLANKS_TO_GENERATE);
        assert!(count_blanks(&puzzle) >= TARGET_BLANKS_TO_GENERATE);
        assert!(is_blanking_of(&puzzle, &SOLVED));
        assert!(has_unique_solution(puzzle));
        assert_eq!(solve_any(puzzle), Some(SOLVED));
    }
}

#[test]
fn positions_are_carved_in_the_order_given() {
    let order = reading_order();

    assert_eq!(blank_positions_in_order(SOLVED, 0, &order), SOLVED);
    assert_eq!(blank_positions_in_order(SOLVED, 5, &[]), SOLVED);

    let mut expected = SOLVED;
    expected[0][0] = 0;
    expected[0][1] = 0;
    expected[0][2] = 0;
    assert_eq!(blank_positions_in_order(SOLVED, 3, &order), expected);

    // A cell named twice counts twice, and is blanked once.
    let mut once = SOLVED;
    once[4][4] = 0;
    assert_eq!(blank_positions_in_order(SOLVED, 2, &[(4, 4), (4, 4), (0, 0)]), once);
}

#[test]
fn blank_that_breaks_uniqueness_is_taken_back() {
    // Of these four cells any three can go; the fourth leaves two solutions.
    let order = [(0, 3), (0, 4), (3, 3), (3, 4), (8, 8)];
    let mut expected = SOLVED;
    expected[0][3] = 0;
    expected[0][4] = 0;
    expected[3][3] = 0;
    expected[8][8] = 0;
    assert_eq!(blank_positions_in_order(SOLVED, 4, &order), expected);
    assert_eq!(blank_positions_in_order(SOLVED, 5, &order), expected);

    // Nothing can be carved from a grid that has many solutions.
    let empty = [[0u8; 9]; 9];
    assert_eq!(blank_positions_in_order(empty, 3, &order), empty);
    let mut sparse = empty;
    sparse[0][3] = 6;
    assert_eq!(blank_positions_in_order(sparse, 3, &order), sparse);
}

#[test]
fn first_row_in_order_that_can_go_is_blanked() {
    let mut expected = SOLVED;
    expected[0] = [0; 9];
    assert_eq!(blank_row_in_order(SOLVED, &INDICES), Some(expected));

    let mut expected = SOLVED;
    expected[6] = [0; 9];
    assert_eq!(blank_row_in_order(SOLVED, &[6, 2, 0, 1, 3, 4, 5, 7, 8]), Some(expected));

    // With row 0 gone, neither row 1 nor row 2 of its band can go, nor row 3, which
    // holds 7 and 6 where row 0 held 6 and 7; row 4 can.
    let mut without_first = SOLVED;
    without_first[0] = [0; 9];
    let mut expected = without_first;
    expected[4] = [0; 9];
    assert_eq!(blank_row_in_order(without_first, &[1, 2, 3, 4, 5, 6, 7, 8, 0]), Some(expected));
    assert_eq!(blank_row_in_order(without_first, &[1, 2, 3, 8, 1, 2, 3, 8, 8]), None);
}

#[test]
fn first_col_in_order_that_can_go_is_blanked() {
    let mut expected = SOLVED;
    for row in 0..9 {
        expected[row][0] = 0;
    }
    assert_eq!(blank_col_in_order(SOLVED, &INDICES), Some(expected));

    let mut expected = SOLVED;
    for row in 0..9 {
        expected[row][7] = 0;
    }
    assert_eq!(blank_col_in_order(SOLVED, &[7, 2, 0, 1, 3, 4, 5, 6, 8]), Some(expected));
}

#[test]
fn grid_that_can_lose_no_row_or_col_is_kept() {
    // No row or column can be blanked from a grid that has many solutions already.
    let empty = [[0u8; 9]; 9];
    assert_eq!(blank_row_in_order(empty, &INDICES), None);
    assert_eq!(blank_col_in_order(empty, &INDICES), None);
    assert_eq!(create_random_blank_row(empty), None);
    assert_eq!(create_random_blank_col(empty), None);
    assert_eq!(create_random_blank_row(empty).unwrap_or(empty), empty);

    let mut sparse = empty;
    sparse[4][4] = 5;
    assert_eq!(create_random_blank_row(sparse), None);
    assert_eq!(create_random_blank_col(sparse), None);
}

#[test]
fn random_blank_row_keeps_the_solution() {
    let puzzle = create_random_blank_row(SOLVED);
    assert!(puzzle.is_some());
    if let Some(puzzle) = puzzle {
        assert_eq!(count_blanks(&puzzle), 9);
        assert_eq!(puzzle.iter().filter(|row| **row == [0; 9]).count(), 1);
        assert_eq!(solve(puzzle), vec![SOLVED]);
    }
}

#[test]
fn random_blank_col_keeps_the_solution() {
    let puzzle = create_random_blank_col(SOLVED);
    assert!(puzzle.is_some());
    if let Some(puzzle) = puzzle {
        assert_eq!(count_blanks(&puzzle), 9);
        assert_eq!((0..9).filter(|col| (0..9).all(|row| puzzle[row][*col] == 0)).count(), 1);
        assert_eq!(solve(puzzle), vec![SOLVED]);
    }
}

#[test]
fn generated_puzzle_has_one_solution() {
    let puzzle = generate();
    assert!(is_valid_puzzle(&puzzle));
    assert!(has_unique_solution(puzzle));
    let solutions = solve(puzzle);
    assert_eq!(solutions.len(), 1);
    assert!(is_blanking_of(&puzzle, &solutions[0]));
    assert_eq!(count_blanks(&solutions[0]), 0);
    assert_eq!(solve_any(puzzle), Some(solutions[0]));
}

#[test]
fn generated_puzzles_have_enough_blanks() {
    for _ in 0..3 {
        let puzzle = generate();
        assert!(count_blanks(&puzzle) >= TARGET_BLANKS_TO_GENERATE);
        assert!(count_blanks(&puzzle) <= TARGET_BLANKS_TO_GENERATE + 17);
        assert_eq!(solve(puzzle).len(), 1);
    }
}
