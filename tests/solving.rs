use sudoku::grid::{empty_board, replace_value};
use sudoku::rules::move_is_valid;
use sudoku::solver::{backtrack, board_is_consistent, gen_possible_boards, solve_backtracking};

fn board_from(rows: [&str; 9]) -> Vec<Vec<u32>> {
    rows.iter().map(|r| r.chars().map(|ch| ch.to_digit(10).unwrap()).collect()).collect()
}

const SOLUTION: [&str; 9] = [
    "534678912", "672195348", "198342567", "859761423", "426853791",
    "713924856", "961537284", "287419635", "345286179",
];

fn is_valid_solution(b: &Vec<Vec<u32>>) -> bool {
    for r in 0..9 {
        for c in 0..9 {
            let d = b[r][c];
            if d < 1 || d > 9 {
                return false;
            }
            let cleared = replace_value(b.clone(), 0, r, c);
            if !move_is_valid(&cleared, &d, &r, &c) {
                return false;
            }
        }
    }
    true
}

#[test]
fn full_valid_grid_is_returned_unchanged() {
    let g = board_from(SOLUTION);
    assert_eq!(solve_backtracking(g.clone()), Some(g));
}

#[test]
fn solving_twice_gives_the_same_grid() {
    let g = board_from(SOLUTION);
    let once = solve_backtracking(g).unwrap();
    let twice = solve_backtracking(once.clone()).unwrap();
    assert_eq!(once, twice);
}

#[test]
fn cell_without_legal_digit_has_no_solution() {
    let g = board_from([
        "123456780", "000000009", "000000000", "000000000", "000000000",
        "000000000", "000000000", "000000000", "000000000",
    ]);
    assert_eq!(solve_backtracking(g), None);
}

#[test]
fn canonical_easy_puzzle_solves_to_its_unique_solution() {
    let puzzle = board_from([
        "530070000", "600195000", "098000060", "800060003", "400803001",
        "700020006", "060000280", "000419005", "000080079",
    ]);
    assert_eq!(puzzle.iter().flatten().filter(|&&v| v != 0).count(), 30);
    assert_eq!(solve_backtracking(puzzle), Some(board_from(SOLUTION)));
}

#[test]
fn empty_grid_solves_to_a_valid_sudoku() {
    let solved = solve_backtracking(empty_board()).unwrap();
    assert!(is_valid_solution(&solved));
}

#[test]
fn duplicate_in_row_blocking_a_cell_has_no_solution() {
    let g = board_from([
        "123456770", "000000008", "000000009", "000000000", "000000000",
        "000000000", "000000000", "000000000", "000000000",
    ]);
    assert_eq!(solve_backtracking(g), None);
}

#[test]
fn possible_boards_come_in_ascending_digit_order() {
    let g = board_from([
        "123456000", "000000000", "000000000", "000000000", "000000000",
        "000000000", "000000000", "000000000", "000000000",
    ]);
    let next = gen_possible_boards(&g, 0, 6);
    let digits: Vec<u32> = next.iter().map(|b| b[0][6]).collect();
    assert_eq!(digits, vec![7, 8, 9]);
    for b in &next {
        assert_eq!(b[0][..6], g[0][..6]);
        assert_eq!(b[1], g[1]);
    }
    let blocked = replace_value(replace_value(g.clone(), 7, 1, 6), 9, 5, 6);
    let digits: Vec<u32> = gen_possible_boards(&blocked, 0, 6).iter().map(|b| b[0][6]).collect();
    assert_eq!(digits, vec![8]);
}

#[test]
fn empty_grid_solves_to_the_depth_first_grid() {
    let expected: Vec<Vec<u32>> = vec![
        vec![9, 8, 7, 6, 5, 4, 3, 2, 1],
        vec![6, 5, 4, 3, 2, 1, 9, 8, 7],
        vec![3, 2, 1, 9, 8, 7, 6, 5, 4],
        vec![8, 9, 6, 7, 4, 5, 2, 1, 3],
        vec![7, 4, 5, 2, 1, 3, 8, 9, 6],
        vec![2, 1, 3, 8, 9, 6, 7, 4, 5],
        vec![5, 7, 9, 4, 6, 8, 1, 3, 2],
        vec![4, 6, 8, 1, 3, 2, 5, 7, 9],
        vec![1, 3, 2, 5, 7, 9, 4, 6, 8],
    ];
    assert_eq!(solve_backtracking(empty_board()), Some(expected.clone()));
    assert_eq!(solve_backtracking(empty_board()), Some(expected));
}

#[test]
fn clashing_clues_give_no_solution_even_when_cells_are_fillable() {
    let mut g = board_from(SOLUTION);
    // a second 5 in row 0, with two cells of that row emptied
    g = replace_value(g, 5, 0, 1);
    g = replace_value(g, 0, 0, 2);
    g = replace_value(g, 0, 0, 3);
    assert!(!board_is_consistent(&g));
    assert_eq!(solve_backtracking(g.clone()), None);
    // the bare search only checks the digits it places
    let raw = backtrack(g).unwrap();
    assert_eq!(raw[0][0], 5);
    assert_eq!(raw[0][1], 5);
}

#[test]
fn clue_out_of_range_gives_no_solution() {
    let g = replace_value(empty_board(), 10, 3, 3);
    assert!(!board_is_consistent(&g));
    assert_eq!(solve_backtracking(g), None);
}

#[test]
fn consistency_of_valid_and_partial_grids() {
    assert!(board_is_consistent(&empty_board()));
    assert!(board_is_consistent(&board_from(SOLUTION)));
    let g = replace_value(replace_value(empty_board(), 4, 0, 0), 4, 8, 0);
    assert!(!board_is_consistent(&g));
    let g = replace_value(replace_value(empty_board(), 4, 0, 0), 4, 2, 2);
    assert!(!board_is_consistent(&g));
    let g = replace_value(replace_value(empty_board(), 4, 0, 0), 4, 3, 3);
    assert!(board_is_consistent(&g));
}
