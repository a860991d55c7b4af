use sudoku::difficulty::clue_calculator;
use sudoku::generator::{board_gen, complete_seed, dig_cell, dig_to_target, random_gen_handler, seed_cell, seed_grid, GenError};
use sudoku::grid::{empty_board, replace_value};
use sudoku::rules::move_is_valid;

fn board_from(rows: [&str; 9]) -> Vec<Vec<u32>> {
    rows.iter().map(|r| r.chars().map(|ch| ch.to_digit(10).unwrap()).collect()).collect()
}

const SOLUTION: [&str; 9] = [
    "534678912", "672195348", "198342567", "859761423", "426853791",
    "713924856", "961537284", "287419635", "345286179",
];

fn clue_count(b: &Vec<Vec<u32>>) -> usize {
    b.iter().flatten().filter(|&&v| v != 0).count()
}

#[test]
fn clue_targets_of_each_level() {
    assert_eq!(clue_calculator("easy"), Some(29));
    assert_eq!(clue_calculator("intermediate"), Some(25));
    assert_eq!(clue_calculator("hard"), Some(21));
    assert_eq!(clue_calculator("expert"), Some(17));
    assert_eq!(clue_calculator("Hard"), None);
    assert_eq!(clue_calculator(""), None);
}

#[test]
fn seeding_places_only_legal_digits_in_empty_cells() {
    let mut b = empty_board();
    assert!(seed_cell(&mut b, 0, 0, 5));
    assert_eq!(b[0][0], 5);
    // occupied cell
    assert!(!seed_cell(&mut b, 0, 0, 3));
    assert_eq!(b[0][0], 5);
    // same row
    assert!(!seed_cell(&mut b, 0, 8, 5));
    // same box
    assert!(!seed_cell(&mut b, 2, 2, 5));
    assert_eq!(b[2][2], 0);
    assert!(seed_cell(&mut b, 2, 2, 6));
}

#[test]
fn digging_clears_symmetric_pairs() {
    let mut b = board_from(SOLUTION);
    assert_eq!(dig_cell(&mut b, 81, 21, 0, 1), 79);
    assert_eq!(b[0][1], 0);
    assert_eq!(b[8][7], 0);
    assert_eq!(clue_count(&b), 79);
    // the partner pick finds both cells empty: nothing changes
    assert_eq!(dig_cell(&mut b, 79, 21, 8, 7), 79);
    // the centre is left alone while an even number of clues is to go
    assert_eq!(dig_cell(&mut b, 79, 21, 4, 4), 79);
    assert_eq!(b[4][4], 5);
}

#[test]
fn digging_stops_at_target() {
    let mut b = board_from(SOLUTION);
    // one clue to go: no pair may be cleared, the centre may
    assert_eq!(dig_cell(&mut b, 81, 80, 0, 0), 81);
    assert_eq!(b[0][0], 5);
    assert_eq!(dig_cell(&mut b, 81, 80, 4, 4), 80);
    assert_eq!(b[4][4], 0);
    assert_eq!(clue_count(&b), 80);
}

#[test]
fn unknown_difficulty_is_rejected() {
    assert_eq!(board_gen("impossible"), Err(GenError::UnknownDifficulty));
    let args = vec!["sudoku".to_string(), "r".to_string(), "medium".to_string()];
    assert_eq!(random_gen_handler(&args), Err(GenError::UnknownDifficulty));
}

#[test]
fn seeding_gives_twenty_clues_without_clash() {
    match seed_grid() {
        Ok(b) => {
            assert_eq!(clue_count(&b), 20);
            for r in 0..9 {
                for c in 0..9 {
                    let d = b[r][c];
                    if d != 0 {
                        let cleared = replace_value(b.clone(), 0, r, c);
                        assert!(move_is_valid(&cleared, &d, &r, &c));
                    }
                }
            }
        }
        Err(e) => assert_eq!(e, GenError::OutOfDraws),
    }
}

#[test]
fn seed_completion_is_the_search_result() {
    let seeded = board_from([
        "530070000", "600195000", "098000060", "800060003", "400803001",
        "700020006", "060000280", "000419005", "000080079",
    ]);
    assert_eq!(complete_seed(seeded), Ok(board_from(SOLUTION)));
}

#[test]
fn unsolvable_seed_is_reported() {
    let seeded = board_from([
        "123456780", "000000009", "000000000", "000000000", "000000000",
        "000000000", "000000000", "000000000", "000000000",
    ]);
    assert_eq!(complete_seed(seeded), Err(GenError::Unsolvable));
}

#[test]
fn hard_puzzle_has_21_symmetric_clues() {
    let target = clue_calculator("hard").unwrap();
    let full = board_from(SOLUTION);
    match dig_to_target(full.clone(), target) {
        Ok(p) => {
            assert_eq!(p.len(), 9);
            assert_eq!(clue_count(&p), 21);
            for r in 0..9 {
                for c in 0..9 {
                    assert_eq!(p[r][c] == 0, p[8 - r][8 - c] == 0);
                    assert!(p[r][c] == 0 || p[r][c] == full[r][c]);
                }
            }
        }
        Err(e) => assert_eq!(e, GenError::OutOfDraws),
    }
}

#[test]
fn expert_puzzle_has_17_clues() {
    let full = board_from(SOLUTION);
    if let Ok(p) = dig_to_target(full, clue_calculator("expert").unwrap()) {
        assert_eq!(clue_count(&p), 17);
    }
}
