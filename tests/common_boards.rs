use sudoku::grid::{board_is_full, cell_is_empty, corresponding_box, empty_board, next_unassigned_cell, replace_value, rotational_symmetry_pair};

fn board_from(rows: [&str; 9]) -> Vec<Vec<u32>> {
    rows.iter().map(|r| r.chars().map(|ch| ch.to_digit(10).unwrap()).collect()).collect()
}

#[test]
fn symmetry_pair_of_corner_and_centre() {
    assert_eq!(rotational_symmetry_pair(&0, &0), (8, 8));
    assert_eq!(rotational_symmetry_pair(&2, &7), (6, 1));
    assert_eq!(rotational_symmetry_pair(&4, &4), (4, 4));
}

#[test]
fn box_numbers_follow_closed_form() {
    assert_eq!(corresponding_box(&0, &0), 0);
    assert_eq!(corresponding_box(&1, &5), 1);
    assert_eq!(corresponding_box(&2, &8), 2);
    assert_eq!(corresponding_box(&4, &4), 4);
    assert_eq!(corresponding_box(&8, &0), 6);
    assert_eq!(corresponding_box(&8, &8), 8);
}

#[test]
fn empty_cells_and_fullness() {
    let mut b = empty_board();
    assert!(cell_is_empty(&b, &3, &3));
    assert!(!board_is_full(&b));
    assert_eq!(next_unassigned_cell(&b), Some((0, 0)));
    b = replace_value(b, 7, 3, 3);
    assert!(!cell_is_empty(&b, &3, &3));
    assert_eq!(b[3][3], 7);
    assert_eq!(b[3][2], 0);
}

#[test]
fn next_unassigned_cell_scans_row_major() {
    let b = board_from([
        "534678912", "672195348", "198342567", "859761423", "426803791",
        "713924856", "961537284", "287419635", "345286170",
    ]);
    assert_eq!(next_unassigned_cell(&b), Some((4, 4)));
    assert!(!board_is_full(&b));
    let full = replace_value(replace_value(b, 5, 4, 4), 9, 8, 8);
    assert_eq!(next_unassigned_cell(&full), None);
    assert!(board_is_full(&full));
}
