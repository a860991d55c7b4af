use sudoku::grid::{empty_board, replace_value};
use sudoku::rules::{move_is_valid, num_in_box, num_in_col, num_in_row, view_box};

#[test]
fn digit_found_in_row_column_and_box() {
    let b = replace_value(empty_board(), 5, 1, 4);
    assert!(num_in_row(&b, &5, &1));
    assert!(!num_in_row(&b, &5, &0));
    assert!(num_in_col(&b, &5, &4));
    assert!(!num_in_col(&b, &5, &3));
    assert!(num_in_box(&b, &5, &1));
    assert!(!num_in_box(&b, &5, &4));
    assert!(!num_in_row(&b, &6, &1));
}

#[test]
fn legality_depends_on_each_unit_alone() {
    let b = replace_value(empty_board(), 5, 1, 4);
    // same row
    assert!(!move_is_valid(&b, &5, &1, &8));
    // same column
    assert!(!move_is_valid(&b, &5, &7, &4));
    // same box, other row and column
    assert!(!move_is_valid(&b, &5, &0, &3));
    // no shared unit
    assert!(move_is_valid(&b, &5, &0, &0));
    assert!(move_is_valid(&b, &5, &4, &5));
    // another digit is legal next to it
    assert!(move_is_valid(&b, &6, &1, &5));
}

#[test]
fn view_box_returns_the_three_by_three_block() {
    let mut b = empty_board();
    for r in 0..9 {
        for c in 0..9 {
            b = replace_value(b, ((r * 9 + c) % 9 + 1) as u32, r, c);
        }
    }
    let block = view_box(&5, &b);
    assert_eq!(block.len(), 3);
    assert_eq!(block[0], vec![b[3][6], b[3][7], b[3][8]]);
    assert_eq!(block[2], vec![b[5][6], b[5][7], b[5][8]]);
    let first = view_box(&0, &b);
    assert_eq!(first[1], vec![b[1][0], b[1][1], b[1][2]]);
}
