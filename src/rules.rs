//! When a digit may be placed in a cell: the row, column and box constraints.
use vstd::prelude::*;
use crate::grid::{Grid, cells, is_shape, on_board, box_of};

verus! {

/// Digit `d` stands somewhere in row `r`.
pub open spec fn in_row(g: Grid, d: u32, r: int) -> bool {
    exists|c: int| 0 <= c < 9 && #[trigger] g[r][c] == d
}

/// Digit `d` stands somewhere in column `c`.
pub open spec fn in_col(g: Grid, d: u32, c: int) -> bool {
    exists|r: int| 0 <= r < 9 && #[trigger] g[r][c] == d
}

/// Digit `d` stands somewhere in box `b`.
pub open spec fn in_box(g: Grid, d: u32, b: int) -> bool {
    exists|r: int, c: int| on_board(r, c) && box_of(r, c) == b && #[trigger] g[r][c] == d
}

/// Placing `d` at (r, c) breaks no constraint: `d` is in none of the cell's
/// row, column and box.
pub open spec fn is_legal(g: Grid, d: u32, r: int, c: int) -> bool {
    !in_row(g, d, r) && !in_col(g, d, c) && !in_box(g, d, box_of(r, c))
}

/// The cells of box `b` are those whose row lies in the box's band and whose
/// column lies in its stack.
pub proof fn lemma_box_cells(r: int, c: int, b: int)
    requires
        on_board(r, c),
        0 <= b < 9,
    ensures
        box_of(r, c) == b <==> ((b / 3) * 3 <= r < (b / 3) * 3 + 3 && (b % 3) * 3 <= c < (b % 3)
            * 3 + 3),
{
}

/// Whether `num` stands in row `row`.
pub fn num_in_row(board: &Vec<Vec<u32>>, num: &u32, row: &usize) -> (found: bool)
    requires
        is_shape(cells(board)),
        *row < 9,
    ensures
        found == in_row(cells(board), *num, *row as int),
{
    assert(cells(board)[*row as int].len() == 9);
    let mut col: usize = 0;
    while col < 9
        invariant
            is_shape(cells(board)),
            *row < 9,
            col <= 9,
            forall|c: int| 0 <= c < col ==> #[trigger] cells(board)[*row as int][c] != *num,
        decreases 9 - col,
    {
        assert(cells(board)[*row as int].len() == 9);
        if board[*row][col] == *num {
            assert(cells(board)[*row as int][col as int] == *num);
            return true;
        }
        col += 1;
    }
    false
}

/// Whether `num` stands in column `col`.
pub fn num_in_col(board: &Vec<Vec<u32>>, num: &u32, col: &usize) -> (found: bool)
    requires
        is_shape(cells(board)),
        *col < 9,
    ensures
        found == in_col(cells(board), *num, *col as int),
{
    let mut row: usize = 0;
    while row < 9
        invariant
            is_shape(cells(board)),
            *col < 9,
            row <= 9,
            forall|r: int| 0 <= r < row ==> #[trigger] cells(board)[r][*col as int] != *num,
        decreases 9 - row,
    {
        assert(cells(board)[row as int].len() == 9);
        if board[row][*col] == *num {
            assert(cells(board)[row as int][*col as int] == *num);
            return true;
        }
        row += 1;
    }
    false
}

/// The top row of box `b`.
pub open spec fn box_top(b: int) -> int {
    (b / 3) * 3
}

/// The leftmost column of box `b`.
pub open spec fn box_left(b: int) -> int {
    (b % 3) * 3
}

/// Returns the 3x3 cells of box `box_num` (0 to 8, counted row by row).
pub fn view_box(box_num: &u16, board: &Vec<Vec<u32>>) -> (cells_of_box: Vec<Vec<u32>>)
    requires
        is_shape(cells(board)),
        *box_num < 9,
    ensures
        cells_of_box@.len() == 3,
        forall|i: int| 0 <= i < 3 ==> (#[trigger] cells_of_box@[i])@.len() == 3,
        forall|i: int, j: int|
            0 <= i < 3 && 0 <= j < 3 ==> #[trigger] cells_of_box@[i]@[j] == cells(board)[box_top(
                *box_num as int,
            ) + i][box_left(*box_num as int) + j],
{
    let b = *box_num as usize;
    let row_low: usize = (b / 3) * 3;
    let col_low: usize = (b % 3) * 3;
    let mut result_box: Vec<Vec<u32>> = Vec::new();
    let mut i: usize = 0;
    while i < 3
        invariant
            is_shape(cells(board)),
            b == *box_num,
            b < 9,
            row_low == box_top(b as int),
            col_low == box_left(b as int),
            i <= 3,
            result_box@.len() == i,
            forall|i2: int| 0 <= i2 < i ==> (#[trigger] result_box@[i2])@.len() == 3,
            forall|i2: int, j2: int|
                0 <= i2 < i && 0 <= j2 < 3 ==> #[trigger] result_box@[i2]@[j2] == cells(board)[row_low
                    + i2][col_low + j2],
        decreases 3 - i,
    {
        let mut part: Vec<u32> = Vec::new();
        let mut j: usize = 0;
        while j < 3
            invariant
                is_shape(cells(board)),
                b < 9,
                row_low == box_top(b as int),
                col_low == box_left(b as int),
                i < 3,
                j <= 3,
                part@.len() == j,
                forall|j2: int| 0 <= j2 < j ==> #[trigger] part@[j2] == cells(board)[row_low + i][col_low
                    + j2],
            decreases 3 - j,
        {
            assert(cells(board)[row_low + i].len() == 9);
            part.push(board[row_low + i][col_low + j]);
            j += 1;
        }
        let ghost pv = part@;
        result_box.push(part);
        assert(result_box@[i as int]@ == pv);
        i += 1;
    }
    result_box
}

/// Whether `num` stands in box `box_num` (0 to 8, counted row by row).
pub fn num_in_box(board: &Vec<Vec<u32>>, num: &u32, box_num: &u16) -> (found: bool)
    requires
        is_shape(cells(board)),
        *box_num < 9,
    ensures
        found == in_box(cells(board), *num, *box_num as int),
{
    let ghost b = *box_num as int;
    let board_box = view_box(box_num, board);
    let mut row: usize = 0;
    while row < 3
        invariant
            is_shape(cells(board)),
            0 <= b < 9,
            b == *box_num,
            row <= 3,
            board_box@.len() == 3,
            forall|i: int| 0 <= i < 3 ==> (#[trigger] board_box@[i])@.len() == 3,
            forall|i: int, j: int|
                0 <= i < 3 && 0 <= j < 3 ==> #[trigger] board_box@[i]@[j] == cells(board)[box_top(b) + i][box_left(b) + j],
            forall|i: int, j: int|
                0 <= i < row && 0 <= j < 3 ==> #[trigger] board_box@[i]@[j] != *num,
        decreases 3 - row,
    {
        let mut col: usize = 0;
        while col < 3
            invariant
                is_shape(cells(board)),
                0 <= b < 9,
                b == *box_num,
                row < 3,
                col <= 3,
                board_box@.len() == 3,
                forall|i: int| 0 <= i < 3 ==> (#[trigger] board_box@[i])@.len() == 3,
                forall|i: int, j: int|
                    0 <= i < 3 && 0 <= j < 3 ==> #[trigger] board_box@[i]@[j] == cells(board)[box_top(b) + i][box_left(b) + j],
                forall|i: int, j: int|
                    0 <= i < row && 0 <= j < 3 ==> #[trigger] board_box@[i]@[j] != *num,
                forall|j: int| 0 <= j < col ==> #[trigger] board_box@[row as int]@[j] != *num,
            decreases 3 - col,
        {
            assert(board_box@[row as int]@.len() == 3);
            if board_box[row][col] == *num {
                let ghost r = box_top(b) + row;
                let ghost c = box_left(b) + col;
                proof {
                    lemma_box_cells(r, c, b);
                }
                assert(cells(board)[r][c] == *num);
                return true;
            }
            col += 1;
        }
        row += 1;
    }
    assert forall|r: int, c: int|
        on_board(r, c) && box_of(r, c) == b implies #[trigger] cells(board)[r][c] != *num by {
        lemma_box_cells(r, c, b);
        assert(board_box@[r - box_top(b)]@[c - box_left(b)] != *num);
    }
    false
}

/// Whether `num` may be placed at (row, col): it is in none of the cell's row,
/// column and box.
pub fn move_is_valid(board: &Vec<Vec<u32>>, num: &u32, row: &usize, col: &usize) -> (legal: bool)
    requires
        is_shape(cells(board)),
        *row < 9,
        *col < 9,
    ensures
        legal == is_legal(cells(board), *num, *row as int, *col as int),
{
    !num_in_row(board, num, row) && !num_in_col(board, num, col) && !num_in_box(
        board,
        num,
        &crate::grid::corresponding_box(row, col),
    )
}

} // verus!
