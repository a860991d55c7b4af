//! The 9x9 grid: its mathematical model and the cell-level operations on it.
use vstd::prelude::*;

verus! {

/// A grid as rows of cells; 0 marks an empty cell.
pub type Grid = Seq<Seq<u32>>;

/// The model of a board held in a `Vec` of rows.
pub open spec fn cells(board: &Vec<Vec<u32>>) -> Grid {
    board@.map_values(|row: Vec<u32>| row@)
}

/// Nine rows of nine cells each.
pub open spec fn is_shape(g: Grid) -> bool {
    &&& g.len() == 9
    &&& forall|r: int| 0 <= r < 9 ==> #[trigger] g[r].len() == 9
}

pub open spec fn on_board(r: int, c: int) -> bool {
    0 <= r < 9 && 0 <= c < 9
}

/// The number, 0 to 8, of the 3x3 box that holds cell (r, c).
pub open spec fn box_of(r: int, c: int) -> int {
    (r / 3) * 3 + c / 3
}

/// Every cell holds a digit.
pub open spec fn is_full(g: Grid) -> bool {
    forall|r: int, c: int| on_board(r, c) ==> #[trigger] g[r][c] != 0
}

/// The grid with cell (r, c) set to `v`.
pub open spec fn place(g: Grid, r: int, c: int, v: u32) -> Grid {
    g.update(r, g[r].update(c, v))
}

/// The number of empty cells of a row.
pub open spec fn row_gaps(s: Seq<u32>) -> nat
    decreases s.len(),
{
    if s.len() == 0 {
        0
    } else {
        row_gaps(s.drop_last()) + if s.last() == 0 { 1nat } else { 0nat }
    }
}

/// The number of empty cells of a grid.
pub open spec fn gaps(g: Grid) -> nat
    decreases g.len(),
{
    if g.len() == 0 {
        0
    } else {
        gaps(g.drop_last()) + row_gaps(g.last())
    }
}

/// The number of filled cells (clues) of a well-shaped grid.
pub open spec fn clues(g: Grid) -> int {
    81 - gaps(g)
}

/// The cell paired with (r, c) under a half-turn of the grid.
pub open spec fn mirror(r: int, c: int) -> (int, int) {
    (8 - r, 8 - c)
}

pub proof fn lemma_row_gaps_update(s: Seq<u32>, i: int, v: u32)
    requires
        0 <= i < s.len(),
    ensures
        row_gaps(s.update(i, v)) + (if s[i] == 0 { 1int } else { 0int }) == row_gaps(s) + (if v
            == 0 { 1int } else { 0int }),
    decreases s.len(),
{
    let t = s.update(i, v);
    if i == s.len() - 1 {
        assert(t.drop_last() =~= s.drop_last());
    } else {
        assert(t.drop_last() =~= s.drop_last().update(i, v));
        lemma_row_gaps_update(s.drop_last(), i, v);
    }
}

/// Setting one cell changes the count of empty cells by what that cell was and
/// what it becomes.
pub proof fn lemma_gaps_place(g: Grid, r: int, c: int, v: u32)
    requires
        0 <= r < g.len(),
        0 <= c < g[r].len(),
    ensures
        gaps(place(g, r, c, v)) + (if g[r][c] == 0 { 1int } else { 0int }) == gaps(g) + (if v
            == 0 { 1int } else { 0int }),
    decreases g.len(),
{
    let t = place(g, r, c, v);
    if r == g.len() - 1 {
        assert(t.drop_last() =~= g.drop_last());
        lemma_row_gaps_update(g[r], c, v);
    } else {
        assert(t.drop_last() =~= place(g.drop_last(), r, c, v));
        lemma_gaps_place(g.drop_last(), r, c, v);
    }
}

pub proof fn lemma_row_gaps_none(s: Seq<u32>)
    requires
        forall|i: int| 0 <= i < s.len() ==> #[trigger] s[i] != 0,
    ensures
        row_gaps(s) == 0,
    decreases s.len(),
{
    if s.len() > 0 {
        lemma_row_gaps_none(s.drop_last());
    }
}

pub proof fn lemma_gaps_full_prefix(g: Grid, k: int)
    requires
        is_shape(g),
        is_full(g),
        0 <= k <= 9,
    ensures
        gaps(g.subrange(0, k)) == 0,
    decreases k,
{
    if k > 0 {
        let t = g.subrange(0, k);
        assert(t.drop_last() =~= g.subrange(0, k - 1));
        lemma_gaps_full_prefix(g, k - 1);
        assert forall|i: int| 0 <= i < t.last().len() implies #[trigger] t.last()[i] != 0 by {
            assert(g[k - 1][i] != 0);
        }
        lemma_row_gaps_none(t.last());
    }
}

/// A full grid has no empty cell to count.
pub proof fn lemma_gaps_full(g: Grid)
    requires
        is_shape(g),
        is_full(g),
    ensures
        gaps(g) == 0,
{
    lemma_gaps_full_prefix(g, 9);
    assert(g.subrange(0, 9) =~= g);
}

pub proof fn lemma_row_gaps_all(s: Seq<u32>)
    requires
        forall|i: int| 0 <= i < s.len() ==> #[trigger] s[i] == 0,
    ensures
        row_gaps(s) == s.len(),
    decreases s.len(),
{
    if s.len() > 0 {
        lemma_row_gaps_all(s.drop_last());
    }
}

pub proof fn lemma_gaps_empty_prefix(g: Grid, k: int)
    requires
        is_shape(g),
        forall|r: int, c: int| on_board(r, c) ==> #[trigger] g[r][c] == 0,
        0 <= k <= 9,
    ensures
        gaps(g.subrange(0, k)) == 9 * k,
    decreases k,
{
    if k > 0 {
        let t = g.subrange(0, k);
        assert(t.drop_last() =~= g.subrange(0, k - 1));
        lemma_gaps_empty_prefix(g, k - 1);
        assert forall|i: int| 0 <= i < t.last().len() implies #[trigger] t.last()[i] == 0 by {
            assert(g[k - 1][i] == 0);
        }
        lemma_row_gaps_all(t.last());
    }
}

/// A grid of empty cells holds no clue.
pub proof fn lemma_gaps_empty(g: Grid)
    requires
        is_shape(g),
        forall|r: int, c: int| on_board(r, c) ==> #[trigger] g[r][c] == 0,
    ensures
        gaps(g) == 81,
{
    lemma_gaps_empty_prefix(g, 9);
    assert(g.subrange(0, 9) =~= g);
}

/// Returns a board of nine rows of nine empty cells.
pub fn empty_board() -> (board: Vec<Vec<u32>>)
    ensures
        is_shape(cells(&board)),
        forall|r: int, c: int| on_board(r, c) ==> #[trigger] cells(&board)[r][c] == 0,
{
    let mut board: Vec<Vec<u32>> = Vec::new();
    let mut i: usize = 0;
    while i < 9
        invariant
            i <= 9,
            board@.len() == i,
            forall|j: int| 0 <= j < i ==> (#[trigger] board@[j])@ =~= seq![0u32; 9],
        decreases 9 - i,
    {
        let row: Vec<u32> = vec![0, 0, 0, 0, 0, 0, 0, 0, 0];
        assert(row@ =~= seq![0u32; 9]);
        board.push(row);
        i += 1;
    }
    board
}

/// Returns the cell paired with (row, col) under a half-turn of the grid.
pub fn rotational_symmetry_pair(row: &usize, col: &usize) -> (pair: (usize, usize))
    requires
        *row < 9,
        *col < 9,
    ensures
        pair.0 == mirror(*row as int, *col as int).0,
        pair.1 == mirror(*row as int, *col as int).1,
{
    (8 - *row, 8 - *col)
}

/// Returns the number, 0 to 8, of the box that holds (row, col), counting
/// boxes row by row.
pub fn corresponding_box(row: &usize, col: &usize) -> (b: u16)
    requires
        *row < 9,
        *col < 9,
    ensures
        b as int == box_of(*row as int, *col as int),
        b < 9,
{
    ((*row / 3) * 3 + *col / 3) as u16
}

/// Whether cell (row, col) is empty.
pub fn cell_is_empty(board: &Vec<Vec<u32>>, row: &usize, col: &usize) -> (empty: bool)
    requires
        is_shape(cells(board)),
        *row < 9,
        *col < 9,
    ensures
        empty == (cells(board)[*row as int][*col as int] == 0),
{
    assert(cells(board)[*row as int].len() == 9);
    board[*row][*col] == 0
}

/// Whether no cell is empty.
pub fn board_is_full(board: &Vec<Vec<u32>>) -> (full: bool)
    requires
        is_shape(cells(board)),
    ensures
        full == is_full(cells(board)),
{
    let mut row_num: usize = 0;
    while row_num < 9
        invariant
            is_shape(cells(board)),
            row_num <= 9,
            forall|r: int, c: int|
                0 <= r < row_num && 0 <= c < 9 ==> #[trigger] cells(board)[r][c] != 0,
        decreases 9 - row_num,
    {
        let mut col_num: usize = 0;
        while col_num < 9
            invariant
                is_shape(cells(board)),
                row_num < 9,
                col_num <= 9,
                forall|r: int, c: int|
                    0 <= r < row_num && 0 <= c < 9 ==> #[trigger] cells(board)[r][c] != 0,
                forall|c: int| 0 <= c < col_num ==> #[trigger] cells(board)[row_num as int][c] != 0,
            decreases 9 - col_num,
        {
            if cell_is_empty(board, &row_num, &col_num) {
                return false;
            }
            col_num += 1;
        }
        row_num += 1;
    }
    true
}

/// Cell (r, c) comes before cell (r2, c2) in row-major order.
pub open spec fn before(r: int, c: int, r2: int, c2: int) -> bool {
    r < r2 || (r == r2 && c < c2)
}

/// Returns the first empty cell in row-major order, or `None` when the grid is
/// full.
pub fn next_unassigned_cell(board: &Vec<Vec<u32>>) -> (next: Option<(usize, usize)>)
    requires
        is_shape(cells(board)),
    ensures
        match next {
            Some((r, c)) => {
                &&& r < 9
                &&& c < 9
                &&& cells(board)[r as int][c as int] == 0
                &&& forall|r2: int, c2: int|
                    on_board(r2, c2) && before(r2, c2, r as int, c as int)
                        ==> #[trigger] cells(board)[r2][c2] != 0
            },
            None => is_full(cells(board)),
        },
{
    let mut row_num: usize = 0;
    while row_num < 9
        invariant
            is_shape(cells(board)),
            row_num <= 9,
            forall|r: int, c: int|
                0 <= r < row_num && 0 <= c < 9 ==> #[trigger] cells(board)[r][c] != 0,
        decreases 9 - row_num,
    {
        let mut col_num: usize = 0;
        while col_num < 9
            invariant
                is_shape(cells(board)),
                row_num < 9,
                col_num <= 9,
                forall|r: int, c: int|
                    0 <= r < row_num && 0 <= c < 9 ==> #[trigger] cells(board)[r][c] != 0,
                forall|c: int| 0 <= c < col_num ==> #[trigger] cells(board)[row_num as int][c] != 0,
            decreases 9 - col_num,
        {
            if cell_is_empty(board, &row_num, &col_num) {
                return Some((row_num, col_num));
            }
            col_num += 1;
        }
        row_num += 1;
    }
    None
}

/// Returns the board with cell (row, col) set to `num`.
pub fn replace_value(board: Vec<Vec<u32>>, num: u32, row: usize, col: usize) -> (res: Vec<
    Vec<u32>,
>)
    requires
        is_shape(cells(&board)),
        row < 9,
        col < 9,
    ensures
        cells(&res) == place(cells(&board), row as int, col as int, num),
        is_shape(cells(&res)),
{
    let mut board = board;
    assert(cells(&board)[row as int].len() == 9);
    let mut modified_row: Vec<u32> = board[row].clone();
    assert(modified_row@ =~= cells(&board)[row as int]);
    modified_row.set(col, num);
    let ghost before = cells(&board);
    board.set(row, modified_row);
    assert(cells(&board) =~= place(before, row as int, col as int, num));
    board
}

} // verus!
