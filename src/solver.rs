//! Depth-first backtracking search for a completion of a grid.
use vstd::prelude::*;
use crate::grid::{
    Grid, cells, is_shape, on_board, box_of, is_full, place, gaps, lemma_gaps_place,
    next_unassigned_cell, board_is_full, replace_value, before,
};
use crate::rules::{is_legal, in_row, in_col, in_box, move_is_valid};

verus! {

/// Cells (r, c) and (r2, c2) share a row, a column or a box.
pub open spec fn same_unit(r: int, c: int, r2: int, c2: int) -> bool {
    r == r2 || c == c2 || box_of(r, c) == box_of(r2, c2)
}

/// Cell (r, c) holds a digit 1 to 9 that no other cell of its row, column or
/// box repeats.
pub open spec fn settled_at(g: Grid, r: int, c: int) -> bool {
    &&& 1 <= g[r][c] <= 9
    &&& forall|r2: int, c2: int|
        on_board(r2, c2) && (r2 != r || c2 != c) && same_unit(r, c, r2, c2) ==> #[trigger] g[r2][c2]
            != g[r][c]
}

/// In `h`, cell (r, c) keeps the clue that `b` gives it, or, where `b` leaves it
/// empty, holds a settled digit.
pub open spec fn fills_cell(b: Grid, h: Grid, r: int, c: int) -> bool {
    if b[r][c] != 0 {
        h[r][c] == b[r][c]
    } else {
        settled_at(h, r, c)
    }
}

/// `h` is a completion of `b`: it keeps every clue of `b` and fills every empty
/// cell of `b` with a digit that clashes with no other cell of `h`.
pub open spec fn completes(b: Grid, h: Grid) -> bool {
    &&& is_shape(h)
    &&& forall|r: int, c: int| on_board(r, c) ==> #[trigger] fills_cell(b, h, r, c)
}

/// Some completion of `b` exists.
pub open spec fn solvable(b: Grid) -> bool {
    exists|h: Grid| completes(b, h)
}

/// A valid finished Sudoku: every cell holds a digit 1 to 9, unique in its row,
/// column and box.
pub open spec fn is_solved(g: Grid) -> bool {
    &&& is_shape(g)
    &&& forall|r: int, c: int| on_board(r, c) ==> #[trigger] settled_at(g, r, c)
}

/// Every clue of `g` is a digit 1 to 9 that no other clue of its row, column
/// or box repeats.
pub open spec fn is_consistent(g: Grid) -> bool {
    &&& is_shape(g)
    &&& forall|r: int, c: int|
        on_board(r, c) && g[r][c] != 0 ==> {
            &&& 1 <= g[r][c] <= 9
            &&& forall|r2: int, c2: int|
                on_board(r2, c2) && (r2 != r || c2 != c) && same_unit(r, c, r2, c2)
                    ==> #[trigger] g[r2][c2] != #[trigger] g[r][c]
        }
}

/// The digits among 1 to k that may be placed at (r, c), in ascending order.
pub open spec fn legal_digits(g: Grid, r: int, c: int, k: int) -> Seq<u32>
    decreases k,
{
    if k <= 0 {
        seq![]
    } else {
        let p = legal_digits(g, r, c, k - 1);
        if is_legal(g, k as u32, r, c) {
            p.push(k as u32)
        } else {
            p
        }
    }
}

pub proof fn lemma_legal_digits(g: Grid, r: int, c: int, k: int)
    requires
        k <= 9,
    ensures
        forall|i: int|
            0 <= i < legal_digits(g, r, c, k).len() ==> {
                &&& 1 <= #[trigger] legal_digits(g, r, c, k)[i] <= k
                &&& is_legal(g, legal_digits(g, r, c, k)[i], r, c)
            },
        forall|d: u32|
            1 <= d <= k && is_legal(g, d, r, c) ==> #[trigger] legal_digits(g, r, c, k).contains(d),
    decreases k,
{
    if k > 0 {
        lemma_legal_digits(g, r, c, k - 1);
        let p = legal_digits(g, r, c, k - 1);
        assert forall|d: u32|
            1 <= d <= k && is_legal(g, d, r, c) implies #[trigger] legal_digits(
            g,
            r,
            c,
            k,
        ).contains(d) by {
            if d < k {
                assert(p.contains(d));
                let i = choose|i: int| 0 <= i < p.len() && p[i] == d;
                assert(legal_digits(g, r, c, k)[i] == d);
            } else {
                assert(legal_digits(g, r, c, k)[p.len() as int] == d);
            }
        }
    }
}

/// Returns, for each digit 1 to 9 in ascending order that may be placed at
/// (row, col), the board with that digit placed there.
pub fn gen_possible_boards(board: &Vec<Vec<u32>>, row: usize, col: usize) -> (next: Vec<
    Vec<Vec<u32>>,
>)
    requires
        is_shape(cells(board)),
        row < 9,
        col < 9,
    ensures
        next@.len() == legal_digits(cells(board), row as int, col as int, 9).len(),
        forall|i: int|
            0 <= i < next@.len() ==> cells(&#[trigger] next@[i]) == place(
                cells(board),
                row as int,
                col as int,
                legal_digits(cells(board), row as int, col as int, 9)[i],
            ),
{
    let ghost g = cells(board);
    let mut next_boards: Vec<Vec<Vec<u32>>> = Vec::new();
    let mut num: u32 = 1;
    while num < 10
        invariant
            g == cells(board),
            is_shape(g),
            row < 9,
            col < 9,
            1 <= num <= 10,
            next_boards@.len() == legal_digits(g, row as int, col as int, num - 1).len(),
            forall|i: int|
                0 <= i < next_boards@.len() ==> cells(&#[trigger] next_boards@[i]) == place(
                    g,
                    row as int,
                    col as int,
                    legal_digits(g, row as int, col as int, num - 1)[i],
                ),
        decreases 10 - num,
    {
        if move_is_valid(board, &num, &row, &col) {
            let new_board = copy_board(board);
            next_boards.push(replace_value(new_board, num, row, col));
        }
        num += 1;
    }
    next_boards
}

/// A copy of the board, row by row.
fn copy_board(board: &Vec<Vec<u32>>) -> (copy: Vec<Vec<u32>>)
    requires
        is_shape(cells(board)),
    ensures
        cells(&copy) == cells(board),
{
    let mut copy: Vec<Vec<u32>> = Vec::new();
    let mut i: usize = 0;
    while i < 9
        invariant
            is_shape(cells(board)),
            i <= 9,
            copy@.len() == i,
            forall|j: int| 0 <= j < i ==> (#[trigger] copy@[j])@ == cells(board)[j],
        decreases 9 - i,
    {
        let row: Vec<u32> = board[i].clone();
        assert(row@ =~= cells(board)[i as int]);
        copy.push(row);
        i += 1;
    }
    assert(cells(&copy) =~= cells(board));
    copy
}

/// A completion of the grid with a legal digit placed at an empty cell is a
/// completion of the grid itself.
pub proof fn lemma_completion_of_placement(b: Grid, r: int, c: int, d: u32, h: Grid)
    requires
        is_shape(b),
        on_board(r, c),
        b[r][c] == 0,
        1 <= d <= 9,
        is_legal(b, d, r, c),
        completes(place(b, r, c, d), h),
    ensures
        completes(b, h),
{
    let p = place(b, r, c, d);
    assert forall|r1: int, c1: int| on_board(r1, c1) implies #[trigger] fills_cell(b, h, r1, c1) by {
        assert(fills_cell(p, h, r1, c1));
        assert forall|r2: int, c2: int|
            on_board(r2, c2) && (r2 != r1 || c2 != c1) && same_unit(r1, c1, r2, c2) && b[r1][c1]
                == 0 implies #[trigger] h[r2][c2] != h[r1][c1] by {
            assert(fills_cell(p, h, r2, c2));
            if r1 == r && c1 == c {
                if b[r2][c2] != 0 && h[r2][c2] == d {
                    if r2 == r {
                        assert(in_row(b, d, r));
                    } else if c2 == c {
                        assert(in_col(b, d, c));
                    } else {
                        assert(in_box(b, d, box_of(r, c)));
                    }
                }
            } else {
                assert(p[r1][c1] == b[r1][c1]);
                assert(settled_at(h, r1, c1));
            }
        }
    }
}

/// In a completion of a grid, the digit at an empty cell is legal there, and
/// the completion also completes the grid with that digit placed.
pub proof fn lemma_completion_picks_legal(b: Grid, r: int, c: int, h: Grid)
    requires
        is_shape(b),
        on_board(r, c),
        b[r][c] == 0,
        completes(b, h),
    ensures
        1 <= h[r][c] <= 9,
        is_legal(b, h[r][c], r, c),
        completes(place(b, r, c, h[r][c]), h),
{
    let d = h[r][c];
    let p = place(b, r, c, d);
    assert(fills_cell(b, h, r, c));
    if in_row(b, d, r) {
        let c2 = choose|c2: int| 0 <= c2 < 9 && #[trigger] b[r][c2] == d;
        assert(fills_cell(b, h, r, c2));
    }
    if in_col(b, d, c) {
        let r2 = choose|r2: int| 0 <= r2 < 9 && #[trigger] b[r2][c] == d;
        assert(fills_cell(b, h, r2, c));
    }
    if in_box(b, d, box_of(r, c)) {
        let (r2, c2) = choose|r2: int, c2: int|
            on_board(r2, c2) && box_of(r2, c2) == box_of(r, c) && #[trigger] b[r2][c2] == d;
        assert(fills_cell(b, h, r2, c2));
    }
    assert forall|r1: int, c1: int| on_board(r1, c1) implies #[trigger] fills_cell(p, h, r1, c1) by {
        assert(fills_cell(b, h, r1, c1));
    }
}

/// (r, c) is the first empty cell of `g` in row-major order.
pub open spec fn is_first_empty(g: Grid, r: int, c: int) -> bool {
    &&& on_board(r, c)
    &&& g[r][c] == 0
    &&& forall|r2: int, c2: int|
        on_board(r2, c2) && before(r2, c2, r, c) ==> #[trigger] g[r2][c2] != 0
}

/// The first empty cell of `g` in row-major order.
pub open spec fn first_empty(g: Grid) -> (int, int) {
    choose|p: (int, int)| is_first_empty(g, p.0, p.1)
}

/// The depth-first search with `fuel` levels left. With `k` of 10 or more it
/// starts at `g`: a full grid is its own result, otherwise the legal digits of
/// the first empty cell are tried. With `k` below 10 it tries the first `k`
/// legal digits of that cell, the largest first, and returns the result of the
/// first one whose search succeeds.
pub open spec fn search(g: Grid, fuel: nat, k: nat) -> Option<Grid>
    decreases fuel, k,
{
    if k >= 10 {
        if is_full(g) {
            Some(g)
        } else {
            let n = legal_digits(g, first_empty(g).0, first_empty(g).1, 9).len();
            search(g, fuel, if n < 10 { n } else { 9 })
        }
    } else if k == 0 || fuel == 0 {
        None
    } else {
        let r = first_empty(g).0;
        let c = first_empty(g).1;
        let kid = place(g, r, c, legal_digits(g, r, c, 9)[k - 1]);
        match search(kid, (fuel - 1) as nat, 10) {
            Some(h) => Some(h),
            None => search(g, fuel, (k - 1) as nat),
        }
    }
}

/// What the depth-first search returns on `g`: the first empty cell in
/// row-major order is filled with each legal digit in turn, the largest first,
/// and the first full grid reached is the result.
pub open spec fn search_result(g: Grid) -> Option<Grid> {
    search(g, gaps(g), 10)
}

/// There is only one first empty cell.
pub proof fn lemma_first_empty_unique(g: Grid, r: int, c: int)
    requires
        is_first_empty(g, r, c),
    ensures
        first_empty(g) == (r, c),
{
    let w = (r, c);
    assert(is_first_empty(g, w.0, w.1));
    let p = first_empty(g);
    assert(is_first_empty(g, p.0, p.1));
    if p.0 != r || p.1 != c {
        if before(p.0, p.1, r, c) {
            assert(g[p.0][p.1] != 0);
        } else {
            assert(g[r][c] != 0);
        }
    }
}

pub proof fn lemma_legal_digits_len(g: Grid, r: int, c: int, k: int)
    requires
        0 <= k,
    ensures
        legal_digits(g, r, c, k).len() <= k,
    decreases k,
{
    if k > 0 {
        lemma_legal_digits_len(g, r, c, k - 1);
    }
}

/// Searches depth first for a completion of the board, as `search_result`
/// describes: the first empty cell in row-major order is tried with each
/// legal digit, the largest first. A full board is returned as it is. Only the
/// digits it places are checked; `solve_backtracking` checks the clues first.
pub fn backtrack(init_board: Vec<Vec<u32>>) -> (res: Option<Vec<Vec<u32>>>)
    requires
        is_shape(cells(&init_board)),
    ensures
        match res {
            Some(s) => search_result(cells(&init_board)) == Some(cells(&s)),
            None => search_result(cells(&init_board)) is None,
        },
        match res {
            Some(s) => completes(cells(&init_board), cells(&s)),
            None => !solvable(cells(&init_board)),
        },
        is_full(cells(&init_board)) ==> res == Some(init_board),
    decreases gaps(cells(&init_board)),
{
    let ghost g = cells(&init_board);
    if board_is_full(&init_board) {
        return Some(init_board);
    }
    let (row, col) = match next_unassigned_cell(&init_board) {
        Some(cell) => cell,
        None => {
            return None;
        },
    };
    let ghost digits = legal_digits(g, row as int, col as int, 9);
    let ghost fuel = gaps(g);
    proof {
        lemma_first_empty_unique(g, row as int, col as int);
        lemma_legal_digits(g, row as int, col as int, 9);
        lemma_legal_digits_len(g, row as int, col as int, 9);
        lemma_gaps_place(g, row as int, col as int, 1);
        assert(search_result(g) == search(g, fuel, digits.len()));
    }
    let mut next_boards = gen_possible_boards(&init_board, row, col);
    let ghost kids = next_boards@;
    while next_boards.len() > 0
        invariant
            g == cells(&init_board),
            is_shape(g),
            !is_full(g),
            row < 9,
            col < 9,
            g[row as int][col as int] == 0,
            first_empty(g) == (row as int, col as int),
            fuel == gaps(g),
            fuel >= 1,
            kids.len() == digits.len(),
            digits.len() <= 9,
            digits == legal_digits(g, row as int, col as int, 9),
            forall|i: int|
                0 <= i < kids.len() ==> cells(&#[trigger] kids[i]) == place(
                    g,
                    row as int,
                    col as int,
                    digits[i],
                ),
            forall|i: int|
                0 <= i < digits.len() ==> {
                    &&& 1 <= #[trigger] digits[i] <= 9
                    &&& is_legal(g, digits[i], row as int, col as int)
                },
            next_boards@.len() <= kids.len(),
            next_boards@ == kids.subrange(0, next_boards@.len() as int),
            forall|i: int|
                next_boards@.len() <= i < kids.len() ==> !solvable(cells(&#[trigger] kids[i])),
            search_result(g) == search(g, fuel, next_boards@.len()),
        decreases next_boards@.len(),
    {
        let ghost i = next_boards@.len() - 1;
        let b = match next_boards.pop() {
            Some(b) => b,
            None => {
                return None;
            },
        };
        assert(b == kids[i]);
        proof {
            lemma_gaps_place(g, row as int, col as int, digits[i]);
            assert(search(g, fuel, (i + 1) as nat) == match search(
                cells(&b),
                (fuel - 1) as nat,
                10,
            ) {
                Some(h) => Some(h),
                None => search(g, fuel, i as nat),
            });
        }
        match backtrack(b) {
            Some(s) => {
                proof {
                    lemma_completion_of_placement(g, row as int, col as int, digits[i], cells(&s));
                }
                return Some(s);
            },
            None => {},
        }
    }
    assert forall|h: Grid| !completes(g, h) by {
        if completes(g, h) {
            lemma_completion_picks_legal(g, row as int, col as int, h);
            let d = h[row as int][col as int];
            assert(digits.contains(d));
            let i = choose|i: int| 0 <= i < digits.len() && digits[i] == d;
            assert(cells(&kids[i]) == place(g, row as int, col as int, d));
        }
    }
    None
}

/// Solves the board: `None` when its clues clash or are no digits 1 to 9, and
/// otherwise the result of the depth-first search (`backtrack`), which is
/// `None` exactly when the board has no completion. Every grid returned is a
/// valid finished Sudoku that keeps every clue of the board.
pub fn solve_backtracking(init_board: Vec<Vec<u32>>) -> (res: Option<Vec<Vec<u32>>>)
    requires
        is_shape(cells(&init_board)),
    ensures
        res is None <==> (!is_consistent(cells(&init_board)) || !solvable(cells(&init_board))),
        res matches Some(s) ==> {
            &&& is_solved(cells(&s))
            &&& completes(cells(&init_board), cells(&s))
            &&& search_result(cells(&init_board)) == Some(cells(&s))
        },
        is_consistent(cells(&init_board)) ==> (res is Some <==> search_result(cells(&init_board)) is Some),
        is_consistent(cells(&init_board)) && is_full(cells(&init_board)) ==> res == Some(init_board),
{
    if !board_is_consistent(&init_board) {
        return None;
    }
    let ghost g = cells(&init_board);
    let res = backtrack(init_board);
    proof {
        if res is Some {
            lemma_completion_of_consistent_is_solved(g, cells(&res->0));
        }
    }
    res
}

/// A grid with an empty cell where no digit 1 to 9 is legal has no
/// completion, so the search on it ends with `None`.
pub proof fn lemma_dead_cell_unsolvable(b: Grid, r: int, c: int)
    requires
        is_shape(b),
        on_board(r, c),
        b[r][c] == 0,
        forall|d: u32| 1 <= d <= 9 ==> !#[trigger] is_legal(b, d, r, c),
    ensures
        !solvable(b),
{
    assert forall|h: Grid| !completes(b, h) by {
        if completes(b, h) {
            lemma_completion_picks_legal(b, r, c, h);
            assert(!is_legal(b, h[r][c], r, c));
        }
    }
}

/// A completion of a grid whose clues do not clash is a valid finished
/// Sudoku.
pub proof fn lemma_completion_of_consistent_is_solved(b: Grid, h: Grid)
    requires
        is_consistent(b),
        completes(b, h),
    ensures
        is_solved(h),
{
    assert forall|r: int, c: int| on_board(r, c) implies #[trigger] settled_at(h, r, c) by {
        assert(fills_cell(b, h, r, c));
        if b[r][c] != 0 {
            assert forall|r2: int, c2: int|
                on_board(r2, c2) && (r2 != r || c2 != c) && same_unit(r, c, r2, c2) implies #[trigger] h[r2][c2]
                != h[r][c] by {
                assert(fills_cell(b, h, r2, c2));
                if b[r2][c2] != 0 {
                    assert(b[r2][c2] != b[r][c]);
                } else {
                    assert(settled_at(h, r2, c2));
                }
            }
        }
    }
}

/// A grid with no clue has clues that do not clash.
pub proof fn lemma_empty_is_consistent(b: Grid)
    requires
        is_shape(b),
        forall|r: int, c: int| on_board(r, c) ==> #[trigger] b[r][c] == 0,
    ensures
        is_consistent(b),
{
}

/// The digit of a fixed valid finished Sudoku at (r, c): each row shifts the
/// one before it by three cells, and each band of three rows by one more.
pub open spec fn pattern_digit(r: int, c: int) -> int {
    (3 * (r % 3) + r / 3 + c) % 9 + 1
}

pub proof fn lemma_pattern_differs(r: int, c: int, r2: int, c2: int)
    requires
        on_board(r, c),
        on_board(r2, c2),
        r2 != r || c2 != c,
        same_unit(r, c, r2, c2),
    ensures
        pattern_digit(r, c) != pattern_digit(r2, c2),
{
}

/// The fixed grid of `pattern_digit`.
pub open spec fn pattern_grid() -> Grid {
    Seq::new(9, |r: int| Seq::new(9, |c: int| pattern_digit(r, c) as u32))
}

/// The empty grid has a completion, so the search on it returns a valid
/// finished Sudoku.
pub proof fn lemma_empty_grid_solvable(b: Grid)
    requires
        is_shape(b),
        forall|r: int, c: int| on_board(r, c) ==> #[trigger] b[r][c] == 0,
    ensures
        is_solved(pattern_grid()),
        completes(b, pattern_grid()),
        solvable(b),
{
    let h = pattern_grid();
    assert forall|r: int, c: int| on_board(r, c) implies #[trigger] settled_at(h, r, c) by {
        assert forall|r2: int, c2: int|
            on_board(r2, c2) && (r2 != r || c2 != c) && same_unit(r, c, r2, c2) implies #[trigger] h[r2][c2]
            != h[r][c] by {
            lemma_pattern_differs(r, c, r2, c2);
        }
    }
    assert forall|r: int, c: int| on_board(r, c) implies #[trigger] fills_cell(b, h, r, c) by {
        assert(settled_at(h, r, c));
    }
}

/// A valid finished Sudoku is full and its clues do not clash, so solving it
/// hands it back unchanged.
pub proof fn lemma_solved_is_consistent(g: Grid)
    requires
        is_solved(g),
    ensures
        is_consistent(g),
        is_full(g),
{
    assert forall|r: int, c: int| on_board(r, c) implies #[trigger] g[r][c] != 0 by {
        assert(settled_at(g, r, c));
    }
    assert forall|r: int, c: int, r2: int, c2: int|
        on_board(r, c) && g[r][c] != 0 && on_board(r2, c2) && (r2 != r || c2 != c) && same_unit(
            r,
            c,
            r2,
            c2,
        ) implies #[trigger] g[r2][c2] != #[trigger] g[r][c] by {
        assert(settled_at(g, r, c));
    }
    assert forall|r: int, c: int| on_board(r, c) && g[r][c] != 0 implies 1 <= #[trigger] g[r][c] <= 9 by {
        assert(settled_at(g, r, c));
    }
}

/// The clue at (r, c), if any, is a digit 1 to 9 that no other cell of its
/// row, column or box repeats.
pub open spec fn clue_ok(g: Grid, r: int, c: int) -> bool {
    g[r][c] != 0 ==> {
        &&& 1 <= g[r][c] <= 9
        &&& forall|r2: int, c2: int|
            on_board(r2, c2) && (r2 != r || c2 != c) && same_unit(r, c, r2, c2) ==> #[trigger] g[r2][c2]
                != g[r][c]
    }
}

/// A digit is legal at a cell once that cell is cleared exactly when no other
/// cell of its row, column or box holds it.
pub proof fn lemma_legal_when_cleared(g: Grid, r: int, c: int, d: u32)
    requires
        is_shape(g),
        on_board(r, c),
        d != 0,
    ensures
        is_legal(place(g, r, c, 0), d, r, c) <==> forall|r2: int, c2: int|
            on_board(r2, c2) && (r2 != r || c2 != c) && same_unit(r, c, r2, c2) ==> #[trigger] g[r2][c2]
                != d,
{
    let h = place(g, r, c, 0);
    if is_legal(h, d, r, c) {
        assert forall|r2: int, c2: int|
            on_board(r2, c2) && (r2 != r || c2 != c) && same_unit(r, c, r2, c2) implies #[trigger] g[r2][c2]
            != d by {
            if g[r2][c2] == d {
                assert(h[r2][c2] == d);
                if r2 == r {
                    assert(in_row(h, d, r));
                } else if c2 == c {
                    assert(in_col(h, d, c));
                } else {
                    assert(in_box(h, d, box_of(r, c)));
                }
            }
        }
    }
    if in_row(h, d, r) {
        let c2 = choose|c2: int| 0 <= c2 < 9 && #[trigger] h[r][c2] == d;
        assert(g[r][c2] == d);
    }
    if in_col(h, d, c) {
        let r2 = choose|r2: int| 0 <= r2 < 9 && #[trigger] h[r2][c] == d;
        assert(g[r2][c] == d);
    }
    if in_box(h, d, box_of(r, c)) {
        let (r2, c2) = choose|r2: int, c2: int|
            on_board(r2, c2) && box_of(r2, c2) == box_of(r, c) && #[trigger] h[r2][c2] == d;
        assert(g[r2][c2] == d);
    }
}

/// Whether the clues of the board are digits 1 to 9 and no two of them clash.
pub fn board_is_consistent(board: &Vec<Vec<u32>>) -> (ok: bool)
    requires
        is_shape(cells(board)),
    ensures
        ok == is_consistent(cells(board)),
{
    let ghost g = cells(board);
    let mut row: usize = 0;
    while row < 9
        invariant
            g == cells(board),
            is_shape(g),
            row <= 9,
            forall|r: int, c: int| 0 <= r < row && 0 <= c < 9 ==> #[trigger] clue_ok(g, r, c),
        decreases 9 - row,
    {
        let mut col: usize = 0;
        while col < 9
            invariant
                g == cells(board),
                is_shape(g),
                row < 9,
                col <= 9,
                forall|r: int, c: int| 0 <= r < row && 0 <= c < 9 ==> #[trigger] clue_ok(g, r, c),
                forall|c: int| 0 <= c < col ==> #[trigger] clue_ok(g, row as int, c),
            decreases 9 - col,
        {
            assert(g[row as int].len() == 9);
            let d = board[row][col];
            if d != 0 {
                if d > 9 {
                    assert(!clue_ok(g, row as int, col as int));
                    return false;
                }
                let cleared = replace_value(copy_board(board), 0, row, col);
                proof {
                    lemma_legal_when_cleared(g, row as int, col as int, d);
                }
                if !move_is_valid(&cleared, &d, &row, &col) {
                    assert(!clue_ok(g, row as int, col as int));
                    return false;
                }
            }
            col += 1;
        }
        row += 1;
    }
    assert forall|r: int, c: int, r2: int, c2: int|
        on_board(r, c) && g[r][c] != 0 && on_board(r2, c2) && (r2 != r || c2 != c) && same_unit(
            r,
            c,
            r2,
            c2,
        ) implies #[trigger] g[r2][c2] != #[trigger] g[r][c] by {
        assert(clue_ok(g, r, c));
    }
    assert forall|r: int, c: int| on_board(r, c) && g[r][c] != 0 implies 1 <= #[trigger] g[r][c] <= 9 by {
        assert(clue_ok(g, r, c));
    }
    true
}

} // verus!
