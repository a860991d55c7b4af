//! Puzzle generation: random legal seeding, a full solve, then removal of
//! clues in pairs that are symmetric under a half-turn of the grid.
use vstd::prelude::*;
use rand::Rng;
use crate::grid::{
    Grid, cells, box_of, is_shape, on_board, place, clues, mirror, lemma_gaps_place,
    lemma_gaps_full, lemma_gaps_empty, is_full, empty_board, replace_value, rotational_symmetry_pair,
};
use crate::rules::{is_legal, in_row, in_col, in_box, move_is_valid};
use crate::solver::{
    is_consistent, is_solved, same_unit, solve_backtracking, completes, solvable,
    search_result,
    lemma_completion_of_consistent_is_solved,
};
use crate::difficulty::{clue_target, clue_calculator};

verus! {

/// The number of clues placed at random before the grid is solved.
pub const SEED_CLUES: u32 = 20;

/// The most random draws that one stage of generation makes before it gives up.
pub const DRAW_LIMIT: u32 = 1000000;

/// Why generation produced no puzzle.
#[derive(Clone, Copy, Debug, PartialEq, Eq)]
pub enum GenError {
    /// The difficulty name is none of easy, intermediate, hard and expert.
    UnknownDifficulty,
    /// The randomly seeded grid has no completion.
    Unsolvable,
    /// The draw limit was reached before the stage was done.
    OutOfDraws,
}

/// Relies on rand::thread_rng and rand::Rng::gen_range: a value drawn from
/// [low, high); gen_range panics when low >= high.
#[verifier::external_body]
fn random_in(low: usize, high: usize) -> (r: usize)
    requires
        low < high,
    ensures
        low <= r < high,
{
    rand::thread_rng().gen_range(low, high)
}

/// Places `num` at (row, col) when that cell is empty and the digit is legal
/// there; otherwise leaves the board as it was. Returns whether it placed it.
pub fn seed_cell(board: &mut Vec<Vec<u32>>, row: usize, col: usize, num: u32) -> (placed: bool)
    requires
        is_shape(cells(old(board))),
        row < 9,
        col < 9,
    ensures
        placed == (cells(old(board))[row as int][col as int] == 0 && is_legal(
            cells(old(board)),
            num,
            row as int,
            col as int,
        )),
        cells(final(board)) == if placed {
            place(cells(old(board)), row as int, col as int, num)
        } else {
            cells(old(board))
        },
{
    if crate::grid::cell_is_empty(board, &row, &col) && move_is_valid(board, &num, &row, &col) {
        let mut taken: Vec<Vec<u32>> = Vec::new();
        std::mem::swap(board, &mut taken);
        *board = replace_value(taken, num, row, col);
        true
    } else {
        false
    }
}

/// Placing a legal digit 1 to 9 in an empty cell keeps the clues free of
/// clashes.
pub proof fn lemma_place_keeps_consistent(b: Grid, r: int, c: int, d: u32)
    requires
        is_consistent(b),
        on_board(r, c),
        b[r][c] == 0,
        1 <= d <= 9,
        is_legal(b, d, r, c),
    ensures
        is_consistent(place(b, r, c, d)),
{
    let p = place(b, r, c, d);
    assert forall|r1: int, c1: int, r2: int, c2: int|
        on_board(r1, c1) && p[r1][c1] != 0 && on_board(r2, c2) && (r2 != r1 || c2 != c1)
            && same_unit(r1, c1, r2, c2) implies #[trigger] p[r2][c2] != #[trigger] p[r1][c1] by {
        if r1 == r && c1 == c {
            if p[r2][c2] == d {
                if r2 == r {
                    assert(in_row(b, d, r));
                } else if c2 == c {
                    assert(in_col(b, d, c));
                } else {
                    assert(in_box(b, d, box_of(r, c)));
                }
            }
        } else if r2 == r && c2 == c {
            if p[r1][c1] == d {
                if r1 == r {
                    assert(in_row(b, d, r));
                } else if c1 == c {
                    assert(in_col(b, d, c));
                } else {
                    assert(in_box(b, d, box_of(r, c)));
                }
            }
        } else {
            assert(b[r2][c2] != b[r1][c1]);
        }
    }
}

/// A cell is empty exactly when its half-turn partner is.
pub open spec fn is_symmetric(g: Grid) -> bool {
    forall|r: int, c: int|
        on_board(r, c) ==> (#[trigger] g[r][c] == 0) == (g[mirror(r, c).0][mirror(r, c).1] == 0)
}

/// Every clue of `g` is the digit that `s` holds in the same cell.
pub open spec fn drawn_from(g: Grid, s: Grid) -> bool {
    forall|r: int, c: int| on_board(r, c) ==> #[trigger] g[r][c] == 0 || g[r][c] == s[r][c]
}

/// One removal step of generation at cell (r, c), with `count` clues left and
/// `target` to reach. The centre, its own partner, is cleared alone, and only
/// when an odd number of clues remains to be removed; any other cell is
/// cleared together with its partner when both hold clues and at least two
/// clues remain to be removed. Otherwise the grid is unchanged.
pub open spec fn dig(g: Grid, count: int, target: int, r: int, c: int) -> Grid {
    if r == 4 && c == 4 {
        if g[4][4] != 0 && (count - target) % 2 == 1 {
            place(g, 4, 4, 0)
        } else {
            g
        }
    } else if g[r][c] != 0 && g[mirror(r, c).0][mirror(r, c).1] != 0 && count - target >= 2 {
        place(place(g, r, c, 0), mirror(r, c).0, mirror(r, c).1, 0)
    } else {
        g
    }
}

/// Takes one removal step at (row, col) (see `dig`) and returns the number of
/// clues left.
pub fn dig_cell(board: &mut Vec<Vec<u32>>, clue_count: u32, target: u32, row: usize, col: usize) -> (left: u32)
    requires
        is_shape(cells(old(board))),
        row < 9,
        col < 9,
        clue_count == clues(cells(old(board))),
        target <= clue_count,
    ensures
        cells(final(board)) == dig(
            cells(old(board)),
            clue_count as int,
            target as int,
            row as int,
            col as int,
        ),
        is_shape(cells(final(board))),
        left == clues(cells(final(board))),
        target <= left,
{
    let ghost g = cells(board);
    let (rot_row, rot_col) = rotational_symmetry_pair(&row, &col);
    if row == 4 && col == 4 {
        if !crate::grid::cell_is_empty(board, &row, &col) && (clue_count - target) % 2 == 1 {
            let mut taken: Vec<Vec<u32>> = Vec::new();
            std::mem::swap(board, &mut taken);
            *board = replace_value(taken, 0, row, col);
            proof {
                lemma_gaps_place(g, 4, 4, 0);
            }
            clue_count - 1
        } else {
            clue_count
        }
    } else if !crate::grid::cell_is_empty(board, &row, &col) && !crate::grid::cell_is_empty(
        board,
        &rot_row,
        &rot_col,
    ) && clue_count - target >= 2 {
        let mut taken: Vec<Vec<u32>> = Vec::new();
        std::mem::swap(board, &mut taken);
        let once = replace_value(taken, 0, row, col);
        *board = replace_value(once, 0, rot_row, rot_col);
        proof {
            let g1 = place(g, row as int, col as int, 0);
            lemma_gaps_place(g, row as int, col as int, 0);
            assert(g1[rot_row as int][rot_col as int] != 0);
            lemma_gaps_place(g1, rot_row as int, rot_col as int, 0);
        }
        clue_count - 2
    } else {
        clue_count
    }
}

/// A removal step keeps the grid symmetric under a half-turn and keeps its
/// clues those of the grid `s`.
pub proof fn lemma_dig_keeps_shape_of_puzzle(g: Grid, s: Grid, count: int, target: int, r: int, c: int)
    requires
        is_shape(g),
        on_board(r, c),
        is_symmetric(g),
        drawn_from(g, s),
    ensures
        is_symmetric(dig(g, count, target, r, c)),
        drawn_from(dig(g, count, target, r, c), s),
{
    let h = dig(g, count, target, r, c);
    assert forall|r1: int, c1: int| on_board(r1, c1) implies (#[trigger] h[r1][c1] == 0) == (h[mirror(
        r1,
        c1,
    ).0][mirror(r1, c1).1] == 0) by {
        assert(g[r1][c1] == 0 <==> g[8 - r1][8 - c1] == 0);
    }
    assert forall|r1: int, c1: int| on_board(r1, c1) implies #[trigger] h[r1][c1] == 0 || h[r1][c1]
        == s[r1][c1] by {
        assert(g[r1][c1] == 0 || g[r1][c1] == s[r1][c1]);
    }
}

/// `g` is a puzzle with `target` clues: symmetric under a half-turn, and with
/// every clue taken from one valid finished Sudoku.
pub open spec fn is_puzzle(g: Grid, target: int) -> bool {
    &&& is_shape(g)
    &&& clues(g) == target
    &&& is_symmetric(g)
    &&& exists|s: Grid| is_solved(s) && drawn_from(g, s)
}

/// What generation for the named difficulty may return: a puzzle with that
/// difficulty's clue count, or an error, which is `UnknownDifficulty` exactly
/// when the name is unknown.
pub open spec fn generation_outcome(name: Seq<char>, res: Result<Vec<Vec<u32>>, GenError>) -> bool {
    match res {
        Ok(g) => clue_target(name) is Some && is_puzzle(cells(&g), clue_target(name)->0 as int),
        Err(e) => (e == GenError::UnknownDifficulty) == (clue_target(name) is None),
    }
}

/// Seeds an empty grid with `SEED_CLUES` digits: random (row, column, digit)
/// draws are placed when the cell is empty and the digit legal there. Gives
/// up with `OutOfDraws` after `DRAW_LIMIT` draws.
pub fn seed_grid() -> (res: Result<Vec<Vec<u32>>, GenError>)
    ensures
        res matches Ok(b) ==> is_consistent(cells(&b)) && clues(cells(&b)) == SEED_CLUES,
        res matches Err(e) ==> e == GenError::OutOfDraws,
{
    let mut board = empty_board();
    proof {
        crate::solver::lemma_empty_is_consistent(cells(&board));
        lemma_gaps_empty(cells(&board));
    }
    let mut clue_count: u32 = 0;
    let mut draws: u32 = 0;
    while clue_count < SEED_CLUES
        invariant
            is_consistent(cells(&board)),
            clue_count == clues(cells(&board)),
            clue_count <= SEED_CLUES,
            draws <= DRAW_LIMIT,
        decreases DRAW_LIMIT - draws,
    {
        if draws == DRAW_LIMIT {
            return Err(GenError::OutOfDraws);
        }
        draws += 1;
        let r = random_in(0, 9);
        let c = random_in(0, 9);
        let d = random_in(1, 10) as u32;
        let ghost before = cells(&board);
        if seed_cell(&mut board, r, c, d) {
            proof {
                lemma_place_keeps_consistent(before, r as int, c as int, d);
                lemma_gaps_place(before, r as int, c as int, d);
            }
            clue_count += 1;
        }
    }
    Ok(board)
}

/// Solves a seeded grid whose clues do not clash. The result is the search's
/// completion, a valid finished Sudoku; `Unsolvable` comes exactly when the
/// grid has no completion.
pub fn complete_seed(seeded: Vec<Vec<u32>>) -> (res: Result<Vec<Vec<u32>>, GenError>)
    requires
        is_consistent(cells(&seeded)),
    ensures
        res is Err <==> !solvable(cells(&seeded)),
        res matches Err(e) ==> e == GenError::Unsolvable,
        res matches Ok(s) ==> {
            &&& search_result(cells(&seeded)) == Some(cells(&s))
            &&& completes(cells(&seeded), cells(&s))
            &&& is_solved(cells(&s))
        },
{
    let ghost g = cells(&seeded);
    match solve_backtracking(seeded) {
        Some(full) => {
            proof {
                lemma_completion_of_consistent_is_solved(g, cells(&full));
            }
            Ok(full)
        },
        None => Err(GenError::Unsolvable),
    }
}

/// Clears cells of a valid finished Sudoku, each with its half-turn partner,
/// at random (see `dig`) until `target` clues are left. Gives up with
/// `OutOfDraws` after `DRAW_LIMIT` draws.
pub fn dig_to_target(full: Vec<Vec<u32>>, target: u32) -> (res: Result<Vec<Vec<u32>>, GenError>)
    requires
        is_solved(cells(&full)),
        target <= 81,
    ensures
        res matches Ok(p) ==> {
            &&& is_shape(cells(&p))
            &&& clues(cells(&p)) == target
            &&& is_symmetric(cells(&p))
            &&& drawn_from(cells(&p), cells(&full))
        },
        res matches Err(e) ==> e == GenError::OutOfDraws,
{
    let ghost s = cells(&full);
    proof {
        assert(is_full(s)) by {
            assert forall|r: int, c: int| on_board(r, c) implies #[trigger] s[r][c] != 0 by {
                assert(crate::solver::settled_at(s, r, c));
            }
        }
        lemma_gaps_full(s);
    }
    let mut puzzle = full;
    let mut clue_count: u32 = 81;
    let mut draws: u32 = 0;
    while clue_count > target
        invariant
            is_shape(cells(&puzzle)),
            clue_count == clues(cells(&puzzle)),
            target <= clue_count,
            is_symmetric(cells(&puzzle)),
            drawn_from(cells(&puzzle), s),
            draws <= DRAW_LIMIT,
        decreases DRAW_LIMIT - draws,
    {
        if draws == DRAW_LIMIT {
            return Err(GenError::OutOfDraws);
        }
        draws += 1;
        let r = random_in(0, 9);
        let c = random_in(0, 9);
        let ghost before = cells(&puzzle);
        clue_count = dig_cell(&mut puzzle, clue_count, target, r, c);
        proof {
            lemma_dig_keeps_shape_of_puzzle(before, s, clues(before), target as int, r as int, c as int);
        }
    }
    Ok(puzzle)
}

/// Generates a puzzle of the named difficulty: `seed_grid`, then
/// `complete_seed`, then `dig_to_target` with the difficulty's clue count.
pub fn board_gen(difficulty: &str) -> (res: Result<Vec<Vec<u32>>, GenError>)
    ensures
        generation_outcome(difficulty@, res),
{
    let target = match clue_calculator(difficulty) {
        Some(n) => n,
        None => {
            return Err(GenError::UnknownDifficulty);
        },
    };
    let seeded = match seed_grid() {
        Ok(b) => b,
        Err(e) => {
            return Err(e);
        },
    };
    let full = match complete_seed(seeded) {
        Ok(f) => f,
        Err(e) => {
            return Err(e);
        },
    };
    let ghost s = cells(&full);
    match dig_to_target(full, target) {
        Ok(p) => {
            assert(is_solved(s) && drawn_from(cells(&p), s));
            Ok(p)
        },
        Err(e) => Err(e),
    }
}

/// Generates a puzzle of the difficulty named by the third argument, or of
/// intermediate difficulty when there is none.
pub fn random_gen_handler(args: &Vec<String>) -> (res: Result<Vec<Vec<u32>>, GenError>)
    ensures
        generation_outcome(
            if args@.len() > 2 {
                args@[2]@
            } else {
                "intermediate"@
            },
            res,
        ),
{
    if args.len() > 2 {
        board_gen(args[2].as_str())
    } else {
        board_gen("intermediate")
    }
}

} // verus!
