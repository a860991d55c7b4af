//! The command surface and the text form of a board, as plain values for the
//! program around the library.
use vstd::prelude::*;
use crate::grid::{cells, is_shape, on_board};

verus! {

/// What the program is asked to do.
#[derive(Clone, Copy, Debug, PartialEq, Eq)]
pub enum Command {
    /// `r [DIFFICULTY]`: generate a puzzle and solve it.
    Random,
    /// `f FILE`: read a puzzle from a file and solve it.
    File,
    /// `g [DIFFICULTY] [FILE]`: generate a puzzle and write it to a file.
    Generate,
    /// `m`: enter a puzzle row by row and solve it.
    Manual,
    /// No flag, or one that is not known.
    Unknown,
}

/// The command that the flag, the second argument, selects.
pub open spec fn command_for(args: Seq<String>) -> Command {
    if args.len() <= 1 {
        Command::Unknown
    } else if args[1]@ == "r"@ {
        Command::Random
    } else if args[1]@ == "f"@ {
        Command::File
    } else if args[1]@ == "g"@ {
        Command::Generate
    } else if args[1]@ == "m"@ {
        Command::Manual
    } else {
        Command::Unknown
    }
}

fn same_string(a: &String, b: &str) -> (same: bool)
    ensures
        same == (a@ == b@),
{
    *a == b.to_owned()
}

/// Selects the command from the arguments, the first of which names the
/// program.
pub fn arg_handler(args: &Vec<String>) -> (cmd: Command)
    ensures
        cmd == command_for(args@),
{
    if args.len() <= 1 {
        Command::Unknown
    } else if same_string(&args[1], "r") {
        Command::Random
    } else if same_string(&args[1], "f") {
        Command::File
    } else if same_string(&args[1], "g") {
        Command::Generate
    } else if same_string(&args[1], "m") {
        Command::Manual
    } else {
        Command::Unknown
    }
}

/// A decimal digit character: '0' is code 48 and '9' is code 57.
pub open spec fn is_digit_char(ch: char) -> bool {
    48 <= ch as u32 && ch as u32 <= 57
}

/// The value of a decimal digit character.
pub open spec fn digit_of(ch: char) -> u32 {
    (ch as u32 - 48) as u32
}

/// The characters of a text other than line breaks.
pub open spec fn significant(s: Seq<char>) -> Seq<char>
    decreases s.len(),
{
    if s.len() == 0 {
        seq![]
    } else if s.last() == '\n' || s.last() == '\r' {
        significant(s.drop_last())
    } else {
        significant(s.drop_last()).push(s.last())
    }
}

/// Dropping line breaks from a prefix gives a prefix of what dropping them
/// from the whole text gives.
pub proof fn lemma_significant_prefix(s: Seq<char>, i: int)
    requires
        0 <= i <= s.len(),
    ensures
        significant(s.subrange(0, i)).len() <= significant(s).len(),
        significant(s.subrange(0, i)) == significant(s).subrange(
            0,
            significant(s.subrange(0, i)).len() as int,
        ),
    decreases s.len() - i,
{
    if i == s.len() {
        assert(s.subrange(0, i) =~= s);
        assert(significant(s).subrange(0, significant(s).len() as int) =~= significant(s));
    } else {
        lemma_significant_prefix(s, i + 1);
        let a = s.subrange(0, i);
        let b = s.subrange(0, i + 1);
        assert(b.drop_last() =~= a);
        assert(significant(a) =~= significant(b).subrange(0, significant(a).len() as int));
    }
}

/// The text holds at least 81 characters besides line breaks, and the first 81
/// of them are digits.
pub open spec fn is_board_text(text: Seq<char>) -> bool {
    &&& significant(text).len() >= 81
    &&& forall|i: int| 0 <= i < 81 ==> #[trigger] is_digit_char(significant(text)[i])
}

/// Returns the first 81 characters of the text other than line breaks as
/// digit values, or `None` when there are fewer or one of them is no digit.
fn first_digits(text: &Vec<char>) -> (vals: Option<Vec<u32>>)
    ensures
        vals is Some == is_board_text(text@),
        vals matches Some(v) ==> {
            &&& v@.len() == 81
            &&& forall|k: int| 0 <= k < 81 ==> #[trigger] v@[k] == digit_of(significant(text@)[k])
        },
{
    let mut vals: Vec<u32> = Vec::new();
    let mut i: usize = 0;
    let ghost mut sig: Seq<char> = seq![];
    while i < text.len() && vals.len() < 81
        invariant
            i <= text@.len(),
            vals@.len() <= 81,
            sig == significant(text@.subrange(0, i as int)),
            vals@.len() == sig.len(),
            forall|k: int| 0 <= k < sig.len() ==> #[trigger] is_digit_char(sig[k]),
            forall|k: int| 0 <= k < sig.len() ==> #[trigger] vals@[k] == digit_of(sig[k]),
        decreases text@.len() - i,
    {
        let ch = text[i];
        proof {
            let b = text@.subrange(0, i + 1);
            assert(b.drop_last() =~= text@.subrange(0, i as int));
            assert(b.last() == ch);
        }
        if ch != '\n' && ch != '\r' {
            let code = ch as u32;
            if 48 <= code && code <= 57 {
                vals.push(code - 48);
                proof {
                    sig = sig.push(ch);
                }
            } else {
                proof {
                    let t = sig.push(ch);
                    lemma_significant_prefix(text@, i + 1);
                    assert(t[vals@.len() as int] == ch);
                    assert(significant(text@)[vals@.len() as int] == t[vals@.len() as int]);
                    assert(!is_digit_char(significant(text@)[vals@.len() as int]));
                }
                return None;
            }
        }
        i += 1;
    }
    proof {
        lemma_significant_prefix(text@, i as int);
    }
    if vals.len() < 81 {
        assert(text@.subrange(0, i as int) =~= text@);
        return None;
    }
    let ghost t = significant(text@);
    assert(sig == t.subrange(0, 81));
    assert forall|k: int| 0 <= k < 81 implies #[trigger] is_digit_char(t[k]) by {
        assert(t[k] == sig[k]);
    }
    assert forall|k: int| 0 <= k < 81 implies #[trigger] vals@[k] == digit_of(t[k]) by {
        assert(t[k] == sig[k]);
    }
    Some(vals)
}

/// Lays 81 values out as nine rows of nine.
fn rows_of(vals: &Vec<u32>) -> (board: Vec<Vec<u32>>)
    requires
        vals@.len() == 81,
    ensures
        is_shape(cells(&board)),
        forall|r: int, c: int| on_board(r, c) ==> #[trigger] cells(&board)[r][c] == vals@[9 * r + c],
{
    let mut board: Vec<Vec<u32>> = Vec::new();
    let mut r: usize = 0;
    while r < 9
        invariant
            vals@.len() == 81,
            r <= 9,
            board@.len() == r,
            forall|r2: int| 0 <= r2 < r ==> (#[trigger] board@[r2])@.len() == 9,
            forall|r2: int, c2: int|
                0 <= r2 < r && 0 <= c2 < 9 ==> #[trigger] board@[r2]@[c2] == vals@[9 * r2 + c2],
        decreases 9 - r,
    {
        let mut row: Vec<u32> = Vec::new();
        let mut c: usize = 0;
        while c < 9
            invariant
                vals@.len() == 81,
                r < 9,
                c <= 9,
                row@.len() == c,
                forall|c2: int| 0 <= c2 < c ==> #[trigger] row@[c2] == vals@[9 * r + c2],
            decreases 9 - c,
        {
            row.push(vals[9 * r + c]);
            c += 1;
        }
        let ghost rv = row@;
        board.push(row);
        assert(board@[r as int]@ == rv);
        r += 1;
    }
    board
}

/// Reads a board from text: line breaks are skipped, and the first 81 other
/// characters, which must be digits, give the cells row by row with 0 for an
/// empty cell. Returns `None` when the text is not of that form.
pub fn parse_board(text: &Vec<char>) -> (board: Option<Vec<Vec<u32>>>)
    ensures
        board is Some == is_board_text(text@),
        board matches Some(b) ==> {
            &&& is_shape(cells(&b))
            &&& forall|r: int, c: int|
                on_board(r, c) ==> #[trigger] cells(&b)[r][c] == digit_of(
                    significant(text@)[9 * r + c],
                )
        },
{
    match first_digits(text) {
        Some(vals) => Some(rows_of(&vals)),
        None => None,
    }
}

/// Reads one row of manual entry: exactly nine digit characters. Returns
/// `None` for any other line.
pub fn parse_row(line: &Vec<char>) -> (row: Option<Vec<u32>>)
    ensures
        row is Some == (line@.len() == 9 && forall|k: int|
            0 <= k < 9 ==> #[trigger] is_digit_char(line@[k])),
        row matches Some(v) ==> v@.len() == 9 && forall|k: int|
            0 <= k < 9 ==> #[trigger] v@[k] == digit_of(line@[k]),
{
    if line.len() != 9 {
        return None;
    }
    let mut vals: Vec<u32> = Vec::new();
    let mut i: usize = 0;
    while i < 9
        invariant
            line@.len() == 9,
            i <= 9,
            vals@.len() == i,
            forall|k: int| 0 <= k < i ==> #[trigger] is_digit_char(line@[k]),
            forall|k: int| 0 <= k < i ==> #[trigger] vals@[k] == digit_of(line@[k]),
        decreases 9 - i,
    {
        let code = line[i] as u32;
        if 48 <= code && code <= 57 {
            vals.push(code - 48);
        } else {
            assert(!is_digit_char(line@[i as int]));
            return None;
        }
        i += 1;
    }
    Some(vals)
}

/// Writes a board as 81 ASCII digits, row by row, with '0' for an empty cell.
pub fn format_board(board: &Vec<Vec<u32>>) -> (text: Vec<u8>)
    requires
        is_shape(cells(board)),
        forall|r: int, c: int| on_board(r, c) ==> #[trigger] cells(board)[r][c] <= 9,
    ensures
        text@.len() == 81,
        forall|r: int, c: int| on_board(r, c) ==> #[trigger] text@[9 * r + c] == 48 + cells(board)[r][c],
{
    let mut text: Vec<u8> = Vec::new();
    let mut r: usize = 0;
    while r < 9
        invariant
            is_shape(cells(board)),
            forall|r: int, c: int| on_board(r, c) ==> #[trigger] cells(board)[r][c] <= 9,
            r <= 9,
            text@.len() == 9 * r,
            forall|r2: int, c2: int|
                0 <= r2 < r && 0 <= c2 < 9 ==> #[trigger] text@[9 * r2 + c2] == 48 + cells(board)[r2][c2],
        decreases 9 - r,
    {
        let mut c: usize = 0;
        while c < 9
            invariant
                is_shape(cells(board)),
                forall|r: int, c: int| on_board(r, c) ==> #[trigger] cells(board)[r][c] <= 9,
                r < 9,
                c <= 9,
                text@.len() == 9 * r + c,
                forall|r2: int, c2: int|
                    0 <= r2 < r && 0 <= c2 < 9 ==> #[trigger] text@[9 * r2 + c2] == 48 + cells(board)[r2][c2],
                forall|c2: int| 0 <= c2 < c ==> #[trigger] text@[9 * r + c2] == 48 + cells(board)[r as int][c2],
            decreases 9 - c,
        {
            assert(cells(board)[r as int].len() == 9);
            assert(cells(board)[r as int][c as int] <= 9);
            text.push(48 + board[r][c] as u8);
            c += 1;
        }
        r += 1;
    }
    text
}

} // verus!
