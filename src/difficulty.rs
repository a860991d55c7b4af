//! The difficulty levels and the number of clues a puzzle of each level keeps.
use vstd::prelude::*;

verus! {

/// The clue count for a named difficulty, following round(80 - 63 R) for a
/// rating R between 0 and 1; `None` for an unknown name.
pub open spec fn clue_target(name: Seq<char>) -> Option<u32> {
    if name == "easy"@ {
        Some(29)
    } else if name == "intermediate"@ {
        Some(25)
    } else if name == "hard"@ {
        Some(21)
    } else if name == "expert"@ {
        Some(17)
    } else {
        None
    }
}

/// Whether two strings hold the same characters.
fn same_text(a: &str, b: &str) -> (same: bool)
    ensures
        same == (a@ == b@),
{
    a.to_owned() == b.to_owned()
}

/// Returns the number of clues that a puzzle of the named difficulty keeps, or
/// `None` when the name is none of easy, intermediate, hard and expert.
pub fn clue_calculator(rating: &str) -> (clues: Option<u32>)
    ensures
        clues == clue_target(rating@),
{
    if same_text(rating, "easy") {
        Some(29)
    } else if same_text(rating, "intermediate") {
        Some(25)
    } else if same_text(rating, "hard") {
        Some(21)
    } else if same_text(rating, "expert") {
        Some(17)
    } else {
        None
    }
}

} // verus!
