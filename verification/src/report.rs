use crate::ratio::Ratio;
use crate::utils::SubstringResult;
use vstd::prelude::*;

verus! {

/// The least `min_len` that a search accepts.
pub const MIN_LENGTH: usize = 2;

/// Why a search was refused before it began.
#[derive(Clone, Copy, Debug, PartialEq, Eq, Structural)]
pub enum InvalidArgument {
    /// `min_len` is below `MIN_LENGTH`.
    MinLength,
    /// The threshold is not a fraction between zero and one.
    Ratio,
    /// An entry of a synonym table is empty, leaves its text, or begins
    /// before the entry in front of it ends.
    Synonyms,
}

/// What a search found.
#[derive(Debug)]
pub struct Matches {
    pub matches: Vec<SubstringResult>,
    /// The search stopped at its cap and left matches out.
    pub truncated: bool,
}

/// The reason to refuse a search with these arguments, if there is one.
pub open spec fn refusal(min_len: usize, ratio: Ratio) -> Option<InvalidArgument> {
    if min_len < MIN_LENGTH {
        Some(InvalidArgument::MinLength)
    } else if !ratio.is_threshold() {
        Some(InvalidArgument::Ratio)
    } else {
        None
    }
}

/// Decides `refusal`.
pub fn check_arguments(min_len: usize, ratio: &Ratio) -> (refused: Option<InvalidArgument>)
    ensures
        refused == refusal(min_len, *ratio),
{
    if min_len < MIN_LENGTH {
        Some(InvalidArgument::MinLength)
    } else if !ratio.check_threshold() {
        Some(InvalidArgument::Ratio)
    } else {
        None
    }
}

} // verus!
