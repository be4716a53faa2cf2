//! Approximate common regions of two symbol sequences: tokens that know
//! their synonyms, two searches for ranges that are close, the growth of a
//! match under a bounded number of strikes, and the alignment of matches
//! and gaps.

pub mod alignment;
pub mod cleaning;
pub mod comparativus;
pub mod disjoint;
pub mod distance;
pub mod expansion;
pub mod frequency;
pub mod fx;
pub mod growth;
pub mod identity;
pub mod matrix;
pub mod order;
pub mod passes;
pub mod ratio;
pub mod report;
pub mod runs;
pub mod scripts;
pub mod sound;
pub mod symbol;
pub mod synonyms;
pub mod utils;

use crate::alignment::{alignment, assemble, follow_on, in_one_order, lemma_alignment_covers};
use crate::comparativus::{indexed_finds, indexed_matches, settings};
use crate::matrix::{all_finds, dense_matches};
use crate::order::{sort_by_start, sorted_by};
use crate::ratio::Ratio;
use crate::sound::all_sound;
use crate::report::{check_arguments, refusal, InvalidArgument, Matches};
use crate::synonyms::{check_table, tokenize_text, tokens_of, valid_table, Synonym, Token};
use crate::utils::{fits_table, SubstringResult};
use vstd::prelude::*;

verus! {

/// The search that finds the matches.
#[derive(Clone, Copy, Debug, PartialEq, Eq, Structural)]
pub enum Algorithm {
    /// The search of the n-gram index.
    Comparativus,
    /// The search of the whole table.
    Matrix,
}

/// Two texts laid out piece by piece.
#[derive(Debug)]
pub struct Alignment {
    pub segments: Vec<utils::Result>,
    /// The search stopped at its cap and left matches out.
    pub truncated: bool,
}

/// The reason to refuse these arguments, if there is one: first the least
/// length, then the threshold, then the two synonym tables.
pub open spec fn process_refusal(
    min_length: usize,
    ratio: Ratio,
    synonyms_a: Seq<Synonym>,
    len_a: nat,
    synonyms_b: Seq<Synonym>,
    len_b: nat,
) -> Option<InvalidArgument> {
    if refusal(min_length, ratio) is Some {
        refusal(min_length, ratio)
    } else if !valid_table(synonyms_a, len_a) || !valid_table(synonyms_b, len_b) {
        Some(InvalidArgument::Synonyms)
    } else {
        None
    }
}

/// The matches that the chosen search gives for `a` and `b`.
pub open spec fn searched(
    a: Seq<Token>,
    b: Seq<Token>,
    min_length: usize,
    ratio: Ratio,
    max_strikes: usize,
    max_substrings: usize,
    kernel_size: usize,
    base_match_size: usize,
    algorithm: Algorithm,
) -> Seq<SubstringResult> {
    match algorithm {
        Algorithm::Comparativus => indexed_matches(
            a,
            b,
            kernel_size as nat,
            settings(min_length, ratio, max_substrings, max_strikes, base_match_size),
        ),
        Algorithm::Matrix => dense_matches(
            a,
            b,
            min_length,
            ratio,
            max_substrings as nat,
            max_strikes as nat,
        ),
    }
}

/// Whether the chosen search leaves matches out at its cap.
pub open spec fn cut_short(
    a: Seq<Token>,
    b: Seq<Token>,
    min_length: usize,
    ratio: Ratio,
    max_strikes: usize,
    max_substrings: usize,
    kernel_size: usize,
    base_match_size: usize,
    algorithm: Algorithm,
) -> bool {
    match algorithm {
        Algorithm::Comparativus => indexed_finds(
            a,
            b,
            kernel_size as nat,
            settings(min_length, ratio, max_substrings, max_strikes, base_match_size),
        ).truncated,
        Algorithm::Matrix => all_finds(a, b, ratio, min_length).len() > max_substrings,
    }
}

/// The alignment that `matches` make of `a` and `b`.
pub open spec fn aligned(a: Seq<Token>, b: Seq<Token>, matches: Seq<SubstringResult>) -> Seq<
    utils::Result,
> {
    alignment(sorted_by(matches, true), sorted_by(matches, false), a, b)
}

/// Where the matches stand in one order on both sides and do not overlap,
/// the ranges of the pieces follow one another on each side, from zero to
/// the length of the sequence: every position lies in one piece and in no
/// other.
pub open spec fn covered_where_in_one_order(
    pieces: Seq<utils::Result>,
    a: Seq<Token>,
    b: Seq<Token>,
    matches: Seq<SubstringResult>,
) -> bool {
    sorted_by(matches, true) == sorted_by(matches, false) && in_one_order(
        sorted_by(matches, true),
        a.len(),
        b.len(),
    ) ==> follow_on(pieces, 0, a.len() as int, 0, b.len() as int)
}

/// Runs the chosen search on two token sequences.
///
/// The table over `b` has to fit the machine.
pub fn find_matches(
    a: &[Token],
    b: &[Token],
    min_length: usize,
    ratio: Ratio,
    max_strikes: usize,
    max_substrings: usize,
    kernel_size: usize,
    base_match_size: usize,
    levenshtein_algorithm: Algorithm,
) -> (found: Result<Matches, InvalidArgument>)
    requires
        fits_table(b@.len()),
    ensures
        match found {
            Ok(found) => {
                &&& refusal(min_length, ratio) is None
                &&& found.matches@ == searched(
                    a@,
                    b@,
                    min_length,
                    ratio,
                    max_strikes,
                    max_substrings,
                    kernel_size,
                    base_match_size,
                    levenshtein_algorithm,
                )
                &&& found.truncated == cut_short(
                    a@,
                    b@,
                    min_length,
                    ratio,
                    max_strikes,
                    max_substrings,
                    kernel_size,
                    base_match_size,
                    levenshtein_algorithm,
                )
                &&& found.matches@.len() <= max_substrings
                &&& all_sound(found.matches@, a@, b@, min_length, max_substrings as nat)
                &&& forall|t: int|
                    0 <= t < found.matches@.len() ==> (#[trigger] found.matches@[t]).wf(
                        a@.len(),
                        b@.len(),
                    ) && found.matches@[t].len >= min_length
            },
            Err(reason) => refusal(min_length, ratio) == Some(reason),
        },
{
    match levenshtein_algorithm {
        Algorithm::Comparativus => comparativus::find_levenshtein_matches(
            a,
            b,
            min_length,
            ratio,
            max_substrings,
            max_strikes,
            kernel_size,
            base_match_size,
        ),
        Algorithm::Matrix => matrix::find_levenshtein_matches(
            a,
            b,
            min_length,
            ratio,
            max_substrings,
            max_strikes,
        ),
    }
}

/// Compares two texts: makes tokens of them, searches the tokens for
/// ranges that are close, and lays the matches and the gaps between them
/// out as one alignment.
///
/// The ranges of the alignment count tokens. Arguments that a search
/// refuses are refused, and so is a synonym table that is not valid for its
/// text.
///
/// The pieces cover both texts where the matches stand in one order on
/// both sides and do not overlap: see `lemma_aligned_covers`. The table
/// over `file_b` has to fit the machine.
pub fn process(
    file_a: &[char],
    file_b: &[char],
    min_length: usize,
    ratio: Ratio,
    max_strikes: usize,
    max_substrings: usize,
    kernel_size: usize,
    base_match_size: usize,
    levenshtein_algorithm: Algorithm,
    synonyms_a: &Vec<Synonym>,
    synonyms_b: &Vec<Synonym>,
) -> (out: Result<Alignment, InvalidArgument>)
    requires
        fits_table(file_b@.len()),
    ensures
        match out {
            Ok(laid_out) => {
                &&& process_refusal(
                    min_length,
                    ratio,
                    synonyms_a@,
                    file_a@.len(),
                    synonyms_b@,
                    file_b@.len(),
                ) is None
                &&& laid_out.segments@ == aligned(
                    tokens_of(synonyms_a@, file_a@),
                    tokens_of(synonyms_b@, file_b@),
                    searched(
                        tokens_of(synonyms_a@, file_a@),
                        tokens_of(synonyms_b@, file_b@),
                        min_length,
                        ratio,
                        max_strikes,
                        max_substrings,
                        kernel_size,
                        base_match_size,
                        levenshtein_algorithm,
                    ),
                )
                &&& covered_where_in_one_order(
                    laid_out.segments@,
                    tokens_of(synonyms_a@, file_a@),
                    tokens_of(synonyms_b@, file_b@),
                    searched(
                        tokens_of(synonyms_a@, file_a@),
                        tokens_of(synonyms_b@, file_b@),
                        min_length,
                        ratio,
                        max_strikes,
                        max_substrings,
                        kernel_size,
                        base_match_size,
                        levenshtein_algorithm,
                    ),
                )
                &&& laid_out.truncated == cut_short(
                    tokens_of(synonyms_a@, file_a@),
                    tokens_of(synonyms_b@, file_b@),
                    min_length,
                    ratio,
                    max_strikes,
                    max_substrings,
                    kernel_size,
                    base_match_size,
                    levenshtein_algorithm,
                )
            },
            Err(reason) => process_refusal(
                min_length,
                ratio,
                synonyms_a@,
                file_a@.len(),
                synonyms_b@,
                file_b@.len(),
            ) == Some(reason),
        },
{
    match check_arguments(min_length, &ratio) {
        Some(reason) => {
            return Err(reason);
        },
        None => {},
    }
    if !check_table(synonyms_a, file_a.len()) || !check_table(synonyms_b, file_b.len()) {
        return Err(InvalidArgument::Synonyms);
    }
    let token_a = tokenize_text(0, file_a.len(), synonyms_a, file_a);
    let token_b = tokenize_text(0, file_b.len(), synonyms_b, file_b);
    let levenshtein_distances = match find_matches(
        token_a.as_slice(),
        token_b.as_slice(),
        min_length,
        ratio,
        max_strikes,
        max_substrings,
        kernel_size,
        base_match_size,
        levenshtein_algorithm,
    ) {
        Ok(found) => found,
        Err(reason) => {
            return Err(reason);
        },
    };
    let matches_a = sort_by_start(&levenshtein_distances.matches, true);
    let matches_b = sort_by_start(&levenshtein_distances.matches, false);
    let result = assemble(&matches_a, &matches_b, token_a.as_slice(), token_b.as_slice());
    Ok(Alignment { segments: result, truncated: levenshtein_distances.truncated })
}

/// Where the matches stand in one order on both sides and do not overlap,
/// their alignment covers both sequences: the ranges of its pieces follow
/// one another, on each side from zero to the length of the sequence.
pub proof fn lemma_aligned_covers(a: Seq<Token>, b: Seq<Token>, matches: Seq<SubstringResult>)
    requires
        sorted_by(matches, true) == sorted_by(matches, false),
        in_one_order(sorted_by(matches, true), a.len(), b.len()),
        a.len() <= usize::MAX,
        b.len() <= usize::MAX,
    ensures
        follow_on(aligned(a, b, matches), 0, a.len() as int, 0, b.len() as int),
{
    lemma_alignment_covers(sorted_by(matches, true), a, b);
}

} // verus!
