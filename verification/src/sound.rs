//! What holds of every match that a search gives, for every pair of
//! sequences.

use crate::comparativus::{
    after_key, after_keys, after_pair, after_row, after_rows, candidate, first_positions,
    gram_count, indexed_finds, indexed_matches, lemma_looked_up_in_text, looked_up, seed,
    shortened, shrunk, Found, Settings,
};
use crate::growth::{lemma_growth_law, ratio_is_current};
use crate::matrix::{
    all_finds, capped, closed_matches, dense_matches, kept_run, lemma_kept_run_wf, END_OF_A,
    END_OF_B,
};
use crate::order::{lemma_sorted_by, lemma_sorted_by_keeps, ordered};
use crate::ratio::Ratio;
use crate::runs::lemma_finds_come_from_pairs;
use crate::symbol::Symbol;
use crate::synonyms::Token;
use crate::utils::SubstringResult;
use vstd::prelude::*;

verus! {

/// The match lies in the two sequences, `len` is its length on side A and
/// at least `min_len`, and its ratio lies between zero and one and is the
/// edit ratio of its two ranges.
pub open spec fn sound_match<T: Symbol>(m: SubstringResult, a: Seq<T>, b: Seq<T>, min_len: usize) -> bool {
    &&& m.wf(a.len(), b.len())
    &&& m.len >= min_len
    &&& ratio_is_current(m, a, b)
}

/// There are no more matches than `cap`, and every one of them is sound.
pub open spec fn all_sound<T: Symbol>(
    matches: Seq<SubstringResult>,
    a: Seq<T>,
    b: Seq<T>,
    min_len: usize,
    cap: nat,
) -> bool {
    &&& matches.len() <= cap
    &&& forall|t: int| 0 <= t < matches.len() ==> sound_match(#[trigger] matches[t], a, b, min_len)
}

/// The search of the whole table gives no more matches than its cap, and
/// every match that it gives lies in the sequences, has `min_len` symbols
/// or more and carries the edit ratio of its two ranges, a ratio between
/// zero and one.
pub proof fn lemma_dense_matches_sound<T: Symbol>(
    a: Seq<T>,
    b: Seq<T>,
    min_len: usize,
    ratio: Ratio,
    max_substrings: nat,
    max_strikes: nat,
)
    requires
        a.len() <= usize::MAX,
        b.len() <= usize::MAX,
    ensures
        all_sound(
            dense_matches(a, b, min_len, ratio, max_substrings, max_strikes),
            a,
            b,
            min_len,
            max_substrings,
        ),
{
    let all = all_finds(a, b, ratio, min_len);
    let kept = capped(all, max_substrings);
    let matches = dense_matches(a, b, min_len, ratio, max_substrings, max_strikes);
    assert forall|t: int| 0 <= t < matches.len() implies sound_match(
        #[trigger] matches[t],
        a,
        b,
        min_len,
    ) by {
        assert(kept[t] == all[t]);
        lemma_finds_come_from_pairs(a, b, ratio, min_len, a.len(), t);
        let (i, j) = choose|i: int, j: int|
            0 <= i < a.len() && 0 <= j < b.len() && #[trigger] kept_run(a, b, ratio, min_len, i, j)
                == Some(all[t]);
        lemma_kept_run_wf(a, b, ratio, min_len, i, j);
        assert(ratio_is_current(all[t], a, b));
        lemma_growth_law(a, b, ratio, max_strikes, all[t]);
    }
}

/// The search of the whole table of two texts with their end marks gives
/// no more matches than its cap, and every match that it gives lies in the
/// texts, has `min_len` symbols or more and carries the edit ratio of its
/// two ranges, a ratio between zero and one.
pub proof fn lemma_closed_matches_sound(
    a: Seq<char>,
    b: Seq<char>,
    min_len: usize,
    ratio: Ratio,
    max_substrings: nat,
    max_strike: nat,
)
    requires
        a.len() < usize::MAX,
        b.len() < usize::MAX,
    ensures
        all_sound(
            closed_matches(a, b, min_len, ratio, max_substrings, max_strike),
            a,
            b,
            min_len,
            max_substrings,
        ),
{
    let closed_a = a.push(END_OF_A);
    let closed_b = b.push(END_OF_B);
    let all = all_finds(closed_a, closed_b, ratio, min_len);
    let kept = capped(all, max_substrings);
    let matches = closed_matches(a, b, min_len, ratio, max_substrings, max_strike);
    assert forall|t: int| 0 <= t < matches.len() implies sound_match(
        #[trigger] matches[t],
        a,
        b,
        min_len,
    ) by {
        assert(kept[t] == all[t]);
        let m = all[t];
        lemma_finds_come_from_pairs(closed_a, closed_b, ratio, min_len, closed_a.len(), t);
        let (i, j) = choose|i: int, j: int|
            0 <= i < closed_a.len() && 0 <= j < closed_b.len() && #[trigger] kept_run(
                closed_a,
                closed_b,
                ratio,
                min_len,
                i,
                j,
            ) == Some(m);
        lemma_kept_run_wf(closed_a, closed_b, ratio, min_len, i, j);
        assert(closed_a.subrange(m.start_a as int, m.end_a as int) =~= a.subrange(
            m.start_a as int,
            m.end_a as int,
        ));
        assert(closed_b.subrange(m.start_b as int, m.end_b as int) =~= b.subrange(
            m.start_b as int,
            m.end_b as int,
        ));
        assert(ratio_is_current(m, a, b));
        lemma_growth_law(a, b, ratio, max_strike, m);
    }
}

/// A match that is shrunk stays in the sequences and carries the ratio of
/// its ranges.
proof fn lemma_shrunk_sound(a: Seq<Token>, b: Seq<Token>, ratio: Ratio, m: SubstringResult)
    requires
        m.wf(a.len(), b.len()),
        ratio_is_current(m, a, b),
        a.len() <= usize::MAX,
        b.len() <= usize::MAX,
    ensures
        shrunk(a, b, ratio, m).wf(a.len(), b.len()),
        ratio_is_current(shrunk(a, b, ratio, m), a, b),
    decreases m.end_a - m.start_a,
{
    if m.start_a < m.end_a && m.start_b < m.end_b && m.edit_ratio.below(ratio) {
        lemma_shrunk_sound(a, b, ratio, shortened(a, b, m));
    }
}

/// The match that a pair of positions in the sequences leads to lies in
/// the sequences and carries the ratio of its ranges.
proof fn lemma_candidate_sound(a: Seq<Token>, b: Seq<Token>, s: Settings, oa: usize, ob: usize)
    requires
        oa <= a.len() <= usize::MAX,
        ob <= b.len() <= usize::MAX,
    ensures
        candidate(a, b, s, oa, ob).wf(a.len(), b.len()),
        ratio_is_current(candidate(a, b, s, oa, ob), a, b),
{
    let first = seed(a, b, s.base_match_size, oa, ob);
    assert(first.wf(a.len(), b.len()));
    assert(ratio_is_current(first, a, b));
    lemma_shrunk_sound(a, b, s.ratio, first);
    lemma_growth_law(a, b, s.ratio, s.max_strike as nat, shrunk(a, b, s.ratio, first));
}

/// A pair of positions in the sequences keeps what has been found sound.
proof fn lemma_after_pair_sound(found: Found, a: Seq<Token>, b: Seq<Token>, s: Settings, oa: usize, ob: usize)
    requires
        all_sound(found.matches, a, b, s.min_len, s.max_substrings as nat),
        oa <= a.len() <= usize::MAX,
        ob <= b.len() <= usize::MAX,
    ensures
        all_sound(after_pair(found, a, b, s, oa, ob).matches, a, b, s.min_len, s.max_substrings as nat),
{
    lemma_candidate_sound(a, b, s, oa, ob);
}

/// A row of pairs of positions in the sequences keeps what has been found
/// sound.
proof fn lemma_after_row_sound(
    found: Found,
    a: Seq<Token>,
    b: Seq<Token>,
    s: Settings,
    oa: usize,
    occ_b: Seq<usize>,
    upto: nat,
)
    requires
        all_sound(found.matches, a, b, s.min_len, s.max_substrings as nat),
        oa <= a.len() <= usize::MAX,
        b.len() <= usize::MAX,
        upto <= occ_b.len(),
        forall|t: int| 0 <= t < occ_b.len() ==> #[trigger] occ_b[t] <= b.len(),
    ensures
        all_sound(
            after_row(found, a, b, s, oa, occ_b, upto).matches,
            a,
            b,
            s.min_len,
            s.max_substrings as nat,
        ),
    decreases upto,
{
    if upto != 0 {
        lemma_after_row_sound(found, a, b, s, oa, occ_b, (upto - 1) as nat);
        lemma_after_pair_sound(
            after_row(found, a, b, s, oa, occ_b, (upto - 1) as nat),
            a,
            b,
            s,
            oa,
            occ_b[upto - 1],
        );
    }
}

/// Rows of pairs of positions in the sequences keep what has been found
/// sound.
proof fn lemma_after_rows_sound(
    found: Found,
    a: Seq<Token>,
    b: Seq<Token>,
    s: Settings,
    occ_a: Seq<usize>,
    occ_b: Seq<usize>,
    upto: nat,
)
    requires
        all_sound(found.matches, a, b, s.min_len, s.max_substrings as nat),
        a.len() <= usize::MAX,
        b.len() <= usize::MAX,
        upto <= occ_a.len(),
        forall|t: int| 0 <= t < occ_a.len() ==> #[trigger] occ_a[t] <= a.len(),
        forall|t: int| 0 <= t < occ_b.len() ==> #[trigger] occ_b[t] <= b.len(),
    ensures
        all_sound(
            after_rows(found, a, b, s, occ_a, occ_b, upto).matches,
            a,
            b,
            s.min_len,
            s.max_substrings as nat,
        ),
    decreases upto,
{
    if upto != 0 {
        lemma_after_rows_sound(found, a, b, s, occ_a, occ_b, (upto - 1) as nat);
        lemma_after_row_sound(
            after_rows(found, a, b, s, occ_a, occ_b, (upto - 1) as nat),
            a,
            b,
            s,
            occ_a[upto - 1],
            occ_b,
            occ_b.len(),
        );
    }
}

/// The n-grams of `a` keep what has been found sound.
proof fn lemma_after_keys_sound(a: Seq<Token>, b: Seq<Token>, k: nat, s: Settings, upto: nat)
    requires
        a.len() <= usize::MAX,
        b.len() <= usize::MAX,
    ensures
        all_sound(after_keys(a, b, k, s, upto).matches, a, b, s.min_len, s.max_substrings as nat),
    decreases upto,
{
    if upto != 0 {
        lemma_after_keys_sound(a, b, k, s, (upto - 1) as nat);
        let before = after_keys(a, b, k, s, (upto - 1) as nat);
        let pa = first_positions(a, k, gram_count(a.len(), k))[upto - 1];
        match looked_up(b, a, pa as int, k) {
            Some(occ_b) => {
                match looked_up(a, a, pa as int, k) {
                    Some(occ_a) => {
                        lemma_looked_up_in_text(a, a, pa as int, k, occ_a);
                        lemma_looked_up_in_text(b, a, pa as int, k, occ_b);
                        lemma_after_rows_sound(before, a, b, s, occ_a, occ_b, occ_a.len());
                        assert(after_key(before, a, b, k, s, pa) == after_rows(
                            before,
                            a,
                            b,
                            s,
                            occ_a,
                            occ_b,
                            occ_a.len(),
                        ));
                    },
                    None => {},
                }
            },
            None => {},
        }
    }
}

/// The search of the n-gram index gives no more matches than its cap, in
/// the order of their starts on side A, and every match that it gives lies
/// in the sequences, has `min_len` symbols or more and carries the edit
/// ratio of its two ranges, a ratio between zero and one.
pub proof fn lemma_indexed_matches_sound(a: Seq<Token>, b: Seq<Token>, k: nat, s: Settings)
    requires
        a.len() <= usize::MAX,
        b.len() <= usize::MAX,
    ensures
        all_sound(indexed_matches(a, b, k, s), a, b, s.min_len, s.max_substrings as nat),
        ordered(indexed_matches(a, b, k, s), true),
{
    let found = indexed_finds(a, b, k, s).matches;
    lemma_after_keys_sound(a, b, k, s, first_positions(a, k, gram_count(a.len(), k)).len());
    lemma_sorted_by(found, true);
    lemma_sorted_by_keeps(found, true, |m: SubstringResult| sound_match(m, a, b, s.min_len));
}

} // verus!
