use crate::synonyms::Token;
use crate::utils::{cosine_of, cosine_similarity, Result, Similarity, Substring, SubstringResult};
use vstd::prelude::*;

verus! {

/// What the tokens read, one after the other.
pub open spec fn flat_text(tokens: Seq<Token>) -> Seq<char>
    decreases tokens.len(),
{
    if tokens.len() == 0 {
        Seq::empty()
    } else {
        flat_text(tokens.drop_last()) + tokens.last().text@
    }
}

/// The piece of an alignment that a match makes.
pub open spec fn match_segment(m: SubstringResult) -> Result {
    Result {
        a: Substring { start: m.start_a, end: m.end_a },
        b: Substring { start: m.start_b, end: m.end_b },
        similarity: Similarity::EditRatio(m.edit_ratio),
        levenshteinMatch: true,
    }
}

/// The range on side A between the match in front of place `k` and the
/// match at place `k`, in the order of the starts on side A. In front of
/// the first match it begins at zero, and behind the last it ends with the
/// sequence.
pub open spec fn gap_a(by_a: Seq<SubstringResult>, a_len: nat, k: int) -> Substring {
    Substring {
        start: if k <= 0 {
            0
        } else {
            by_a[k - 1].end_a
        },
        end: if k >= by_a.len() {
            a_len as usize
        } else {
            by_a[k].start_a
        },
    }
}

/// The range on side B between the match in front of place `k` and the
/// match at place `k`, in the order of the starts on side B.
pub open spec fn gap_b(by_b: Seq<SubstringResult>, b_len: nat, k: int) -> Substring {
    Substring {
        start: if k <= 0 {
            0
        } else {
            by_b[k - 1].end_b
        },
        end: if k >= by_b.len() {
            b_len as usize
        } else {
            by_b[k].start_b
        },
    }
}

/// The range as a gap takes it: the range itself where it lies in a
/// sequence of `len` symbols, and else, where it runs backwards or leaves
/// the sequence, the empty range at its start.
pub open spec fn tidy(range: Substring, len: nat) -> Substring {
    if range.start <= range.end <= len {
        range
    } else {
        Substring { start: range.start, end: range.start }
    }
}

/// The range holds a position.
pub open spec fn holds_a_position(range: Substring) -> bool {
    range.start < range.end
}

/// What the tokens of the range read, and nothing where the range holds no
/// position of the sequence.
pub open spec fn read_in(tokens: Seq<Token>, range: Substring) -> Seq<char> {
    if range.start < range.end <= tokens.len() {
        flat_text(tokens.subrange(range.start as int, range.end as int))
    } else {
        Seq::empty()
    }
}

/// The piece that the two ranges of a gap make, with the terms of the
/// cosine similarity of what the two ranges read. A range that holds no
/// position reads nothing, and the norm of its side is zero.
pub open spec fn gap_piece(range_a: Substring, range_b: Substring, a: Seq<Token>, b: Seq<Token>) -> Result {
    Result {
        a: range_a,
        b: range_b,
        similarity: Similarity::Cosine(cosine_of(read_in(a, range_a), read_in(b, range_b))),
        levenshteinMatch: false,
    }
}

/// The piece that the gap at place `k` makes: one wherever the range on
/// side A or the range on side B holds a position, and none where neither
/// does. A range that runs backwards, as between matches that overlap or
/// cross, is taken as empty.
pub open spec fn gap_segments(
    by_a: Seq<SubstringResult>,
    by_b: Seq<SubstringResult>,
    a: Seq<Token>,
    b: Seq<Token>,
    k: int,
) -> Seq<Result> {
    let range_a = tidy(gap_a(by_a, a.len(), k), a.len());
    let range_b = tidy(gap_b(by_b, b.len(), k), b.len());
    if holds_a_position(range_a) || holds_a_position(range_b) {
        seq![gap_piece(range_a, range_b, a, b)]
    } else {
        Seq::empty()
    }
}

/// The pieces up to and with the match at place `k - 1`: in front of each
/// match the gap that leads to it.
pub open spec fn alignment_upto(
    by_a: Seq<SubstringResult>,
    by_b: Seq<SubstringResult>,
    a: Seq<Token>,
    b: Seq<Token>,
    k: nat,
) -> Seq<Result>
    decreases k,
{
    if k == 0 {
        Seq::empty()
    } else {
        alignment_upto(by_a, by_b, a, b, (k - 1) as nat) + gap_segments(by_a, by_b, a, b, k - 1).push(
            match_segment(by_a[k - 1]),
        )
    }
}

/// The alignment that the matches make: the matches in the order of their
/// starts on side A, in front of each the gap that leads to it, and at the
/// end the gap behind the last. The two ranges of a gap are taken each from
/// its own order of the matches.
pub open spec fn alignment(
    by_a: Seq<SubstringResult>,
    by_b: Seq<SubstringResult>,
    a: Seq<Token>,
    b: Seq<Token>,
) -> Seq<Result> {
    alignment_upto(by_a, by_b, a, b, by_a.len()) + gap_segments(by_a, by_b, a, b, by_a.len() as int)
}

/// What the tokens from `lo` up to `hi` read.
fn gap_text(tokens: &[Token], lo: usize, hi: usize) -> (text: Vec<char>)
    requires
        lo <= hi <= tokens@.len(),
    ensures
        text@ == flat_text(tokens@.subrange(lo as int, hi as int)),
{
    let mut text: Vec<char> = Vec::new();
    let mut i: usize = lo;
    assert(tokens@.subrange(lo as int, lo as int) =~= Seq::empty());
    while i < hi
        invariant
            lo <= i <= hi <= tokens@.len(),
            text@ == flat_text(tokens@.subrange(lo as int, i as int)),
        decreases hi - i,
    {
        let part = tokens[i].text;
        let ghost before = text@;
        let mut j: usize = 0;
        while j < part.len()
            invariant
                j <= part@.len(),
                text@ == before + part@.take(j as int),
            decreases part@.len() - j,
        {
            text.push(part[j]);
            assert(part@.take(j + 1) =~= part@.take(j as int).push(part@[j as int]));
            j += 1;
        }
        proof {
            assert(part@.take(j as int) =~= part@);
            assert(tokens@.subrange(lo as int, i + 1).drop_last() =~= tokens@.subrange(
                lo as int,
                i as int,
            ));
        }
        i += 1;
    }
    text
}

/// Computes `tidy`.
fn tidied(range: Substring, len: usize) -> (kept: Substring)
    ensures
        kept == tidy(range, len as nat),
{
    if range.start <= range.end && range.end <= len {
        range
    } else {
        Substring { start: range.start, end: range.start }
    }
}

/// What the tokens of the range read.
fn range_text(tokens: &[Token], range: Substring) -> (text: Vec<char>)
    ensures
        text@ == read_in(tokens@, range),
{
    if range.start < range.end && range.end <= tokens.len() {
        gap_text(tokens, range.start, range.end)
    } else {
        Vec::new()
    }
}

/// The piece that the gap between two places makes, if it makes one.
fn gap_between(from_a: Substring, from_b: Substring, a: &[Token], b: &[Token]) -> (gap: Option<Result>)
    ensures
        match gap {
            Some(piece) => {
                &&& holds_a_position(tidy(from_a, a@.len())) || holds_a_position(
                    tidy(from_b, b@.len()),
                )
                &&& piece == gap_piece(tidy(from_a, a@.len()), tidy(from_b, b@.len()), a@, b@)
            },
            None => !holds_a_position(tidy(from_a, a@.len())) && !holds_a_position(
                tidy(from_b, b@.len()),
            ),
        },
{
    let range_a = tidied(from_a, a.len());
    let range_b = tidied(from_b, b.len());
    if range_a.start < range_a.end || range_b.start < range_b.end {
        let text_a = range_text(a, range_a);
        let text_b = range_text(b, range_b);
        let similarity = cosine_similarity(text_a.as_slice(), text_b.as_slice());
        Some(
            Result {
                a: range_a,
                b: range_b,
                similarity: Similarity::Cosine(similarity),
                levenshteinMatch: false,
            },
        )
    } else {
        None
    }
}

/// Lays the matches and the gaps between them out as one alignment.
///
/// `matches_a` holds the matches in the order of their starts on side A,
/// `matches_b` the same matches in the order of their starts on side B.
/// A gap is laid out wherever it holds a position on either side; its
/// range on a side where the two orders cross, or the matches overlap, is
/// taken as empty. Where the matches stand in one order on both sides and
/// do not overlap, the pieces cover both sequences: see
/// `lemma_alignment_covers`.
pub fn assemble(
    matches_a: &Vec<SubstringResult>,
    matches_b: &Vec<SubstringResult>,
    a: &[Token],
    b: &[Token],
) -> (result: Vec<Result>)
    requires
        matches_a@.len() == matches_b@.len(),
    ensures
        result@ == alignment(matches_a@, matches_b@, a@, b@),
        matches_a@ == matches_b@ && in_one_order(matches_a@, a@.len(), b@.len()) ==> follow_on(
            result@,
            0,
            a@.len() as int,
            0,
            b@.len() as int,
        ),
{
    proof {
        assert(a@.len() == a.len() && b@.len() == b.len());
        if matches_a@ == matches_b@ && in_one_order(matches_a@, a@.len(), b@.len()) {
            lemma_alignment_covers(matches_a@, a@, b@);
        }
    }
    let n = matches_a.len();
    let mut result: Vec<Result> = Vec::new();
    let mut k: usize = 0;
    let mut from_a: usize = 0;
    let mut from_b: usize = 0;
    while k < n
        invariant
            k <= n,
            n == matches_a@.len(),
            n == matches_b@.len(),
            from_a == gap_a(matches_a@, a@.len(), k as int).start,
            from_b == gap_b(matches_b@, b@.len(), k as int).start,
            result@ == alignment_upto(matches_a@, matches_b@, a@, b@, k as nat),
        decreases n - k,
    {
        let range_a = Substring { start: from_a, end: matches_a[k].start_a };
        let range_b = Substring { start: from_b, end: matches_b[k].start_b };
        let ghost before = result@;
        match gap_between(range_a, range_b, a, b) {
            Some(gap) => {
                result.push(gap);
            },
            None => {},
        }
        let elem = &matches_a[k];
        result.push(
            Result {
                a: Substring { start: elem.start_a, end: elem.end_a },
                b: Substring { start: elem.start_b, end: elem.end_b },
                similarity: Similarity::EditRatio(elem.edit_ratio),
                levenshteinMatch: true,
            },
        );
        assert(result@ =~= before + gap_segments(matches_a@, matches_b@, a@, b@, k as int).push(
            match_segment(matches_a@[k as int]),
        ));
        from_a = matches_a[k].end_a;
        from_b = matches_b[k].end_b;
        k += 1;
    }
    let range_a = Substring { start: from_a, end: a.len() };
    let range_b = Substring { start: from_b, end: b.len() };
    let ghost before = result@;
    match gap_between(range_a, range_b, a, b) {
        Some(gap) => {
            result.push(gap);
        },
        None => {},
    }
    assert(result@ =~= before + gap_segments(matches_a@, matches_b@, a@, b@, n as int));
    result
}

/// The matches lie in sequences of `a_len` and `b_len` symbols, and each
/// begins, on both sides, no earlier than the one in front of it ends.
pub open spec fn in_one_order(matches: Seq<SubstringResult>, a_len: nat, b_len: nat) -> bool {
    &&& forall|k: int|
        0 <= k < matches.len() ==> (#[trigger] matches[k]).start_a <= matches[k].end_a <= a_len
            && matches[k].start_b <= matches[k].end_b <= b_len
    &&& forall|k: int|
        0 < k < matches.len() ==> matches[k - 1].end_a <= (#[trigger] matches[k]).start_a
            && matches[k - 1].end_b <= matches[k].start_b
}

/// The ranges of the pieces follow one another on both sides: on side A
/// from `from_a` to `to_a`, on side B from `from_b` to `to_b`. The first
/// piece begins at the first position, each other one where the piece in
/// front of it ends, and the last one ends at the last position; no range
/// runs backwards. Where there is no piece, nothing lies between the two
/// positions.
pub open spec fn follow_on(pieces: Seq<Result>, from_a: int, to_a: int, from_b: int, to_b: int) -> bool {
    if pieces.len() == 0 {
        from_a == to_a && from_b == to_b
    } else {
        &&& pieces[0].a.start == from_a
        &&& pieces[0].b.start == from_b
        &&& pieces.last().a.end == to_a
        &&& pieces.last().b.end == to_b
        &&& forall|t: int|
            0 < t < pieces.len() ==> (#[trigger] pieces[t]).a.start == pieces[t - 1].a.end
                && pieces[t].b.start == pieces[t - 1].b.end
        &&& forall|t: int|
            0 <= t < pieces.len() ==> (#[trigger] pieces[t]).a.start <= pieces[t].a.end
                && pieces[t].b.start <= pieces[t].b.end
    }
}

/// Pieces that follow one another up to a pair of positions, and pieces
/// that follow one another from there, follow one another as a whole.
proof fn lemma_follow_on_joined(
    first: Seq<Result>,
    second: Seq<Result>,
    from_a: int,
    mid_a: int,
    to_a: int,
    from_b: int,
    mid_b: int,
    to_b: int,
)
    requires
        follow_on(first, from_a, mid_a, from_b, mid_b),
        follow_on(second, mid_a, to_a, mid_b, to_b),
    ensures
        follow_on(first + second, from_a, to_a, from_b, to_b),
{
    let all = first + second;
    if first.len() == 0 {
        assert(all =~= second);
    } else if second.len() == 0 {
        assert(all =~= first);
    } else {
        assert(all[0] == first[0]);
        assert(all.last() == second.last());
        assert forall|t: int| 0 < t < all.len() implies (#[trigger] all[t]).a.start == all[t
            - 1].a.end && all[t].b.start == all[t - 1].b.end by {
            if t < first.len() {
                assert(all[t] == first[t] && all[t - 1] == first[t - 1]);
            } else if t == first.len() {
                assert(all[t] == second[0] && all[t - 1] == first.last());
            } else {
                assert(all[t] == second[t - first.len()]);
                assert(all[t - 1] == second[t - first.len() - 1]);
            }
        }
        assert forall|t: int| 0 <= t < all.len() implies (#[trigger] all[t]).a.start
            <= all[t].a.end && all[t].b.start <= all[t].b.end by {
            if t < first.len() {
                assert(all[t] == first[t]);
            } else {
                assert(all[t] == second[t - first.len()]);
            }
        }
    }
}

/// The gap at place `k` between matches in one order spans, on both sides,
/// what lies between the match in front of it and the match behind it.
proof fn lemma_gap_follows_on(matches: Seq<SubstringResult>, a: Seq<Token>, b: Seq<Token>, k: int)
    requires
        in_one_order(matches, a.len(), b.len()),
        a.len() <= usize::MAX,
        b.len() <= usize::MAX,
        0 <= k <= matches.len(),
    ensures
        follow_on(
            gap_segments(matches, matches, a, b, k),
            gap_a(matches, a.len(), k).start as int,
            gap_a(matches, a.len(), k).end as int,
            gap_b(matches, b.len(), k).start as int,
            gap_b(matches, b.len(), k).end as int,
        ),
{
    let range_a = gap_a(matches, a.len(), k);
    let range_b = gap_b(matches, b.len(), k);
    if k > 0 {
        assert(matches[k - 1].end_a <= a.len());
    }
    if k < matches.len() {
        assert(matches[k].start_a <= matches[k].end_a);
    }
    assert(tidy(range_a, a.len()) == range_a);
    assert(tidy(range_b, b.len()) == range_b);
}

/// The pieces up to and with the match at place `k - 1` follow one another
/// from the beginning of both sequences to the end of that match.
proof fn lemma_alignment_upto_covers(matches: Seq<SubstringResult>, a: Seq<Token>, b: Seq<Token>, k: nat)
    requires
        in_one_order(matches, a.len(), b.len()),
        a.len() <= usize::MAX,
        b.len() <= usize::MAX,
        k <= matches.len(),
    ensures
        follow_on(
            alignment_upto(matches, matches, a, b, k),
            0,
            gap_a(matches, a.len(), k as int).start as int,
            0,
            gap_b(matches, b.len(), k as int).start as int,
        ),
    decreases k,
{
    if k != 0 {
        lemma_alignment_upto_covers(matches, a, b, (k - 1) as nat);
        lemma_gap_follows_on(matches, a, b, k - 1);
        let m = matches[k - 1];
        let gap = gap_segments(matches, matches, a, b, k - 1);
        let piece = seq![match_segment(m)];
        assert(follow_on(piece, m.start_a as int, m.end_a as int, m.start_b as int, m.end_b as int));
        lemma_follow_on_joined(
            gap,
            piece,
            gap_a(matches, a.len(), k - 1).start as int,
            m.start_a as int,
            m.end_a as int,
            gap_b(matches, b.len(), k - 1).start as int,
            m.start_b as int,
            m.end_b as int,
        );
        assert(gap + piece =~= gap.push(match_segment(m)));
        lemma_follow_on_joined(
            alignment_upto(matches, matches, a, b, (k - 1) as nat),
            gap + piece,
            0,
            gap_a(matches, a.len(), k - 1).start as int,
            m.end_a as int,
            0,
            gap_b(matches, b.len(), k - 1).start as int,
            m.end_b as int,
        );
    }
}

/// The alignment of matches that stand in one order on both sides and do
/// not overlap covers both sequences: the ranges of its pieces follow one
/// another, on side A from zero to the length of `a` and on side B from
/// zero to the length of `b`, so that every position of each side lies in
/// one piece and in no other.
pub proof fn lemma_alignment_covers(matches: Seq<SubstringResult>, a: Seq<Token>, b: Seq<Token>)
    requires
        in_one_order(matches, a.len(), b.len()),
        a.len() <= usize::MAX,
        b.len() <= usize::MAX,
    ensures
        follow_on(alignment(matches, matches, a, b), 0, a.len() as int, 0, b.len() as int),
{
    let n = matches.len();
    lemma_alignment_upto_covers(matches, a, b, n);
    lemma_gap_follows_on(matches, a, b, n as int);
    lemma_follow_on_joined(
        alignment_upto(matches, matches, a, b, n),
        gap_segments(matches, matches, a, b, n as int),
        0,
        gap_a(matches, a.len(), n as int).start as int,
        a.len() as int,
        0,
        gap_b(matches, b.len(), n as int).start as int,
        b.len() as int,
    );
}

} // verus!
