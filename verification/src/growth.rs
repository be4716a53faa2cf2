//! What growth makes of a match, for every match and every pair of
//! sequences.

use crate::expansion::{
    covers, expanded, fully_expanded, grown_from, keeps_far_end, lemma_expanded_grows,
    lemma_pass_keeps_far_end, lemma_probe_wf, probe, stretched, Direction, Sides,
};
use crate::passes::{ends_with, held_at, lemma_pass_ends, limit_of, pass_of, passes};
use crate::ratio::Ratio;
use crate::symbol::Symbol;
use crate::utils::{window_ratio, SubstringResult};
use vstd::prelude::*;

verus! {

/// The ratio of the match is the edit ratio of its two ranges as they are.
pub open spec fn ratio_is_current<T: Symbol>(m: SubstringResult, a: Seq<T>, b: Seq<T>) -> bool {
    m.edit_ratio == window_ratio(
        a,
        b,
        m.start_a as int,
        m.end_a as int,
        m.start_b as int,
        m.end_b as int,
        m.len as nat,
    )
}

/// How many positions the two ranges of the match hold together.
pub open spec fn span(m: SubstringResult) -> int {
    (m.end_a - m.start_a) + (m.end_b - m.start_b)
}

/// What growth makes of a match: the match as it was, or one that covers
/// it, holds more positions, and has the ratio of its own ranges, which
/// is not below the threshold. It is never shorter.
pub open spec fn same_or_grown<T: Symbol>(
    after: SubstringResult,
    before: SubstringResult,
    a: Seq<T>,
    b: Seq<T>,
    ratio: Ratio,
) -> bool {
    &&& grown_from(after, before, ratio, a.len(), b.len())
    &&& after == before || (span(after) > span(before) && ratio_is_current(after, a, b)
        && !after.edit_ratio.below(ratio))
}

/// One pass leaves a match as it was or makes it grow: it never shortens
/// it, it moves no end inwards, it stays in the sequences, and where it
/// moves an end the ratio is that of the new ranges and not below the
/// threshold.
pub proof fn lemma_pass_law<T: Symbol>(
    a: Seq<T>,
    b: Seq<T>,
    ratio: Ratio,
    max_strike: nat,
    m: SubstringResult,
    dir: Direction,
    sides: Sides,
)
    requires
        m.wf(a.len(), b.len()),
        a.len() <= usize::MAX,
        b.len() <= usize::MAX,
    ensures
        same_or_grown(expanded(a, b, ratio, max_strike, m, dir, sides), m, a, b, ratio),
        keeps_far_end(expanded(a, b, ratio, max_strike, m, dir, sides), m, dir),
{
    let pass = pass_of(ratio, max_strike, m, dir, sides);
    let r = expanded(a, b, ratio, max_strike, m, dir, sides);
    lemma_expanded_grows(a, b, ratio, max_strike, m, dir, sides);
    lemma_pass_keeps_far_end(a, b, ratio, max_strike, m, dir, sides);
    lemma_pass_ends(a, b, pass);
    let end = choose|end: nat| #[trigger] ends_with(a, b, pass, end) && r == held_at(a, b, pass, end);
    if end != 0 {
        assert(max_strike > 0);
        assert(end <= limit_of(a, b, pass));
        assert(passes(a, b, pass, end));
        lemma_probe_wf(a, b, m, dir, sides, 0, end);
        assert(r == probe(a, b, m, dir, sides, end));
        let w = stretched(m, dir, sides, end);
        assert(span(w) > span(m));
    }
}

/// A pass to the right on both sides keeps the starts, moves both ends by
/// the number that the length grows by, and leaves the match as it was
/// where it moves no end.
pub proof fn lemma_forward_pass_law<T: Symbol>(
    a: Seq<T>,
    b: Seq<T>,
    ratio: Ratio,
    max_strike: nat,
    m: SubstringResult,
)
    requires
        m.wf(a.len(), b.len()),
        a.len() <= usize::MAX,
        b.len() <= usize::MAX,
    ensures
        ({
            let r = expanded(a, b, ratio, max_strike, m, Direction::Forward, Sides::Both);
            &&& same_or_grown(r, m, a, b, ratio)
            &&& r.start_a == m.start_a && r.start_b == m.start_b
            &&& r.len >= m.len && r.end_a >= m.end_a && r.end_b >= m.end_b
            &&& r.end_a <= a.len() && r.end_b <= b.len()
            &&& r.end_a - m.end_a == r.len - m.len
            &&& r.end_b - m.end_b == r.len - m.len
            &&& r.end_a == m.end_a ==> r == m
            &&& r.end_a != m.end_a ==> ratio_is_current(r, a, b) && !r.edit_ratio.below(ratio)
        }),
{
    let dir = Direction::Forward;
    let sides = Sides::Both;
    let pass = pass_of(ratio, max_strike, m, dir, sides);
    let r = expanded(a, b, ratio, max_strike, m, dir, sides);
    lemma_pass_law(a, b, ratio, max_strike, m, dir, sides);
    lemma_pass_ends(a, b, pass);
    let end = choose|end: nat| #[trigger] ends_with(a, b, pass, end) && r == held_at(a, b, pass, end);
    if end != 0 {
        assert(end <= limit_of(a, b, pass));
        lemma_probe_wf(a, b, m, dir, sides, 0, end);
    }
}

/// A pass to the left on both sides keeps the ends, moves both starts back
/// by the number that the length grows by, and leaves the match as it was
/// where it moves no start.
pub proof fn lemma_backward_pass_law<T: Symbol>(
    a: Seq<T>,
    b: Seq<T>,
    ratio: Ratio,
    max_strike: nat,
    m: SubstringResult,
)
    requires
        m.wf(a.len(), b.len()),
        a.len() <= usize::MAX,
        b.len() <= usize::MAX,
    ensures
        ({
            let r = expanded(a, b, ratio, max_strike, m, Direction::Backward, Sides::Both);
            &&& same_or_grown(r, m, a, b, ratio)
            &&& r.end_a == m.end_a && r.end_b == m.end_b
            &&& r.len >= m.len
            &&& m.start_a - r.start_a == r.len - m.len
            &&& m.start_b - r.start_b == r.len - m.len
            &&& r.start_a == m.start_a ==> r == m
            &&& r.start_a != m.start_a ==> ratio_is_current(r, a, b) && !r.edit_ratio.below(ratio)
        }),
{
    let dir = Direction::Backward;
    let sides = Sides::Both;
    let pass = pass_of(ratio, max_strike, m, dir, sides);
    let r = expanded(a, b, ratio, max_strike, m, dir, sides);
    lemma_pass_law(a, b, ratio, max_strike, m, dir, sides);
    lemma_pass_ends(a, b, pass);
    let end = choose|end: nat| #[trigger] ends_with(a, b, pass, end) && r == held_at(a, b, pass, end);
    if end != 0 {
        assert(end <= limit_of(a, b, pass));
        lemma_probe_wf(a, b, m, dir, sides, 0, end);
    }
}

/// What has grown from a match that has grown from another has grown from
/// that other one.
proof fn lemma_same_or_grown_twice<T: Symbol>(
    last: SubstringResult,
    middle: SubstringResult,
    first: SubstringResult,
    a: Seq<T>,
    b: Seq<T>,
    ratio: Ratio,
)
    requires
        same_or_grown(last, middle, a, b, ratio),
        same_or_grown(middle, first, a, b, ratio),
    ensures
        same_or_grown(last, first, a, b, ratio),
{
}

/// The six passes together leave a match as it was or make it grow: the
/// length never shrinks; where no end has moved the match, and so its
/// ratio, is the old one; where an end has moved the ratio is that of the
/// new ranges and not below the threshold.
pub proof fn lemma_growth_law<T: Symbol>(
    a: Seq<T>,
    b: Seq<T>,
    ratio: Ratio,
    max_strike: nat,
    m: SubstringResult,
)
    requires
        m.wf(a.len(), b.len()),
        a.len() <= usize::MAX,
        b.len() <= usize::MAX,
    ensures
        same_or_grown(fully_expanded(a, b, ratio, max_strike, m), m, a, b, ratio),
        fully_expanded(a, b, ratio, max_strike, m).len >= m.len,
        covers(m, fully_expanded(a, b, ratio, max_strike, m)) ==> fully_expanded(
            a,
            b,
            ratio,
            max_strike,
            m,
        ) == m,
        fully_expanded(a, b, ratio, max_strike, m).wf(a.len(), b.len()),
        ratio_is_current(m, a, b) ==> ratio_is_current(
            fully_expanded(a, b, ratio, max_strike, m),
            a,
            b,
        ),
{
    let r1 = expanded(a, b, ratio, max_strike, m, Direction::Forward, Sides::Both);
    lemma_pass_law(a, b, ratio, max_strike, m, Direction::Forward, Sides::Both);
    let r2 = expanded(a, b, ratio, max_strike, r1, Direction::Forward, Sides::OnlyA);
    lemma_pass_law(a, b, ratio, max_strike, r1, Direction::Forward, Sides::OnlyA);
    lemma_same_or_grown_twice(r2, r1, m, a, b, ratio);
    let r3 = expanded(a, b, ratio, max_strike, r2, Direction::Forward, Sides::OnlyB);
    lemma_pass_law(a, b, ratio, max_strike, r2, Direction::Forward, Sides::OnlyB);
    lemma_same_or_grown_twice(r3, r2, m, a, b, ratio);
    let l1 = expanded(a, b, ratio, max_strike, r3, Direction::Backward, Sides::Both);
    lemma_pass_law(a, b, ratio, max_strike, r3, Direction::Backward, Sides::Both);
    lemma_same_or_grown_twice(l1, r3, m, a, b, ratio);
    let l2 = expanded(a, b, ratio, max_strike, l1, Direction::Backward, Sides::OnlyA);
    lemma_pass_law(a, b, ratio, max_strike, l1, Direction::Backward, Sides::OnlyA);
    lemma_same_or_grown_twice(l2, l1, m, a, b, ratio);
    let l3 = expanded(a, b, ratio, max_strike, l2, Direction::Backward, Sides::OnlyB);
    lemma_pass_law(a, b, ratio, max_strike, l2, Direction::Backward, Sides::OnlyB);
    lemma_same_or_grown_twice(l3, l2, m, a, b, ratio);
}

} // verus!
