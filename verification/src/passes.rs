//! Where a pass ends, said without its steps.

use crate::expansion::{expanded, probe, room, scan, step, strikes_after, Direction, Sides};
use crate::ratio::Ratio;
use crate::symbol::Symbol;
use crate::utils::SubstringResult;
use vstd::prelude::*;

verus! {

/// What steers a pass, and the match that it begins with.
pub struct Pass {
    pub ratio: Ratio,
    pub max_strike: nat,
    pub origin: SubstringResult,
    pub dir: Direction,
    pub sides: Sides,
}

/// The pass that is steered by these values.
pub open spec fn pass_of(
    ratio: Ratio,
    max_strike: nat,
    origin: SubstringResult,
    dir: Direction,
    sides: Sides,
) -> Pass {
    Pass { ratio, max_strike, origin, dir, sides }
}

/// How far the pass can stretch its match.
pub open spec fn limit_of<T: Symbol>(a: Seq<T>, b: Seq<T>, pass: Pass) -> nat {
    room(pass.origin, a.len(), b.len(), pass.dir, pass.sides)
}

/// Whether the stretch `k` passes: its ratio is not below the threshold.
pub open spec fn passes<T: Symbol>(a: Seq<T>, b: Seq<T>, pass: Pass, k: nat) -> bool {
    !probe(a, b, pass.origin, pass.dir, pass.sides, k).edit_ratio.below(pass.ratio)
}

/// Whether every stretch behind `from`, up to and with `to`, fails.
pub open spec fn all_fail<T: Symbol>(a: Seq<T>, b: Seq<T>, pass: Pass, from: nat, to: nat) -> bool {
    forall|i: nat| from < i <= to ==> !#[trigger] passes(a, b, pass, i)
}

/// Whether the pass gets as far as the stretch `k`: in front of it no
/// `max_strike` stretches in a row fail.
pub open spec fn gets_to<T: Symbol>(a: Seq<T>, b: Seq<T>, pass: Pass, k: nat) -> bool {
    forall|j: nat|
        j + pass.max_strike <= k ==> !#[trigger] all_fail(a, b, pass, j, j + pass.max_strike)
}

/// The match that the pass holds when the stretch `k` was the last to
/// pass: that stretch, or the match that the pass began with where none
/// has passed.
pub open spec fn held_at<T: Symbol>(a: Seq<T>, b: Seq<T>, pass: Pass, k: nat) -> SubstringResult {
    if k == 0 {
        pass.origin
    } else {
        probe(a, b, pass.origin, pass.dir, pass.sides, k)
    }
}

/// Whether the pass ends with the stretch `k`.
///
/// A pass without a strike to spend ends where it began. Any other pass
/// ends with the stretch that passes, that the pass gets to, and behind
/// which the next `max_strike` stretches fail, or all that are left
/// where they are fewer.
pub open spec fn ends_with<T: Symbol>(a: Seq<T>, b: Seq<T>, pass: Pass, k: nat) -> bool {
    if pass.max_strike == 0 {
        k == 0
    } else {
        &&& k <= limit_of(a, b, pass)
        &&& k == 0 || passes(a, b, pass, k)
        &&& gets_to(a, b, pass, k)
        &&& all_fail(
            a,
            b,
            pass,
            k,
            if k + pass.max_strike <= limit_of(a, b, pass) {
                k + pass.max_strike
            } else {
                limit_of(a, b, pass)
            },
        )
    }
}

/// What a pass ends with, from a state in which the stretch `last` was the
/// last to pass and every stretch behind it, up to and with `k`, has
/// failed.
proof fn lemma_scan_ends<T: Symbol>(a: Seq<T>, b: Seq<T>, pass: Pass, last: nat, k: nat)
    requires
        pass.max_strike > 0,
        last <= k <= limit_of(a, b, pass),
        k - last <= pass.max_strike,
        last == 0 || passes(a, b, pass, last),
        all_fail(a, b, pass, last, k),
        gets_to(a, b, pass, last),
    ensures
        exists|end: nat|
            #[trigger] ends_with(a, b, pass, end) && scan(
                a,
                b,
                pass.ratio,
                pass.max_strike,
                pass.origin,
                pass.dir,
                pass.sides,
                held_at(a, b, pass, last),
                k,
                (k - last) as nat,
            ) == held_at(a, b, pass, end),
    decreases limit_of(a, b, pass) - k,
{
    let strike = (k - last) as nat;
    let limit = limit_of(a, b, pass);
    let best = held_at(a, b, pass, last);
    if strike >= pass.max_strike || k >= limit {
        assert(ends_with(a, b, pass, last));
    } else {
        let next = step(a, b, pass.ratio, pass.origin, pass.dir, pass.sides, best, k);
        let strikes = strikes_after(a, b, pass.ratio, pass.origin, pass.dir, pass.sides, k, strike);
        if passes(a, b, pass, k + 1) {
            assert(next == held_at(a, b, pass, k + 1));
            assert(strikes == 0);
            assert(gets_to(a, b, pass, k + 1)) by {
                assert forall|j: nat| j + pass.max_strike <= k + 1 implies !#[trigger] all_fail(
                    a,
                    b,
                    pass,
                    j,
                    j + pass.max_strike,
                ) by {
                    if j + pass.max_strike <= last {
                    } else if j < last {
                        assert(passes(a, b, pass, last));
                    } else {
                        assert(j + pass.max_strike == k + 1);
                        assert(passes(a, b, pass, (k + 1) as nat));
                    }
                }
            }
            assert(all_fail(a, b, pass, k + 1, k + 1));
            lemma_scan_ends(a, b, pass, k + 1, k + 1);
        } else {
            assert(next == best);
            assert(strikes == strike + 1);
            assert(all_fail(a, b, pass, last, k + 1));
            lemma_scan_ends(a, b, pass, last, k + 1);
        }
    }
}

/// A pass ends with one stretch, and holds that stretch at its end: the
/// farthest one that passes and that the pass gets to.
pub proof fn lemma_pass_ends<T: Symbol>(a: Seq<T>, b: Seq<T>, pass: Pass)
    ensures
        exists|end: nat|
            #[trigger] ends_with(a, b, pass, end) && expanded(
                a,
                b,
                pass.ratio,
                pass.max_strike,
                pass.origin,
                pass.dir,
                pass.sides,
            ) == held_at(a, b, pass, end),
{
    if pass.max_strike == 0 {
        assert(ends_with(a, b, pass, 0));
    } else {
        assert(gets_to(a, b, pass, 0)) by {
            assert forall|j: nat| j + pass.max_strike <= 0 implies !#[trigger] all_fail(
                a,
                b,
                pass,
                j,
                j + pass.max_strike,
            ) by {}
        }
        lemma_scan_ends(a, b, pass, 0, 0);
    }
}

/// Of two stretches that are the end of one pass, neither lies behind the
/// other.
proof fn lemma_no_later_end<T: Symbol>(a: Seq<T>, b: Seq<T>, pass: Pass, first: nat, second: nat)
    requires
        pass.max_strike > 0,
        ends_with(a, b, pass, first),
        ends_with(a, b, pass, second),
    ensures
        second <= first,
{
    if first < second {
        let limit = limit_of(a, b, pass);
        assert(passes(a, b, pass, second));
        if first + pass.max_strike <= limit {
            assert(all_fail(a, b, pass, first, first + pass.max_strike));
            if second <= first + pass.max_strike {
                assert(!passes(a, b, pass, second));
            } else {
                assert(first + pass.max_strike <= second);
                assert(!all_fail(a, b, pass, first, first + pass.max_strike));
            }
        } else {
            assert(all_fail(a, b, pass, first, limit));
            assert(!passes(a, b, pass, second));
        }
    }
}

/// No two stretches are the end of one pass.
pub proof fn lemma_pass_end_is_unique<T: Symbol>(
    a: Seq<T>,
    b: Seq<T>,
    pass: Pass,
    first: nat,
    second: nat,
)
    requires
        ends_with(a, b, pass, first),
        ends_with(a, b, pass, second),
    ensures
        first == second,
{
    if pass.max_strike > 0 {
        lemma_no_later_end(a, b, pass, first, second);
        lemma_no_later_end(a, b, pass, second, first);
    }
}

} // verus!
