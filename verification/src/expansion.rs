use crate::growth::{lemma_pass_law, same_or_grown};
use crate::passes::{ends_with, held_at, lemma_pass_ends, pass_of};
use crate::ratio::Ratio;
use crate::symbol::Symbol;
use crate::utils::{fits_table, recompute_ratio, window_ratio, SubstringResult};
use vstd::prelude::*;

verus! {

/// The end of a match that a pass moves: its right end, or its left end.
#[derive(Clone, Copy, Debug)]
pub enum Direction {
    Forward,
    Backward,
}

/// The sides of a match that a pass moves.
#[derive(Clone, Copy, Debug)]
pub enum Sides {
    Both,
    OnlyA,
    OnlyB,
}

impl Sides {
    /// Whether side A is moved.
    pub open spec fn moves_a(self) -> bool {
        !(self is OnlyB)
    }

    /// Whether side B is moved.
    pub open spec fn moves_b(self) -> bool {
        !(self is OnlyA)
    }
}

/// How many symbols a pass can add to `m` before a side that it moves
/// reaches the boundary of its sequence.
pub open spec fn room(m: SubstringResult, a_len: nat, b_len: nat, dir: Direction, sides: Sides) -> nat {
    let room_a = match dir {
        Direction::Forward => a_len - m.end_a,
        Direction::Backward => m.start_a as int,
    };
    let room_b = match dir {
        Direction::Forward => b_len - m.end_b,
        Direction::Backward => m.start_b as int,
    };
    let least = match sides {
        Sides::Both => if room_a <= room_b {
            room_a
        } else {
            room_b
        },
        Sides::OnlyA => room_a,
        Sides::OnlyB => room_b,
    };
    if least < 0 {
        0
    } else {
        least as nat
    }
}

/// The match `m` with `k` more symbols on each side that the pass moves. The
/// ratio is left as it is.
pub open spec fn stretched(m: SubstringResult, dir: Direction, sides: Sides, k: nat) -> SubstringResult {
    let ka: nat = if sides.moves_a() {
        k
    } else {
        0
    };
    let kb: nat = if sides.moves_b() {
        k
    } else {
        0
    };
    match dir {
        Direction::Forward => SubstringResult {
            start_a: m.start_a,
            end_a: (m.end_a + ka) as usize,
            start_b: m.start_b,
            end_b: (m.end_b + kb) as usize,
            len: (m.len + ka) as usize,
            edit_ratio: m.edit_ratio,
        },
        Direction::Backward => SubstringResult {
            start_a: (m.start_a - ka) as usize,
            end_a: m.end_a,
            start_b: (m.start_b - kb) as usize,
            end_b: m.end_b,
            len: (m.len + ka) as usize,
            edit_ratio: m.edit_ratio,
        },
    }
}

/// The match `m` stretched by `k`, with the ratio of its new windows.
pub open spec fn probe<T: Symbol>(
    a: Seq<T>,
    b: Seq<T>,
    m: SubstringResult,
    dir: Direction,
    sides: Sides,
    k: nat,
) -> SubstringResult {
    let w = stretched(m, dir, sides, k);
    SubstringResult {
        start_a: w.start_a,
        end_a: w.end_a,
        start_b: w.start_b,
        end_b: w.end_b,
        len: w.len,
        edit_ratio: window_ratio(
            a,
            b,
            w.start_a as int,
            w.end_a as int,
            w.start_b as int,
            w.end_b as int,
            w.len as nat,
        ),
    }
}

/// The match that a pass holds after it has tried the stretch `k + 1` of
/// `origin`, where it held `best` before: the stretch, if its ratio is not
/// below `ratio`, and else `best` as it was.
pub open spec fn step<T: Symbol>(
    a: Seq<T>,
    b: Seq<T>,
    ratio: Ratio,
    origin: SubstringResult,
    dir: Direction,
    sides: Sides,
    best: SubstringResult,
    k: nat,
) -> SubstringResult {
    let next = probe(a, b, origin, dir, sides, k + 1);
    if next.edit_ratio.below(ratio) {
        best
    } else {
        next
    }
}

/// The strikes of a pass after it has tried the stretch `k + 1` of
/// `origin`: one more, if the ratio of the stretch is below `ratio`, and
/// else none.
pub open spec fn strikes_after<T: Symbol>(
    a: Seq<T>,
    b: Seq<T>,
    ratio: Ratio,
    origin: SubstringResult,
    dir: Direction,
    sides: Sides,
    k: nat,
    strike: nat,
) -> nat {
    if probe(a, b, origin, dir, sides, k + 1).edit_ratio.below(ratio) {
        strike + 1
    } else {
        0
    }
}

/// What a pass that has tried the first `k` stretches of `origin`, holds
/// `best` and has failed `strike` times in a row, ends with.
///
/// The pass ends at `max_strike` strikes in a row, or at the boundary.
/// Until then it goes on step by step.
pub open spec fn scan<T: Symbol>(
    a: Seq<T>,
    b: Seq<T>,
    ratio: Ratio,
    max_strike: nat,
    origin: SubstringResult,
    dir: Direction,
    sides: Sides,
    best: SubstringResult,
    k: nat,
    strike: nat,
) -> SubstringResult
    decreases room(origin, a.len(), b.len(), dir, sides) - k,
{
    if strike >= max_strike || k >= room(origin, a.len(), b.len(), dir, sides) {
        best
    } else {
        scan(
            a,
            b,
            ratio,
            max_strike,
            origin,
            dir,
            sides,
            step(a, b, ratio, origin, dir, sides, best, k),
            k + 1,
            strikes_after(a, b, ratio, origin, dir, sides, k, strike),
        )
    }
}

/// The match that one pass over `m` ends with: the farthest stretch of `m`
/// that passes and that the pass gets to, as `passes::lemma_pass_ends`
/// shows.
pub open spec fn expanded<T: Symbol>(
    a: Seq<T>,
    b: Seq<T>,
    ratio: Ratio,
    max_strike: nat,
    m: SubstringResult,
    dir: Direction,
    sides: Sides,
) -> SubstringResult {
    scan(a, b, ratio, max_strike, m, dir, sides, m, 0, 0)
}

/// The match that the six passes over `m` end with: to the right on both
/// sides, on side A, on side B, then to the left in the same order.
pub open spec fn fully_expanded<T: Symbol>(
    a: Seq<T>,
    b: Seq<T>,
    ratio: Ratio,
    max_strike: nat,
    m: SubstringResult,
) -> SubstringResult {
    let r1 = expanded(a, b, ratio, max_strike, m, Direction::Forward, Sides::Both);
    let r2 = expanded(a, b, ratio, max_strike, r1, Direction::Forward, Sides::OnlyA);
    let r3 = expanded(a, b, ratio, max_strike, r2, Direction::Forward, Sides::OnlyB);
    let l1 = expanded(a, b, ratio, max_strike, r3, Direction::Backward, Sides::Both);
    let l2 = expanded(a, b, ratio, max_strike, l1, Direction::Backward, Sides::OnlyA);
    expanded(a, b, ratio, max_strike, l2, Direction::Backward, Sides::OnlyB)
}

/// `outer` holds every position of `inner`, on both sides.
pub open spec fn covers(outer: SubstringResult, inner: SubstringResult) -> bool {
    &&& outer.start_a <= inner.start_a
    &&& inner.end_a <= outer.end_a
    &&& outer.start_b <= inner.start_b
    &&& inner.end_b <= outer.end_b
}

/// What holds between a match and what a pass, or a run of passes, made of
/// it: it is well formed, it covers the match, it is no shorter, and its
/// ratio is the one it had or one that is not below the threshold.
pub open spec fn grown_from(
    after: SubstringResult,
    before: SubstringResult,
    ratio: Ratio,
    a_len: nat,
    b_len: nat,
) -> bool {
    &&& after.wf(a_len, b_len)
    &&& covers(after, before)
    &&& after.len >= before.len
    &&& (after.edit_ratio == before.edit_ratio || !after.edit_ratio.below(ratio))
}

/// The ends of `after` that a pass in direction `dir` does not move are
/// those of `before`.
pub open spec fn keeps_far_end(after: SubstringResult, before: SubstringResult, dir: Direction) -> bool {
    match dir {
        Direction::Forward => after.start_a == before.start_a && after.start_b == before.start_b,
        Direction::Backward => after.end_a == before.end_a && after.end_b == before.end_b,
    }
}

/// A stretch that stays within the room is well formed, and covers every
/// shorter stretch.
pub proof fn lemma_probe_wf<T: Symbol>(
    a: Seq<T>,
    b: Seq<T>,
    origin: SubstringResult,
    dir: Direction,
    sides: Sides,
    j: nat,
    k: nat,
)
    requires
        origin.wf(a.len(), b.len()),
        j <= k <= room(origin, a.len(), b.len(), dir, sides),
        a.len() <= usize::MAX,
        b.len() <= usize::MAX,
    ensures
        probe(a, b, origin, dir, sides, k).wf(a.len(), b.len()),
        covers(stretched(origin, dir, sides, k), stretched(origin, dir, sides, j)),
        covers(probe(a, b, origin, dir, sides, k), stretched(origin, dir, sides, j)),
        stretched(origin, dir, sides, j).len <= stretched(origin, dir, sides, k).len,
        probe(a, b, origin, dir, sides, k).len == stretched(origin, dir, sides, k).len,
        stretched(origin, dir, sides, 0) == origin,
{
}

/// No step of a pass shortens the match that the pass holds, and a step
/// changes the ratio only to one that is not below the threshold.
pub proof fn lemma_step_grows<T: Symbol>(
    a: Seq<T>,
    b: Seq<T>,
    ratio: Ratio,
    origin: SubstringResult,
    dir: Direction,
    sides: Sides,
    best: SubstringResult,
    k: nat,
)
    requires
        origin.wf(a.len(), b.len()),
        k < room(origin, a.len(), b.len(), dir, sides),
        best.wf(a.len(), b.len()),
        covers(stretched(origin, dir, sides, k), best),
        best.len <= stretched(origin, dir, sides, k).len,
        a.len() <= usize::MAX,
        b.len() <= usize::MAX,
    ensures
        grown_from(step(a, b, ratio, origin, dir, sides, best, k), best, ratio, a.len(), b.len()),
        covers(stretched(origin, dir, sides, k + 1), step(a, b, ratio, origin, dir, sides, best, k)),
        step(a, b, ratio, origin, dir, sides, best, k).len <= stretched(
            origin,
            dir,
            sides,
            k + 1,
        ).len,
{
    lemma_probe_wf(a, b, origin, dir, sides, k, k + 1);
}

/// From every state of a pass on, the match only grows: what the pass
/// ends with has grown from what it holds in that state, and from what it
/// began with.
pub proof fn lemma_scan_grows<T: Symbol>(
    a: Seq<T>,
    b: Seq<T>,
    ratio: Ratio,
    max_strike: nat,
    origin: SubstringResult,
    dir: Direction,
    sides: Sides,
    best: SubstringResult,
    k: nat,
    strike: nat,
)
    requires
        origin.wf(a.len(), b.len()),
        k <= room(origin, a.len(), b.len(), dir, sides),
        grown_from(best, origin, ratio, a.len(), b.len()),
        covers(stretched(origin, dir, sides, k), best),
        best.len <= stretched(origin, dir, sides, k).len,
        a.len() <= usize::MAX,
        b.len() <= usize::MAX,
    ensures
        grown_from(
            scan(a, b, ratio, max_strike, origin, dir, sides, best, k, strike),
            best,
            ratio,
            a.len(),
            b.len(),
        ),
        grown_from(
            scan(a, b, ratio, max_strike, origin, dir, sides, best, k, strike),
            origin,
            ratio,
            a.len(),
            b.len(),
        ),
    decreases room(origin, a.len(), b.len(), dir, sides) - k,
{
    if strike >= max_strike || k >= room(origin, a.len(), b.len(), dir, sides) {
    } else {
        let next = step(a, b, ratio, origin, dir, sides, best, k);
        lemma_step_grows(a, b, ratio, origin, dir, sides, best, k);
        lemma_scan_grows(
            a,
            b,
            ratio,
            max_strike,
            origin,
            dir,
            sides,
            next,
            k + 1,
            strikes_after(a, b, ratio, origin, dir, sides, k, strike),
        );
    }
}

/// A pass never shortens a match, and it changes the ratio only to one
/// that is not below the threshold.
pub proof fn lemma_expanded_grows<T: Symbol>(
    a: Seq<T>,
    b: Seq<T>,
    ratio: Ratio,
    max_strike: nat,
    m: SubstringResult,
    dir: Direction,
    sides: Sides,
)
    requires
        m.wf(a.len(), b.len()),
        a.len() <= usize::MAX,
        b.len() <= usize::MAX,
    ensures
        grown_from(expanded(a, b, ratio, max_strike, m, dir, sides), m, ratio, a.len(), b.len()),
{
    lemma_scan_grows(a, b, ratio, max_strike, m, dir, sides, m, 0, 0);
}

/// The six passes together never shorten a match, and they change the
/// ratio only to one that is not below the threshold.
pub proof fn lemma_fully_expanded_grows<T: Symbol>(
    a: Seq<T>,
    b: Seq<T>,
    ratio: Ratio,
    max_strike: nat,
    m: SubstringResult,
)
    requires
        m.wf(a.len(), b.len()),
        a.len() <= usize::MAX,
        b.len() <= usize::MAX,
    ensures
        grown_from(fully_expanded(a, b, ratio, max_strike, m), m, ratio, a.len(), b.len()),
{
    let r1 = expanded(a, b, ratio, max_strike, m, Direction::Forward, Sides::Both);
    lemma_expanded_grows(a, b, ratio, max_strike, m, Direction::Forward, Sides::Both);
    let r2 = expanded(a, b, ratio, max_strike, r1, Direction::Forward, Sides::OnlyA);
    lemma_expanded_grows(a, b, ratio, max_strike, r1, Direction::Forward, Sides::OnlyA);
    let r3 = expanded(a, b, ratio, max_strike, r2, Direction::Forward, Sides::OnlyB);
    lemma_expanded_grows(a, b, ratio, max_strike, r2, Direction::Forward, Sides::OnlyB);
    let l1 = expanded(a, b, ratio, max_strike, r3, Direction::Backward, Sides::Both);
    lemma_expanded_grows(a, b, ratio, max_strike, r3, Direction::Backward, Sides::Both);
    let l2 = expanded(a, b, ratio, max_strike, l1, Direction::Backward, Sides::OnlyA);
    lemma_expanded_grows(a, b, ratio, max_strike, l1, Direction::Backward, Sides::OnlyA);
    lemma_expanded_grows(a, b, ratio, max_strike, l2, Direction::Backward, Sides::OnlyB);
}

/// A pass to the right leaves the left ends where they are, and a pass to
/// the left the right ends.
pub proof fn lemma_scan_keeps_far_end<T: Symbol>(
    a: Seq<T>,
    b: Seq<T>,
    ratio: Ratio,
    max_strike: nat,
    origin: SubstringResult,
    dir: Direction,
    sides: Sides,
    best: SubstringResult,
    k: nat,
    strike: nat,
)
    requires
        keeps_far_end(best, origin, dir),
    ensures
        keeps_far_end(
            scan(a, b, ratio, max_strike, origin, dir, sides, best, k, strike),
            origin,
            dir,
        ),
    decreases room(origin, a.len(), b.len(), dir, sides) - k,
{
    if strike >= max_strike || k >= room(origin, a.len(), b.len(), dir, sides) {
    } else {
        lemma_scan_keeps_far_end(
            a,
            b,
            ratio,
            max_strike,
            origin,
            dir,
            sides,
            step(a, b, ratio, origin, dir, sides, best, k),
            k + 1,
            strikes_after(a, b, ratio, origin, dir, sides, k, strike),
        );
    }
}

/// A pass to the right leaves the left ends where they are, and a pass to
/// the left the right ends.
pub proof fn lemma_pass_keeps_far_end<T: Symbol>(
    a: Seq<T>,
    b: Seq<T>,
    ratio: Ratio,
    max_strike: nat,
    m: SubstringResult,
    dir: Direction,
    sides: Sides,
)
    ensures
        keeps_far_end(expanded(a, b, ratio, max_strike, m, dir, sides), m, dir),
{
    lemma_scan_keeps_far_end(a, b, ratio, max_strike, m, dir, sides, m, 0, 0);
}

/// Computes `room`.
fn room_of(m: &SubstringResult, a_len: usize, b_len: usize, dir: Direction, sides: Sides) -> (r: usize)
    requires
        m.wf(a_len as nat, b_len as nat),
    ensures
        r == room(*m, a_len as nat, b_len as nat, dir, sides),
{
    let room_a: usize = match dir {
        Direction::Forward => a_len - m.end_a,
        Direction::Backward => m.start_a,
    };
    let room_b: usize = match dir {
        Direction::Forward => b_len - m.end_b,
        Direction::Backward => m.start_b,
    };
    match sides {
        Sides::Both => if room_a <= room_b {
            room_a
        } else {
            room_b
        },
        Sides::OnlyA => room_a,
        Sides::OnlyB => room_b,
    }
}

/// Computes `stretched`.
fn stretch(m: &SubstringResult, a_len: usize, b_len: usize, dir: Direction, sides: Sides, k: usize) -> (w:
    SubstringResult)
    requires
        m.wf(a_len as nat, b_len as nat),
        k <= room(*m, a_len as nat, b_len as nat, dir, sides),
    ensures
        w == stretched(*m, dir, sides, k as nat),
        w.wf(a_len as nat, b_len as nat),
        covers(w, *m),
        w.len >= m.len,
{
    let ka: usize = match sides {
        Sides::OnlyB => 0,
        _ => k,
    };
    let kb: usize = match sides {
        Sides::OnlyA => 0,
        _ => k,
    };
    match dir {
        Direction::Forward => SubstringResult {
            start_a: m.start_a,
            end_a: m.end_a + ka,
            start_b: m.start_b,
            end_b: m.end_b + kb,
            len: m.len + ka,
            edit_ratio: m.edit_ratio,
        },
        Direction::Backward => SubstringResult {
            start_a: m.start_a - ka,
            end_a: m.end_a,
            start_b: m.start_b - kb,
            end_b: m.end_b,
            len: m.len + ka,
            edit_ratio: m.edit_ratio,
        },
    }
}

/// One pass over `ret`: stretches it symbol by symbol in the direction and
/// on the sides given, keeps each stretch whose ratio is not below `ratio`,
/// and gives up after `max_strike` stretches in a row that are.
///
/// The match ends as the farthest of its stretches that passes and that
/// the pass gets to.
pub fn expand_pass<T: Symbol>(
    a: &[T],
    b: &[T],
    ratio: Ratio,
    max_strike: usize,
    dir: Direction,
    sides: Sides,
    ret: &mut SubstringResult,
)
    requires
        old(ret).wf(a@.len(), b@.len()),
        fits_table(b@.len()),
    ensures
        *final(ret) == expanded(a@, b@, ratio, max_strike as nat, *old(ret), dir, sides),
        grown_from(*final(ret), *old(ret), ratio, a@.len(), b@.len()),
        same_or_grown(*final(ret), *old(ret), a@, b@, ratio),
        keeps_far_end(*final(ret), *old(ret), dir),
        exists|end: nat|
            #[trigger] ends_with(
                a@,
                b@,
                pass_of(ratio, max_strike as nat, *old(ret), dir, sides),
                end,
            ) && *final(ret) == held_at(
                a@,
                b@,
                pass_of(ratio, max_strike as nat, *old(ret), dir, sides),
                end,
            ),
{
    proof {
        lemma_pass_ends(a@, b@, pass_of(ratio, max_strike as nat, *old(ret), dir, sides));
        assert(a@.len() == a.len() && b@.len() == b.len());
        lemma_pass_law(a@, b@, ratio, max_strike as nat, *old(ret), dir, sides);
    }
    let origin = *ret;
    let a_len = a.len();
    let b_len = b.len();
    let limit = room_of(&origin, a_len, b_len, dir, sides);
    let mut k: usize = 0;
    let mut strike: usize = 0;
    while strike < max_strike && k < limit
        invariant
            a_len == a@.len(),
            b_len == b@.len(),
            fits_table(b@.len()),
            origin.wf(a@.len(), b@.len()),
            limit == room(origin, a@.len(), b@.len(), dir, sides),
            k <= limit,
            strike <= max_strike,
            grown_from(*ret, origin, ratio, a@.len(), b@.len()),
            scan(a@, b@, ratio, max_strike as nat, origin, dir, sides, *ret, k as nat, strike as nat)
                == expanded(a@, b@, ratio, max_strike as nat, origin, dir, sides),
        decreases limit - k,
    {
        k += 1;
        let w = stretch(&origin, a_len, b_len, dir, sides, k);
        let new_ratio = recompute_ratio(a, b, w.start_a, w.end_a, w.start_b, w.end_b, w.len);
        if new_ratio.is_below(&ratio) {
            strike += 1;
        } else {
            strike = 0;
            *ret = SubstringResult {
                start_a: w.start_a,
                end_a: w.end_a,
                start_b: w.start_b,
                end_b: w.end_b,
                len: w.len,
                edit_ratio: new_ratio,
            };
        }
    }
}

} // verus!
