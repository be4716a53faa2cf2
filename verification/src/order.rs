use crate::utils::SubstringResult;
use vstd::prelude::*;
use vstd::seq_lib::{to_multiset_build, to_multiset_insert};

verus! {

/// What a match is ordered by: where it starts on side A, or on side B.
pub open spec fn key_of(m: SubstringResult, by_a: bool) -> usize {
    if by_a {
        m.start_a
    } else {
        m.start_b
    }
}

/// No match of `s` starts before one in front of it.
pub open spec fn ordered(s: Seq<SubstringResult>, by_a: bool) -> bool {
    forall|i: int, j: int| 0 <= i <= j < s.len() ==> key_of(s[i], by_a) <= key_of(s[j], by_a)
}

/// Where `m` goes into `sorted`: behind the last match that does not start
/// after it.
pub open spec fn place(sorted: Seq<SubstringResult>, m: SubstringResult, by_a: bool) -> int
    decreases sorted.len(),
{
    if sorted.len() == 0 {
        0
    } else if key_of(sorted.last(), by_a) <= key_of(m, by_a) {
        sorted.len() as int
    } else {
        place(sorted.drop_last(), m, by_a)
    }
}

/// The matches of `s` in the order of their starts. Matches that start at
/// one position keep the order that they have in `s`.
pub open spec fn sorted_by(s: Seq<SubstringResult>, by_a: bool) -> Seq<SubstringResult>
    decreases s.len(),
{
    if s.len() == 0 {
        Seq::empty()
    } else {
        let before = sorted_by(s.drop_last(), by_a);
        before.insert(place(before, s.last(), by_a), s.last())
    }
}

/// The place lies in the sequence; in an ordered sequence every match in
/// front of it starts no later than `m`, and every match behind it later.
pub proof fn lemma_place(sorted: Seq<SubstringResult>, m: SubstringResult, by_a: bool)
    ensures
        0 <= place(sorted, m, by_a) <= sorted.len(),
        forall|t: int|
            place(sorted, m, by_a) <= t < sorted.len() ==> key_of(m, by_a) < key_of(
                #[trigger] sorted[t],
                by_a,
            ),
        ordered(sorted, by_a) ==> forall|t: int|
            0 <= t < place(sorted, m, by_a) ==> key_of(#[trigger] sorted[t], by_a) <= key_of(
                m,
                by_a,
            ),
    decreases sorted.len(),
{
    if sorted.len() != 0 && !(key_of(sorted.last(), by_a) <= key_of(m, by_a)) {
        lemma_place(sorted.drop_last(), m, by_a);
        let p = place(sorted.drop_last(), m, by_a);
        assert forall|t: int| p <= t < sorted.len() implies key_of(m, by_a) < key_of(
            #[trigger] sorted[t],
            by_a,
        ) by {
            if t < sorted.len() - 1 {
                assert(sorted.drop_last()[t] == sorted[t]);
            }
        }
        if ordered(sorted, by_a) {
            assert(ordered(sorted.drop_last(), by_a)) by {
                assert forall|i: int, j: int| 0 <= i <= j < sorted.drop_last().len() implies key_of(
                    sorted.drop_last()[i],
                    by_a,
                ) <= key_of(sorted.drop_last()[j], by_a) by {
                    assert(sorted.drop_last()[i] == sorted[i]);
                    assert(sorted.drop_last()[j] == sorted[j]);
                }
            }
            assert forall|t: int| 0 <= t < p implies key_of(#[trigger] sorted[t], by_a) <= key_of(
                m,
                by_a,
            ) by {
                assert(sorted.drop_last()[t] == sorted[t]);
            }
        }
    }
}

/// An ordered sequence with a match put at its place is ordered.
pub proof fn lemma_insert_ordered(sorted: Seq<SubstringResult>, m: SubstringResult, by_a: bool)
    requires
        ordered(sorted, by_a),
    ensures
        ordered(sorted.insert(place(sorted, m, by_a), m), by_a),
{
    lemma_place(sorted, m, by_a);
    let p = place(sorted, m, by_a);
    let next = sorted.insert(p, m);
    assert forall|i: int, j: int| 0 <= i <= j < next.len() implies key_of(next[i], by_a) <= key_of(
        next[j],
        by_a,
    ) by {
        if i < p {
            assert(next[i] == sorted[i]);
        } else if i > p {
            assert(next[i] == sorted[i - 1]);
        }
        if j < p {
            assert(next[j] == sorted[j]);
        } else if j > p {
            assert(next[j] == sorted[j - 1]);
        }
    }
}

/// The sorted sequence is ordered, and it holds the matches of `s`, each as
/// often as `s` does.
pub proof fn lemma_sorted_by(s: Seq<SubstringResult>, by_a: bool)
    ensures
        ordered(sorted_by(s, by_a), by_a),
        sorted_by(s, by_a).to_multiset() == s.to_multiset(),
        sorted_by(s, by_a).len() == s.len(),
    decreases s.len(),
{
    if s.len() == 0 {
        assert(s =~= Seq::empty());
    } else {
        let before = sorted_by(s.drop_last(), by_a);
        lemma_sorted_by(s.drop_last(), by_a);
        lemma_place(before, s.last(), by_a);
        lemma_insert_ordered(before, s.last(), by_a);
        to_multiset_insert(before, place(before, s.last(), by_a), s.last());
        to_multiset_build(s.drop_last(), s.last());
        assert(s.drop_last().push(s.last()) =~= s);
    }
}

/// What holds of every match of `s` holds of every match of the sorted
/// sequence.
pub proof fn lemma_sorted_by_keeps(
    s: Seq<SubstringResult>,
    by_a: bool,
    holds: spec_fn(SubstringResult) -> bool,
)
    requires
        forall|t: int| 0 <= t < s.len() ==> holds(#[trigger] s[t]),
    ensures
        forall|t: int|
            0 <= t < sorted_by(s, by_a).len() ==> holds(#[trigger] sorted_by(s, by_a)[t]),
    decreases s.len(),
{
    if s.len() != 0 {
        let before = sorted_by(s.drop_last(), by_a);
        assert forall|t: int| 0 <= t < s.drop_last().len() implies holds(
            #[trigger] s.drop_last()[t],
        ) by {
            assert(s.drop_last()[t] == s[t]);
        }
        lemma_sorted_by_keeps(s.drop_last(), by_a, holds);
        lemma_place(before, s.last(), by_a);
        let p = place(before, s.last(), by_a);
        let next = before.insert(p, s.last());
        assert forall|t: int| 0 <= t < next.len() implies holds(#[trigger] next[t]) by {
            if t < p {
                assert(next[t] == before[t]);
            } else if t > p {
                assert(next[t] == before[t - 1]);
            } else {
                assert(next[t] == s.last());
            }
        }
    }
}

fn start_of(m: &SubstringResult, by_a: bool) -> (key: usize)
    ensures
        key == key_of(*m, by_a),
{
    if by_a {
        m.start_a
    } else {
        m.start_b
    }
}

/// The matches in the order of their starts on side A, or on side B. The
/// order among matches that start at one position is kept.
pub fn sort_by_start(matches: &Vec<SubstringResult>, by_a: bool) -> (sorted: Vec<SubstringResult>)
    ensures
        sorted@ == sorted_by(matches@, by_a),
        ordered(sorted@, by_a),
        sorted@.to_multiset() == matches@.to_multiset(),
        sorted@.len() == matches@.len(),
{
    let mut sorted: Vec<SubstringResult> = Vec::new();
    let mut i: usize = 0;
    while i < matches.len()
        invariant
            i <= matches@.len(),
            sorted@ == sorted_by(matches@.take(i as int), by_a),
            sorted@.len() == i,
        decreases matches@.len() - i,
    {
        let m = matches[i];
        let key = start_of(&m, by_a);
        let mut p: usize = sorted.len();
        assert(sorted@.take(sorted@.len() as int) =~= sorted@);
        while p > 0 && start_of(&sorted[p - 1], by_a) > key
            invariant
                p <= sorted@.len(),
                key == key_of(m, by_a),
                place(sorted@, m, by_a) == place(sorted@.take(p as int), m, by_a),
            decreases p,
        {
            assert(sorted@.take(p as int).drop_last() =~= sorted@.take(p - 1));
            p -= 1;
        }
        proof {
            if p > 0 {
                assert(sorted@.take(p as int).last() == sorted@[p - 1]);
            }
            assert(p == place(sorted@, m, by_a));
            assert(matches@.take(i + 1).drop_last() =~= matches@.take(i as int));
            lemma_sorted_by(matches@.take(i + 1), by_a);
        }
        sorted.insert(p, m);
        i += 1;
    }
    proof {
        assert(matches@.take(i as int) =~= matches@);
        lemma_sorted_by(matches@, by_a);
    }
    sorted
}

} // verus!
