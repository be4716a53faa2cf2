use crate::symbol::Symbol;
use vstd::prelude::*;

verus! {

/// The least of three numbers.
pub open spec fn min3(x: nat, y: nat, z: nat) -> nat {
    if x <= y && x <= z {
        x
    } else if y <= z {
        y
    } else {
        z
    }
}

/// The Levenshtein distance from `a` to `b`, by its recurrence on the last
/// symbols. It is the least number of insertions, deletions and
/// substitutions of one symbol that turn `a` into `b`: see
/// `scripts::lemma_distance_is_least_cost`.
pub open spec fn edit_distance<T: Symbol>(a: Seq<T>, b: Seq<T>) -> nat
    decreases a.len() + b.len(),
{
    if a.len() == 0 {
        b.len()
    } else if b.len() == 0 {
        a.len()
    } else if a.last().same_as(&b.last()) {
        edit_distance(a.drop_last(), b.drop_last())
    } else {
        1 + min3(
            edit_distance(a.drop_last(), b),
            edit_distance(a, b.drop_last()),
            edit_distance(a.drop_last(), b.drop_last()),
        )
    }
}

/// The distance never exceeds the longer of the two lengths.
pub proof fn lemma_edit_distance_upper<T: Symbol>(a: Seq<T>, b: Seq<T>)
    ensures
        edit_distance(a, b) <= a.len() || edit_distance(a, b) <= b.len(),
        a.len() == b.len() ==> edit_distance(a, b) <= a.len(),
    decreases a.len() + b.len(),
{
    if a.len() != 0 && b.len() != 0 {
        lemma_edit_distance_upper(a.drop_last(), b.drop_last());
    }
}

/// The distance is at least the difference of the two lengths.
pub proof fn lemma_edit_distance_lower<T: Symbol>(a: Seq<T>, b: Seq<T>)
    ensures
        edit_distance(a, b) + a.len() >= b.len(),
        edit_distance(a, b) + b.len() >= a.len(),
    decreases a.len() + b.len(),
{
    if a.len() != 0 && b.len() != 0 {
        lemma_edit_distance_lower(a.drop_last(), b.drop_last());
        lemma_edit_distance_lower(a.drop_last(), b);
        lemma_edit_distance_lower(a, b.drop_last());
    }
}

/// Two sequences that agree position by position are at distance zero.
pub proof fn lemma_edit_distance_agree<T: Symbol>(a: Seq<T>, b: Seq<T>)
    requires
        a.len() == b.len(),
        forall|i: int| 0 <= i < a.len() ==> (#[trigger] a[i]).same_as(&b[i]),
    ensures
        edit_distance(a, b) == 0,
    decreases a.len(),
{
    if a.len() != 0 {
        lemma_edit_distance_agree(a.drop_last(), b.drop_last());
    }
}

/// A sequence is at distance zero from itself.
pub proof fn lemma_edit_distance_self<T: Symbol>(a: Seq<T>)
    ensures
        edit_distance(a, a) == 0,
{
    assert forall|i: int| 0 <= i < a.len() implies (#[trigger] a[i]).same_as(&a[i]) by {
        a[i].same_as_self();
    }
    lemma_edit_distance_agree(a, a);
}

} // verus!
