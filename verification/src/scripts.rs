//! Edit scripts, and the distance as the least cost of one.

use crate::distance::{edit_distance, min3};
use crate::symbol::Symbol;
use vstd::prelude::*;

verus! {

/// One step of an edit script. The steps are read from the ends of the two
/// sequences towards their beginnings.
pub enum Edit {
    /// The last symbols of both sequences agree and are kept.
    Keep,
    /// The last symbol of the first sequence is replaced by the last of the
    /// second.
    Substitute,
    /// The last symbol of the second sequence is inserted.
    Insert,
    /// The last symbol of the first sequence is deleted.
    Delete,
}

/// Whether the script turns `a` into `b`.
pub open spec fn turns_into<T: Symbol>(script: Seq<Edit>, a: Seq<T>, b: Seq<T>) -> bool
    decreases script.len(),
{
    if script.len() == 0 {
        a.len() == 0 && b.len() == 0
    } else {
        match script.last() {
            Edit::Keep => a.len() > 0 && b.len() > 0 && a.last().same_as(&b.last()) && turns_into(
                script.drop_last(),
                a.drop_last(),
                b.drop_last(),
            ),
            Edit::Substitute => a.len() > 0 && b.len() > 0 && turns_into(
                script.drop_last(),
                a.drop_last(),
                b.drop_last(),
            ),
            Edit::Insert => b.len() > 0 && turns_into(script.drop_last(), a, b.drop_last()),
            Edit::Delete => a.len() > 0 && turns_into(script.drop_last(), a.drop_last(), b),
        }
    }
}

/// The number of insertions, deletions and substitutions of the script.
pub open spec fn cost(script: Seq<Edit>) -> nat
    decreases script.len(),
{
    if script.len() == 0 {
        0
    } else {
        cost(script.drop_last()) + if script.last() is Keep {
            0nat
        } else {
            1nat
        }
    }
}

/// A script of the least cost: it follows the recurrence of the distance.
pub open spec fn cheapest<T: Symbol>(a: Seq<T>, b: Seq<T>) -> Seq<Edit>
    decreases a.len() + b.len(),
{
    if a.len() == 0 && b.len() == 0 {
        Seq::empty()
    } else if a.len() == 0 {
        cheapest(a, b.drop_last()).push(Edit::Insert)
    } else if b.len() == 0 {
        cheapest(a.drop_last(), b).push(Edit::Delete)
    } else if a.last().same_as(&b.last()) {
        cheapest(a.drop_last(), b.drop_last()).push(Edit::Keep)
    } else {
        let deleted = edit_distance(a.drop_last(), b);
        let inserted = edit_distance(a, b.drop_last());
        let replaced = edit_distance(a.drop_last(), b.drop_last());
        if deleted <= inserted && deleted <= replaced {
            cheapest(a.drop_last(), b).push(Edit::Delete)
        } else if inserted <= replaced {
            cheapest(a, b.drop_last()).push(Edit::Insert)
        } else {
            cheapest(a.drop_last(), b.drop_last()).push(Edit::Substitute)
        }
    }
}

/// `distance` is the least cost of a script that turns `a` into `b`: a
/// script reaches it, and none costs less.
pub open spec fn is_least_cost<T: Symbol>(distance: nat, a: Seq<T>, b: Seq<T>) -> bool {
    &&& exists|script: Seq<Edit>| #[trigger] turns_into(script, a, b) && cost(script) == distance
    &&& forall|script: Seq<Edit>| #[trigger] turns_into(script, a, b) ==> cost(script) >= distance
}

/// The distance of an empty sequence to `b` is the length of `b`, and the
/// distance of `a` to an empty sequence the length of `a`.
proof fn lemma_distance_to_empty<T: Symbol>(a: Seq<T>, b: Seq<T>)
    ensures
        a.len() == 0 ==> edit_distance(a, b) == b.len(),
        b.len() == 0 ==> edit_distance(a, b) == a.len(),
{
}

/// One symbol more or less at the end of either sequence changes the
/// distance by one at most.
proof fn lemma_neighbours<T: Symbol>(a: Seq<T>, b: Seq<T>)
    ensures
        a.len() > 0 ==> edit_distance(a.drop_last(), b) <= 1 + edit_distance(a, b),
        b.len() > 0 ==> edit_distance(a, b.drop_last()) <= 1 + edit_distance(a, b),
        a.len() > 0 ==> edit_distance(a, b) <= 1 + edit_distance(a.drop_last(), b),
        b.len() > 0 ==> edit_distance(a, b) <= 1 + edit_distance(a, b.drop_last()),
    decreases a.len() + b.len(),
{
    if a.len() > 0 && b.len() > 0 {
        lemma_neighbours(a.drop_last(), b);
        lemma_neighbours(a, b.drop_last());
        lemma_neighbours(a.drop_last(), b.drop_last());
    } else if a.len() > 0 {
        lemma_distance_to_empty(a, b);
        lemma_distance_to_empty(a.drop_last(), b);
    } else if b.len() > 0 {
        lemma_distance_to_empty(a, b);
        lemma_distance_to_empty(a, b.drop_last());
    }
}

/// The script that follows the recurrence turns `a` into `b` at the cost
/// of the distance.
pub proof fn lemma_distance_is_reached<T: Symbol>(a: Seq<T>, b: Seq<T>)
    ensures
        turns_into(cheapest(a, b), a, b),
        cost(cheapest(a, b)) == edit_distance(a, b),
    decreases a.len() + b.len(),
{
    if a.len() == 0 && b.len() == 0 {
    } else if a.len() == 0 {
        lemma_distance_is_reached(a, b.drop_last());
        let script = cheapest(a, b);
        assert(script.drop_last() =~= cheapest(a, b.drop_last()));
        lemma_distance_to_empty(a, b);
        lemma_distance_to_empty(a, b.drop_last());
    } else if b.len() == 0 {
        lemma_distance_is_reached(a.drop_last(), b);
        let script = cheapest(a, b);
        assert(script.drop_last() =~= cheapest(a.drop_last(), b));
        lemma_distance_to_empty(a, b);
        lemma_distance_to_empty(a.drop_last(), b);
    } else {
        lemma_distance_is_reached(a.drop_last(), b);
        lemma_distance_is_reached(a, b.drop_last());
        lemma_distance_is_reached(a.drop_last(), b.drop_last());
        let script = cheapest(a, b);
        if a.last().same_as(&b.last()) {
            assert(script.drop_last() =~= cheapest(a.drop_last(), b.drop_last()));
        } else {
            let deleted = edit_distance(a.drop_last(), b);
            let inserted = edit_distance(a, b.drop_last());
            let replaced = edit_distance(a.drop_last(), b.drop_last());
            if deleted <= inserted && deleted <= replaced {
                assert(script.drop_last() =~= cheapest(a.drop_last(), b));
            } else if inserted <= replaced {
                assert(script.drop_last() =~= cheapest(a, b.drop_last()));
            } else {
                assert(script.drop_last() =~= cheapest(a.drop_last(), b.drop_last()));
            }
            assert(edit_distance(a, b) == 1 + min3(deleted, inserted, replaced));
        }
    }
}

/// No script that turns `a` into `b` costs less than the distance.
pub proof fn lemma_distance_is_least<T: Symbol>(script: Seq<Edit>, a: Seq<T>, b: Seq<T>)
    requires
        turns_into(script, a, b),
    ensures
        cost(script) >= edit_distance(a, b),
    decreases script.len(),
{
    if script.len() != 0 {
        lemma_neighbours(a, b);
        match script.last() {
            Edit::Keep => {
                lemma_distance_is_least(script.drop_last(), a.drop_last(), b.drop_last());
            },
            Edit::Substitute => {
                lemma_distance_is_least(script.drop_last(), a.drop_last(), b.drop_last());
                lemma_neighbours(a.drop_last(), b);
                lemma_neighbours(a, b.drop_last());
            },
            Edit::Insert => {
                lemma_distance_is_least(script.drop_last(), a, b.drop_last());
            },
            Edit::Delete => {
                lemma_distance_is_least(script.drop_last(), a.drop_last(), b);
            },
        }
    }
}

/// The distance is the least number of insertions, deletions and
/// substitutions of one symbol that turn `a` into `b`.
pub proof fn lemma_distance_is_least_cost<T: Symbol>(a: Seq<T>, b: Seq<T>)
    ensures
        is_least_cost(edit_distance(a, b), a, b),
{
    lemma_distance_is_reached(a, b);
    assert forall|script: Seq<Edit>| #[trigger] turns_into(script, a, b) implies cost(script)
        >= edit_distance(a, b) by {
        lemma_distance_is_least(script, a, b);
    }
}

} // verus!
