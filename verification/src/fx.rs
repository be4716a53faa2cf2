//! The hash maps of `rustc_hash` that the library counts and indexes with.
//! What is stated of them here is taken on trust.

use rustc_hash::{FxBuildHasher, FxHashMap};
use vstd::prelude::*;

verus! {

/// `rustc_hash::FxBuildHasher`, the builder of the hashers of the maps
/// below. Nothing is read from a value of it.
#[verifier::external_type_specification]
#[verifier::external_body]
pub struct ExFxBuildHasher(FxBuildHasher);

/// `FxHashMap::default`: a map that holds nothing.
#[verifier::external_body]
pub(crate) fn new_counts() -> (counts: FxHashMap<char, usize>)
    ensures
        (counts@ == Map::<char, usize>::empty()),
{
    FxHashMap::default()
}

/// `HashMap::get` on a map of `rustc_hash`: the number kept for `symbol`,
/// if one is kept.
#[verifier::external_body]
pub(crate) fn count_of(counts: &FxHashMap<char, usize>, symbol: char) -> (n: Option<&usize>)
    ensures
        match n {
            Some(n) => counts@.contains_key(symbol) && *n == counts@[symbol],
            None => !counts@.contains_key(symbol),
        },
{
    counts.get(&symbol)
}

/// `HashMap::insert` on a map of `rustc_hash`: `n` is kept for `symbol`
/// from now on, and nothing else changes.
#[verifier::external_body]
pub(crate) fn set_count(counts: &mut FxHashMap<char, usize>, symbol: char, n: usize)
    ensures
        final(counts)@ == old(counts)@.insert(symbol, n),
{
    counts.insert(symbol, n);
}

/// What an index holds: for each n-gram, written as the texts of its
/// tokens, the positions kept for it.
pub uninterp spec fn index_contents(index: FxHashMap<Vec<Vec<char>>, Vec<usize>>) -> Map<
    Seq<Seq<char>>,
    Seq<usize>,
>;

/// What a key of an index reads as.
pub open spec fn key_texts(key: Vec<Vec<char>>) -> Seq<Seq<char>> {
    Seq::new(key@.len(), |t: int| key@[t]@)
}

/// `FxHashMap::default`: an index that holds nothing.
#[verifier::external_body]
pub(crate) fn new_index() -> (index: FxHashMap<Vec<Vec<char>>, Vec<usize>>)
    ensures
        (index_contents(index) == Map::<Seq<Seq<char>>, Seq<usize>>::empty()),
{
    FxHashMap::default()
}

/// `HashMap::get` on a map of `rustc_hash`: the positions kept for the
/// n-gram that `key` reads as, if any are kept. Whether two keys are the
/// same n-gram is decided by what they read as.
#[verifier::external_body]
pub(crate) fn index_get<'m>(
    index: &'m FxHashMap<Vec<Vec<char>>, Vec<usize>>,
    key: &Vec<Vec<char>>,
) -> (found: Option<&'m Vec<usize>>)
    ensures
        match found {
            Some(positions) => index_contents(*index).contains_key(key_texts(*key)) && positions@
                == index_contents(*index)[key_texts(*key)],
            None => !index_contents(*index).contains_key(key_texts(*key)),
        },
{
    index.get(key)
}

/// `HashMap::remove` on a map of `rustc_hash`: takes out the positions kept
/// for the n-gram that `key` reads as, and hands them over, if any are
/// kept.
#[verifier::external_body]
pub(crate) fn index_remove(index: &mut FxHashMap<Vec<Vec<char>>, Vec<usize>>, key: &Vec<Vec<char>>) -> (taken:
    Option<Vec<usize>>)
    ensures
        match taken {
            Some(positions) => {
                &&& index_contents(*old(index)).contains_key(key_texts(*key))
                &&& positions@ == index_contents(*old(index))[key_texts(*key)]
                &&& index_contents(*final(index)) == index_contents(*old(index)).remove(
                    key_texts(*key),
                )
            },
            None => {
                &&& !index_contents(*old(index)).contains_key(key_texts(*key))
                &&& index_contents(*final(index)) == index_contents(*old(index))
            },
        },
{
    index.remove(key)
}

/// `HashMap::insert` on a map of `rustc_hash`: `positions` are kept for the
/// n-gram that `key` reads as from now on, and nothing else changes.
#[verifier::external_body]
pub(crate) fn index_insert(
    index: &mut FxHashMap<Vec<Vec<char>>, Vec<usize>>,
    key: Vec<Vec<char>>,
    positions: Vec<usize>,
)
    ensures
        index_contents(*final(index)) == index_contents(*old(index)).insert(
            key_texts(key),
            positions@,
        ),
{
    index.insert(key, positions);
}

} // verus!
