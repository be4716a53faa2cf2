//! What the searches and the alignment give for sequences that share
//! nothing.

use crate::alignment::{
    alignment, alignment_upto, flat_text, gap_a, gap_b, gap_segments, read_in, tidy,
};
use crate::comparativus::{
    accepting_key, after_keys, first_positions, gram_count, indexed_finds, indexed_matches,
    lemma_first_positions, looked_up, Settings,
};
use crate::frequency::lemma_dot_product_disjoint;
use crate::matrix::{all_finds, dense_matches, finds, row_finds, run_len};
use crate::ratio::Ratio;
use crate::symbol::{windows_agree, Symbol};
use crate::synonyms::Token;
use crate::utils::{cosine_of, Result, Similarity, Substring, SubstringResult};
use vstd::prelude::*;

verus! {

/// No symbol of `a` accepts a symbol of `b`.
pub open spec fn nothing_agrees<T: Symbol>(a: Seq<T>, b: Seq<T>) -> bool {
    forall|i: int, j: int|
        0 <= i < a.len() && 0 <= j < b.len() ==> !#[trigger] a[i].same_as(&b[j])
}

/// Where nothing agrees, no run begins.
proof fn lemma_no_run<T: Symbol>(a: Seq<T>, b: Seq<T>, ratio: Ratio, i: int, j: int)
    requires
        nothing_agrees(a, b),
    ensures
        run_len(a, b, ratio, i, j) == 0,
    decreases i + 1,
{
    if !(i < 0 || j < 0 || i >= a.len() || j >= b.len()) {
        lemma_no_run(a, b, ratio, i - 1, j - 1);
    }
}

/// Where nothing agrees, a row keeps no run.
proof fn lemma_no_row_finds<T: Symbol>(
    a: Seq<T>,
    b: Seq<T>,
    ratio: Ratio,
    min_len: usize,
    i: int,
    cols: nat,
)
    requires
        nothing_agrees(a, b),
    ensures
        row_finds(a, b, ratio, min_len, i, cols).len() == 0,
    decreases cols,
{
    if cols != 0 {
        lemma_no_row_finds(a, b, ratio, min_len, i, (cols - 1) as nat);
        lemma_no_run(a, b, ratio, i - 1, cols - 2);
    }
}

/// Where nothing agrees, the table keeps no run.
proof fn lemma_no_finds<T: Symbol>(a: Seq<T>, b: Seq<T>, ratio: Ratio, min_len: usize, rows: nat)
    requires
        nothing_agrees(a, b),
    ensures
        finds(a, b, ratio, min_len, rows).len() == 0,
    decreases rows,
{
    if rows != 0 {
        lemma_no_finds(a, b, ratio, min_len, (rows - 1) as nat);
        lemma_no_row_finds(a, b, ratio, min_len, rows - 1, b.len());
    }
}

/// Two sequences of which no symbol accepts a symbol of the other have no
/// match in their table, whatever the threshold.
pub proof fn lemma_dense_finds_nothing<T: Symbol>(
    a: Seq<T>,
    b: Seq<T>,
    min_len: usize,
    ratio: Ratio,
    max_substrings: nat,
    max_strikes: nat,
)
    requires
        nothing_agrees(a, b),
    ensures
        all_finds(a, b, ratio, min_len).len() == 0,
        dense_matches(a, b, min_len, ratio, max_substrings, max_strikes).len() == 0,
{
    lemma_no_finds(a, b, ratio, min_len, a.len());
}

/// No n-gram of `b` accepts an n-gram of `a`.
pub open spec fn no_gram_agrees(a: Seq<Token>, b: Seq<Token>, k: nat) -> bool {
    forall|p: int, q: int|
        0 <= p < gram_count(a.len(), k) && 0 <= q < gram_count(b.len(), k) ==> !#[trigger] windows_agree(
            b,
            q,
            a,
            p,
            k as int,
        )
}

/// Where no key accepts what is looked for, nothing is found.
proof fn lemma_no_accepting_key(
    text: Seq<Token>,
    keys: Seq<usize>,
    probe: Seq<Token>,
    at: int,
    k: nat,
    from: int,
)
    requires
        0 <= from,
        forall|idx: int|
            0 <= idx < keys.len() ==> !windows_agree(text, #[trigger] keys[idx] as int, probe, at, k as int),
    ensures
        accepting_key(text, keys, probe, at, k, from) is None,
    decreases keys.len() - from,
{
    if from < keys.len() {
        lemma_no_accepting_key(text, keys, probe, at, k, from + 1);
    }
}

/// Where no n-gram agrees, the n-grams of `a` lead to no match.
proof fn lemma_no_keys(a: Seq<Token>, b: Seq<Token>, k: nat, s: Settings, upto: nat)
    requires
        no_gram_agrees(a, b, k),
        a.len() <= usize::MAX,
        b.len() <= usize::MAX,
        upto <= first_positions(a, k, gram_count(a.len(), k)).len(),
    ensures
        after_keys(a, b, k, s, upto).matches.len() == 0,
        !after_keys(a, b, k, s, upto).truncated,
    decreases upto,
{
    if upto != 0 {
        lemma_no_keys(a, b, k, s, (upto - 1) as nat);
        let keys_a = first_positions(a, k, gram_count(a.len(), k));
        let keys_b = first_positions(b, k, gram_count(b.len(), k));
        let pa = keys_a[upto - 1];
        lemma_first_positions(a, k, gram_count(a.len(), k), upto - 1);
        assert forall|idx: int| 0 <= idx < keys_b.len() implies !windows_agree(
            b,
            #[trigger] keys_b[idx] as int,
            a,
            pa as int,
            k as int,
        ) by {
            lemma_first_positions(b, k, gram_count(b.len(), k), idx);
        }
        lemma_no_accepting_key(b, keys_b, a, pa as int, k, 0);
        assert(looked_up(b, a, pa as int, k) is None);
    }
}

/// Two sequences of which no n-gram of the second accepts an n-gram of
/// the first have no match in the n-gram index, and the search is not cut
/// short.
pub proof fn lemma_index_finds_nothing(a: Seq<Token>, b: Seq<Token>, k: nat, s: Settings)
    requires
        no_gram_agrees(a, b, k),
        a.len() <= usize::MAX,
        b.len() <= usize::MAX,
    ensures
        indexed_finds(a, b, k, s).matches.len() == 0,
        !indexed_finds(a, b, k, s).truncated,
        indexed_matches(a, b, k, s).len() == 0,
{
    lemma_no_keys(a, b, k, s, first_positions(a, k, gram_count(a.len(), k)).len());
    assert(indexed_finds(a, b, k, s).matches =~= Seq::<SubstringResult>::empty());
}

/// The gap that spans two sequences.
pub open spec fn one_gap(a: Seq<Token>, b: Seq<Token>) -> Result {
    Result {
        a: Substring { start: 0, end: a.len() as usize },
        b: Substring { start: 0, end: b.len() as usize },
        similarity: Similarity::Cosine(cosine_of(flat_text(a), flat_text(b))),
        levenshteinMatch: false,
    }
}

/// Without a match the alignment of two sequences is one gap that spans
/// both, unless both are empty; where the two read no symbol in common,
/// its cosine similarity is zero.
pub proof fn lemma_alignment_without_matches(a: Seq<Token>, b: Seq<Token>)
    requires
        a.len() <= usize::MAX,
        b.len() <= usize::MAX,
    ensures
        a.len() > 0 || b.len() > 0 ==> alignment(Seq::empty(), Seq::empty(), a, b) == seq![
            one_gap(a, b),
        ],
        a.len() == 0 && b.len() == 0 ==> alignment(Seq::empty(), Seq::empty(), a, b).len() == 0,
        (forall|i: int, j: int|
            0 <= i < flat_text(a).len() && 0 <= j < flat_text(b).len() ==> flat_text(a)[i]
                != flat_text(b)[j]) ==> cosine_of(flat_text(a), flat_text(b)).dot == 0,
{
    let none = Seq::<SubstringResult>::empty();
    assert(alignment_upto(none, none, a, b, 0) =~= Seq::<Result>::empty());
    assert(a.subrange(0, a.len() as int) =~= a);
    assert(b.subrange(0, b.len() as int) =~= b);
    let range_a = gap_a(none, a.len(), 0);
    let range_b = gap_b(none, b.len(), 0);
    assert(tidy(range_a, a.len()) == range_a);
    assert(tidy(range_b, b.len()) == range_b);
    assert(read_in(a, range_a) == flat_text(a));
    assert(read_in(b, range_b) == flat_text(b));
    if a.len() > 0 || b.len() > 0 {
        assert(gap_segments(none, none, a, b, 0) =~= seq![one_gap(a, b)]);
        assert(alignment(none, none, a, b) =~= seq![one_gap(a, b)]);
    } else {
        assert(alignment(none, none, a, b) =~= Seq::<Result>::empty());
    }
    if forall|i: int, j: int|
        0 <= i < flat_text(a).len() && 0 <= j < flat_text(b).len() ==> flat_text(a)[i] != flat_text(
            b,
        )[j] {
        lemma_dot_product_disjoint(flat_text(a), flat_text(b));
    }
}

} // verus!
