use vstd::prelude::*;

verus! {

/// How often `symbol` occurs in `text`.
pub open spec fn count_in(text: Seq<char>, symbol: char) -> nat
    decreases text.len(),
{
    if text.len() == 0 {
        0
    } else {
        count_in(text.drop_last(), symbol) + if text.last() == symbol {
            1nat
        } else {
            0nat
        }
    }
}

/// The dot product of the frequency vectors of `a` and `b`: the sum, over
/// the symbols, of the frequency in `a` times the frequency in `b`. It is
/// written here as the sum, over the positions of `a`, of the frequency in
/// `b` of the symbol that stands there.
pub open spec fn dot_product(a: Seq<char>, b: Seq<char>) -> nat
    decreases a.len(),
{
    if a.len() == 0 {
        0
    } else {
        dot_product(a.drop_last(), b) + count_in(b, a.last())
    }
}

/// A symbol occurs in a text no more often than the text is long.
pub proof fn lemma_count_in_bound(text: Seq<char>, symbol: char)
    ensures
        count_in(text, symbol) <= text.len(),
    decreases text.len(),
{
    if text.len() != 0 {
        lemma_count_in_bound(text.drop_last(), symbol);
    }
}

/// The dot product is at most the product of the lengths.
pub proof fn lemma_dot_product_bound(a: Seq<char>, b: Seq<char>)
    ensures
        dot_product(a, b) <= a.len() * b.len(),
    decreases a.len(),
{
    if a.len() != 0 {
        lemma_dot_product_bound(a.drop_last(), b);
        lemma_count_in_bound(b, a.last());
        assert((a.len() - 1) * b.len() + b.len() == a.len() * b.len()) by (nonlinear_arith);
    }
}

/// Texts that share no symbol have the dot product zero.
pub proof fn lemma_dot_product_disjoint(a: Seq<char>, b: Seq<char>)
    requires
        forall|i: int, j: int| 0 <= i < a.len() && 0 <= j < b.len() ==> a[i] != b[j],
    ensures
        dot_product(a, b) == 0,
    decreases a.len(),
{
    if a.len() != 0 {
        lemma_dot_product_disjoint(a.drop_last(), b);
        lemma_count_absent(b, a.last());
    }
}

/// A symbol that a text does not hold occurs in it zero times.
pub proof fn lemma_count_absent(text: Seq<char>, symbol: char)
    requires
        forall|j: int| 0 <= j < text.len() ==> text[j] != symbol,
    ensures
        count_in(text, symbol) == 0,
    decreases text.len(),
{
    if text.len() != 0 {
        lemma_count_absent(text.drop_last(), symbol);
    }
}

/// One symbol more at the end of the second text adds to the dot product
/// the frequency of that symbol in the first.
proof fn lemma_dot_product_push(a: Seq<char>, b: Seq<char>, symbol: char)
    ensures
        dot_product(a, b.push(symbol)) == dot_product(a, b) + count_in(a, symbol),
    decreases a.len(),
{
    if a.len() != 0 {
        lemma_dot_product_push(a.drop_last(), b, symbol);
        assert(b.push(symbol).drop_last() =~= b);
    }
}

/// The dot product of the frequency vectors does not depend on the order
/// of the two texts.
pub proof fn lemma_dot_product_symmetric(a: Seq<char>, b: Seq<char>)
    ensures
        dot_product(a, b) == dot_product(b, a),
    decreases b.len(),
{
    if b.len() == 0 {
        assert forall|i: int, j: int| 0 <= i < a.len() && 0 <= j < b.len() implies a[i] != b[j] by {}
        lemma_dot_product_disjoint(a, b);
    } else {
        lemma_dot_product_symmetric(a, b.drop_last());
        lemma_dot_product_push(a, b.drop_last(), b.last());
        assert(b.drop_last().push(b.last()) =~= b);
    }
}

} // verus!
