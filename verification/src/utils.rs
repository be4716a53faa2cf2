use crate::distance::{edit_distance, lemma_edit_distance_lower, lemma_edit_distance_upper};
use crate::expansion::{
    expand_pass, expanded, fully_expanded, grown_from, lemma_pass_keeps_far_end, Direction, Sides,
};
use crate::frequency::{
    count_in, dot_product, lemma_count_in_bound, lemma_dot_product_bound,
    lemma_dot_product_symmetric,
};
use crate::fx::{count_of, new_counts, set_count};
use crate::growth::{
    lemma_backward_pass_law, lemma_forward_pass_law, lemma_growth_law, same_or_grown,
};
use crate::ratio::Ratio;
use crate::scripts::{is_least_cost, lemma_distance_is_least_cost};
use crate::symbol::Symbol;
use rustc_hash::FxHashMap;
use vstd::prelude::*;
use vstd::slice::slice_subrange;

verus! {

/// A pair of ranges, one in each sequence, that were found to be close.
///
/// `len` is the length of the range on side A, and `edit_ratio` the share
/// of those symbols that the edit distance of the two ranges leaves
/// untouched.
#[derive(Clone, Copy, Debug)]
pub struct SubstringResult {
    pub start_a: usize,
    pub end_a: usize,
    pub start_b: usize,
    pub end_b: usize,
    pub len: usize,
    pub edit_ratio: Ratio,
}

impl SubstringResult {
    /// Both ranges lie in their sequences, `len` is the length on side A and
    /// the ratio lies between zero and one.
    pub open spec fn wf(self, a_len: nat, b_len: nat) -> bool {
        &&& self.start_a <= self.end_a <= a_len
        &&& self.start_b <= self.end_b <= b_len
        &&& self.len == self.end_a - self.start_a
        &&& self.edit_ratio.in_unit_interval()
    }
}

/// A half-open range of positions in one sequence.
#[derive(Clone, Copy, Debug)]
pub struct Substring {
    pub start: usize,
    pub end: usize,
}

/// How alike the two ranges of a piece of an alignment are.
#[derive(Clone, Copy, Debug)]
pub enum Similarity {
    /// The edit ratio of a match.
    EditRatio(Ratio),
    /// The cosine similarity of the symbol frequencies of a gap, by its
    /// terms.
    Cosine(Cosine),
}

/// One piece of an alignment: a range on each side, how alike the two are,
/// and whether the piece is a match or a gap between matches.
#[allow(non_snake_case)]
#[derive(Clone, Copy, Debug)]
pub struct Result {
    pub a: Substring,
    pub b: Substring,
    pub similarity: Similarity,
    pub levenshteinMatch: bool,
}

/// One cell of the table of runs.
#[derive(Clone, Copy, Debug)]
pub struct MatrixElement {
    pub len: usize,
}

impl MatrixElement {
    /// Ends the run.
    pub fn zero(&mut self)
        ensures
            final(self).len == 0,
    {
        self.len = 0;
    }
}

/// A table of which only two rows are kept: row `i` lives where row `i - 2`
/// lived. A computation that reads no row but `i` and `i - 1` while it
/// fills row `i` sees in it what it would see in the full table.
pub struct EfficientMatrix<T> {
    row_len: usize,
    data: Vec<T>,
}

impl<T: Copy> EfficientMatrix<T> {
    /// The storage holds two rows.
    pub closed spec fn wf(&self) -> bool {
        &&& self.data@.len() == 2 * self.row_len
        &&& 2 * self.row_len <= usize::MAX
    }

    /// The number of columns.
    pub closed spec fn width(&self) -> nat {
        self.row_len as nat
    }

    /// Where row `i` begins in the storage.
    closed spec fn base(&self, i: int) -> int {
        if i % 2 == 0 {
            0
        } else {
            self.row_len as int
        }
    }

    /// What the table holds for row `i`, column `j`.
    pub closed spec fn cell(&self, i: int, j: int) -> T {
        self.data@[self.base(i) + j]
    }

    /// A table of `row_len` columns that holds `inital` everywhere.
    pub fn new(inital: T, row_len: usize) -> (m: Self)
        requires
            2 * row_len <= usize::MAX,
        ensures
            m.wf(),
            m.width() == row_len,
            forall|i: int, j: int| 0 <= j < row_len ==> m.cell(i, j) == inital,
    {
        let mut data: Vec<T> = Vec::new();
        let total: usize = 2 * row_len;
        let mut k: usize = 0;
        while k < total
            invariant
                k <= total,
                data@.len() == k,
                forall|t: int| 0 <= t < k ==> data@[t] == inital,
            decreases total - k,
        {
            data.push(inital);
            k += 1;
        }
        EfficientMatrix { row_len, data }
    }

    fn offset(&self, i: usize, j: usize) -> (at: usize)
        requires
            self.wf(),
            j < self.width(),
        ensures
            at == self.base(i as int) + j,
            at < self.data@.len(),
    {
        if i % 2 == 0 {
            j
        } else {
            self.row_len + j
        }
    }

    /// What the table holds for row `i`, column `j`.
    pub fn get(&self, i: usize, j: usize) -> (value: T)
        requires
            self.wf(),
            j < self.width(),
        ensures
            value == self.cell(i as int, j as int),
    {
        let at = self.offset(i, j);
        self.data[at]
    }

    /// Puts `value` into row `i`, column `j`. The rows that do not share
    /// their place with row `i` stay as they are.
    pub fn set(&mut self, i: usize, j: usize, value: T)
        requires
            old(self).wf(),
            j < old(self).width(),
        ensures
            final(self).wf(),
            final(self).width() == old(self).width(),
            final(self).cell(i as int, j as int) == value,
            forall|i2: int, j2: int|
                0 <= j2 < old(self).width() && (i2 % 2 != (i as int) % 2 || j2 != j)
                    ==> final(self).cell(i2, j2) == old(self).cell(i2, j2),
    {
        let at = self.offset(i, j);
        self.data.set(at, value);
    }
}

/// Whether the table of a computation over a sequence of `n` symbols can be
/// allocated: its two rows of `n + 1` cells must be countable.
pub open spec fn fits_table(n: nat) -> bool {
    2 * n + 2 <= usize::MAX
}

/// The Levenshtein distance from `a_chars` to `b_chars`: the least number
/// of insertions, deletions and substitutions of one symbol that turn the
/// first into the second. A symbol of the first that accepts the symbol
/// of the second that it meets costs nothing.
///
/// The table of the computation, two rows as long as `b_chars` and one
/// cell more, has to fit the machine.
pub fn levenshtein_edit_distance<T: Symbol>(a_chars: &[T], b_chars: &[T]) -> (distance: usize)
    requires
        fits_table(b_chars@.len()),
    ensures
        distance == edit_distance(a_chars@, b_chars@),
        is_least_cost(distance as nat, a_chars@, b_chars@),
        distance <= a_chars@.len() || distance <= b_chars@.len(),
        distance + a_chars@.len() >= b_chars@.len(),
        distance + b_chars@.len() >= a_chars@.len(),
{
    proof {
        lemma_edit_distance_upper(a_chars@, b_chars@);
        lemma_edit_distance_lower(a_chars@, b_chars@);
        lemma_distance_is_least_cost(a_chars@, b_chars@);
    }
    let n = a_chars.len();
    let m = b_chars.len();
    let ghost a = a_chars@;
    let ghost b = b_chars@;
    let mut l: EfficientMatrix<usize> = EfficientMatrix::new(0, m + 1);
    let mut j: usize = 0;
    while j <= m
        invariant
            j <= m + 1,
            m + 1 < usize::MAX,
            l.wf(),
            l.width() == m + 1,
            forall|t: int| 0 <= t < j ==> l.cell(0, t) == t,
        decreases m + 1 - j,
    {
        l.set(0, j, j);
        j += 1;
    }
    assert(a.take(0).len() == 0);
    assert forall|t: int| 0 <= t <= m implies l.cell(0, t) == edit_distance(
        a.take(0),
        #[trigger] b.take(t),
    ) by {}
    let mut i: usize = 0;
    while i < n
        invariant
            i <= n,
            n == a.len(),
            m == b.len(),
            a == a_chars@,
            b == b_chars@,
            m + 1 < usize::MAX,
            l.wf(),
            l.width() == m + 1,
            forall|t: int|
                0 <= t <= m ==> l.cell(i as int, t) == edit_distance(
                    a.take(i as int),
                    #[trigger] b.take(t),
                ),
        decreases n - i,
    {
        let row: usize = i + 1;
        assert(b.take(0).len() == 0);
        l.set(row, 0, row);
        let mut j: usize = 0;
        while j < m
            invariant
                j <= m,
                i < n,
                row == i + 1,
                n == a.len(),
                m == b.len(),
                a == a_chars@,
                b == b_chars@,
                m + 1 < usize::MAX,
                l.wf(),
                l.width() == m + 1,
                forall|t: int|
                    0 <= t <= m ==> l.cell(i as int, t) == edit_distance(
                        a.take(i as int),
                        #[trigger] b.take(t),
                    ),
                forall|t: int|
                    0 <= t <= j ==> l.cell(row as int, t) == edit_distance(
                        a.take(row as int),
                        #[trigger] b.take(t),
                    ),
            decreases m - j,
        {
            let col: usize = j + 1;
            let ghost head_a = a.take(row as int);
            let ghost head_b = b.take(col as int);
            proof {
                assert(head_a.drop_last() =~= a.take(i as int));
                assert(head_b.drop_last() =~= b.take(j as int));
                assert(head_a.last() == a[i as int]);
                assert(head_b.last() == b[j as int]);
                lemma_edit_distance_upper(head_a, head_b);
            }
            let diagonal = l.get(i, j);
            let value: usize = if a_chars[i].matches(&b_chars[j]) {
                diagonal
            } else {
                let up = l.get(i, col);
                let left = l.get(row, j);
                let least = if up <= left && up <= diagonal {
                    up
                } else if left <= diagonal {
                    left
                } else {
                    diagonal
                };
                least + 1
            };
            l.set(row, col, value);
            j += 1;
        }
        i += 1;
    }
    assert(a.take(n as int) =~= a);
    assert(b.take(m as int) =~= b);
    l.get(n, m)
}

/// The ratio of the window `[start_a, end_a)` of `a` against the window
/// `[start_b, end_b)` of `b`, taken over `len` symbols.
pub open spec fn window_ratio<T: Symbol>(
    a: Seq<T>,
    b: Seq<T>,
    start_a: int,
    end_a: int,
    start_b: int,
    end_b: int,
    len: nat,
) -> Ratio {
    Ratio::kept(len, edit_distance(a.subrange(start_a, end_a), b.subrange(start_b, end_b)))
}

/// The edit ratio of two windows: the share of `new_len` symbols that the
/// distance of the windows leaves untouched.
pub fn recompute_ratio<T: Symbol>(
    a: &[T],
    b: &[T],
    start_a: usize,
    new_end_a: usize,
    start_b: usize,
    new_end_b: usize,
    new_len: usize,
) -> (ratio: Ratio)
    requires
        start_a <= new_end_a <= a@.len(),
        start_b <= new_end_b <= b@.len(),
        fits_table((new_end_b - start_b) as nat),
    ensures
        ratio == window_ratio(
            a@,
            b@,
            start_a as int,
            new_end_a as int,
            start_b as int,
            new_end_b as int,
            new_len as nat,
        ),
        ratio.in_unit_interval(),
{
    let edit_distance = levenshtein_edit_distance(
        slice_subrange(a, start_a, new_end_a),
        slice_subrange(b, start_b, new_end_b),
    );
    Ratio::of_window(new_len, edit_distance)
}

/// Grows the right end of `ret` on both sides together.
pub fn expand_matches_forward<T: Symbol>(
    a: &[T],
    b: &[T],
    ratio: Ratio,
    max_strike: usize,
    ret: &mut SubstringResult,
)
    requires
        old(ret).wf(a@.len(), b@.len()),
        fits_table(b@.len()),
    ensures
        *final(ret) == expanded(
            a@,
            b@,
            ratio,
            max_strike as nat,
            *old(ret),
            Direction::Forward,
            Sides::Both,
        ),
        grown_from(*final(ret), *old(ret), ratio, a@.len(), b@.len()),
        same_or_grown(*final(ret), *old(ret), a@, b@, ratio),
        final(ret).start_a == old(ret).start_a,
        final(ret).start_b == old(ret).start_b,
        final(ret).end_a - old(ret).end_a == final(ret).len - old(ret).len,
        final(ret).end_b - old(ret).end_b == final(ret).len - old(ret).len,
        final(ret).end_a == old(ret).end_a ==> *final(ret) == *old(ret),
{
    expand_pass(a, b, ratio, max_strike, Direction::Forward, Sides::Both, ret);
    proof {
        assert(a@.len() == a.len() && b@.len() == b.len());
        lemma_forward_pass_law(a@, b@, ratio, max_strike as nat, *old(ret));
        lemma_pass_keeps_far_end(
            a@,
            b@,
            ratio,
            max_strike as nat,
            *old(ret),
            Direction::Forward,
            Sides::Both,
        );
    }
}

/// Grows the left end of `ret` on both sides together.
pub fn expand_matches_backward<T: Symbol>(
    a: &[T],
    b: &[T],
    ratio: Ratio,
    max_strike: usize,
    ret: &mut SubstringResult,
)
    requires
        old(ret).wf(a@.len(), b@.len()),
        fits_table(b@.len()),
    ensures
        *final(ret) == expanded(
            a@,
            b@,
            ratio,
            max_strike as nat,
            *old(ret),
            Direction::Backward,
            Sides::Both,
        ),
        grown_from(*final(ret), *old(ret), ratio, a@.len(), b@.len()),
        same_or_grown(*final(ret), *old(ret), a@, b@, ratio),
        final(ret).end_a == old(ret).end_a,
        final(ret).end_b == old(ret).end_b,
        old(ret).start_a - final(ret).start_a == final(ret).len - old(ret).len,
        old(ret).start_b - final(ret).start_b == final(ret).len - old(ret).len,
        final(ret).start_a == old(ret).start_a ==> *final(ret) == *old(ret),
{
    expand_pass(a, b, ratio, max_strike, Direction::Backward, Sides::Both, ret);
    proof {
        assert(a@.len() == a.len() && b@.len() == b.len());
        lemma_backward_pass_law(a@, b@, ratio, max_strike as nat, *old(ret));
        lemma_pass_keeps_far_end(
            a@,
            b@,
            ratio,
            max_strike as nat,
            *old(ret),
            Direction::Backward,
            Sides::Both,
        );
    }
}

/// Grows `substr` to the right and then to the left: each time on both
/// sides together, then on side A alone, then on side B alone.
pub fn expand_match_left_and_right<T: Symbol>(
    substr: &mut SubstringResult,
    a: &[T],
    b: &[T],
    ratio: Ratio,
    max_strike: usize,
)
    requires
        old(substr).wf(a@.len(), b@.len()),
        fits_table(b@.len()),
    ensures
        *final(substr) == fully_expanded(a@, b@, ratio, max_strike as nat, *old(substr)),
        grown_from(*final(substr), *old(substr), ratio, a@.len(), b@.len()),
        same_or_grown(*final(substr), *old(substr), a@, b@, ratio),
{
    proof {
        assert(a@.len() == a.len() && b@.len() == b.len());
        lemma_growth_law(a@, b@, ratio, max_strike as nat, *old(substr));
    }
    expand_matches_forward(a, b, ratio, max_strike, substr);
    expand_pass(a, b, ratio, max_strike, Direction::Forward, Sides::OnlyA, substr);
    expand_pass(a, b, ratio, max_strike, Direction::Forward, Sides::OnlyB, substr);
    expand_matches_backward(a, b, ratio, max_strike, substr);
    expand_pass(a, b, ratio, max_strike, Direction::Backward, Sides::OnlyA, substr);
    expand_pass(a, b, ratio, max_strike, Direction::Backward, Sides::OnlyB, substr);
}

/// Grows every match of `ret` to the right and to the left.
pub fn expand_matches_left_and_right<T: Symbol>(
    ret: &mut Vec<SubstringResult>,
    a: &[T],
    b: &[T],
    ratio: Ratio,
    max_strike: usize,
)
    requires
        forall|i: int| 0 <= i < old(ret)@.len() ==> (#[trigger] old(ret)@[i]).wf(a@.len(), b@.len()),
        fits_table(b@.len()),
    ensures
        final(ret)@.len() == old(ret)@.len(),
        forall|i: int|
            0 <= i < old(ret)@.len() ==> #[trigger] final(ret)@[i] == fully_expanded(
                a@,
                b@,
                ratio,
                max_strike as nat,
                old(ret)@[i],
            ),
        forall|i: int|
            0 <= i < old(ret)@.len() ==> grown_from(
                #[trigger] final(ret)@[i],
                old(ret)@[i],
                ratio,
                a@.len(),
                b@.len(),
            ),
        forall|i: int|
            0 <= i < old(ret)@.len() ==> same_or_grown(
                #[trigger] final(ret)@[i],
                old(ret)@[i],
                a@,
                b@,
                ratio,
            ),
{
    let n = ret.len();
    let mut i: usize = 0;
    while i < n
        invariant
            i <= n,
            n == ret@.len(),
            n == old(ret)@.len(),
            fits_table(b@.len()),
            forall|t: int| i <= t < n ==> #[trigger] ret@[t] == old(ret)@[t],
            forall|t: int| 0 <= t < n ==> (#[trigger] old(ret)@[t]).wf(a@.len(), b@.len()),
            forall|t: int|
                0 <= t < i ==> #[trigger] ret@[t] == fully_expanded(
                    a@,
                    b@,
                    ratio,
                    max_strike as nat,
                    old(ret)@[t],
                ),
            forall|t: int|
                0 <= t < i ==> grown_from(
                    #[trigger] ret@[t],
                    old(ret)@[t],
                    ratio,
                    a@.len(),
                    b@.len(),
                ),
            forall|t: int|
                0 <= t < i ==> same_or_grown(#[trigger] ret@[t], old(ret)@[t], a@, b@, ratio),
        decreases n - i,
    {
        let mut substr = ret[i];
        expand_match_left_and_right(&mut substr, a, b, ratio, max_strike);
        ret.set(i, substr);
        i += 1;
    }
}

/// What the cosine similarity of two texts is made of: the dot product of
/// their frequency vectors and the squares of the two norms. The similarity
/// is `dot / sqrt(norm_a * norm_b)`, and zero where that product is zero.
#[derive(Clone, Copy, Debug)]
pub struct Cosine {
    pub dot: u128,
    pub norm_a: u128,
    pub norm_b: u128,
}

/// The terms of the cosine similarity of `a` and `b`.
pub open spec fn cosine_of(a: Seq<char>, b: Seq<char>) -> Cosine {
    Cosine {
        dot: dot_product(a, b) as u128,
        norm_a: dot_product(a, a) as u128,
        norm_b: dot_product(b, b) as u128,
    }
}

/// What `counts` holds for `symbol`, zero where it holds nothing.
pub open spec fn kept_count(counts: Map<char, usize>, symbol: char) -> nat {
    if counts.contains_key(symbol) {
        counts[symbol] as nat
    } else {
        0
    }
}

/// Counts how often each symbol occurs in `text`.
fn frequencies(text: &[char]) -> (counts: FxHashMap<char, usize>)
    ensures
        forall|c: char| kept_count(counts@, c) == count_in(text@, c),
{
    let mut counts = new_counts();
    let mut i: usize = 0;
    while i < text.len()
        invariant
            i <= text@.len(),
            forall|c: char| kept_count(counts@, c) == count_in(text@.take(i as int), c),
        decreases text@.len() - i,
    {
        let symbol = text[i];
        let ghost before = counts@;
        let seen: usize = match count_of(&counts, symbol) {
            Some(n) => *n,
            None => 0,
        };
        proof {
            lemma_count_in_bound(text@.take(i as int), symbol);
            assert(text@.take(i + 1).drop_last() =~= text@.take(i as int));
            assert(seen == kept_count(counts@, symbol));
        }
        set_count(&mut counts, symbol, seen + 1);
        assert forall|c: char| kept_count(counts@, c) == count_in(text@.take(i + 1), c) by {
            assert(kept_count(before, c) == count_in(text@.take(i as int), c));
        }
        i += 1;
    }
    assert(text@.take(i as int) =~= text@);
    counts
}

/// The sum, over the positions of `text`, of what `counts` holds for the
/// symbol that stands there, where `counts` holds the frequencies of
/// `other`.
fn weigh(text: &[char], counts: &FxHashMap<char, usize>, other: &[char]) -> (sum: u128)
    requires
        forall|c: char| kept_count(counts@, c) == count_in(other@, c),
    ensures
        sum == dot_product(text@, other@),
{
    let mut sum: u128 = 0;
    let mut i: usize = 0;
    let other_len = other.len();
    while i < text.len()
        invariant
            i <= text@.len(),
            other_len == other@.len(),
            forall|c: char| kept_count(counts@, c) == count_in(other@, c),
            sum == dot_product(text@.take(i as int), other@),
            sum <= i * other@.len(),
        decreases text@.len() - i,
    {
        let symbol = text[i];
        let seen: usize = match count_of(counts, symbol) {
            Some(n) => *n,
            None => 0,
        };
        proof {
            assert(text@.take(i + 1).drop_last() =~= text@.take(i as int));
            assert(seen == kept_count(counts@, symbol));
            lemma_count_in_bound(other@, symbol);
            lemma_sum_fits(sum as nat, i as nat, other@.len(), seen as nat);
        }
        sum = sum + (seen as u128);
        i += 1;
    }
    assert(text@.take(i as int) =~= text@);
    sum
}

/// A sum of `i + 1` counts, none above `n`, is at most `(i + 1) * n`, and
/// fits sixteen bytes where `i` and `n` fit eight.
proof fn lemma_sum_fits(sum: nat, i: nat, n: nat, seen: nat)
    requires
        sum <= i * n,
        seen <= n,
        i < 0xffff_ffff_ffff_ffff,
        n <= 0xffff_ffff_ffff_ffff,
    ensures
        sum + seen <= (i + 1) * n,
        sum + seen <= u128::MAX,
{
    assert((i + 1) * n == i * n + n) by (nonlinear_arith);
    assert((i + 1) * n <= 0xffff_ffff_ffff_ffff * 0xffff_ffff_ffff_ffff) by (nonlinear_arith)
        requires
            i + 1 <= 0xffff_ffff_ffff_ffff,
            n <= 0xffff_ffff_ffff_ffff,
    ;
}

/// The terms of the cosine similarity of the symbol frequencies of `str_a`
/// and `str_b`.
pub fn cosine_similarity(str_a: &[char], str_b: &[char]) -> (similarity: Cosine)
    ensures
        similarity == cosine_of(str_a@, str_b@),
        similarity.dot == dot_product(str_a@, str_b@),
        similarity.norm_a == dot_product(str_a@, str_a@),
        similarity.norm_b == dot_product(str_b@, str_b@),
        similarity.dot <= str_a@.len() * str_b@.len(),
        similarity.dot == dot_product(str_b@, str_a@),
{
    proof {
        lemma_dot_product_bound(str_a@, str_b@);
        lemma_dot_product_symmetric(str_a@, str_b@);
    }
    // Find the frequency of each unicode character in the string
    let a = frequencies(str_a);
    let b = frequencies(str_b);
    let dot = weigh(str_a, &b, str_b);
    let norm_a = weigh(str_a, &a, str_a);
    let norm_b = weigh(str_b, &b, str_b);
    Cosine { dot, norm_a, norm_b }
}

} // verus!
