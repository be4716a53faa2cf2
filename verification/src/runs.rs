//! What holds of the runs that the table of two sequences keeps.

use crate::distance::edit_distance;
use crate::matrix::{
    absorbs, all_finds, finds, kept_run, lemma_kept_run_wf, lemma_run_len_bound, row_finds,
    run_len,
};
use crate::ratio::{lemma_below_one, Ratio};
use crate::symbol::{windows_agree, Symbol};
use crate::utils::{window_ratio, SubstringResult};
use vstd::prelude::*;

verus! {

/// At the threshold one no run takes in a pair that does not agree.
pub proof fn lemma_nothing_absorbed_at_one<T: Symbol>(
    a: Seq<T>,
    b: Seq<T>,
    ratio: Ratio,
    i: int,
    j: int,
    r: nat,
)
    requires
        ratio.is_one(),
        0 <= i < a.len() <= usize::MAX,
        0 <= j < b.len(),
        !a[i].same_as(&b[j]),
    ensures
        !absorbs(a, b, ratio, i, j, r),
{
    if 2 <= r <= i && r <= j {
        let left = a.subrange(i - r, i + 1);
        let right = b.subrange(j - r, j + 1);
        assert(left.last() == a[i]);
        assert(right.last() == b[j]);
        assert(edit_distance(left, right) >= 1);
        let with_pair = window_ratio(a, b, i - r, i + 1, j - r, j + 1, r + 1);
        assert(!with_pair.is_one());
        lemma_below_one(with_pair, ratio);
    }
}

/// At the threshold one the two ranges of a run agree symbol by symbol.
pub proof fn lemma_run_agrees_at_one<T: Symbol>(a: Seq<T>, b: Seq<T>, ratio: Ratio, i: int, j: int)
    requires
        ratio.is_one(),
        a.len() <= usize::MAX,
    ensures
        windows_agree(
            a,
            i + 1 - run_len(a, b, ratio, i, j),
            b,
            j + 1 - run_len(a, b, ratio, i, j),
            run_len(a, b, ratio, i, j) as int,
        ),
    decreases i + 1,
{
    if !(i < 0 || j < 0 || i >= a.len() || j >= b.len()) {
        lemma_run_agrees_at_one(a, b, ratio, i - 1, j - 1);
        lemma_run_len_bound(a, b, ratio, i - 1, j - 1);
        let before = run_len(a, b, ratio, i - 1, j - 1);
        if a[i].same_as(&b[j]) {
            let r = before + 1;
            assert forall|t: int| 0 <= t < r implies (#[trigger] a[i + 1 - r + t]).same_as(
                &b[j + 1 - r + t],
            ) by {
                if t < before {
                    assert(a[i - before + t].same_as(&b[j - before + t]));
                }
            }
        } else {
            lemma_nothing_absorbed_at_one(a, b, ratio, i, j, before);
        }
    }
}

/// At the threshold one every kept run is shared symbol by symbol.
pub proof fn lemma_kept_run_is_shared<T: Symbol>(
    a: Seq<T>,
    b: Seq<T>,
    ratio: Ratio,
    min_len: usize,
    i: int,
    j: int,
)
    requires
        ratio.is_one(),
        a.len() <= usize::MAX,
        b.len() <= usize::MAX,
    ensures
        match kept_run(a, b, ratio, min_len, i, j) {
            Some(m) => windows_agree(a, m.start_a as int, b, m.start_b as int, m.len as int),
            None => true,
        },
{
    lemma_run_agrees_at_one(a, b, ratio, i - 1, j - 1);
}

/// A run grows by one symbol at most from one pair of a diagonal to the
/// next.
pub proof fn lemma_run_behind_a_gap<T: Symbol>(
    a: Seq<T>,
    b: Seq<T>,
    ratio: Ratio,
    i: int,
    j: int,
    t: nat,
)
    requires
        run_len(a, b, ratio, i, j) == 0,
    ensures
        run_len(a, b, ratio, i + t, j + t) <= t,
    decreases t,
{
    if t > 0 {
        lemma_run_behind_a_gap(a, b, ratio, i, j, (t - 1) as nat);
    }
}

/// Of two kept runs on one diagonal of the table, the later one begins
/// behind the end of the earlier one, on both sides: the two share no
/// position.
pub proof fn lemma_runs_on_one_diagonal<T: Symbol>(
    a: Seq<T>,
    b: Seq<T>,
    ratio: Ratio,
    min_len: usize,
    i: int,
    j: int,
    t: nat,
)
    requires
        t >= 1,
        a.len() <= usize::MAX,
        b.len() <= usize::MAX,
        kept_run(a, b, ratio, min_len, i, j) is Some,
        kept_run(a, b, ratio, min_len, i + t, j + t) is Some,
    ensures
        kept_run(a, b, ratio, min_len, i, j)->0.end_a < kept_run(
            a,
            b,
            ratio,
            min_len,
            i + t,
            j + t,
        )->0.start_a,
        kept_run(a, b, ratio, min_len, i, j)->0.end_b < kept_run(
            a,
            b,
            ratio,
            min_len,
            i + t,
            j + t,
        )->0.start_b,
{
    assert(run_len(a, b, ratio, i, j) == 0);
    lemma_run_behind_a_gap(a, b, ratio, i, j, (t - 1) as nat);
}

/// Every run that a row keeps is the run that one of its pairs ends.
pub proof fn lemma_row_finds_come_from_pairs<T: Symbol>(
    a: Seq<T>,
    b: Seq<T>,
    ratio: Ratio,
    min_len: usize,
    i: int,
    cols: nat,
    t: int,
)
    requires
        0 <= t < row_finds(a, b, ratio, min_len, i, cols).len(),
    ensures
        exists|j: int|
            0 <= j < cols && #[trigger] kept_run(a, b, ratio, min_len, i, j) == Some(
                row_finds(a, b, ratio, min_len, i, cols)[t],
            ),
    decreases cols,
{
    if cols != 0 {
        let before = row_finds(a, b, ratio, min_len, i, (cols - 1) as nat);
        if t < before.len() {
            lemma_row_finds_come_from_pairs(a, b, ratio, min_len, i, (cols - 1) as nat, t);
            let j = choose|j: int|
                0 <= j < cols - 1 && #[trigger] kept_run(a, b, ratio, min_len, i, j) == Some(
                    before[t],
                );
            assert(kept_run(a, b, ratio, min_len, i, j) == Some(
                row_finds(a, b, ratio, min_len, i, cols)[t],
            ));
        } else {
            assert(kept_run(a, b, ratio, min_len, i, cols - 1) == Some(
                row_finds(a, b, ratio, min_len, i, cols)[t],
            ));
        }
    }
}

/// Every run that the table keeps is the run that one of its pairs ends.
pub proof fn lemma_finds_come_from_pairs<T: Symbol>(
    a: Seq<T>,
    b: Seq<T>,
    ratio: Ratio,
    min_len: usize,
    rows: nat,
    t: int,
)
    requires
        0 <= t < finds(a, b, ratio, min_len, rows).len(),
    ensures
        exists|i: int, j: int|
            0 <= i < rows && 0 <= j < b.len() && #[trigger] kept_run(a, b, ratio, min_len, i, j)
                == Some(finds(a, b, ratio, min_len, rows)[t]),
    decreases rows,
{
    if rows != 0 {
        let above = finds(a, b, ratio, min_len, (rows - 1) as nat);
        if t < above.len() {
            lemma_finds_come_from_pairs(a, b, ratio, min_len, (rows - 1) as nat, t);
            let (i, j) = choose|i: int, j: int|
                0 <= i < rows - 1 && 0 <= j < b.len() && #[trigger] kept_run(
                    a,
                    b,
                    ratio,
                    min_len,
                    i,
                    j,
                ) == Some(above[t]);
            assert(kept_run(a, b, ratio, min_len, i, j) == Some(
                finds(a, b, ratio, min_len, rows)[t],
            ));
        } else {
            lemma_row_finds_come_from_pairs(a, b, ratio, min_len, rows - 1, b.len(), t - above.len());
            let j = choose|j: int|
                0 <= j < b.len() && #[trigger] kept_run(a, b, ratio, min_len, rows - 1, j) == Some(
                    row_finds(a, b, ratio, min_len, rows - 1, b.len())[t - above.len()],
                );
            assert(kept_run(a, b, ratio, min_len, rows - 1, j) == Some(
                finds(a, b, ratio, min_len, rows)[t],
            ));
        }
    }
}

/// The runs that a row keeps end in that row, each further to the right
/// than the one in front of it.
pub proof fn lemma_row_finds_in_order<T: Symbol>(
    a: Seq<T>,
    b: Seq<T>,
    ratio: Ratio,
    min_len: usize,
    i: int,
    cols: nat,
    p: int,
    q: int,
)
    requires
        a.len() <= usize::MAX,
        b.len() <= usize::MAX,
        0 <= p <= q < row_finds(a, b, ratio, min_len, i, cols).len(),
    ensures
        row_finds(a, b, ratio, min_len, i, cols)[p].end_a == i,
        row_finds(a, b, ratio, min_len, i, cols)[q].end_b < cols,
        p < q ==> row_finds(a, b, ratio, min_len, i, cols)[p].end_b < row_finds(
            a,
            b,
            ratio,
            min_len,
            i,
            cols,
        )[q].end_b,
    decreases cols,
{
    if cols != 0 {
        let before = row_finds(a, b, ratio, min_len, i, (cols - 1) as nat);
        lemma_kept_run_wf(a, b, ratio, min_len, i, cols - 1);
        if q < before.len() {
            lemma_row_finds_in_order(a, b, ratio, min_len, i, (cols - 1) as nat, p, q);
        } else if p < before.len() {
            lemma_row_finds_in_order(a, b, ratio, min_len, i, (cols - 1) as nat, p, p);
        }
    }
}

/// The table keeps its runs in the order of its rows, and in a row from
/// left to right: of two kept runs the later one ends in a later row, or
/// in the same row further to the right.
pub proof fn lemma_finds_in_order<T: Symbol>(
    a: Seq<T>,
    b: Seq<T>,
    ratio: Ratio,
    min_len: usize,
    rows: nat,
    p: int,
    q: int,
)
    requires
        a.len() <= usize::MAX,
        b.len() <= usize::MAX,
        0 <= p <= q < finds(a, b, ratio, min_len, rows).len(),
    ensures
        finds(a, b, ratio, min_len, rows)[q].end_a < rows,
        p < q ==> finds(a, b, ratio, min_len, rows)[p].end_a < finds(
            a,
            b,
            ratio,
            min_len,
            rows,
        )[q].end_a || (finds(a, b, ratio, min_len, rows)[p].end_a == finds(
            a,
            b,
            ratio,
            min_len,
            rows,
        )[q].end_a && finds(a, b, ratio, min_len, rows)[p].end_b < finds(
            a,
            b,
            ratio,
            min_len,
            rows,
        )[q].end_b),
    decreases rows,
{
    if rows != 0 {
        let above = finds(a, b, ratio, min_len, (rows - 1) as nat);
        let row = row_finds(a, b, ratio, min_len, rows - 1, b.len());
        let all = finds(a, b, ratio, min_len, rows);
        assert(all == above + row);
        if q < above.len() {
            lemma_finds_in_order(a, b, ratio, min_len, (rows - 1) as nat, p, q);
            assert(all[p] == above[p] && all[q] == above[q]);
        } else if p < above.len() {
            let at = q - above.len();
            lemma_finds_in_order(a, b, ratio, min_len, (rows - 1) as nat, p, p);
            lemma_row_finds_in_order(a, b, ratio, min_len, rows - 1, b.len(), at, at);
            assert(all[p] == above[p] && all[q] == row[at]);
        } else {
            let first = p - above.len();
            let second = q - above.len();
            lemma_row_finds_in_order(a, b, ratio, min_len, rows - 1, b.len(), first, second);
            lemma_row_finds_in_order(a, b, ratio, min_len, rows - 1, b.len(), second, second);
            assert(all[p] == row[first] && all[q] == row[second]);
        }
    }
}

/// The two runs lie on one diagonal of the table: they end as far from
/// each other on side A as on side B.
pub open spec fn on_one_diagonal(first: SubstringResult, second: SubstringResult) -> bool {
    second.end_a - first.end_a == second.end_b - first.end_b
}

/// Two runs that the table keeps on one diagonal share no position: the
/// one that ends later begins behind the end of the other, on side A and
/// on side B, so that the two stand in one order on both sides.
pub proof fn lemma_kept_runs_apart<T: Symbol>(
    a: Seq<T>,
    b: Seq<T>,
    ratio: Ratio,
    min_len: usize,
    p: int,
    q: int,
)
    requires
        a.len() <= usize::MAX,
        b.len() <= usize::MAX,
        0 <= p < all_finds(a, b, ratio, min_len).len(),
        0 <= q < all_finds(a, b, ratio, min_len).len(),
        on_one_diagonal(all_finds(a, b, ratio, min_len)[p], all_finds(a, b, ratio, min_len)[q]),
        all_finds(a, b, ratio, min_len)[p].end_a < all_finds(a, b, ratio, min_len)[q].end_a,
    ensures
        all_finds(a, b, ratio, min_len)[p].end_a < all_finds(a, b, ratio, min_len)[q].start_a,
        all_finds(a, b, ratio, min_len)[p].end_b < all_finds(a, b, ratio, min_len)[q].start_b,
{
    let first = all_finds(a, b, ratio, min_len)[p];
    let second = all_finds(a, b, ratio, min_len)[q];
    lemma_finds_come_from_pairs(a, b, ratio, min_len, a.len(), p);
    lemma_finds_come_from_pairs(a, b, ratio, min_len, a.len(), q);
    let (i, j) = choose|i: int, j: int|
        0 <= i < a.len() && 0 <= j < b.len() && #[trigger] kept_run(a, b, ratio, min_len, i, j)
            == Some(first);
    let (i2, j2) = choose|i: int, j: int|
        0 <= i < a.len() && 0 <= j < b.len() && #[trigger] kept_run(a, b, ratio, min_len, i, j)
            == Some(second);
    assert(first.end_a == i && first.end_b == j);
    assert(second.end_a == i2 && second.end_b == j2);
    lemma_runs_on_one_diagonal(a, b, ratio, min_len, i, j, (i2 - i) as nat);
}

} // verus!
