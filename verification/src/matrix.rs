use crate::expansion::fully_expanded;
use crate::ratio::Ratio;
use crate::report::{check_arguments, refusal, InvalidArgument, Matches, MIN_LENGTH};
use crate::runs::{lemma_finds_come_from_pairs, lemma_kept_run_is_shared};
use crate::sound::{all_sound, lemma_closed_matches_sound, lemma_dense_matches_sound};
use crate::symbol::Symbol;
use crate::utils::{
    expand_matches_left_and_right, fits_table, recompute_ratio, window_ratio, EfficientMatrix,
    MatrixElement, SubstringResult,
};
use vstd::prelude::*;
use vstd::slice::{slice_subrange, slice_to_vec};

verus! {

/// The length of the run that ends at row `i`, column `j`: how many
/// symbols, counted back along the diagonal, one match is made of there.
///
/// A pair of symbols that agree adds one to the run before it. A pair that
/// does not ends the run, unless the run absorbs it.
pub open spec fn run_len<T: Symbol>(a: Seq<T>, b: Seq<T>, ratio: Ratio, i: int, j: int) -> nat
    decreases i + 1,
{
    if i < 0 || j < 0 || i >= a.len() || j >= b.len() {
        0
    } else if a[i].same_as(&b[j]) {
        run_len(a, b, ratio, i - 1, j - 1) + 1
    } else if absorbs(a, b, ratio, i, j, run_len(a, b, ratio, i - 1, j - 1)) {
        run_len(a, b, ratio, i - 1, j - 1) + 1
    } else {
        0
    }
}

/// Whether a run of `r` symbols that ends in front of row `i`, column `j`
/// takes in the pair there although it does not agree: the run has two
/// symbols or more, the row of `b` goes on, and the ratio of the run with
/// the pair is not below `ratio`.
pub open spec fn absorbs<T: Symbol>(a: Seq<T>, b: Seq<T>, ratio: Ratio, i: int, j: int, r: nat) -> bool {
    &&& 2 <= r <= i
    &&& r <= j
    &&& j + 1 < b.len()
    &&& !window_ratio(a, b, i - r, i + 1, j - r, j + 1, r + 1).below(ratio)
}

/// The run that the pair at row `i`, column `j` ends, if it ends one: the
/// pair does not agree, a run ends in front of it, and the run does not
/// absorb it.
pub open spec fn finished_run<T: Symbol>(a: Seq<T>, b: Seq<T>, ratio: Ratio, i: int, j: int) -> Option<
    SubstringResult,
> {
    let r = run_len(a, b, ratio, i - 1, j - 1);
    if 0 < i < a.len() && 0 < j < b.len() && !a[i].same_as(&b[j]) && 0 < r <= i && r <= j
        && !absorbs(a, b, ratio, i, j, r) {
        Some(
            SubstringResult {
                start_a: (i - r) as usize,
                end_a: i as usize,
                start_b: (j - r) as usize,
                end_b: j as usize,
                len: r as usize,
                edit_ratio: window_ratio(a, b, i - r, i, j - r, j, r),
            },
        )
    } else {
        None
    }
}

/// The run that the pair at row `i`, column `j` ends, if it has `min_len`
/// symbols or more.
pub open spec fn kept_run<T: Symbol>(
    a: Seq<T>,
    b: Seq<T>,
    ratio: Ratio,
    min_len: usize,
    i: int,
    j: int,
) -> Option<SubstringResult> {
    match finished_run(a, b, ratio, i, j) {
        Some(m) => if m.len >= min_len {
            Some(m)
        } else {
            None
        },
        None => None,
    }
}

/// The runs kept in row `i`, in its first `cols` columns, from left to right.
pub open spec fn row_finds<T: Symbol>(
    a: Seq<T>,
    b: Seq<T>,
    ratio: Ratio,
    min_len: usize,
    i: int,
    cols: nat,
) -> Seq<SubstringResult>
    decreases cols,
{
    if cols == 0 {
        Seq::empty()
    } else {
        let before = row_finds(a, b, ratio, min_len, i, (cols - 1) as nat);
        match kept_run(a, b, ratio, min_len, i, cols - 1) {
            Some(m) => before.push(m),
            None => before,
        }
    }
}

/// The runs kept in the first `rows` rows, row by row.
pub open spec fn finds<T: Symbol>(a: Seq<T>, b: Seq<T>, ratio: Ratio, min_len: usize, rows: nat) -> Seq<
    SubstringResult,
>
    decreases rows,
{
    if rows == 0 {
        Seq::empty()
    } else {
        finds(a, b, ratio, min_len, (rows - 1) as nat) + row_finds(
            a,
            b,
            ratio,
            min_len,
            rows - 1,
            b.len(),
        )
    }
}

/// Every run that the whole table keeps, in the order of its rows and
/// columns.
pub open spec fn all_finds<T: Symbol>(a: Seq<T>, b: Seq<T>, ratio: Ratio, min_len: usize) -> Seq<
    SubstringResult,
> {
    finds(a, b, ratio, min_len, a.len())
}

/// A run is no longer than the diagonal that leads to its last pair.
pub proof fn lemma_run_len_bound<T: Symbol>(a: Seq<T>, b: Seq<T>, ratio: Ratio, i: int, j: int)
    ensures
        i < 0 || j < 0 ==> run_len(a, b, ratio, i, j) == 0,
        i >= 0 && j >= 0 ==> run_len(a, b, ratio, i, j) <= i + 1 && run_len(a, b, ratio, i, j) <= j
            + 1,
    decreases i + 1,
{
    if !(i < 0 || j < 0 || i >= a.len() || j >= b.len()) {
        lemma_run_len_bound(a, b, ratio, i - 1, j - 1);
    }
}

/// A row's kept runs grow with the number of columns.
pub proof fn lemma_row_finds_prefix<T: Symbol>(
    a: Seq<T>,
    b: Seq<T>,
    ratio: Ratio,
    min_len: usize,
    i: int,
    j: nat,
    cols: nat,
)
    requires
        j <= cols,
    ensures
        row_finds(a, b, ratio, min_len, i, j).is_prefix_of(row_finds(a, b, ratio, min_len, i, cols)),
    decreases cols,
{
    if j < cols {
        lemma_row_finds_prefix(a, b, ratio, min_len, i, j, (cols - 1) as nat);
    }
}

/// The kept runs grow with the number of rows.
pub proof fn lemma_finds_prefix<T: Symbol>(
    a: Seq<T>,
    b: Seq<T>,
    ratio: Ratio,
    min_len: usize,
    i: nat,
    rows: nat,
)
    requires
        i <= rows,
    ensures
        finds(a, b, ratio, min_len, i).is_prefix_of(finds(a, b, ratio, min_len, rows)),
    decreases rows,
{
    if i < rows {
        lemma_finds_prefix(a, b, ratio, min_len, i, (rows - 1) as nat);
    }
}

/// What has been kept up to a pair of the table is the beginning of what
/// the whole table keeps.
pub proof fn lemma_scanned_prefix<T: Symbol>(
    a: Seq<T>,
    b: Seq<T>,
    ratio: Ratio,
    min_len: usize,
    i: nat,
    j: nat,
)
    requires
        i < a.len(),
        j <= b.len(),
    ensures
        (finds(a, b, ratio, min_len, i) + row_finds(a, b, ratio, min_len, i as int, j)).is_prefix_of(
            all_finds(a, b, ratio, min_len),
        ),
{
    lemma_row_finds_prefix(a, b, ratio, min_len, i as int, j, b.len());
    lemma_finds_prefix(a, b, ratio, min_len, i + 1, a.len());
    let row = row_finds(a, b, ratio, min_len, i as int, j);
    let full_row = row_finds(a, b, ratio, min_len, i as int, b.len());
    let above = finds(a, b, ratio, min_len, i);
    assert((above + row).is_prefix_of(above + full_row));
}

/// Every kept run is well formed and has `min_len` symbols or more.
pub proof fn lemma_kept_run_wf<T: Symbol>(
    a: Seq<T>,
    b: Seq<T>,
    ratio: Ratio,
    min_len: usize,
    i: int,
    j: int,
)
    requires
        a.len() <= usize::MAX,
        b.len() <= usize::MAX,
    ensures
        match kept_run(a, b, ratio, min_len, i, j) {
            Some(m) => m.wf(a.len(), b.len()) && m.len >= min_len && m.end_a == i && m.end_b == j
                && m.end_b - m.start_b == m.len,
            None => true,
        },
{
}

/// The table cell by cell: the runs that it keeps, at most `max_substrings`
/// of them, and whether one was left out.
fn scan_table<T: Symbol>(
    a: &[T],
    b: &[T],
    min_len: usize,
    ratio: Ratio,
    max_substrings: usize,
) -> (found: (Vec<SubstringResult>, bool))
    requires
        fits_table(b@.len()),
    ensures
        found.0@ == capped(all_finds(a@, b@, ratio, min_len), max_substrings as nat),
        found.1 == (all_finds(a@, b@, ratio, min_len).len() > max_substrings),
        forall|t: int|
            0 <= t < found.0@.len() ==> (#[trigger] found.0@[t]).wf(a@.len(), b@.len())
                && found.0@[t].len >= min_len,
        forall|t: int|
            0 <= t < found.0@.len() ==> (#[trigger] found.0@[t]).end_a < a@.len() && found.0@[t].end_b
                < b@.len(),
{
    let n = a.len();
    let m = b.len();
    let mut ret: Vec<SubstringResult> = Vec::new();
    let mut l: EfficientMatrix<MatrixElement> = EfficientMatrix::new(MatrixElement { len: 0 }, m);
    let mut i: usize = 0;
    while i < n
        invariant
            i <= n,
            n == a@.len(),
            m == b@.len(),
            fits_table(b@.len()),
            l.wf(),
            l.width() == m,
            forall|t: int|
                0 <= t < m && i > 0 ==> (#[trigger] l.cell(i - 1, t)).len == run_len(
                    a@,
                    b@,
                    ratio,
                    i - 1,
                    t,
                ),
            ret@ == finds(a@, b@, ratio, min_len, i as nat),
            ret@.len() <= max_substrings,
            forall|t: int|
                0 <= t < ret@.len() ==> (#[trigger] ret@[t]).wf(a@.len(), b@.len()) && ret@[t].len
                    >= min_len,
            forall|t: int|
                0 <= t < ret@.len() ==> (#[trigger] ret@[t]).end_a < a@.len() && ret@[t].end_b
                    < b@.len(),
        decreases n - i,
    {
        let mut j: usize = 0;
        while j < m
            invariant
                i < n,
                j <= m,
                n == a@.len(),
                m == b@.len(),
                fits_table(b@.len()),
                l.wf(),
                l.width() == m,
                forall|t: int|
                    0 <= t < m && i > 0 ==> (#[trigger] l.cell(i - 1, t)).len == run_len(
                        a@,
                        b@,
                        ratio,
                        i - 1,
                        t,
                    ),
                forall|t: int|
                    0 <= t < j ==> (#[trigger] l.cell(i as int, t)).len == run_len(
                        a@,
                        b@,
                        ratio,
                        i as int,
                        t,
                    ),
                ret@ == finds(a@, b@, ratio, min_len, i as nat) + row_finds(
                    a@,
                    b@,
                    ratio,
                    min_len,
                    i as int,
                    j as nat,
                ),
                ret@.len() <= max_substrings,
                forall|t: int|
                    0 <= t < ret@.len() ==> (#[trigger] ret@[t]).wf(a@.len(), b@.len())
                        && ret@[t].len >= min_len,
                forall|t: int|
                    0 <= t < ret@.len() ==> (#[trigger] ret@[t]).end_a < a@.len() && ret@[t].end_b
                        < b@.len(),
            decreases m - j,
        {
            let before: usize = if i == 0 || j == 0 {
                0
            } else {
                l.get(i - 1, j - 1).len
            };
            proof {
                lemma_run_len_bound(a@, b@, ratio, i - 1, j - 1);
                lemma_kept_run_wf(a@, b@, ratio, min_len, i as int, j as int);
            }
            let mut cell = MatrixElement { len: 0 };
            if a[i].matches(&b[j]) {
                cell.len = before + 1;
            } else if before > 0 {
                let absorbed = before >= 2 && j + 1 < m && !recompute_ratio(
                    a,
                    b,
                    i - before,
                    i + 1,
                    j - before,
                    j + 1,
                    before + 1,
                ).is_below(&ratio);
                if absorbed {
                    cell.len = before + 1;
                } else if before >= min_len {
                    let edit_ratio = recompute_ratio(a, b, i - before, i, j - before, j, before);
                    if ret.len() >= max_substrings {
                        proof {
                            lemma_scanned_prefix(a@, b@, ratio, min_len, i as nat, (j + 1) as nat);
                        }
                        return (ret, true);
                    }
                    ret.push(
                        SubstringResult {
                            start_a: i - before,
                            end_a: i,
                            start_b: j - before,
                            end_b: j,
                            len: before,
                            edit_ratio,
                        },
                    );
                }
            }
            l.set(i, j, cell);
            j += 1;
        }
        i += 1;
    }
    (ret, false)
}

/// The first `cap` of `found`, or all of it where it has no more.
pub open spec fn capped(found: Seq<SubstringResult>, cap: nat) -> Seq<SubstringResult> {
    if found.len() <= cap {
        found
    } else {
        found.take(cap as int)
    }
}

/// The matches that the table of `a` against `b` gives: every run that it
/// keeps, in the order of its rows and columns and as far as the cap
/// allows, each grown to the right and to the left.
pub open spec fn dense_matches<T: Symbol>(
    a: Seq<T>,
    b: Seq<T>,
    min_len: usize,
    ratio: Ratio,
    max_substrings: nat,
    max_strikes: nat,
) -> Seq<SubstringResult> {
    capped(all_finds(a, b, ratio, min_len), max_substrings).map_values(
        |m: SubstringResult| fully_expanded(a, b, ratio, max_strikes, m),
    )
}

/// Searches the whole table of `a` against `b` for runs of symbols that
/// agree, or nearly so, and grows each one that it keeps.
///
/// A search with `min_len` below `MIN_LENGTH`, or with a threshold that is
/// no fraction between zero and one, is refused. A kept run beyond the
/// first `max_substrings` is left out, and the result says so.
///
/// A run at the end of a sequence is ended by no pair and is not kept:
/// `common_substring_levenshtein` keeps it. The table over `b` has to fit
/// the machine.
pub fn find_levenshtein_matches<T: Symbol>(
    a: &[T],
    b: &[T],
    min_len: usize,
    ratio: Ratio,
    max_substrings: usize,
    max_strikes: usize,
) -> (found: Result<Matches, InvalidArgument>)
    requires
        fits_table(b@.len()),
    ensures
        match found {
            Ok(found) => {
                &&& refusal(min_len, ratio) is None
                &&& found.matches@ == dense_matches(
                    a@,
                    b@,
                    min_len,
                    ratio,
                    max_substrings as nat,
                    max_strikes as nat,
                )
                &&& found.truncated == (all_finds(a@, b@, ratio, min_len).len() > max_substrings)
                &&& all_sound(found.matches@, a@, b@, min_len, max_substrings as nat)
                &&& found.matches@.len() <= max_substrings
                &&& forall|t: int|
                    0 <= t < found.matches@.len() ==> (#[trigger] found.matches@[t]).wf(
                        a@.len(),
                        b@.len(),
                    ) && found.matches@[t].len >= min_len
            },
            Err(reason) => refusal(min_len, ratio) == Some(reason),
        },
{
    match check_arguments(min_len, &ratio) {
        Some(reason) => {
            return Err(reason);
        },
        None => {},
    }
    let (mut ret, truncated) = scan_table(a, b, min_len, ratio, max_substrings);
    expand_matches_left_and_right(&mut ret, a, b, ratio, max_strikes);
    proof {
        assert(a@.len() == a.len() && b@.len() == b.len());
        lemma_dense_matches_sound(a@, b@, min_len, ratio, max_substrings as nat, max_strikes as nat);
    }
    assert(ret@ =~= dense_matches(
        a@,
        b@,
        min_len,
        ratio,
        max_substrings as nat,
        max_strikes as nat,
    ));
    Ok(Matches { matches: ret, truncated })
}

/// The symbol that is put behind the first text before its table is
/// searched. A text is taken not to hold it.
pub const END_OF_A: char = '\u{10ffff}';

/// The symbol that is put behind the second text before its table is
/// searched. A text is taken not to hold it; a cleaned text does not.
pub const END_OF_B: char = '\n';

/// The text with `mark` behind it.
fn closed(text: &[char], mark: char) -> (out: Vec<char>)
    requires
        text@.len() < usize::MAX,
    ensures
        out@ == text@.push(mark),
{
    let mut out = slice_to_vec(text);
    out.push(mark);
    out
}

/// The matches of two texts of characters: every run that the table of the
/// two texts keeps, each text with its end mark behind it so that a run at
/// the end of a text is kept too, in the order of the rows and columns and
/// as far as the cap allows, each grown in the texts without the marks.
pub open spec fn closed_matches(
    a: Seq<char>,
    b: Seq<char>,
    min_len: usize,
    ratio: Ratio,
    max_substrings: nat,
    max_strike: nat,
) -> Seq<SubstringResult> {
    capped(all_finds(a.push(END_OF_A), b.push(END_OF_B), ratio, min_len), max_substrings).map_values(
        |m: SubstringResult| fully_expanded(a, b, ratio, max_strike, m),
    )
}

/// Searches the whole table of two texts of characters, as
/// `find_levenshtein_matches` does, and keeps the runs at the end of a
/// text too.
pub fn common_substring_levenshtein(
    a: &[char],
    b: &[char],
    min_len: usize,
    ratio: Ratio,
    max_substrings: usize,
    max_strike: usize,
) -> (found: Result<Matches, InvalidArgument>)
    requires
        a@.len() < usize::MAX,
        fits_table(b@.len() + 1),
    ensures
        match found {
            Ok(found) => {
                &&& refusal(min_len, ratio) is None
                &&& found.matches@ == closed_matches(
                    a@,
                    b@,
                    min_len,
                    ratio,
                    max_substrings as nat,
                    max_strike as nat,
                )
                &&& found.truncated == (all_finds(
                    a@.push(END_OF_A),
                    b@.push(END_OF_B),
                    ratio,
                    min_len,
                ).len() > max_substrings)
                &&& all_sound(found.matches@, a@, b@, min_len, max_substrings as nat)
                &&& found.matches@.len() <= max_substrings
                &&& forall|t: int|
                    0 <= t < found.matches@.len() ==> (#[trigger] found.matches@[t]).wf(
                        a@.len(),
                        b@.len(),
                    ) && found.matches@[t].len >= min_len
            },
            Err(reason) => refusal(min_len, ratio) == Some(reason),
        },
{
    match check_arguments(min_len, &ratio) {
        Some(reason) => {
            return Err(reason);
        },
        None => {},
    }
    let closed_a = closed(a, END_OF_A);
    let closed_b = closed(b, END_OF_B);
    let (mut ret, truncated) = scan_table(
        closed_a.as_slice(),
        closed_b.as_slice(),
        min_len,
        ratio,
        max_substrings,
    );
    // Expand matches for the set number of strikes
    expand_matches_left_and_right(&mut ret, a, b, ratio, max_strike);
    proof {
        lemma_closed_matches_sound(a@, b@, min_len, ratio, max_substrings as nat, max_strike as nat);
    }
    assert(ret@ =~= closed_matches(
        a@,
        b@,
        min_len,
        ratio,
        max_substrings as nat,
        max_strike as nat,
    ));
    Ok(Matches { matches: ret, truncated })
}

/// The ratio that is one.
pub open spec fn whole() -> Ratio {
    Ratio { num: 1, den: 1 }
}

/// The runs of `min` symbols or more that `a` and `b` share symbol for
/// symbol, each text with its end mark behind it, in the order of the rows
/// and columns of their table.
pub open spec fn shared_runs(a: Seq<char>, b: Seq<char>, min: usize) -> Seq<SubstringResult> {
    capped(all_finds(a.push(END_OF_A), b.push(END_OF_B), whole(), min), usize::MAX as nat)
}

/// What a shared run spans reads the same in both texts.
proof fn lemma_shared_run_reads_the_same(a: Seq<char>, b: Seq<char>, min: usize, t: int)
    requires
        a.len() < usize::MAX,
        b.len() < usize::MAX,
        0 <= t < shared_runs(a, b, min).len(),
    ensures
        shared_runs(a, b, min)[t].end_a <= a.len(),
        shared_runs(a, b, min)[t].end_b <= b.len(),
        shared_runs(a, b, min)[t].end_b - shared_runs(a, b, min)[t].start_b == shared_runs(
            a,
            b,
            min,
        )[t].len,
        a.subrange(
            shared_runs(a, b, min)[t].start_a as int,
            shared_runs(a, b, min)[t].end_a as int,
        ) == b.subrange(
            shared_runs(a, b, min)[t].start_b as int,
            shared_runs(a, b, min)[t].end_b as int,
        ),
{
    let closed_a = a.push(END_OF_A);
    let closed_b = b.push(END_OF_B);
    let run = shared_runs(a, b, min)[t];
    let all = all_finds(closed_a, closed_b, whole(), min);
    assert(run == all[t]);
    lemma_finds_come_from_pairs(closed_a, closed_b, whole(), min, closed_a.len(), t);
    let (i, j) = choose|i: int, j: int|
        0 <= i < closed_a.len() && 0 <= j < closed_b.len() && #[trigger] kept_run(
            closed_a,
            closed_b,
            whole(),
            min,
            i,
            j,
        ) == Some(run);
    lemma_kept_run_wf(closed_a, closed_b, whole(), min, i, j);
    lemma_kept_run_is_shared(closed_a, closed_b, whole(), min, i, j);
    let in_a = a.subrange(run.start_a as int, run.end_a as int);
    let in_b = b.subrange(run.start_b as int, run.end_b as int);
    assert(in_a =~= in_b) by {
        assert forall|u: int| 0 <= u < run.len implies in_a[u] == in_b[u] by {
            assert(closed_a[run.start_a + u].same_as(&closed_b[run.start_b + u]));
        }
    }
}

/// The substrings of `min` symbols or more that `a` and `b` share: for each
/// the position in `a` of its last symbol, and what it reads.
///
/// A search with `min` below `MIN_LENGTH` is refused.
pub fn common_substring(b: &[char], a: &[char], min: usize) -> (found: Result<
    Vec<(usize, Vec<char>)>,
    InvalidArgument,
>)
    requires
        a@.len() < usize::MAX,
        fits_table(b@.len() + 1),
    ensures
        match found {
            Ok(found) => {
                &&& min >= MIN_LENGTH
                &&& found@.len() == shared_runs(a@, b@, min).len()
                &&& forall|t: int|
                    0 <= t < found@.len() ==> (#[trigger] found@[t]).0 + 1 == shared_runs(
                        a@,
                        b@,
                        min,
                    )[t].end_a && found@[t].1@ == a@.subrange(
                        shared_runs(a@, b@, min)[t].start_a as int,
                        shared_runs(a@, b@, min)[t].end_a as int,
                    ) && found@[t].1@ == b@.subrange(
                        shared_runs(a@, b@, min)[t].start_b as int,
                        shared_runs(a@, b@, min)[t].end_b as int,
                    ) && found@[t].1@.len() >= min
            },
            Err(reason) => min < MIN_LENGTH && reason == InvalidArgument::MinLength,
        },
{
    if min < MIN_LENGTH {
        return Err(InvalidArgument::MinLength);
    }
    let closed_a = closed(a, END_OF_A);
    let closed_b = closed(b, END_OF_B);
    let (runs, _) = scan_table(
        closed_a.as_slice(),
        closed_b.as_slice(),
        min,
        Ratio::one(),
        usize::MAX,
    );
    let mut ret: Vec<(usize, Vec<char>)> = Vec::new();
    let mut t: usize = 0;
    while t < runs.len()
        invariant
            t <= runs@.len(),
            min >= MIN_LENGTH,
            a@.len() < usize::MAX,
            b@.len() < usize::MAX,
            runs@ == shared_runs(a@, b@, min),
            forall|u: int|
                0 <= u < runs@.len() ==> (#[trigger] runs@[u]).wf(a@.len() + 1, b@.len() + 1)
                    && runs@[u].len >= min && runs@[u].end_a < a@.len() + 1,
            ret@.len() == t,
            forall|u: int|
                0 <= u < runs@.len() ==> (#[trigger] runs@[u]).end_b < b@.len() + 1,
            forall|u: int|
                0 <= u < t ==> (#[trigger] ret@[u]).0 + 1 == runs@[u].end_a && ret@[u].1@
                    == a@.subrange(runs@[u].start_a as int, runs@[u].end_a as int) && ret@[u].1@
                    == b@.subrange(runs@[u].start_b as int, runs@[u].end_b as int)
                    && ret@[u].1@.len() >= min,
        decreases runs@.len() - t,
    {
        let run = runs[t];
        proof {
            lemma_shared_run_reads_the_same(a@, b@, min, t as int);
        }
        let text = slice_to_vec(slice_subrange(a, run.start_a, run.end_a));
        ret.push((run.end_a - 1, text));
        t += 1;
    }
    Ok(ret)
}

} // verus!
