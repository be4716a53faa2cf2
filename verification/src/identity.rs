//! What the search of the n-gram index gives when a sequence is compared
//! with itself.

use crate::comparativus::{
    accepting_key, after_key, after_keys, after_pair, after_row, after_rows, all_occurrences,
    candidate, embedded, first_positions, gram_count, gram_texts, indexed_finds, indexed_matches,
    looked_up, occurrences, seed, shrunk, Found, Settings,
};
use crate::distance::lemma_edit_distance_self;
use crate::expansion::{expanded, fully_expanded, probe, room, scan, Direction, Sides};
use crate::order::sorted_by;
use crate::ratio::{lemma_one_is_not_below, Ratio};
use crate::symbol::{windows_agree, Symbol};
use crate::synonyms::Token;
use crate::matrix::{
    all_finds, closed_matches, finds, kept_run, lemma_run_len_bound, row_finds, run_len, END_OF_A,
    END_OF_B,
};
use crate::runs::{lemma_nothing_absorbed_at_one, lemma_run_agrees_at_one};
use crate::utils::{window_ratio, SubstringResult};
use vstd::prelude::*;

verus! {

/// The match that spans a sequence of `n` symbols on both sides, with
/// nothing edited.
pub open spec fn whole_match(n: nat) -> SubstringResult {
    SubstringResult {
        start_a: 0,
        end_a: n as usize,
        start_b: 0,
        end_b: n as usize,
        len: n as usize,
        edit_ratio: Ratio { num: n as usize, den: n as usize },
    }
}

/// The n-gram at the beginning of `s` accepts no n-gram behind it.
pub open spec fn first_gram_stands_alone(s: Seq<Token>, k: nat) -> bool {
    forall|p: int| 1 <= p <= s.len() - k ==> !windows_agree(s, 0, s, p, k as int)
}

/// Two n-grams that read the same agree.
proof fn lemma_same_texts_agree(s: Seq<Token>, p: int, q: int, k: nat)
    requires
        0 <= p,
        0 <= q,
        p + k <= s.len(),
        q + k <= s.len(),
        gram_texts(s, p, k) == gram_texts(s, q, k),
    ensures
        windows_agree(s, p, s, q, k as int),
{
    assert forall|t: int| 0 <= t < k implies (#[trigger] s[p + t]).same_as(&s[q + t]) by {
        assert(gram_texts(s, p, k)[t] == s[p + t].text@);
        assert(gram_texts(s, q, k)[t] == s[q + t].text@);
    }
}

/// Where the first n-gram stands alone, it occurs at the beginning and
/// nowhere else.
proof fn lemma_first_gram_once(s: Seq<Token>, k: nat, upto: nat)
    requires
        1 <= k <= s.len(),
        first_gram_stands_alone(s, k),
        1 <= upto <= gram_count(s.len(), k),
    ensures
        occurrences(s, k, gram_texts(s, 0, k), upto) == seq![0usize],
    decreases upto,
{
    let gram = gram_texts(s, 0, k);
    if upto == 1 {
        assert(occurrences(s, k, gram, 0) == Seq::<usize>::empty());
        assert(occurrences(s, k, gram, 1) =~= seq![0usize]);
    } else {
        lemma_first_gram_once(s, k, (upto - 1) as nat);
        if gram_texts(s, upto - 1, k) == gram {
            lemma_same_texts_agree(s, 0, upto - 1, k);
        }
    }
}

/// Where the first n-gram stands alone, an n-gram that it does not accept
/// occurs behind the beginning only.
proof fn lemma_other_gram_behind(s: Seq<Token>, k: nat, q: int, upto: nat, idx: int)
    requires
        1 <= k <= s.len(),
        1 <= q <= s.len() - k,
        !windows_agree(s, 0, s, q, k as int),
        s.len() <= usize::MAX,
        upto <= gram_count(s.len(), k),
        0 <= idx < occurrences(s, k, gram_texts(s, q, k), upto).len(),
    ensures
        1 <= occurrences(s, k, gram_texts(s, q, k), upto)[idx] < upto,
    decreases upto,
{
    let gram = gram_texts(s, q, k);
    if upto != 0 {
        let before = occurrences(s, k, gram, (upto - 1) as nat);
        if idx < before.len() {
            lemma_other_gram_behind(s, k, q, (upto - 1) as nat, idx);
        } else {
            assert(gram_texts(s, upto - 1, k) == gram);
            if upto == 1 {
                lemma_same_texts_agree(s, 0, q, k);
            }
        }
    }
}

/// The first of the first positions is the beginning, and every other one
/// lies behind it.
proof fn lemma_first_positions_head(s: Seq<Token>, k: nat, upto: nat)
    requires
        1 <= upto <= usize::MAX,
    ensures
        first_positions(s, k, upto).len() >= 1,
        first_positions(s, k, upto)[0] == 0,
        forall|idx: int|
            1 <= idx < first_positions(s, k, upto).len() ==> 1 <= #[trigger] first_positions(
                s,
                k,
                upto,
            )[idx] < upto,
    decreases upto,
{
    if upto == 1 {
        assert(first_positions(s, k, 0) == Seq::<usize>::empty());
        assert(occurrences(s, k, gram_texts(s, 0, k), 0).len() == 0);
        assert(first_positions(s, k, 1) =~= seq![0usize]);
    } else {
        lemma_first_positions_head(s, k, (upto - 1) as nat);
    }
}

/// A key that is found accepts what was looked for, and lies at or behind
/// the place where the search began.
proof fn lemma_accepting_key(
    text: Seq<Token>,
    keys: Seq<usize>,
    probe: Seq<Token>,
    at: int,
    k: nat,
    from: int,
)
    requires
        0 <= from,
    ensures
        match accepting_key(text, keys, probe, at, k, from) {
            Some(idx) => from <= idx < keys.len() && windows_agree(
                text,
                keys[idx] as int,
                probe,
                at,
                k as int,
            ),
            None => true,
        },
    decreases keys.len() - from,
{
    if from < keys.len() && !windows_agree(text, keys[from] as int, probe, at, k as int) {
        lemma_accepting_key(text, keys, probe, at, k, from + 1);
    }
}

/// A range of a sequence against the same range has the ratio one, unless
/// it is empty.
proof fn lemma_same_window(s: Seq<Token>, start: int, end: int)
    requires
        0 <= start <= end <= s.len(),
        s.len() <= usize::MAX,
    ensures
        window_ratio(s, s, start, end, start, end, (end - start) as nat) == (Ratio {
            num: (end - start) as usize,
            den: (end - start) as usize,
        }),
{
    lemma_edit_distance_self(s.subrange(start, end));
}

/// The beginning of a sequence, matched with itself, grows to the right
/// until it is the whole sequence.
proof fn lemma_scan_to_the_end(
    s: Seq<Token>,
    ratio: Ratio,
    max_strike: nat,
    origin: SubstringResult,
    best: SubstringResult,
    done: nat,
)
    requires
        s.len() <= usize::MAX,
        ratio.is_one(),
        max_strike >= 1,
        origin.start_a == 0,
        origin.start_b == 0,
        origin.end_a == origin.end_b,
        origin.end_a <= s.len(),
        origin.len == origin.end_a,
        origin.edit_ratio == (Ratio { num: origin.len, den: origin.len }),
        done <= s.len() - origin.end_a,
        best == whole_match((origin.end_a + done) as nat),
    ensures
        scan(s, s, ratio, max_strike, origin, Direction::Forward, Sides::Both, best, done, 0)
            == whole_match(s.len()),
    decreases s.len() - origin.end_a - done,
{
    let limit = room(origin, s.len(), s.len(), Direction::Forward, Sides::Both);
    assert(limit == s.len() - origin.end_a);
    if done < limit {
        let next = probe(s, s, origin, Direction::Forward, Sides::Both, done + 1);
        let end = origin.end_a + done + 1;
        lemma_same_window(s, 0, end);
        assert(next == whole_match(end as nat));
        lemma_one_is_not_below(next.edit_ratio, ratio);
        lemma_scan_to_the_end(s, ratio, max_strike, origin, next, done + 1);
    }
}

/// A pass that has no room leaves the match as it is.
proof fn lemma_no_room<T: Symbol>(
    s: Seq<T>,
    ratio: Ratio,
    max_strike: nat,
    m: SubstringResult,
    dir: Direction,
    sides: Sides,
)
    requires
        room(m, s.len(), s.len(), dir, sides) == 0,
    ensures
        expanded(s, s, ratio, max_strike, m, dir, sides) == m,
{
}

/// A match that spans a sequence on both sides cannot grow.
proof fn lemma_whole_match_stays<T: Symbol>(s: Seq<T>, ratio: Ratio, max_strike: nat)
    requires
        s.len() <= usize::MAX,
    ensures
        fully_expanded(s, s, ratio, max_strike, whole_match(s.len())) == whole_match(s.len()),
{
    let m = whole_match(s.len());
    lemma_no_room(s, ratio, max_strike, m, Direction::Forward, Sides::Both);
    lemma_no_room(s, ratio, max_strike, m, Direction::Forward, Sides::OnlyA);
    lemma_no_room(s, ratio, max_strike, m, Direction::Forward, Sides::OnlyB);
    lemma_no_room(s, ratio, max_strike, m, Direction::Backward, Sides::Both);
    lemma_no_room(s, ratio, max_strike, m, Direction::Backward, Sides::OnlyA);
    lemma_no_room(s, ratio, max_strike, m, Direction::Backward, Sides::OnlyB);
}

/// The pair of positions at the beginning leads to the whole sequence.
proof fn lemma_first_candidate(s: Seq<Token>, st: Settings)
    requires
        1 <= s.len() <= usize::MAX,
        st.ratio.is_one(),
        st.max_strike >= 1 || st.base_match_size >= s.len(),
    ensures
        candidate(s, s, st, 0, 0) == whole_match(s.len()),
{
    let n = s.len();
    let first = seed(s, s, st.base_match_size, 0, 0);
    let l: nat = if st.base_match_size <= n {
        st.base_match_size as nat
    } else {
        n
    };
    lemma_same_window(s, 0, l as int);
    assert(first == whole_match(l));
    if l > 0 {
        lemma_one_is_not_below(first.edit_ratio, st.ratio);
    }
    assert(shrunk(s, s, st.ratio, first) == first);
    let ratio = st.ratio;
    let strikes = st.max_strike as nat;
    let r1 = expanded(s, s, ratio, strikes, first, Direction::Forward, Sides::Both);
    if l == n {
        lemma_no_room(s, ratio, strikes, first, Direction::Forward, Sides::Both);
    } else {
        lemma_scan_to_the_end(s, ratio, strikes, first, first, 0);
    }
    assert(r1 == whole_match(n));
    lemma_no_room(s, ratio, strikes, r1, Direction::Forward, Sides::OnlyA);
    lemma_no_room(s, ratio, strikes, r1, Direction::Forward, Sides::OnlyB);
    lemma_no_room(s, ratio, strikes, r1, Direction::Backward, Sides::Both);
    lemma_no_room(s, ratio, strikes, r1, Direction::Backward, Sides::OnlyA);
    lemma_no_room(s, ratio, strikes, r1, Direction::Backward, Sides::OnlyB);
}

/// Pairs of positions inside the only match that has been found add no
/// match.
proof fn lemma_row_adds_nothing(
    found: Found,
    s: Seq<Token>,
    st: Settings,
    oa: usize,
    occ_b: Seq<usize>,
    upto: nat,
)
    requires
        found.matches == seq![whole_match(s.len())],
        s.len() <= usize::MAX,
        0 < oa < s.len(),
        upto <= occ_b.len(),
        forall|t: int| 0 <= t < occ_b.len() ==> 0 < #[trigger] occ_b[t] < s.len(),
    ensures
        after_row(found, s, s, st, oa, occ_b, upto).matches == found.matches,
    decreases upto,
{
    if upto != 0 {
        lemma_row_adds_nothing(found, s, st, oa, occ_b, (upto - 1) as nat);
        let before = after_row(found, s, s, st, oa, occ_b, (upto - 1) as nat);
        let ob = occ_b[upto - 1];
        assert(before.matches[0] == whole_match(s.len()));
        assert(embedded(before.matches, oa, ob));
    }
}

/// Rows of pairs of positions inside the only match that has been found
/// add no match.
proof fn lemma_rows_add_nothing(
    found: Found,
    s: Seq<Token>,
    st: Settings,
    occ_a: Seq<usize>,
    occ_b: Seq<usize>,
    upto: nat,
)
    requires
        found.matches == seq![whole_match(s.len())],
        s.len() <= usize::MAX,
        upto <= occ_a.len(),
        forall|t: int| 0 <= t < occ_a.len() ==> 0 < #[trigger] occ_a[t] < s.len(),
        forall|t: int| 0 <= t < occ_b.len() ==> 0 < #[trigger] occ_b[t] < s.len(),
    ensures
        after_rows(found, s, s, st, occ_a, occ_b, upto).matches == found.matches,
    decreases upto,
{
    if upto != 0 {
        lemma_rows_add_nothing(found, s, st, occ_a, occ_b, (upto - 1) as nat);
        lemma_row_adds_nothing(
            after_rows(found, s, s, st, occ_a, occ_b, (upto - 1) as nat),
            s,
            st,
            occ_a[upto - 1],
            occ_b,
            occ_b.len(),
        );
    }
}

/// Where the first n-gram stands alone, what is looked up for an n-gram
/// behind the beginning lies behind the beginning.
proof fn lemma_looked_up_behind(s: Seq<Token>, k: nat, pa: int)
    requires
        1 <= k <= s.len(),
        s.len() <= usize::MAX,
        first_gram_stands_alone(s, k),
        1 <= pa <= s.len() - k,
    ensures
        match looked_up(s, s, pa, k) {
            Some(positions) => forall|t: int|
                0 <= t < positions.len() ==> 0 < #[trigger] positions[t] < s.len(),
            None => true,
        },
{
    let total = gram_count(s.len(), k);
    let keys = first_positions(s, k, total);
    lemma_first_positions_head(s, k, total);
    lemma_accepting_key(s, keys, s, pa, k, 0);
    match accepting_key(s, keys, s, pa, k, 0) {
        Some(idx) => {
            let q = keys[idx] as int;
            assert(idx != 0);
            let positions = all_occurrences(s, k, gram_texts(s, q, k));
            assert forall|t: int| 0 <= t < positions.len() implies 0 < #[trigger] positions[t]
                < s.len() by {
                if windows_agree(s, 0, s, q, k as int) {
                    assert(false);
                }
                lemma_other_gram_behind(s, k, q, total, t);
            }
        },
        None => {},
    }
}

/// Where the first n-gram stands alone, the n-grams behind it add no
/// match to the whole sequence.
proof fn lemma_later_keys(s: Seq<Token>, k: nat, st: Settings, upto: nat)
    requires
        1 <= k <= s.len(),
        s.len() <= usize::MAX,
        st.min_len <= s.len(),
        st.ratio.is_one(),
        st.max_substrings >= 1,
        st.max_strike >= 1 || st.base_match_size >= s.len(),
        first_gram_stands_alone(s, k),
        1 <= upto <= first_positions(s, k, gram_count(s.len(), k)).len(),
    ensures
        after_keys(s, s, k, st, upto).matches == seq![whole_match(s.len())],
    decreases upto,
{
    let total = gram_count(s.len(), k);
    let keys = first_positions(s, k, total);
    lemma_first_positions_head(s, k, total);
    if upto == 1 {
        let start = Found { matches: Seq::empty(), truncated: false };
        assert(after_keys(s, s, k, st, 0) == start);
        assert(windows_agree(s, 0, s, 0, k as int)) by {
            assert forall|t: int| 0 <= t < k implies (#[trigger] s[0 + t]).same_as(&s[0 + t]) by {
                s[0 + t].same_as_self();
            }
        }
        assert(accepting_key(s, keys, s, 0, k, 0) == Some(0int));
        lemma_first_gram_once(s, k, total);
        let occ = seq![0usize];
        assert(looked_up(s, s, 0, k) == Some(occ));
        lemma_first_candidate(s, st);
        let step = after_pair(start, s, s, st, 0, 0);
        assert(!embedded(start.matches, 0, 0));
        assert(step.matches =~= seq![whole_match(s.len())]);
        assert(after_row(start, s, s, st, 0, occ, 0) == start);
        assert(after_row(start, s, s, st, 0, occ, 1) == step);
        assert(after_rows(start, s, s, st, occ, occ, 0) == start);
        assert(after_rows(start, s, s, st, occ, occ, 1) == step);
        assert(after_key(start, s, s, k, st, 0) == step);
    } else {
        lemma_later_keys(s, k, st, (upto - 1) as nat);
        let before = after_keys(s, s, k, st, (upto - 1) as nat);
        let pa = keys[upto - 1];
        lemma_looked_up_behind(s, k, pa as int);
        match looked_up(s, s, pa as int, k) {
            Some(occ) => {
                lemma_rows_add_nothing(before, s, st, occ, occ, occ.len());
            },
            None => {},
        }
    }
}

/// A sequence that is searched against itself with the threshold one gives
/// one match, which spans the whole sequence on both sides and has the
/// ratio one.
///
/// This holds of a sequence that has an n-gram of `k` tokens and is no
/// shorter than `min_len`, when its first n-gram accepts no n-gram behind
/// it, the cap allows one match, and either a strike is allowed or the seed
/// spans the sequence.
pub proof fn lemma_identity(s: Seq<Token>, k: nat, st: Settings)
    requires
        1 <= k <= s.len(),
        s.len() <= usize::MAX,
        st.min_len <= s.len(),
        st.ratio.is_one(),
        st.max_substrings >= 1,
        st.max_strike >= 1 || st.base_match_size >= s.len(),
        first_gram_stands_alone(s, k),
    ensures
        indexed_matches(s, s, k, st) == seq![whole_match(s.len())],
        whole_match(s.len()).edit_ratio.is_one(),
{
    let total = gram_count(s.len(), k);
    let keys = first_positions(s, k, total);
    lemma_first_positions_head(s, k, total);
    lemma_later_keys(s, k, st, keys.len());
    let only = seq![whole_match(s.len())];
    assert(indexed_finds(s, s, k, st).matches == only);
    assert(only.drop_last() =~= Seq::<SubstringResult>::empty());
    assert(sorted_by(only.drop_last(), true) =~= Seq::<SubstringResult>::empty());
    assert(sorted_by(only, true) =~= only);
}

/// No run of `len` symbols is read at two places of `s`.
pub open spec fn nothing_recurs(s: Seq<char>, len: nat) -> bool {
    forall|p: int, q: int|
        0 <= p < q <= s.len() - len ==> #[trigger] s.subrange(p, p + len) != #[trigger] s.subrange(
            q,
            q + len,
        )
}

/// The text holds neither of the two end marks.
pub open spec fn holds_no_end_mark(s: Seq<char>) -> bool {
    forall|i: int| 0 <= i < s.len() ==> #[trigger] s[i] != END_OF_A && s[i] != END_OF_B
}

/// On the diagonal of the table of a text against itself the run grows
/// with every pair.
proof fn lemma_diagonal_run(s: Seq<char>, ratio: Ratio, i: int)
    requires
        -1 <= i < s.len(),
    ensures
        run_len(s.push(END_OF_A), s.push(END_OF_B), ratio, i, i) == i + 1,
    decreases i + 1,
{
    if i >= 0 {
        lemma_diagonal_run(s, ratio, i - 1);
        assert(s.push(END_OF_A)[i] == s[i]);
        assert(s.push(END_OF_B)[i] == s[i]);
    }
}

/// Off the diagonal of the table of a text against itself, in which
/// nothing of `len` symbols recurs, every run is shorter than `len`.
proof fn lemma_short_runs_off_the_diagonal(s: Seq<char>, ratio: Ratio, len: nat, i: int, j: int)
    requires
        ratio.is_one(),
        s.len() < usize::MAX,
        len >= 1,
        nothing_recurs(s, len),
        holds_no_end_mark(s),
        i != j,
    ensures
        run_len(s.push(END_OF_A), s.push(END_OF_B), ratio, i, j) < len,
{
    let a = s.push(END_OF_A);
    let b = s.push(END_OF_B);
    let r = run_len(a, b, ratio, i, j);
    lemma_run_len_bound(a, b, ratio, i, j);
    lemma_run_agrees_at_one(a, b, ratio, i, j);
    if r >= len {
        assert(0 <= i < a.len() && 0 <= j < b.len());
        assert(a[i + 1 - r + (r - 1)].same_as(&b[j + 1 - r + (r - 1)]));
        assert(a[i] == b[j]);
        if i == s.len() {
            assert(b[j] == s[j]);
        }
        if j == s.len() {
            assert(a[i] == s[i]);
        }
        let p = i + 1 - len;
        let q = j + 1 - len;
        let left = s.subrange(p, p + len);
        let right = s.subrange(q, q + len);
        assert(left =~= right) by {
            assert forall|t: int| 0 <= t < len implies left[t] == right[t] by {
                assert(a[i + 1 - r + (r - len + t)].same_as(&b[j + 1 - r + (r - len + t)]));
                assert(a[p + t] == s[p + t]);
                assert(b[q + t] == s[q + t]);
            }
        }
        if p < q {
            assert(s.subrange(p, p + len) != s.subrange(q, q + len));
        } else {
            assert(s.subrange(q, q + len) != s.subrange(p, p + len));
        }
    }
}

/// In the table of such a text against itself one pair only ends a run
/// that is kept: the pair of the two end marks, which ends the run of the
/// whole text.
proof fn lemma_one_kept_run(s: Seq<char>, ratio: Ratio, min_len: usize, i: int, j: int)
    requires
        ratio.is_one(),
        s.len() < usize::MAX,
        1 <= min_len <= s.len(),
        nothing_recurs(s, min_len as nat),
        holds_no_end_mark(s),
    ensures
        kept_run(s.push(END_OF_A), s.push(END_OF_B), ratio, min_len, i, j) == if i == s.len() && j
            == s.len() {
            Some(whole_match(s.len()))
        } else {
            None
        },
{
    let a = s.push(END_OF_A);
    let b = s.push(END_OF_B);
    let n = s.len() as int;
    if i == j {
        if 0 <= i < n {
            assert(a[i] == s[i] && b[i] == s[i]);
        } else if i == n {
            lemma_diagonal_run(s, ratio, n - 1);
            lemma_nothing_absorbed_at_one(a, b, ratio, n, n, n as nat);
            assert(a.subrange(0, n) =~= s);
            assert(b.subrange(0, n) =~= s);
            lemma_edit_distance_self(s);
        }
    } else {
        lemma_short_runs_off_the_diagonal(s, ratio, min_len as nat, i - 1, j - 1);
    }
}

/// The rows of the table above the row of the end mark keep nothing, and
/// that row keeps the whole text at its end.
proof fn lemma_rows_of_the_table(s: Seq<char>, ratio: Ratio, min_len: usize, i: int, cols: nat)
    requires
        ratio.is_one(),
        s.len() < usize::MAX,
        1 <= min_len <= s.len(),
        nothing_recurs(s, min_len as nat),
        holds_no_end_mark(s),
        0 <= i <= s.len(),
        cols <= s.len() + 1,
    ensures
        row_finds(s.push(END_OF_A), s.push(END_OF_B), ratio, min_len, i, cols) == if i == s.len()
            && cols == s.len() + 1 {
            seq![whole_match(s.len())]
        } else {
            Seq::empty()
        },
    decreases cols,
{
    if cols != 0 {
        lemma_rows_of_the_table(s, ratio, min_len, i, (cols - 1) as nat);
        lemma_one_kept_run(s, ratio, min_len, i, cols - 1);
        let a = s.push(END_OF_A);
        let b = s.push(END_OF_B);
        if i == s.len() && cols == s.len() + 1 {
            assert(row_finds(a, b, ratio, min_len, i, cols) =~= seq![whole_match(s.len())]);
        }
    }
}

/// The table of such a text against itself keeps nothing above the row of
/// the end mark.
proof fn lemma_nothing_above(s: Seq<char>, ratio: Ratio, min_len: usize, rows: nat)
    requires
        ratio.is_one(),
        s.len() < usize::MAX,
        1 <= min_len <= s.len(),
        nothing_recurs(s, min_len as nat),
        holds_no_end_mark(s),
        rows <= s.len(),
    ensures
        finds(s.push(END_OF_A), s.push(END_OF_B), ratio, min_len, rows).len() == 0,
    decreases rows,
{
    if rows != 0 {
        lemma_nothing_above(s, ratio, min_len, (rows - 1) as nat);
        lemma_rows_of_the_table(s, ratio, min_len, rows - 1, s.len() + 1);
    }
}

/// A text that is searched against itself in the whole table, with its end
/// marks and the threshold one, gives one match, which spans the whole
/// text on both sides and has the ratio one.
///
/// This holds of a text that is no shorter than `min_len`, holds neither
/// end mark and reads no run of `min_len` symbols at two places, when the
/// cap allows one match.
pub proof fn lemma_identity_in_the_table(
    s: Seq<char>,
    min_len: usize,
    ratio: Ratio,
    max_substrings: nat,
    max_strike: nat,
)
    requires
        ratio.is_one(),
        s.len() < usize::MAX,
        1 <= min_len <= s.len(),
        max_substrings >= 1,
        nothing_recurs(s, min_len as nat),
        holds_no_end_mark(s),
    ensures
        closed_matches(s, s, min_len, ratio, max_substrings, max_strike) == seq![
            whole_match(s.len()),
        ],
        whole_match(s.len()).edit_ratio.is_one(),
{
    let a = s.push(END_OF_A);
    let b = s.push(END_OF_B);
    lemma_nothing_above(s, ratio, min_len, s.len());
    lemma_rows_of_the_table(s, ratio, min_len, s.len() as int, s.len() + 1);
    let all = all_finds(a, b, ratio, min_len);
    assert(all =~= seq![whole_match(s.len())]);
    lemma_whole_match_stays(s, ratio, max_strike);
    assert(closed_matches(s, s, min_len, ratio, max_substrings, max_strike) =~= seq![
        whole_match(s.len()),
    ]);
}

} // verus!
