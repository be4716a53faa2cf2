use crate::expansion::fully_expanded;
use crate::fx::{index_contents, index_get, index_insert, index_remove, key_texts, new_index};
use crate::order::{lemma_sorted_by_keeps, ordered, sort_by_start, sorted_by};
use crate::ratio::Ratio;
use crate::report::{check_arguments, refusal, InvalidArgument, Matches};
use crate::sound::{all_sound, lemma_indexed_matches_sound};
use crate::symbol::{windows_agree, Symbol};
use crate::synonyms::Token;
use crate::utils::{
    expand_match_left_and_right, fits_table, recompute_ratio, window_ratio, SubstringResult,
};
use rustc_hash::FxHashMap;
use vstd::prelude::*;
use vstd::slice::slice_to_vec;

verus! {

/// What the n-gram of `k` tokens at `p` reads: the texts of its tokens.
pub open spec fn gram_texts(text: Seq<Token>, p: int, k: nat) -> Seq<Seq<char>> {
    Seq::new(k, |t: int| text[p + t].text@)
}

/// How many n-grams of `k` tokens a text of `len` tokens has: one at each
/// position that leaves room for it, and none where `k` is zero.
pub open spec fn gram_count(len: nat, k: nat) -> nat {
    if 1 <= k <= len {
        (len - k + 1) as nat
    } else {
        0
    }
}

/// The positions below `upto` at which the n-gram reads `gram`, in rising
/// order.
pub open spec fn occurrences(text: Seq<Token>, k: nat, gram: Seq<Seq<char>>, upto: nat) -> Seq<usize>
    decreases upto,
{
    if upto == 0 {
        Seq::empty()
    } else {
        let before = occurrences(text, k, gram, (upto - 1) as nat);
        if gram_texts(text, upto - 1, k) == gram {
            before.push((upto - 1) as usize)
        } else {
            before
        }
    }
}

/// The positions below `upto` at which an n-gram is read that no position
/// in front of it reads, in rising order.
pub open spec fn first_positions(text: Seq<Token>, k: nat, upto: nat) -> Seq<usize>
    decreases upto,
{
    if upto == 0 {
        Seq::empty()
    } else {
        let before = first_positions(text, k, (upto - 1) as nat);
        if occurrences(text, k, gram_texts(text, upto - 1, k), (upto - 1) as nat).len() == 0 {
            before.push((upto - 1) as usize)
        } else {
            before
        }
    }
}

/// The positions at which `text` reads `gram`, in rising order.
pub open spec fn all_occurrences(text: Seq<Token>, k: nat, gram: Seq<Seq<char>>) -> Seq<usize> {
    occurrences(text, k, gram, gram_count(text.len(), k))
}

/// The n-grams of a text by what they read.
struct Ngrams {
    ngrams: FxHashMap<Vec<Vec<char>>, Vec<usize>>,
    keys: Vec<usize>,
}

impl Ngrams {
    /// The index holds the n-grams of `k` tokens of `text` that begin below
    /// `upto`.
    spec fn holds(&self, text: Seq<Token>, k: nat, upto: nat) -> bool {
        &&& forall|gram: Seq<Seq<char>>| #[trigger]
            index_contents(self.ngrams).contains_key(gram) <==> occurrences(text, k, gram, upto).len()
                > 0
        &&& forall|gram: Seq<Seq<char>>| #[trigger]
            index_contents(self.ngrams).contains_key(gram) ==> index_contents(self.ngrams)[gram]
                == occurrences(text, k, gram, upto)
        &&& self.keys@ == first_positions(text, k, upto)
    }

    fn new() -> (index: Self)
        ensures
            forall|text: Seq<Token>, k: nat| index.holds(text, k, 0),
    {
        Ngrams { ngrams: new_index(), keys: Vec::new() }
    }

    fn add_gram(&mut self, text: &[Token], kernel_size: usize, index: usize)
        requires
            old(self).holds(text@, kernel_size as nat, index as nat),
            index + kernel_size <= text@.len(),
        ensures
            final(self).holds(text@, kernel_size as nat, (index + 1) as nat),
    {
        let key = gram_key(text, index, kernel_size);
        let ghost gram = gram_texts(text@, index as int, kernel_size as nat);
        let ghost before = index_contents(self.ngrams);
        match index_remove(&mut self.ngrams, &key) {
            Some(mut positions) => {
                positions.push(index);
                index_insert(&mut self.ngrams, key, positions);
            },
            None => {
                let mut positions: Vec<usize> = Vec::new();
                positions.push(index);
                index_insert(&mut self.ngrams, key, positions);
                self.keys.push(index);
            },
        }
        proof {
            let after = index_contents(self.ngrams);
            assert forall|g: Seq<Seq<char>>| #[trigger]
                after.contains_key(g) <==> occurrences(
                    text@,
                    kernel_size as nat,
                    g,
                    (index + 1) as nat,
                ).len() > 0 by {
                assert(before.contains_key(g) <==> occurrences(
                    text@,
                    kernel_size as nat,
                    g,
                    index as nat,
                ).len() > 0);
            }
            assert forall|g: Seq<Seq<char>>| #[trigger] after.contains_key(g) implies after[g]
                == occurrences(text@, kernel_size as nat, g, (index + 1) as nat) by {
                if g != gram {
                    assert(before.contains_key(g));
                }
            }
        }
    }

    /// The positions kept for the first n-gram of the index that accepts
    /// the n-gram of `probe` at `at`, token by token.
    fn get<'m>(
        &'m self,
        text: &[Token],
        kernel_size: usize,
        probe: &[Token],
        at: usize,
    ) -> (found: Option<&'m Vec<usize>>)
        requires
            self.holds(text@, kernel_size as nat, gram_count(text@.len(), kernel_size as nat)),
            at + kernel_size <= probe@.len(),
        ensures
            match found {
                Some(positions) => looked_up(text@, probe@, at as int, kernel_size as nat) == Some(
                    positions@,
                ),
                None => looked_up(text@, probe@, at as int, kernel_size as nat) is None,
            },
    {
        let ghost total = gram_count(text@.len(), kernel_size as nat);
        let ghost keys = first_positions(text@, kernel_size as nat, total);
        let mut idx: usize = 0;
        while idx < self.keys.len()
            invariant
                idx <= self.keys@.len(),
                self.keys@ == keys,
                total == gram_count(text@.len(), kernel_size as nat),
                keys == first_positions(text@, kernel_size as nat, total),
                self.holds(text@, kernel_size as nat, total),
                at + kernel_size <= probe@.len(),
                accepting_key(text@, keys, probe@, at as int, kernel_size as nat, 0) == accepting_key(
                    text@,
                    keys,
                    probe@,
                    at as int,
                    kernel_size as nat,
                    idx as int,
                ),
            decreases self.keys@.len() - idx,
        {
            let position = self.keys[idx];
            proof {
                lemma_first_positions(text@, kernel_size as nat, total, idx as int);
            }
            if same_window(text, position, probe, at, kernel_size) {
                // This is necessary because the hashes do not know of synonyms,
                // so we need to make sure that it is exactly the same key
                let key = gram_key(text, position, kernel_size);
                proof {
                    lemma_occurrences_hold(
                        text@,
                        kernel_size as nat,
                        total,
                        position as int,
                    );
                }
                return index_get(&self.ngrams, &key);
            }
            idx += 1;
        }
        // If we don't find the key, we can return None
        None
    }
}

/// The first key, from `from` on, whose n-gram in `text` accepts the n-gram
/// of `probe` at `at`, token by token.
pub open spec fn accepting_key(
    text: Seq<Token>,
    keys: Seq<usize>,
    probe: Seq<Token>,
    at: int,
    k: nat,
    from: int,
) -> Option<int>
    decreases keys.len() - from,
{
    if from < 0 || from >= keys.len() {
        None
    } else if windows_agree(text, keys[from] as int, probe, at, k as int) {
        Some(from)
    } else {
        accepting_key(text, keys, probe, at, k, from + 1)
    }
}

/// The positions in `text` of the first of its n-grams that accepts the
/// n-gram of `probe` at `at`. The n-grams of `text` are tried in the order
/// in which they are first read.
pub open spec fn looked_up(text: Seq<Token>, probe: Seq<Token>, at: int, k: nat) -> Option<
    Seq<usize>,
> {
    let keys = first_positions(text, k, gram_count(text.len(), k));
    match accepting_key(text, keys, probe, at, k, 0) {
        Some(idx) => Some(all_occurrences(text, k, gram_texts(text, keys[idx] as int, k))),
        None => None,
    }
}

/// Every first position lies below `upto`.
pub proof fn lemma_first_positions(text: Seq<Token>, k: nat, upto: nat, idx: int)
    requires
        0 <= idx < first_positions(text, k, upto).len(),
    ensures
        first_positions(text, k, upto)[idx] < upto,
    decreases upto,
{
    if upto != 0 {
        let before = first_positions(text, k, (upto - 1) as nat);
        if idx < before.len() {
            lemma_first_positions(text, k, (upto - 1) as nat, idx);
        }
    }
}

/// Every occurrence lies below `upto`.
pub proof fn lemma_occurrences_below(text: Seq<Token>, k: nat, gram: Seq<Seq<char>>, upto: nat, idx: int)
    requires
        0 <= idx < occurrences(text, k, gram, upto).len(),
    ensures
        occurrences(text, k, gram, upto)[idx] < upto,
    decreases upto,
{
    if upto != 0 {
        let before = occurrences(text, k, gram, (upto - 1) as nat);
        if idx < before.len() {
            lemma_occurrences_below(text, k, gram, (upto - 1) as nat, idx);
        }
    }
}

/// The n-gram at a position below `upto` occurs below `upto`.
pub proof fn lemma_occurrences_hold(text: Seq<Token>, k: nat, upto: nat, p: int)
    requires
        0 <= p < upto,
    ensures
        occurrences(text, k, gram_texts(text, p, k), upto).len() > 0,
    decreases upto,
{
    if p < upto - 1 {
        lemma_occurrences_hold(text, k, (upto - 1) as nat, p);
    }
}

/// The texts of the `kernel_size` tokens at `index`.
fn gram_key(text: &[Token], index: usize, kernel_size: usize) -> (key: Vec<Vec<char>>)
    requires
        index + kernel_size <= text@.len(),
    ensures
        key_texts(key) == gram_texts(text@, index as int, kernel_size as nat),
{
    let mut key: Vec<Vec<char>> = Vec::new();
    let mut t: usize = 0;
    let len = text.len();
    while t < kernel_size
        invariant
            t <= kernel_size,
            len == text@.len(),
            index + kernel_size <= text@.len(),
            key@.len() == t,
            forall|u: int| 0 <= u < t ==> (#[trigger] key@[u])@ == text@[index + u].text@,
        decreases kernel_size - t,
    {
        key.push(slice_to_vec(text[index + t].text));
        t += 1;
    }
    assert(key_texts(key) =~= gram_texts(text@, index as int, kernel_size as nat));
    key
}

/// Whether the n-gram of `text` at `position` accepts the n-gram of `probe`
/// at `at`, token by token.
fn same_window(text: &[Token], position: usize, probe: &[Token], at: usize, kernel_size: usize) -> (same:
    bool)
    requires
        position + kernel_size <= text@.len(),
        at + kernel_size <= probe@.len(),
    ensures
        same == windows_agree(text@, position as int, probe@, at as int, kernel_size as int),
{
    let mut t: usize = 0;
    let len = text.len();
    let probe_len = probe.len();
    while t < kernel_size
        invariant
            t <= kernel_size,
            len == text@.len(),
            probe_len == probe@.len(),
            position + kernel_size <= text@.len(),
            at + kernel_size <= probe@.len(),
            forall|u: int| 0 <= u < t ==> (#[trigger] text@[position + u]).same_as(&probe@[at + u]),
        decreases kernel_size - t,
    {
        if !text[position + t].matches(&probe[at + t]) {
            return false;
        }
        t += 1;
    }
    true
}

fn build_ngrams(text: &[Token], kernel_size: usize) -> (index: Ngrams)
    ensures
        index.holds(text@, kernel_size as nat, gram_count(text@.len(), kernel_size as nat)),
{
    let mut ngrams: Ngrams = Ngrams::new();
    if kernel_size == 0 || kernel_size > text.len() {
        return ngrams;
    }
    let count: usize = text.len() - kernel_size + 1;
    let mut i: usize = 0;
    while i < count
        invariant
            i <= count,
            count == text@.len() - kernel_size + 1,
            ngrams.holds(text@, kernel_size as nat, i as nat),
        decreases count - i,
    {
        ngrams.add_gram(text, kernel_size, i);
        i += 1;
    }
    ngrams
}

/// What steers a search of the n-gram index.
#[derive(Clone, Copy, Debug)]
pub struct Settings {
    pub min_len: usize,
    pub ratio: Ratio,
    pub max_substrings: usize,
    pub max_strike: usize,
    pub base_match_size: usize,
}

/// What a search has found so far, in the order of finding.
pub struct Found {
    pub matches: Seq<SubstringResult>,
    pub truncated: bool,
}

/// The settings made of these values.
pub open spec fn settings(
    min_len: usize,
    ratio: Ratio,
    max_substrings: usize,
    max_strike: usize,
    base_match_size: usize,
) -> Settings {
    Settings { min_len, ratio, max_substrings, max_strike, base_match_size }
}

/// These matches, found in this order, and whether the search was cut
/// short.
pub open spec fn found_so_far(matches: Seq<SubstringResult>, truncated: bool) -> Found {
    Found { matches, truncated }
}

/// The seed at the positions `oa` and `ob`: `base_match_size` symbols on
/// each side, or as many as the side has left, with the ratio of the two
/// ranges.
pub open spec fn seed(a: Seq<Token>, b: Seq<Token>, base_match_size: usize, oa: usize, ob: usize) -> SubstringResult {
    let end_a = if oa + base_match_size <= a.len() {
        (oa + base_match_size) as usize
    } else {
        a.len() as usize
    };
    let end_b = if ob + base_match_size <= b.len() {
        (ob + base_match_size) as usize
    } else {
        b.len() as usize
    };
    SubstringResult {
        start_a: oa,
        end_a,
        start_b: ob,
        end_b,
        len: (end_a - oa) as usize,
        edit_ratio: window_ratio(a, b, oa as int, end_a as int, ob as int, end_b as int, (end_a - oa) as nat),
    }
}

/// The match `m` without its last symbol on each side, with the ratio of
/// what is left.
pub open spec fn shortened(a: Seq<Token>, b: Seq<Token>, m: SubstringResult) -> SubstringResult {
    SubstringResult {
        start_a: m.start_a,
        end_a: (m.end_a - 1) as usize,
        start_b: m.start_b,
        end_b: (m.end_b - 1) as usize,
        len: (m.len - 1) as usize,
        edit_ratio: window_ratio(
            a,
            b,
            m.start_a as int,
            m.end_a - 1,
            m.start_b as int,
            m.end_b - 1,
            (m.len - 1) as nat,
        ),
    }
}

/// The match `m` shortened until its ratio is not below `ratio`, or until a
/// side of it is empty.
pub open spec fn shrunk(a: Seq<Token>, b: Seq<Token>, ratio: Ratio, m: SubstringResult) -> SubstringResult
    decreases m.end_a - m.start_a,
{
    if m.start_a < m.end_a && m.start_b < m.end_b && m.edit_ratio.below(ratio) {
        shrunk(a, b, ratio, shortened(a, b, m))
    } else {
        m
    }
}

/// Whether the pair of positions lies inside a match already found: behind
/// its start and in front of its end, on both sides.
pub open spec fn embedded(matches: Seq<SubstringResult>, oa: usize, ob: usize) -> bool {
    exists|t: int|
        0 <= t < matches.len() && oa < (#[trigger] matches[t]).end_a && oa > matches[t].start_a && ob
            < matches[t].end_b && ob > matches[t].start_b
}

/// The match that the pair of positions leads to: its seed, shrunk, then
/// grown to the right and to the left.
pub open spec fn candidate(a: Seq<Token>, b: Seq<Token>, s: Settings, oa: usize, ob: usize) -> SubstringResult {
    fully_expanded(
        a,
        b,
        s.ratio,
        s.max_strike as nat,
        shrunk(a, b, s.ratio, seed(a, b, s.base_match_size, oa, ob)),
    )
}

/// What has been found after the pair of positions `oa`, `ob` was looked
/// at.
///
/// At the cap nothing is added, and the search is marked as cut short. A
/// pair inside a match already found adds nothing. Every other pair adds
/// its candidate, if that has `min_len` symbols or more.
pub open spec fn after_pair(found: Found, a: Seq<Token>, b: Seq<Token>, s: Settings, oa: usize, ob: usize) -> Found {
    if found.matches.len() >= s.max_substrings {
        Found { matches: found.matches, truncated: true }
    } else if embedded(found.matches, oa, ob) {
        found
    } else if candidate(a, b, s, oa, ob).len >= s.min_len {
        Found {
            matches: found.matches.push(candidate(a, b, s, oa, ob)),
            truncated: found.truncated,
        }
    } else {
        found
    }
}

/// What has been found after `oa` was paired with the first `upto`
/// positions of `occ_b`.
pub open spec fn after_row(
    found: Found,
    a: Seq<Token>,
    b: Seq<Token>,
    s: Settings,
    oa: usize,
    occ_b: Seq<usize>,
    upto: nat,
) -> Found
    decreases upto,
{
    if upto == 0 {
        found
    } else {
        after_pair(after_row(found, a, b, s, oa, occ_b, (upto - 1) as nat), a, b, s, oa, occ_b[upto - 1])
    }
}

/// What has been found after each of the first `upto` positions of `occ_a`
/// was paired with every position of `occ_b`.
pub open spec fn after_rows(
    found: Found,
    a: Seq<Token>,
    b: Seq<Token>,
    s: Settings,
    occ_a: Seq<usize>,
    occ_b: Seq<usize>,
    upto: nat,
) -> Found
    decreases upto,
{
    if upto == 0 {
        found
    } else {
        after_row(
            after_rows(found, a, b, s, occ_a, occ_b, (upto - 1) as nat),
            a,
            b,
            s,
            occ_a[upto - 1],
            occ_b,
            occ_b.len(),
        )
    }
}

/// What has been found after the n-gram of `a` at `pa` was looked up on
/// both sides: where side B has an n-gram that accepts it, every position
/// that side A keeps for it is paired with every position that side B
/// keeps.
pub open spec fn after_key(found: Found, a: Seq<Token>, b: Seq<Token>, k: nat, s: Settings, pa: usize) -> Found {
    match looked_up(b, a, pa as int, k) {
        Some(occ_b) => match looked_up(a, a, pa as int, k) {
            Some(occ_a) => after_rows(found, a, b, s, occ_a, occ_b, occ_a.len()),
            None => found,
        },
        None => found,
    }
}

/// What has been found after the first `upto` n-grams of `a`, in the order
/// in which they are first read.
pub open spec fn after_keys(a: Seq<Token>, b: Seq<Token>, k: nat, s: Settings, upto: nat) -> Found
    decreases upto,
{
    if upto == 0 {
        Found { matches: Seq::empty(), truncated: false }
    } else {
        after_key(
            after_keys(a, b, k, s, (upto - 1) as nat),
            a,
            b,
            k,
            s,
            first_positions(a, k, gram_count(a.len(), k))[upto - 1],
        )
    }
}

/// What the search of the n-gram index finds, in the order of finding.
pub open spec fn indexed_finds(a: Seq<Token>, b: Seq<Token>, k: nat, s: Settings) -> Found {
    after_keys(a, b, k, s, first_positions(a, k, gram_count(a.len(), k)).len())
}

/// Every match found is well formed in the two texts and has `min_len`
/// symbols or more, and there are no more of them than the cap allows.
pub open spec fn sound(matches: Seq<SubstringResult>, a_len: nat, b_len: nat, s: Settings) -> bool {
    &&& matches.len() <= s.max_substrings
    &&& forall|t: int|
        0 <= t < matches.len() ==> (#[trigger] matches[t]).wf(a_len, b_len) && matches[t].len
            >= s.min_len
}

/// At the cap, a pair that is looked at changes nothing.
pub proof fn lemma_full_row(
    found: Found,
    a: Seq<Token>,
    b: Seq<Token>,
    s: Settings,
    oa: usize,
    occ_b: Seq<usize>,
    upto: nat,
)
    requires
        found.truncated,
        found.matches.len() >= s.max_substrings,
    ensures
        after_row(found, a, b, s, oa, occ_b, upto) == found,
    decreases upto,
{
    if upto != 0 {
        lemma_full_row(found, a, b, s, oa, occ_b, (upto - 1) as nat);
    }
}

/// At the cap, a row of pairs that is looked at changes nothing.
pub proof fn lemma_full_rows(
    found: Found,
    a: Seq<Token>,
    b: Seq<Token>,
    s: Settings,
    occ_a: Seq<usize>,
    occ_b: Seq<usize>,
    from: nat,
    upto: nat,
)
    requires
        from <= upto,
        after_rows(found, a, b, s, occ_a, occ_b, from).truncated,
        after_rows(found, a, b, s, occ_a, occ_b, from).matches.len() >= s.max_substrings,
    ensures
        after_rows(found, a, b, s, occ_a, occ_b, upto) == after_rows(
            found,
            a,
            b,
            s,
            occ_a,
            occ_b,
            from,
        ),
    decreases upto,
{
    if from < upto {
        lemma_full_rows(found, a, b, s, occ_a, occ_b, from, (upto - 1) as nat);
        lemma_full_row(
            after_rows(found, a, b, s, occ_a, occ_b, from),
            a,
            b,
            s,
            occ_a[upto - 1],
            occ_b,
            occ_b.len(),
        );
    }
}

/// The seed at a pair of positions, and its ratio.
fn make_seed(text_a: &[Token], text_b: &[Token], base_match_size: usize, oa: usize, ob: usize) -> (ma:
    SubstringResult)
    requires
        oa <= text_a@.len(),
        ob <= text_b@.len(),
        fits_table(text_b@.len()),
    ensures
        ma == seed(text_a@, text_b@, base_match_size, oa, ob),
        ma.wf(text_a@.len(), text_b@.len()),
{
    let end_a: usize = if base_match_size <= text_a.len() - oa {
        oa + base_match_size
    } else {
        text_a.len()
    };
    let end_b: usize = if base_match_size <= text_b.len() - ob {
        ob + base_match_size
    } else {
        text_b.len()
    };
    // This may not necessarily be the same as base_match_size
    let len: usize = end_a - oa;
    let edit_ratio = recompute_ratio(text_a, text_b, oa, end_a, ob, end_b, len);
    SubstringResult { start_a: oa, end_a, start_b: ob, end_b, len, edit_ratio }
}

/// Shortens `ma` until its ratio is not below `min_ratio`.
fn shrink(text_a: &[Token], text_b: &[Token], min_ratio: Ratio, ma: &mut SubstringResult)
    requires
        old(ma).wf(text_a@.len(), text_b@.len()),
        fits_table(text_b@.len()),
    ensures
        *final(ma) == shrunk(text_a@, text_b@, min_ratio, *old(ma)),
        final(ma).wf(text_a@.len(), text_b@.len()),
{
    while ma.start_a < ma.end_a && ma.start_b < ma.end_b && ma.edit_ratio.is_below(&min_ratio)
        invariant
            ma.wf(text_a@.len(), text_b@.len()),
            fits_table(text_b@.len()),
            shrunk(text_a@, text_b@, min_ratio, *ma) == shrunk(text_a@, text_b@, min_ratio, *old(ma)),
        decreases ma.end_a - ma.start_a,
    {
        ma.len -= 1;
        ma.end_a -= 1;
        ma.end_b -= 1;
        ma.edit_ratio =
        recompute_ratio(text_a, text_b, ma.start_a, ma.end_a, ma.start_b, ma.end_b, ma.len);
    }
}

/// Whether the pair of positions lies inside one of `results`.
fn is_embedded(results: &Vec<SubstringResult>, oa: usize, ob: usize) -> (inside: bool)
    ensures
        inside == embedded(results@, oa, ob),
{
    let mut t: usize = 0;
    while t < results.len()
        invariant
            t <= results@.len(),
            forall|u: int|
                0 <= u < t ==> !(oa < (#[trigger] results@[u]).end_a && oa > results@[u].start_a && ob
                    < results@[u].end_b && ob > results@[u].start_b),
        decreases results@.len() - t,
    {
        let ma = &results[t];
        // Should we allow equality here?
        if oa < ma.end_a && oa > ma.start_a && ob < ma.end_b && ob > ma.start_b {
            // This match is embedded within an existing match, so we can safely skip
            return true;
        }
        t += 1;
    }
    false
}

/// Looks at one pair of positions below the cap: adds to `results` the
/// match that the pair leads to, unless the pair lies inside a match
/// already found or its match is too short.
fn try_pair(
    text_a: &[Token],
    text_b: &[Token],
    results: &mut Vec<SubstringResult>,
    Ghost(truncated): Ghost<bool>,
    s: Settings,
    oa: usize,
    ob: usize,
)
    requires
        oa <= text_a@.len(),
        ob <= text_b@.len(),
        fits_table(text_b@.len()),
        sound(old(results)@, text_a@.len(), text_b@.len(), s),
        old(results)@.len() < s.max_substrings,
    ensures
        found_so_far(final(results)@, truncated) == after_pair(
            found_so_far(old(results)@, truncated),
            text_a@,
            text_b@,
            s,
            oa,
            ob,
        ),
        sound(final(results)@, text_a@.len(), text_b@.len(), s),
{
    if !is_embedded(results, oa, ob) {
        let mut ma = make_seed(text_a, text_b, s.base_match_size, oa, ob);
        shrink(text_a, text_b, s.ratio, &mut ma);
        expand_match_left_and_right(&mut ma, text_a, text_b, s.ratio, s.max_strike);
        if ma.len >= s.min_len {
            results.push(ma);
        }
    }
}

/// Pairs every position of `occ_a` with every position of `occ_b`, and adds
/// to `results` the match that each pair leads to. Returns whether the cap
/// has been met, now or before.
fn expand_all_matches(
    occ_a: &Vec<usize>,
    occ_b: &Vec<usize>,
    text_a: &[Token],
    text_b: &[Token],
    results: &mut Vec<SubstringResult>,
    truncated: bool,
    s: Settings,
) -> (cut: bool)
    requires
        forall|t: int| 0 <= t < occ_a@.len() ==> #[trigger] occ_a@[t] <= text_a@.len(),
        forall|t: int| 0 <= t < occ_b@.len() ==> #[trigger] occ_b@[t] <= text_b@.len(),
        fits_table(text_b@.len()),
        sound(old(results)@, text_a@.len(), text_b@.len(), s),
    ensures
        found_so_far(final(results)@, cut) == after_rows(
            found_so_far(old(results)@, truncated),
            text_a@,
            text_b@,
            s,
            occ_a@,
            occ_b@,
            occ_a@.len(),
        ),
        sound(final(results)@, text_a@.len(), text_b@.len(), s),
{
    let ghost start = found_so_far(results@, truncated);
    let mut i: usize = 0;
    while i < occ_a.len()
        invariant
            i <= occ_a@.len(),
            forall|t: int| 0 <= t < occ_a@.len() ==> #[trigger] occ_a@[t] <= text_a@.len(),
            forall|t: int| 0 <= t < occ_b@.len() ==> #[trigger] occ_b@[t] <= text_b@.len(),
            fits_table(text_b@.len()),
            sound(results@, text_a@.len(), text_b@.len(), s),
            start == found_so_far(old(results)@, truncated),
            found_so_far(results@, truncated) == after_rows(
                start,
                text_a@,
                text_b@,
                s,
                occ_a@,
                occ_b@,
                i as nat,
            ),
        decreases occ_a@.len() - i,
    {
        let occurance_a = occ_a[i];
        let ghost row_start = found_so_far(results@, truncated);
        let mut j: usize = 0;
        while j < occ_b.len()
            invariant
                i < occ_a@.len(),
                j <= occ_b@.len(),
                occurance_a == occ_a@[i as int],
                occurance_a <= text_a@.len(),
                forall|t: int| 0 <= t < occ_b@.len() ==> #[trigger] occ_b@[t] <= text_b@.len(),
                fits_table(text_b@.len()),
                sound(results@, text_a@.len(), text_b@.len(), s),
                start == found_so_far(old(results)@, truncated),
                row_start == after_rows(start, text_a@, text_b@, s, occ_a@, occ_b@, i as nat),
                found_so_far(results@, truncated) == after_row(
                    row_start,
                    text_a@,
                    text_b@,
                    s,
                    occurance_a,
                    occ_b@,
                    j as nat,
                ),
            decreases occ_b@.len() - j,
        {
            let occurance_b = occ_b[j];
            if results.len() >= s.max_substrings {
                proof {
                    lemma_cut_short(
                        start,
                        text_a@,
                        text_b@,
                        s,
                        occ_a@,
                        occ_b@,
                        i as nat,
                        j as nat,
                    );
                }
                return true;
            }
            try_pair(text_a, text_b, results, Ghost(truncated), s, occurance_a, occurance_b);
            j += 1;
        }
        i += 1;
    }
    truncated
}

/// Where the cap is met at the pair `i`, `j`, the search ends with what it
/// has found by then, marked as cut short.
proof fn lemma_cut_short(
    start: Found,
    a: Seq<Token>,
    b: Seq<Token>,
    s: Settings,
    occ_a: Seq<usize>,
    occ_b: Seq<usize>,
    i: nat,
    j: nat,
)
    requires
        i < occ_a.len(),
        j < occ_b.len(),
        after_row(after_rows(start, a, b, s, occ_a, occ_b, i), a, b, s, occ_a[i as int], occ_b, j).matches.len()
            >= s.max_substrings,
    ensures
        after_rows(start, a, b, s, occ_a, occ_b, occ_a.len()) == found_so_far(
            after_row(
                after_rows(start, a, b, s, occ_a, occ_b, i),
                a,
                b,
                s,
                occ_a[i as int],
                occ_b,
                j,
            ).matches,
            true,
        ),
{
    let row_start = after_rows(start, a, b, s, occ_a, occ_b, i);
    let here = after_row(row_start, a, b, s, occ_a[i as int], occ_b, j);
    let full = found_so_far(here.matches, true);
    assert(after_row(row_start, a, b, s, occ_a[i as int], occ_b, j + 1) == full);
    lemma_row_from(row_start, a, b, s, occ_a[i as int], occ_b, j + 1, occ_b.len());
    assert(after_rows(start, a, b, s, occ_a, occ_b, i + 1) == full);
    lemma_full_rows(start, a, b, s, occ_a, occ_b, i + 1, occ_a.len());
}

/// Once the cap is met in a row, the rest of the row changes nothing.
pub proof fn lemma_row_from(
    found: Found,
    a: Seq<Token>,
    b: Seq<Token>,
    s: Settings,
    oa: usize,
    occ_b: Seq<usize>,
    from: nat,
    upto: nat,
)
    requires
        from <= upto,
        after_row(found, a, b, s, oa, occ_b, from).truncated,
        after_row(found, a, b, s, oa, occ_b, from).matches.len() >= s.max_substrings,
    ensures
        after_row(found, a, b, s, oa, occ_b, upto) == after_row(found, a, b, s, oa, occ_b, from),
    decreases upto,
{
    if from < upto {
        lemma_row_from(found, a, b, s, oa, occ_b, from, (upto - 1) as nat);
    }
}

/// The matches that the search of the n-gram index gives: what it finds,
/// in the order of the starts on side A.
pub open spec fn indexed_matches(a: Seq<Token>, b: Seq<Token>, k: nat, s: Settings) -> Seq<SubstringResult> {
    sorted_by(indexed_finds(a, b, k, s).matches, true)
}

/// Searches `a` and `b` for ranges that are close, beginning at every pair
/// of positions at which the two read n-grams of `kernel_size` tokens that
/// agree.
///
/// A search with `min_len` below `MIN_LENGTH`, or with a threshold that is
/// no fraction between zero and one, is refused. At `max_substrings`
/// matches the search adds no more, and the result says so.
///
/// With a `kernel_size` of zero, or one beyond the length of a sequence,
/// there is no n-gram and so no match. The table of a distance over `b`
/// has to fit the machine.
pub fn find_levenshtein_matches(
    a: &[Token],
    b: &[Token],
    min_len: usize,
    ratio: Ratio,
    max_substrings: usize,
    max_strikes: usize,
    kernel_size: usize,
    base_match_size: usize,
) -> (found: Result<Matches, InvalidArgument>)
    requires
        fits_table(b@.len()),
    ensures
        match found {
            Ok(found) => {
                let s = settings(min_len, ratio, max_substrings, max_strikes, base_match_size);
                &&& refusal(min_len, ratio) is None
                &&& found.matches@ == indexed_matches(a@, b@, kernel_size as nat, s)
                &&& found.truncated == indexed_finds(a@, b@, kernel_size as nat, s).truncated
                &&& ordered(found.matches@, true)
                &&& sound(found.matches@, a@.len(), b@.len(), s)
                &&& all_sound(found.matches@, a@, b@, min_len, max_substrings as nat)
            },
            Err(reason) => refusal(min_len, ratio) == Some(reason),
        },
{
    match check_arguments(min_len, &ratio) {
        Some(reason) => {
            return Err(reason);
        },
        None => {},
    }
    let s = Settings { min_len, ratio, max_substrings, max_strike: max_strikes, base_match_size };
    let ngrams_a = build_ngrams(a, kernel_size);
    let ngrams_b = build_ngrams(b, kernel_size);
    let mut ret: Vec<SubstringResult> = Vec::new();
    let mut truncated = false;
    let ghost k = kernel_size as nat;
    let ghost keys = first_positions(a@, k, gram_count(a@.len(), k));
    let mut idx: usize = 0;
    while idx < ngrams_a.keys.len()
        invariant
            idx <= keys.len(),
            k == kernel_size,
            fits_table(b@.len()),
            keys == first_positions(a@, k, gram_count(a@.len(), k)),
            ngrams_a.keys@ == keys,
            ngrams_a.holds(a@, k, gram_count(a@.len(), k)),
            ngrams_b.holds(b@, k, gram_count(b@.len(), k)),
            sound(ret@, a@.len(), b@.len(), s),
            found_so_far(ret@, truncated) == after_keys(a@, b@, k, s, idx as nat),
        decreases keys.len() - idx,
    {
        let pa = ngrams_a.keys[idx];
        proof {
            lemma_first_positions(a@, k, gram_count(a@.len(), k), idx as int);
            assert(pa + kernel_size <= a@.len());
        }
        match ngrams_b.get(b, kernel_size, a, pa) {
            Some(occ_b) => {
                match ngrams_a.get(a, kernel_size, a, pa) {
                    Some(occ_a) => {
                        proof {
                            lemma_looked_up_in_text(a@, a@, pa as int, k, occ_a@);
                            lemma_looked_up_in_text(b@, a@, pa as int, k, occ_b@);
                        }
                        truncated = expand_all_matches(occ_a, occ_b, a, b, &mut ret, truncated, s);
                    },
                    None => {},
                }
            },
            None => {},
        }
        idx += 1;
    }
    let sorted = sort_by_start(&ret, true);
    proof {
        assert(a@.len() == a.len() && b@.len() == b.len());
        lemma_indexed_matches_sound(a@, b@, kernel_size as nat, s);
        lemma_sorted_by_keeps(
            ret@,
            true,
            |m: SubstringResult| m.wf(a@.len(), b@.len()) && m.len >= s.min_len,
        );
    }
    Ok(Matches { matches: sorted, truncated })
}

/// The positions that a look-up gives leave room for an n-gram.
pub proof fn lemma_looked_up_in_text(
    text: Seq<Token>,
    probe: Seq<Token>,
    at: int,
    k: nat,
    positions: Seq<usize>,
)
    requires
        looked_up(text, probe, at, k) == Some(positions),
    ensures
        forall|t: int| 0 <= t < positions.len() ==> #[trigger] positions[t] + k <= text.len(),
{
    let keys = first_positions(text, k, gram_count(text.len(), k));
    let idx = accepting_key(text, keys, probe, at, k, 0)->0;
    let gram = gram_texts(text, keys[idx] as int, k);
    assert forall|t: int| 0 <= t < positions.len() implies #[trigger] positions[t] + k
        <= text.len() by {
        lemma_occurrences_below(text, k, gram, gram_count(text.len(), k), t);
    }
}

} // verus!
