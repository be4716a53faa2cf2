use crate::symbol::Symbol;
use vstd::prelude::*;
use vstd::slice::slice_subrange;
use vstd::std_specs::cmp::PartialEqSpecImpl;

verus! {

/// A half-open range of positions in a text.
#[derive(Clone, Copy, PartialEq, Eq, Structural, Debug)]
pub struct Word {
    pub start: usize,
    pub end: usize,
}

impl Word {
    /// The range from `start` up to `end`.
    pub fn new(start: usize, end: usize) -> (word: Self)
        ensures
            word.start == start,
            word.end == end,
    {
        Word { start, end }
    }

    /// A copy of the range.
    pub fn clone(&self) -> (word: Self)
        ensures
            word == *self,
    {
        Word { start: self.start, end: self.end }
    }
}

/// A word of one text, with the ranges of the other text that may stand for
/// it.
#[derive(Debug)]
pub struct Synonym {
    pub word: Word,
    pub synonyms: Vec<Word>,
}

impl Synonym {
    /// The ranges that may stand for the word.
    pub open spec fn alternates(&self) -> Seq<Word> {
        self.synonyms@
    }

    /// Whether the range from `start` to `end` may stand for the word.
    pub open spec fn lists(&self, start: usize, end: usize) -> bool {
        exists|k: int|
            0 <= k < self.alternates().len() && (#[trigger] self.alternates()[k]).start == start
                && self.alternates()[k].end == end
    }

    /// A copy of the ranges that may stand for the word.
    pub fn synonyms(&self) -> (list: Vec<Word>)
        ensures
            list@ == self.alternates(),
    {
        let mut list: Vec<Word> = Vec::new();
        let mut k: usize = 0;
        while k < self.synonyms.len()
            invariant
                k <= self.synonyms@.len(),
                list@ == self.synonyms@.take(k as int),
            decreases self.synonyms@.len() - k,
        {
            list.push(self.synonyms[k]);
            assert(self.synonyms@.take(k + 1) =~= self.synonyms@.take(k as int).push(
                self.synonyms@[k as int],
            ));
            k += 1;
        }
        assert(self.synonyms@.take(k as int) =~= self.synonyms@);
        list
    }

    /// Replaces the ranges that may stand for the word.
    pub fn set_synonyms(&mut self, synonyms: Vec<Word>)
        ensures
            final(self).alternates() == synonyms@,
            final(self).word == old(self).word,
    {
        self.synonyms = synonyms;
    }

    /// The entry for `word` with the ranges that may stand for it.
    pub fn new(word: Word, synonyms: Vec<Word>) -> (synonym: Self)
        ensures
            synonym.word == word,
            synonym.alternates() == synonyms@,
    {
        Synonym { word: word, synonyms: synonyms }
    }

    /// Decides `lists`.
    pub fn has_alternate(&self, start: usize, end: usize) -> (found: bool)
        ensures
            found == self.lists(start, end),
    {
        let mut k: usize = 0;
        while k < self.synonyms.len()
            invariant
                k <= self.synonyms@.len(),
                forall|t: int|
                    0 <= t < k ==> !((#[trigger] self.synonyms@[t]).start == start
                        && self.synonyms@[t].end == end),
            decreases self.synonyms@.len() - k,
        {
            if self.synonyms[k].start == start && self.synonyms[k].end == end {
                assert(self.alternates()[k as int].start == start);
                return true;
            }
            k += 1;
        }
        false
    }
}

/// A unit of comparison: a range of a text, what it reads, and the entry of
/// the synonym table that it was made from, if any.
#[derive(Debug)]
pub struct Token<'a> {
    pub start: usize,
    pub end: usize,
    pub synonym: Option<&'a Synonym>,
    pub text: &'a [char],
}

impl<'a> Token<'a> {
    /// Whether `self` accepts `other` as equal: they read the same, or the
    /// entry of `self` lists the range of `other`.
    ///
    /// The entry of `other` is not looked at: the relation is not symmetric.
    pub open spec fn accepts(&self, other: &Token) -> bool {
        self.text@ == other.text@ || match self.synonym {
            Some(synonym) => synonym.lists(other.start, other.end),
            None => false,
        }
    }

    /// Decides `accepts`.
    pub fn takes(&self, other: &Token) -> (equal: bool)
        ensures
            equal == self.accepts(other),
    {
        // Check if their text is equal
        let same = same_text(self.text, other.text);
        // Check if any of the synonyms are equal to the other
        let listed = match self.synonym {
            Some(synonym) => synonym.has_alternate(other.start, other.end),
            None => false,
        };
        same || listed
    }
}

/// Whether two texts read the same.
pub fn same_text(a: &[char], b: &[char]) -> (same: bool)
    ensures
        same == (a@ == b@),
{
    if a.len() != b.len() {
        return false;
    }
    let mut k: usize = 0;
    while k < a.len()
        invariant
            k <= a@.len(),
            a@.len() == b@.len(),
            forall|t: int| 0 <= t < k ==> a@[t] == b@[t],
        decreases a@.len() - k,
    {
        if a[k] != b[k] {
            return false;
        }
        k += 1;
    }
    assert(a@ =~= b@);
    true
}

impl<'a> PartialEq for Token<'a> {
    fn eq(&self, other: &Self) -> (equal: bool) {
        self.takes(other)
    }
}

impl<'a> PartialEqSpecImpl for Token<'a> {
    open spec fn obeys_eq_spec() -> bool {
        true
    }

    open spec fn eq_spec(&self, other: &Self) -> bool {
        self.accepts(other)
    }
}

impl<'a> Symbol for Token<'a> {
    open spec fn same_as(&self, other: &Self) -> bool {
        self.accepts(other)
    }

    fn matches(&self, other: &Self) -> (same: bool) {
        self.takes(other)
    }

    proof fn same_as_self(&self) {
    }
}

/// What stands for one token: its range, and the index of the entry that it
/// was made from.
pub struct Span {
    pub start: usize,
    pub end: usize,
    pub entry: Option<int>,
}

/// The number of positions from `i` up to `end`.
pub open spec fn left_of(i: int, end: int) -> nat {
    if i < end {
        (end - i) as nat
    } else {
        0
    }
}

/// The tokens of the positions from `i` up to `end`, when `next` is the
/// first entry that has not been used.
///
/// Where the entry `next` starts at `i`, the token is that entry and the
/// walk goes on behind it with the entry after; elsewhere the token is the
/// one symbol at `i`. An entry that starts before `i` is never used, and
/// none after it.
pub open spec fn spans_from(synonyms: Seq<Synonym>, next: int, i: int, end: int) -> Seq<Span>
    decreases left_of(i, end), synonyms.len() - next,
{
    if i >= end || next < 0 {
        Seq::empty()
    } else if next < synonyms.len() && i == synonyms[next].word.start {
        if synonyms[next].word.end < i {
            Seq::empty()
        } else {
            seq![
                Span {
                    start: synonyms[next].word.start,
                    end: synonyms[next].word.end,
                    entry: Some(next),
                },
            ] + spans_from(synonyms, next + 1, synonyms[next].word.end as int, end)
        }
    } else {
        seq![Span { start: i as usize, end: (i + 1) as usize, entry: None }] + spans_from(
            synonyms,
            next,
            i + 1,
            end,
        )
    }
}

/// Whether `token` is what `span` stands for in `text`, with the entries
/// `synonyms`.
pub open spec fn token_of(token: Token, span: Span, synonyms: Seq<Synonym>, text: Seq<char>) -> bool {
    &&& token.start == span.start
    &&& token.end == span.end
    &&& token.text@ == text.subrange(span.start as int, span.end as int)
    &&& match span.entry {
        Some(k) => token.synonym == Some(&synonyms[k]),
        None => token.synonym is None,
    }
}

/// Every entry lies in a text of `len` symbols.
pub open spec fn entries_in_bounds(synonyms: Seq<Synonym>, len: nat) -> bool {
    forall|k: int|
        0 <= k < synonyms.len() ==> (#[trigger] synonyms[k]).word.start <= synonyms[k].word.end
            <= len
}

/// No entry is empty.
pub open spec fn entries_nonempty(synonyms: Seq<Synonym>) -> bool {
    forall|k: int| 0 <= k < synonyms.len() ==> (#[trigger] synonyms[k]).word.start < synonyms[k].word.end
}

/// What a synonym table has to be for a text of `len` symbols: no entry is
/// empty, every entry lies in the text, and each begins no earlier than the
/// one in front of it ends.
pub open spec fn valid_table(synonyms: Seq<Synonym>, len: nat) -> bool {
    &&& forall|k: int|
        0 <= k < synonyms.len() ==> (#[trigger] synonyms[k]).word.start < synonyms[k].word.end
            <= len
    &&& forall|k: int|
        0 < k < synonyms.len() ==> synonyms[k - 1].word.end <= (#[trigger] synonyms[k]).word.start
}

/// Decides `valid_table`.
pub fn check_table(synonyms: &Vec<Synonym>, len: usize) -> (valid: bool)
    ensures
        valid == valid_table(synonyms@, len as nat),
{
    let mut k: usize = 0;
    while k < synonyms.len()
        invariant
            k <= synonyms@.len(),
            forall|t: int|
                0 <= t < k ==> (#[trigger] synonyms@[t]).word.start < synonyms@[t].word.end <= len,
            forall|t: int|
                0 < t < k ==> synonyms@[t - 1].word.end <= (#[trigger] synonyms@[t]).word.start,
        decreases synonyms@.len() - k,
    {
        let word = synonyms[k].word;
        if !(word.start < word.end && word.end <= len) {
            return false;
        }
        if k > 0 && synonyms[k - 1].word.end > word.start {
            return false;
        }
        k += 1;
    }
    true
}

/// Whether `tokens` are the tokens of the whole of `text` with the entries
/// `synonyms`.
pub open spec fn tokenizes(tokens: Seq<Token>, synonyms: Seq<Synonym>, text: Seq<char>) -> bool {
    &&& tokens.len() == spans_from(synonyms, 0, 0, text.len() as int).len()
    &&& forall|t: int|
        0 <= t < tokens.len() ==> token_of(
            #[trigger] tokens[t],
            spans_from(synonyms, 0, 0, text.len() as int)[t],
            synonyms,
            text,
        )
}

/// The tokens of the whole of `text` with the entries `synonyms`.
pub open spec fn tokens_of<'a>(synonyms: Seq<Synonym>, text: Seq<char>) -> Seq<Token<'a>> {
    choose|tokens: Seq<Token<'a>>| tokenizes(tokens, synonyms, text)
}

/// A text with its entries has one sequence of tokens only.
pub proof fn lemma_tokens_are_unique<'a>(
    first: Seq<Token<'a>>,
    second: Seq<Token<'a>>,
    synonyms: Seq<Synonym>,
    text: Seq<char>,
)
    requires
        tokenizes(first, synonyms, text),
        tokenizes(second, synonyms, text),
    ensures
        first == second,
{
    assert forall|t: int| 0 <= t < first.len() implies first[t] == second[t] by {
        let span = spans_from(synonyms, 0, 0, text.len() as int)[t];
        assert(token_of(first[t], span, synonyms, text));
        assert(token_of(second[t], span, synonyms, text));
        assert(first[t].text =~= second[t].text);
    }
    assert(first =~= second);
}

/// Each token begins where the one before it ends, and the first one at
/// `start`.
pub open spec fn contiguous(tokens: Seq<Token>, start: int) -> bool {
    &&& tokens.len() > 0 ==> tokens[0].start == start
    &&& forall|t: int| 0 < t < tokens.len() ==> (#[trigger] tokens[t]).start == tokens[t - 1].end
}

/// Where what is left of `all` behind its first `done` spans begins with
/// `span`, that is the span at `done`, and `tail` is what is left behind it.
proof fn lemma_next_span(all: Seq<Span>, done: int, span: Span, tail: Seq<Span>)
    requires
        0 <= done <= all.len(),
        all.skip(done) == seq![span] + tail,
    ensures
        done < all.len(),
        all[done] == span,
        all.skip(done + 1) == tail,
{
    let rest = all.skip(done);
    assert(rest.len() == 1 + tail.len());
    assert(rest[0] == span);
    assert(all.skip(done + 1) =~= tail) by {
        assert forall|t: int| 0 <= t < tail.len() implies all.skip(done + 1)[t] == tail[t] by {
            assert(rest[t + 1] == tail[t]);
        }
    }
}

/// Walks the positions of `text` from `start` up to `end` and makes a
/// token at each: the entry of the table that starts there, where the
/// walk has come to that entry, and else the one symbol there.
///
/// The entries are used in the order of the table; an entry that starts in
/// front of the position that the walk has reached is never used, and none
/// behind it. With a valid table every entry is used: see
/// `lemma_tokens_of_a_valid_table`.
///
/// Where `start` is not below `end` there is no token, and neither the
/// table nor the text is looked at. Elsewhere `end` and every entry have
/// to lie in the text.
pub fn tokenize_text<'a>(
    start: usize,
    end: usize,
    synonyms: &'a Vec<Synonym>,
    text: &'a [char],
) -> (tokens: Vec<Token<'a>>)
    requires
        start < end ==> end <= text@.len(),
        start < end ==> entries_in_bounds(synonyms@, text@.len()),
    ensures
        tokens@.len() == spans_from(synonyms@, 0, start as int, end as int).len(),
        forall|t: int|
            0 <= t < tokens@.len() ==> token_of(
                #[trigger] tokens@[t],
                spans_from(synonyms@, 0, start as int, end as int)[t],
                synonyms@,
                text@,
            ),
        contiguous(tokens@, start as int),
        forall|t: int| 0 <= t < tokens@.len() ==> (#[trigger] tokens@[t]).start <= tokens@[t].end,
        start < end ==> tokens@.len() > 0 && tokens@.last().end >= end,
        start >= end ==> tokens@.len() == 0,
        forall|t: int| 0 <= t < tokens@.len() ==> (#[trigger] tokens@[t]).end <= text@.len(),
        entries_nonempty(synonyms@) && start < end ==> tokens@.len() + start <= text@.len(),
        entries_nonempty(synonyms@) ==> forall|t: int|
            0 <= t < tokens@.len() ==> (#[trigger] tokens@[t]).start < tokens@[t].end,
        start == 0 && end == text@.len() ==> tokens@ == tokens_of(synonyms@, text@),
{
    let mut tokens: Vec<Token<'a>> = Vec::new();
    if start >= end {
        proof {
            if start == 0 && end == text@.len() {
                assert(tokenizes(tokens@, synonyms@, text@));
                lemma_tokens_are_unique(tokens@, tokens_of(synonyms@, text@), synonyms@, text@);
            }
        }
        return tokens;
    }
    let mut current_synonym_index: usize = 0;
    let ghost all = spans_from(synonyms@, 0, start as int, end as int);
    assert(all.skip(0) =~= all);
    let mut i = start;
    while i < end
        invariant
            end <= text@.len(),
            entries_in_bounds(synonyms@, text@.len()),
            current_synonym_index <= synonyms@.len(),
            start <= i,
            tokens@.len() <= all.len(),
            all.skip(tokens@.len() as int) == spans_from(
                synonyms@,
                current_synonym_index as int,
                i as int,
                end as int,
            ),
            forall|t: int|
                0 <= t < tokens@.len() ==> token_of(#[trigger] tokens@[t], all[t], synonyms@, text@),
            contiguous(tokens@, start as int),
            forall|t: int| 0 <= t < tokens@.len() ==> (#[trigger] tokens@[t]).start <= tokens@[t].end,
            tokens@.len() > 0 ==> tokens@.last().end == i,
            tokens@.len() == 0 ==> i == start,
            i <= text@.len() || tokens@.len() == 0,
            forall|t: int| 0 <= t < tokens@.len() ==> (#[trigger] tokens@[t]).end <= text@.len(),
            entries_nonempty(synonyms@) ==> tokens@.len() + start <= i,
            entries_nonempty(synonyms@) ==> forall|t: int|
                0 <= t < tokens@.len() ==> (#[trigger] tokens@[t]).start < tokens@[t].end,
        decreases left_of(i as int, end as int), synonyms@.len() - current_synonym_index,
    {
        let ghost done = tokens@.len() as int;
        let ghost before = tokens@;
        let token: Token<'a>;
        let ghost span: Span;
        if current_synonym_index < synonyms.len() && i == synonyms[current_synonym_index].word.start {
            let synonym = &synonyms[current_synonym_index];
            // We are in the synonym, so let's add it as a token
            token =
            Token {
                start: synonym.word.start,
                end: synonym.word.end,
                synonym: Some(synonym),
                text: slice_subrange(text, synonym.word.start, synonym.word.end),
            };
            proof {
                span =
                Span {
                    start: synonym.word.start,
                    end: synonym.word.end,
                    entry: Some(current_synonym_index as int),
                };
                lemma_next_span(
                    all,
                    done,
                    span,
                    spans_from(
                        synonyms@,
                        current_synonym_index + 1,
                        synonym.word.end as int,
                        end as int,
                    ),
                );
            }
            current_synonym_index += 1;
            i = synonym.word.end;
        } else {
            // We are outside a synonym, so we only add the current character as a token
            token = Token { start: i, end: i + 1, synonym: None, text: slice_subrange(text, i, i + 1) };
            proof {
                span = Span { start: i, end: (i + 1) as usize, entry: None };
                lemma_next_span(
                    all,
                    done,
                    span,
                    spans_from(synonyms@, current_synonym_index as int, i + 1, end as int),
                );
            }
            i += 1;
        }
        assert(token_of(token, all[done], synonyms@, text@));
        assert(token.start <= token.end);
        assert(token.end == i);
        assert(done > 0 ==> token.start == before[done - 1].end);
        assert(done == 0 ==> token.start == start);
        tokens.push(token);
        assert(forall|t: int| 0 <= t < done ==> tokens@[t] == before[t]);
    }
    assert(all.skip(tokens@.len() as int).len() == 0);
    proof {
        if start == 0 && end == text@.len() {
            assert(tokenizes(tokens@, synonyms@, text@));
            lemma_tokens_are_unique(tokens@, tokens_of(synonyms@, text@), synonyms@, text@);
        }
    }
    tokens
}

/// Whether position `i` lies in an entry of the table.
pub open spec fn in_an_entry(synonyms: Seq<Synonym>, i: int) -> bool {
    exists|k: int|
        0 <= k < synonyms.len() && (#[trigger] synonyms[k]).word.start <= i < synonyms[k].word.end
}

/// What stands for the entry `k`.
pub open spec fn span_of_entry(synonyms: Seq<Synonym>, k: int) -> Span {
    Span { start: synonyms[k].word.start, end: synonyms[k].word.end, entry: Some(k) }
}

/// Whether one of the tokens is the entry `k`.
pub open spec fn has_token(spans: Seq<Span>, synonyms: Seq<Synonym>, k: int) -> bool {
    exists|t: int| 0 <= t < spans.len() && #[trigger] spans[t] == span_of_entry(synonyms, k)
}

/// What holds of the tokens of a valid table: the token of an entry spans
/// the entry, every other token is one symbol that lies in no entry, and
/// every entry from `next` on has its token.
pub open spec fn follows_table(spans: Seq<Span>, synonyms: Seq<Synonym>, next: int) -> bool {
    &&& forall|t: int|
        0 <= t < spans.len() ==> match (#[trigger] spans[t]).entry {
            Some(k) => next <= k < synonyms.len() && spans[t] == span_of_entry(synonyms, k),
            None => spans[t].end == spans[t].start + 1 && !in_an_entry(
                synonyms,
                spans[t].start as int,
            ),
        }
    &&& forall|k: int| next <= k < synonyms.len() ==> #[trigger] has_token(spans, synonyms, k)
}

/// In a valid table an entry ends no later than a later entry begins.
proof fn lemma_entries_in_order(synonyms: Seq<Synonym>, len: nat, j: int, k: int)
    requires
        valid_table(synonyms, len),
        0 <= j < k < synonyms.len(),
    ensures
        synonyms[j].word.end <= synonyms[k].word.start,
    decreases k - j,
{
    if j + 1 < k {
        lemma_entries_in_order(synonyms, len, j, k - 1);
    }
}

/// The walk over a valid table, from a position that lies behind the
/// entries in front of `next` and not behind the start of entry `next`,
/// follows the table.
proof fn lemma_walk_follows_table(synonyms: Seq<Synonym>, next: int, i: int, end: int)
    requires
        valid_table(synonyms, end as nat),
        0 <= next <= synonyms.len(),
        0 <= i <= end <= usize::MAX,
        next < synonyms.len() ==> i <= synonyms[next].word.start,
        next > 0 ==> synonyms[next - 1].word.end <= i,
    ensures
        follows_table(spans_from(synonyms, next, i, end), synonyms, next),
    decreases left_of(i, end), synonyms.len() - next,
{
    let spans = spans_from(synonyms, next, i, end);
    if i >= end {
        if next < synonyms.len() {
            assert(synonyms[next].word.start < synonyms[next].word.end <= end);
        }
        assert(next == synonyms.len());
    } else if next < synonyms.len() && i == synonyms[next].word.start {
        let after = synonyms[next].word.end as int;
        let rest = spans_from(synonyms, next + 1, after, end);
        if next + 1 < synonyms.len() {
            lemma_entries_in_order(synonyms, end as nat, next, next + 1);
        }
        lemma_walk_follows_table(synonyms, next + 1, after, end);
        assert(spans[0] == span_of_entry(synonyms, next));
        assert forall|t: int| 0 < t < spans.len() implies spans[t] == rest[t - 1] by {}
        assert forall|k: int| next <= k < synonyms.len() implies #[trigger] has_token(
            spans,
            synonyms,
            k,
        ) by {
            if k > next {
                assert(has_token(rest, synonyms, k));
                let t = choose|t: int|
                    0 <= t < rest.len() && #[trigger] rest[t] == span_of_entry(synonyms, k);
                assert(spans[t + 1] == span_of_entry(synonyms, k));
            }
        }
    } else {
        let rest = spans_from(synonyms, next, i + 1, end);
        lemma_walk_follows_table(synonyms, next, i + 1, end);
        assert forall|t: int| 0 < t < spans.len() implies spans[t] == rest[t - 1] by {}
        assert(!in_an_entry(synonyms, i)) by {
            assert forall|k: int| 0 <= k < synonyms.len() implies !((#[trigger] synonyms[k]).word.start
                <= i < synonyms[k].word.end) by {
                if k < next {
                    if k < next - 1 {
                        lemma_entries_in_order(synonyms, end as nat, k, next - 1);
                    }
                } else if k > next {
                    lemma_entries_in_order(synonyms, end as nat, next, k);
                }
            }
        }
        assert forall|k: int| next <= k < synonyms.len() implies #[trigger] has_token(
            spans,
            synonyms,
            k,
        ) by {
            assert(has_token(rest, synonyms, k));
            let t = choose|t: int|
                0 <= t < rest.len() && #[trigger] rest[t] == span_of_entry(synonyms, k);
            assert(spans[t + 1] == span_of_entry(synonyms, k));
        }
    }
}

/// The tokens of a text with a valid table are the entries of the table
/// and, between them, the symbols that lie in no entry: every entry is one
/// token, and every other token is one such symbol.
pub proof fn lemma_tokens_of_a_valid_table(synonyms: Seq<Synonym>, len: nat)
    requires
        valid_table(synonyms, len),
        len <= usize::MAX,
    ensures
        follows_table(spans_from(synonyms, 0, 0, len as int), synonyms, 0),
{
    lemma_walk_follows_table(synonyms, 0, 0, len as int);
}

} // verus!
