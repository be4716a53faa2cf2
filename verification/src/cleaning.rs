use vstd::prelude::*;

verus! {

/// Whether `c` is one of the marks, or white space, that a text is cleaned
/// of.
pub open spec fn is_punctuation(c: char) -> bool {
    ||| c == '.' || c == ',' || c == '\u{ff0c}' || c == '\u{3002}' || c == '\u{ff1a}'
    ||| c == '\u{ff1b}' || c == '\u{300c}' || c == '\u{300d}' || c == '\u{ff1f}' || c == '\n'
    ||| c == '\u{3001}' || c == '\u{b7}' || c == '\u{300b}' || c == '\u{300a}' || c == '\u{201c}'
    ||| c == '\u{201d}' || c == '\u{2018}' || c == '\u{2019}' || c == '\u{ff01}' || c == '\u{ff08}'
    ||| c == '\u{ff09}' || c == '\u{3010}' || c == '\u{3011}' || c == '\u{300e}' || c == '\u{300f}'
    ||| c == '\u{2014}' || c == '\u{ff5e}' || c == '\r' || c == '\t' || c == ' ' || c == '*'
    ||| c == '!' || c == '?' || c == ':' || c == ';' || c == '(' || c == ')' || c == '['
    ||| c == ']' || c == '{' || c == '}' || c == '<' || c == '>'
}

/// The text without its punctuation, in the order of the text.
pub open spec fn cleaned(text: Seq<char>) -> Seq<char>
    decreases text.len(),
{
    if text.len() == 0 {
        Seq::empty()
    } else if is_punctuation(text.last()) {
        cleaned(text.drop_last())
    } else {
        cleaned(text.drop_last()).push(text.last())
    }
}

/// Decides `is_punctuation`.
pub fn punctuation(c: char) -> (mark: bool)
    ensures
        mark == is_punctuation(c),
{
    c == '.' || c == ',' || c == '\u{ff0c}' || c == '\u{3002}' || c == '\u{ff1a}' || c == '\u{ff1b}'
        || c == '\u{300c}' || c == '\u{300d}' || c == '\u{ff1f}' || c == '\n' || c == '\u{3001}'
        || c == '\u{b7}' || c == '\u{300b}' || c == '\u{300a}' || c == '\u{201c}' || c == '\u{201d}'
        || c == '\u{2018}' || c == '\u{2019}' || c == '\u{ff01}' || c == '\u{ff08}' || c
        == '\u{ff09}' || c == '\u{3010}' || c == '\u{3011}' || c == '\u{300e}' || c == '\u{300f}'
        || c == '\u{2014}' || c == '\u{ff5e}' || c == '\r' || c == '\t' || c == ' ' || c == '*' || c
        == '!' || c == '?' || c == ':' || c == ';' || c == '(' || c == ')' || c == '[' || c == ']'
        || c == '{' || c == '}' || c == '<' || c == '>'
}

/// Takes the punctuation and the white space out of a text.
pub fn clean_text(text: &[char]) -> (clean: Vec<char>)
    ensures
        clean@ == cleaned(text@),
        clean@.len() <= text@.len(),
        forall|t: int| 0 <= t < clean@.len() ==> !is_punctuation(#[trigger] clean@[t]),
{
    proof {
        lemma_cleaned_is_clean(text@);
    }
    let mut clean: Vec<char> = Vec::new();
    let mut i: usize = 0;
    while i < text.len()
        invariant
            i <= text@.len(),
            clean@ == cleaned(text@.take(i as int)),
        decreases text@.len() - i,
    {
        assert(text@.take(i + 1).drop_last() =~= text@.take(i as int));
        if !punctuation(text[i]) {
            clean.push(text[i]);
        }
        i += 1;
    }
    assert(text@.take(i as int) =~= text@);
    clean
}

/// A cleaned text holds no punctuation.
pub proof fn lemma_cleaned_is_clean(text: Seq<char>)
    ensures
        forall|t: int| 0 <= t < cleaned(text).len() ==> !is_punctuation(#[trigger] cleaned(text)[t]),
        cleaned(text).len() <= text.len(),
    decreases text.len(),
{
    if text.len() != 0 {
        lemma_cleaned_is_clean(text.drop_last());
    }
}

} // verus!
