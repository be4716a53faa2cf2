use compare_text::cleaning::{clean_text, punctuation};
use compare_text::symbol::Symbol;
use compare_text::synonyms::{check_table, same_text, tokenize_text, Synonym, Token, Word};
use compare_text::utils::levenshtein_edit_distance;

fn text_of(s: &str) -> Vec<char> {
    s.chars().collect()
}

fn spans(tokens: &[Token]) -> Vec<(usize, usize, bool)> {
    tokens.iter().map(|t| (t.start, t.end, t.synonym.is_some())).collect()
}

#[test]
fn words_and_synonyms_hold_what_they_were_made_of() {
    let word = Word::new(3, 8);
    assert_eq!((word.start, word.end), (3, 8));
    let copy = word.clone();
    assert_eq!(copy, word);
    let mut synonym = Synonym::new(word, vec![Word::new(1, 2), Word::new(5, 9)]);
    assert_eq!(synonym.word, word);
    assert_eq!(synonym.synonyms(), vec![Word::new(1, 2), Word::new(5, 9)]);
    assert!(synonym.has_alternate(5, 9));
    assert!(!synonym.has_alternate(5, 8));
    synonym.set_synonyms(vec![Word::new(7, 7)]);
    assert_eq!(synonym.synonyms(), vec![Word::new(7, 7)]);
    assert!(!synonym.has_alternate(5, 9));
}

#[test]
fn a_text_without_synonyms_is_one_token_for_each_symbol() {
    let text = text_of("abcd");
    let none: Vec<Synonym> = Vec::new();
    let tokens = tokenize_text(0, text.len(), &none, &text);
    assert_eq!(
        spans(&tokens),
        vec![(0, 1, false), (1, 2, false), (2, 3, false), (3, 4, false)]
    );
    assert_eq!(tokens[2].text, &['c'][..]);
}

#[test]
fn an_entry_becomes_one_token() {
    let text = text_of("a big dog");
    let table = vec![Synonym::new(Word::new(2, 5), vec![Word::new(2, 7)])];
    let tokens = tokenize_text(0, text.len(), &table, &text);
    assert_eq!(
        spans(&tokens),
        vec![
            (0, 1, false),
            (1, 2, false),
            (2, 5, true),
            (5, 6, false),
            (6, 7, false),
            (7, 8, false),
            (8, 9, false)
        ]
    );
    assert_eq!(tokens[2].text, &['b', 'i', 'g'][..]);
    assert_eq!(tokens[2].synonym.unwrap().word, Word::new(2, 5));
}

#[test]
fn tokens_follow_each_other_without_a_gap() {
    let text = text_of("one two three four");
    let table = vec![
        Synonym::new(Word::new(0, 3), vec![]),
        Synonym::new(Word::new(4, 7), vec![]),
        Synonym::new(Word::new(14, 18), vec![]),
    ];
    let tokens = tokenize_text(0, text.len(), &table, &text);
    assert_eq!(tokens[0].start, 0);
    for pair in tokens.windows(2) {
        assert_eq!(pair[0].end, pair[1].start);
    }
    assert_eq!(tokens.last().unwrap().end, text.len());
    assert_eq!(tokens.len(), 3 + (18 - 3 - 3 - 4));
}

#[test]
fn the_first_of_two_overlapping_entries_wins() {
    let text = text_of("abcdef");
    let table = vec![Synonym::new(Word::new(1, 4), vec![]), Synonym::new(Word::new(2, 5), vec![])];
    let tokens = tokenize_text(0, text.len(), &table, &text);
    assert_eq!(spans(&tokens), vec![(0, 1, false), (1, 4, true), (4, 5, false), (5, 6, false)]);
}

#[test]
fn a_part_of_a_text_can_be_tokenized() {
    let text = text_of("abcdef");
    let none: Vec<Synonym> = Vec::new();
    let tokens = tokenize_text(2, 4, &none, &text);
    assert_eq!(spans(&tokens), vec![(2, 3, false), (3, 4, false)]);
    assert!(tokenize_text(4, 2, &none, &text).is_empty());
    assert!(tokenize_text(3, 3, &none, &text).is_empty());
}

#[test]
fn a_token_accepts_what_its_entry_lists() {
    let text_a = text_of("abigdog");
    let text_b = text_of("alargedog");
    let table_a = vec![Synonym::new(Word::new(1, 4), vec![Word::new(1, 6)])];
    let table_b = vec![Synonym::new(Word::new(1, 6), vec![])];
    let tokens_a = tokenize_text(0, text_a.len(), &table_a, &text_a);
    let tokens_b = tokenize_text(0, text_b.len(), &table_b, &text_b);
    assert_eq!(tokens_a.len(), 5);
    assert_eq!(tokens_b.len(), 5);
    // "big" lists the range of "large"
    assert!(tokens_a[1].matches(&tokens_b[1]));
    assert!(tokens_a[1] == tokens_b[1]);
    // the relation is read from the left side only
    assert!(!tokens_b[1].matches(&tokens_a[1]));
    assert!(tokens_a[0].matches(&tokens_b[0]));
    assert!(!tokens_a[0].matches(&tokens_b[2]));
    assert_eq!(levenshtein_edit_distance(&tokens_a, &tokens_b), 0);
    assert_eq!(levenshtein_edit_distance(&tokens_b, &tokens_a), 1);
}

#[test]
fn without_the_entry_the_words_differ() {
    let text_a = text_of("abigdog");
    let text_b = text_of("alargedog");
    let table_a = vec![Synonym::new(Word::new(1, 4), vec![])];
    let table_b = vec![Synonym::new(Word::new(1, 6), vec![])];
    let tokens_a = tokenize_text(0, text_a.len(), &table_a, &text_a);
    let tokens_b = tokenize_text(0, text_b.len(), &table_b, &text_b);
    assert!(!tokens_a[1].matches(&tokens_b[1]));
    assert_eq!(levenshtein_edit_distance(&tokens_a, &tokens_b), 1);
}

#[test]
fn every_token_accepts_itself() {
    let text = text_of("a big dog");
    let table = vec![Synonym::new(Word::new(2, 5), vec![Word::new(0, 1)])];
    let tokens = tokenize_text(0, text.len(), &table, &text);
    for token in &tokens {
        assert!(token.matches(token));
    }
}

#[test]
fn texts_are_the_same_symbol_for_symbol() {
    assert!(same_text(&text_of("abc"), &text_of("abc")));
    assert!(!same_text(&text_of("abc"), &text_of("abd")));
    assert!(!same_text(&text_of("abc"), &text_of("ab")));
    assert!(same_text(&text_of(""), &text_of("")));
}

#[test]
fn a_table_is_valid_when_its_entries_are_in_order_and_in_the_text() {
    let good = vec![Synonym::new(Word::new(0, 2), vec![]), Synonym::new(Word::new(2, 5), vec![])];
    assert!(check_table(&good, 5));
    assert!(check_table(&Vec::new(), 0));
    assert!(!check_table(&good, 4));
    let empty_entry = vec![Synonym::new(Word::new(1, 1), vec![])];
    assert!(!check_table(&empty_entry, 5));
    let backwards = vec![Synonym::new(Word::new(3, 1), vec![])];
    assert!(!check_table(&backwards, 5));
    let overlapping =
        vec![Synonym::new(Word::new(0, 3), vec![]), Synonym::new(Word::new(2, 5), vec![])];
    assert!(!check_table(&overlapping, 5));
    let unsorted =
        vec![Synonym::new(Word::new(3, 5), vec![]), Synonym::new(Word::new(0, 2), vec![])];
    assert!(!check_table(&unsorted, 5));
}

#[test]
fn cleaning_takes_out_punctuation_and_white_space() {
    assert_eq!(clean_text(&text_of("a, b.c")), text_of("abc"));
    assert_eq!(clean_text(&text_of("(x) [y] {z} <w>!?:;*")), text_of("xyzw"));
    assert_eq!(clean_text(&text_of("\u{300c}\u{4f60}\u{597d}\u{300d}\u{3002}")), text_of("\u{4f60}\u{597d}"));
    assert_eq!(clean_text(&text_of("line\none\ttwo\r")), text_of("lineonetwo"));
    assert_eq!(clean_text(&text_of("")), text_of(""));
    assert_eq!(clean_text(&text_of(" . , ")), text_of(""));
    assert!(punctuation('\u{2014}'));
    assert!(!punctuation('-'));
    assert!(!punctuation('a'));
}

#[test]
fn an_empty_range_of_positions_has_no_token_whatever_the_table() {
    let text = text_of("abc");
    let outside = vec![Synonym::new(Word::new(7, 2), vec![]), Synonym::new(Word::new(1, 90), vec![])];
    assert!(tokenize_text(9, 3, &outside, &text).is_empty());
    assert!(tokenize_text(50, 50, &outside, &text).is_empty());
    assert!(tokenize_text(2, 2, &outside, &text).is_empty());
    let empty: Vec<char> = Vec::new();
    assert!(tokenize_text(0, 0, &outside, &empty).is_empty());
}
