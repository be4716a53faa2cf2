use compare_text::comparativus;
use compare_text::matrix;
use compare_text::ratio::Ratio;
use compare_text::report::{check_arguments, InvalidArgument, MIN_LENGTH};
use compare_text::synonyms::{tokenize_text, Synonym, Word};
use compare_text::utils::SubstringResult;
use compare_text::{find_matches, Algorithm};

fn runes(s: &str) -> Vec<char> {
    s.chars().collect()
}

fn outline(m: &SubstringResult) -> (usize, usize, usize, usize, usize) {
    (m.start_a, m.end_a, m.start_b, m.end_b, m.len)
}

fn outlines(list: &[SubstringResult]) -> Vec<(usize, usize, usize, usize, usize)> {
    list.iter().map(outline).collect()
}

const ONE: Ratio = Ratio { num: 1, den: 1 };

#[test]
fn a_sequence_matches_itself_as_a_whole() {
    let text = runes("abcdef");
    let none: Vec<Synonym> = Vec::new();
    let tokens = tokenize_text(0, text.len(), &none, &text);
    let found = comparativus::find_levenshtein_matches(&tokens, &tokens, 2, ONE, 10, 3, 2, 3).unwrap();
    assert_eq!(outlines(&found.matches), vec![(0, 6, 0, 6, 6)]);
    assert_eq!(found.matches[0].edit_ratio.num, found.matches[0].edit_ratio.den);
    assert!(!found.truncated);
}

#[test]
fn a_sequence_matches_itself_whatever_the_seed_size() {
    let text = runes("the cat sat on a mat");
    let none: Vec<Synonym> = Vec::new();
    let tokens = tokenize_text(0, text.len(), &none, &text);
    for kernel in [4, 6] {
        for base in [0, 1, 5, 100] {
            let found =
                comparativus::find_levenshtein_matches(&tokens, &tokens, 2, ONE, 1, 1, kernel, base)
                    .unwrap();
            assert_eq!(outlines(&found.matches), vec![(0, 20, 0, 20, 20)]);
            assert!(!found.matches[0].edit_ratio.is_below(&ONE));
        }
    }
}

#[test]
fn disjoint_alphabets_share_no_match() {
    let a = runes("abc");
    let b = runes("xyz");
    let none: Vec<Synonym> = Vec::new();
    let tokens_a = tokenize_text(0, a.len(), &none, &a);
    let tokens_b = tokenize_text(0, b.len(), &none, &b);
    let threshold = Ratio { num: 9, den: 10 };
    let indexed =
        comparativus::find_levenshtein_matches(&tokens_a, &tokens_b, 2, threshold, 100, 3, 2, 3).unwrap();
    assert!(indexed.matches.is_empty());
    assert!(!indexed.truncated);
    let dense = matrix::find_levenshtein_matches(&tokens_a, &tokens_b, 2, threshold, 100, 3).unwrap();
    assert!(dense.matches.is_empty());
    assert!(!dense.truncated);
}

#[test]
fn every_occurrence_of_an_n_gram_is_a_seed() {
    let a = runes("ab-ab-ab");
    let b = runes("ab");
    let none: Vec<Synonym> = Vec::new();
    let tokens_a = tokenize_text(0, a.len(), &none, &a);
    let tokens_b = tokenize_text(0, b.len(), &none, &b);
    let found =
        comparativus::find_levenshtein_matches(&tokens_a, &tokens_b, 2, ONE, 10, 0, 2, 2).unwrap();
    assert_eq!(outlines(&found.matches), vec![(0, 2, 0, 2, 2), (3, 5, 0, 2, 2), (6, 8, 0, 2, 2)]);
    assert!(!found.truncated);
}

#[test]
fn the_cap_is_never_exceeded() {
    let a = runes("ab-ab-ab");
    let b = runes("ab");
    let none: Vec<Synonym> = Vec::new();
    let tokens_a = tokenize_text(0, a.len(), &none, &a);
    let tokens_b = tokenize_text(0, b.len(), &none, &b);
    for cap in 0..5 {
        let found =
            comparativus::find_levenshtein_matches(&tokens_a, &tokens_b, 2, ONE, cap, 0, 2, 2).unwrap();
        assert_eq!(found.matches.len(), cap.min(3));
        assert_eq!(found.truncated, cap < 3);
    }
    let b = runes("ab_");
    let tokens_b = tokenize_text(0, b.len(), &none, &b);
    for cap in 0..4 {
        let found = matrix::find_levenshtein_matches(&tokens_a, &tokens_b, 2, ONE, cap, 0).unwrap();
        assert_eq!(found.matches.len(), cap.min(2));
        assert_eq!(found.truncated, cap < 2);
    }
}

#[test]
fn the_table_keeps_a_run_that_a_pair_ends() {
    let a = runes("ab-ab-ab");
    let b = runes("ab_");
    let found = matrix::find_levenshtein_matches(&a, &b, 2, ONE, 10, 0).unwrap();
    assert_eq!(outlines(&found.matches), vec![(0, 2, 0, 2, 2), (3, 5, 0, 2, 2)]);
    assert_eq!((found.matches[0].edit_ratio.num, found.matches[0].edit_ratio.den), (2, 2));
}

#[test]
fn the_table_leaves_out_a_run_at_the_end_of_a_sequence() {
    let text = runes("abcdef");
    let found = matrix::find_levenshtein_matches(&text, &text, 2, ONE, 10, 3).unwrap();
    assert!(found.matches.is_empty());
}

#[test]
fn end_marks_keep_the_run_at_the_end() {
    let a = runes("ab-ab-ab");
    let b = runes("ab");
    let found = matrix::common_substring_levenshtein(&a, &b, 2, ONE, 10, 0).unwrap();
    assert_eq!(outlines(&found.matches), vec![(0, 2, 0, 2, 2), (3, 5, 0, 2, 2), (6, 8, 0, 2, 2)]);
    let text = runes("abcdef");
    let found = matrix::common_substring_levenshtein(&text, &text, 2, ONE, 10, 3).unwrap();
    assert_eq!(outlines(&found.matches), vec![(0, 6, 0, 6, 6)]);
}

#[test]
fn a_run_absorbs_a_pair_within_the_threshold() {
    // the run "abcd" meets 'X' against 'e' and goes on through it
    let a = runes("abcdXfgh!");
    let b = runes("abcdefgh?");
    let found = matrix::find_levenshtein_matches(&a, &b, 2, Ratio { num: 3, den: 4 }, 10, 0).unwrap();
    assert_eq!(outlines(&found.matches), vec![(0, 8, 0, 8, 8)]);
    assert_eq!((found.matches[0].edit_ratio.num, found.matches[0].edit_ratio.den), (7, 8));
    // at threshold one the pair ends the run, and a new one begins behind it
    let found = matrix::find_levenshtein_matches(&a, &b, 2, ONE, 10, 0).unwrap();
    assert_eq!(outlines(&found.matches), vec![(0, 4, 0, 4, 4), (5, 8, 5, 8, 3)]);
}

#[test]
fn a_run_of_one_symbol_absorbs_nothing() {
    let a = runes("aXcd!");
    let b = runes("aYcd?");
    let found = matrix::find_levenshtein_matches(&a, &b, 2, Ratio { num: 0, den: 1 }, 10, 0).unwrap();
    assert_eq!(outlines(&found.matches), vec![(2, 4, 2, 4, 2)]);
}

#[test]
fn a_seed_below_the_threshold_is_shrunk() {
    let a = runes("abcX");
    let b = runes("abcY");
    let none: Vec<Synonym> = Vec::new();
    let tokens_a = tokenize_text(0, a.len(), &none, &a);
    let tokens_b = tokenize_text(0, b.len(), &none, &b);
    let found =
        comparativus::find_levenshtein_matches(&tokens_a, &tokens_b, 2, ONE, 10, 0, 2, 4).unwrap();
    assert_eq!(outlines(&found.matches), vec![(0, 3, 0, 3, 3)]);
    assert_eq!((found.matches[0].edit_ratio.num, found.matches[0].edit_ratio.den), (3, 3));
}

#[test]
fn matches_come_in_the_order_of_their_starts_on_side_a() {
    let a = runes("xyz--abc");
    let b = runes("abc++xyz");
    let none: Vec<Synonym> = Vec::new();
    let tokens_a = tokenize_text(0, a.len(), &none, &a);
    let tokens_b = tokenize_text(0, b.len(), &none, &b);
    let found =
        comparativus::find_levenshtein_matches(&tokens_a, &tokens_b, 3, ONE, 10, 1, 3, 3).unwrap();
    assert_eq!(outlines(&found.matches), vec![(0, 3, 5, 8, 3), (5, 8, 0, 3, 3)]);
}

#[test]
fn synonyms_are_matched_as_equal() {
    let text_a = runes("abigdog");
    let text_b = runes("alargedog");
    let table_a = vec![Synonym::new(Word::new(1, 4), vec![Word::new(1, 6)])];
    let table_b = vec![Synonym::new(Word::new(1, 6), vec![Word::new(1, 4)])];
    let tokens_a = tokenize_text(0, text_a.len(), &table_a, &text_a);
    let tokens_b = tokenize_text(0, text_b.len(), &table_b, &text_b);
    let found =
        comparativus::find_levenshtein_matches(&tokens_a, &tokens_b, 2, ONE, 10, 2, 2, 2).unwrap();
    assert_eq!(outlines(&found.matches), vec![(0, 5, 0, 5, 5)]);
    assert_eq!((found.matches[0].edit_ratio.num, found.matches[0].edit_ratio.den), (5, 5));
}

#[test]
fn without_synonyms_the_words_split_the_match() {
    let text_a = runes("abigdog");
    let text_b = runes("alargedog");
    let table_a = vec![Synonym::new(Word::new(1, 4), vec![])];
    let table_b = vec![Synonym::new(Word::new(1, 6), vec![])];
    let tokens_a = tokenize_text(0, text_a.len(), &table_a, &text_a);
    let tokens_b = tokenize_text(0, text_b.len(), &table_b, &text_b);
    let found =
        comparativus::find_levenshtein_matches(&tokens_a, &tokens_b, 2, ONE, 10, 1, 2, 2).unwrap();
    assert_eq!(outlines(&found.matches), vec![(2, 5, 2, 5, 3)]);
}

#[test]
fn every_match_lies_in_the_sequences_and_keeps_the_least_length() {
    let a = runes("the quick brown fox jumps over the lazy dog");
    let b = runes("a quick brown dog jumps over the lazy fox");
    let none: Vec<Synonym> = Vec::new();
    let tokens_a = tokenize_text(0, a.len(), &none, &a);
    let tokens_b = tokenize_text(0, b.len(), &none, &b);
    for (num, den) in [(1, 1), (4, 5), (1, 2)] {
        let threshold = Ratio { num, den };
        for min_len in [2, 4, 9] {
            let indexed = find_matches(
                &tokens_a, &tokens_b, min_len, threshold, 2, 50, 3, 4, Algorithm::Comparativus,
            )
            .unwrap();
            let dense =
                find_matches(&tokens_a, &tokens_b, min_len, threshold, 2, 50, 3, 4, Algorithm::Matrix)
                    .unwrap();
            for m in indexed.matches.iter().chain(dense.matches.iter()) {
                assert!(m.start_a <= m.end_a && m.end_a <= a.len());
                assert!(m.start_b <= m.end_b && m.end_b <= b.len());
                assert_eq!(m.len, m.end_a - m.start_a);
                assert!(m.len >= min_len);
                assert!(m.edit_ratio.num <= m.edit_ratio.den);
            }
            assert!(indexed.matches.windows(2).all(|w| w[0].start_a <= w[1].start_a));
            assert!(!indexed.matches.is_empty());
        }
    }
}

#[test]
fn a_search_below_the_least_length_is_refused() {
    let text = runes("abc");
    let none: Vec<Synonym> = Vec::new();
    let tokens = tokenize_text(0, text.len(), &none, &text);
    assert_eq!(MIN_LENGTH, 2);
    assert_eq!(
        comparativus::find_levenshtein_matches(&tokens, &tokens, 1, ONE, 10, 1, 2, 2).err(),
        Some(InvalidArgument::MinLength)
    );
    assert_eq!(
        matrix::find_levenshtein_matches(&tokens, &tokens, 0, ONE, 10, 1).err(),
        Some(InvalidArgument::MinLength)
    );
    assert_eq!(
        matrix::common_substring_levenshtein(&text, &text, 1, ONE, 10, 1).err(),
        Some(InvalidArgument::MinLength)
    );
    assert_eq!(matrix::common_substring(&text, &text, 1).err(), Some(InvalidArgument::MinLength));
}

#[test]
fn a_search_with_a_threshold_outside_the_unit_interval_is_refused() {
    let text = runes("abc");
    let none: Vec<Synonym> = Vec::new();
    let tokens = tokenize_text(0, text.len(), &none, &text);
    let above = Ratio { num: 3, den: 2 };
    let nothing = Ratio { num: 0, den: 0 };
    assert_eq!(
        comparativus::find_levenshtein_matches(&tokens, &tokens, 2, above, 10, 1, 2, 2).err(),
        Some(InvalidArgument::Ratio)
    );
    assert_eq!(
        matrix::find_levenshtein_matches(&tokens, &tokens, 2, nothing, 10, 1).err(),
        Some(InvalidArgument::Ratio)
    );
    // the least length is looked at first
    assert_eq!(
        find_matches(&tokens, &tokens, 1, above, 10, 1, 2, 2, Algorithm::Matrix).err(),
        Some(InvalidArgument::MinLength)
    );
    assert_eq!(check_arguments(2, &Ratio { num: 0, den: 1 }), None);
    assert_eq!(check_arguments(2, &above), Some(InvalidArgument::Ratio));
}

#[test]
fn shared_substrings_are_told_by_their_last_position() {
    let a = runes("xabcx");
    let b = runes("yabcy");
    let found = matrix::common_substring(&b, &a, 2).unwrap();
    assert_eq!(found, vec![(3, runes("abc"))]);
    let found = matrix::common_substring(&b, &a, 4).unwrap();
    assert!(found.is_empty());
    // a run at the end of both texts
    let found = matrix::common_substring(&runes("yab"), &runes("xab"), 2).unwrap();
    assert_eq!(found, vec![(2, runes("ab"))]);
}

#[test]
fn a_kernel_longer_than_a_text_finds_nothing() {
    let a = runes("ab");
    let b = runes("abcdef");
    let none: Vec<Synonym> = Vec::new();
    let tokens_a = tokenize_text(0, a.len(), &none, &a);
    let tokens_b = tokenize_text(0, b.len(), &none, &b);
    let found =
        comparativus::find_levenshtein_matches(&tokens_a, &tokens_b, 2, ONE, 10, 1, 3, 3).unwrap();
    assert!(found.matches.is_empty());
    let found =
        comparativus::find_levenshtein_matches(&tokens_b, &tokens_b, 2, ONE, 10, 1, 0, 3).unwrap();
    assert!(found.matches.is_empty());
    assert!(!found.truncated);
    let empty: Vec<char> = Vec::new();
    let no_tokens = tokenize_text(0, 0, &none, &empty);
    let found =
        comparativus::find_levenshtein_matches(&no_tokens, &tokens_b, 2, ONE, 10, 1, 1, 3).unwrap();
    assert!(found.matches.is_empty());
    let found = matrix::find_levenshtein_matches(&no_tokens, &no_tokens, 2, ONE, 10, 1).unwrap();
    assert!(found.matches.is_empty());
}

#[test]
fn runs_on_different_diagonals_may_cross() {
    let a = runes("abcd");
    let b = runes("bcd__abc_");
    let found = matrix::common_substring_levenshtein(&a, &b, 3, ONE, 10, 0).unwrap();
    // the two share positions on side A, and stand in the other order on side B
    assert_eq!(outlines(&found.matches), vec![(0, 3, 5, 8, 3), (1, 4, 0, 3, 3)]);
}

#[test]
fn a_repeated_first_n_gram_gives_more_than_the_whole() {
    let text = runes("abab");
    let none: Vec<Synonym> = Vec::new();
    let tokens = tokenize_text(0, text.len(), &none, &text);
    let found = comparativus::find_levenshtein_matches(&tokens, &tokens, 2, ONE, 10, 1, 2, 2).unwrap();
    assert_eq!(
        outlines(&found.matches),
        vec![(0, 4, 0, 4, 4), (0, 2, 2, 4, 2), (2, 4, 0, 2, 2)]
    );
}
