use compare_text::matrix;
use compare_text::ratio::Ratio;
use compare_text::synonyms::{check_table, tokenize_text, Synonym, Word};
use compare_text::utils::{cosine_similarity, levenshtein_edit_distance};

/// A small generator of numbers, so that the same texts are made each time.
struct Dice(u64);

impl Dice {
    fn roll(&mut self, sides: u64) -> u64 {
        self.0 = self.0.wrapping_mul(6364136223846793005).wrapping_add(1442695040888963407);
        (self.0 >> 33) % sides
    }

    fn text(&mut self, max_len: u64, alphabet: &[char]) -> Vec<char> {
        let len = self.roll(max_len + 1);
        (0..len).map(|_| alphabet[self.roll(alphabet.len() as u64) as usize]).collect()
    }
}

fn full_table_distance(a: &[char], b: &[char]) -> usize {
    let mut l = vec![vec![0usize; b.len() + 1]; a.len() + 1];
    for i in 0..=a.len() {
        l[i][0] = i;
    }
    for j in 0..=b.len() {
        l[0][j] = j;
    }
    for i in 1..=a.len() {
        for j in 1..=b.len() {
            let replace = l[i - 1][j - 1] + usize::from(a[i - 1] != b[j - 1]);
            l[i][j] = replace.min(l[i - 1][j] + 1).min(l[i][j - 1] + 1);
        }
    }
    l[a.len()][b.len()]
}

#[test]
fn the_distance_agrees_with_the_full_table() {
    let mut dice = Dice(7);
    for _ in 0..300 {
        let a = dice.text(9, &['a', 'b', 'c']);
        let b = dice.text(9, &['a', 'b', 'c']);
        assert_eq!(levenshtein_edit_distance(&a, &b), full_table_distance(&a, &b));
    }
}

#[test]
fn the_distance_is_symmetric_and_obeys_the_triangle() {
    let mut dice = Dice(11);
    for _ in 0..200 {
        let a = dice.text(7, &['x', 'y']);
        let b = dice.text(7, &['x', 'y']);
        let c = dice.text(7, &['x', 'y']);
        let ab = levenshtein_edit_distance(&a, &b);
        assert_eq!(ab, levenshtein_edit_distance(&b, &a));
        assert!(
            levenshtein_edit_distance(&a, &c) <= ab + levenshtein_edit_distance(&b, &c)
        );
        assert_eq!(ab == 0, a == b);
    }
}

#[test]
fn the_cosine_terms_agree_with_counting_pairs() {
    let mut dice = Dice(3);
    for _ in 0..200 {
        let a = dice.text(12, &['a', 'b', 'c', 'd']);
        let b = dice.text(12, &['a', 'b', 'c', 'd']);
        let pairs = |x: &[char], y: &[char]| -> u128 {
            x.iter().map(|c| y.iter().filter(|d| *d == c).count() as u128).sum()
        };
        let terms = cosine_similarity(&a, &b);
        assert_eq!(terms.dot, pairs(&a, &b));
        assert_eq!(terms.norm_a, pairs(&a, &a));
        assert_eq!(terms.norm_b, pairs(&b, &b));
        let swapped = cosine_similarity(&b, &a);
        assert_eq!(swapped.dot, terms.dot);
        // Cauchy and Schwarz
        assert!(terms.dot * terms.dot <= terms.norm_a * terms.norm_b);
    }
}

#[test]
fn the_table_keeps_its_runs_in_the_order_of_rows_and_columns() {
    let mut dice = Dice(5);
    for _ in 0..100 {
        let a = dice.text(14, &['a', 'b']);
        let b = dice.text(14, &['a', 'b']);
        let found = matrix::find_levenshtein_matches(&a, &b, 2, Ratio { num: 1, den: 1 }, 1000, 0).unwrap();
        for pair in found.matches.windows(2) {
            assert!((pair[0].end_a, pair[0].end_b) < (pair[1].end_a, pair[1].end_b));
        }
        for (p, first) in found.matches.iter().enumerate() {
            assert_eq!(a[first.start_a..first.end_a], b[first.start_b..first.end_b]);
            for second in &found.matches[p + 1..] {
                let same_diagonal = second.end_a as i64 - first.end_a as i64
                    == second.end_b as i64 - first.end_b as i64;
                if same_diagonal {
                    assert!(first.end_a < second.start_a && first.end_b < second.start_b);
                }
            }
        }
    }
}

#[test]
fn shared_substrings_are_read_in_both_texts() {
    let mut dice = Dice(13);
    for _ in 0..100 {
        let a = dice.text(12, &['a', 'b', 'c']);
        let b = dice.text(12, &['a', 'b', 'c']);
        for (last, text) in matrix::common_substring(&b, &a, 2).unwrap() {
            assert!(text.len() >= 2);
            let start = last + 1 - text.len();
            assert_eq!(a[start..=last], text[..]);
            assert!(b.windows(text.len()).any(|w| w == &text[..]));
        }
    }
}

#[test]
fn the_tokens_of_a_valid_table_are_its_entries_and_the_symbols_between() {
    let text: Vec<char> = "one two three four five".chars().collect();
    let table = vec![
        Synonym::new(Word::new(0, 3), vec![]),
        Synonym::new(Word::new(8, 13), vec![]),
        Synonym::new(Word::new(13, 14), vec![]),
        Synonym::new(Word::new(19, 23), vec![]),
    ];
    assert!(check_table(&table, text.len()));
    let tokens = tokenize_text(0, text.len(), &table, &text);
    for entry in &table {
        let made = tokens
            .iter()
            .filter(|t| t.synonym.is_some() && t.start == entry.word.start && t.end == entry.word.end)
            .count();
        assert_eq!(made, 1);
    }
    for token in &tokens {
        if token.synonym.is_none() {
            assert_eq!(token.end, token.start + 1);
            assert!(table.iter().all(|e| !(e.word.start <= token.start && token.start < e.word.end)));
        }
        assert_eq!(token.text, &text[token.start..token.end]);
    }
    let covered: usize = tokens.iter().map(|t| t.end - t.start).sum();
    assert_eq!(covered, text.len());
}
