use compare_text::ratio::Ratio;
use compare_text::utils::{
    cosine_similarity, levenshtein_edit_distance, recompute_ratio, EfficientMatrix, MatrixElement,
};

fn letters(s: &str) -> Vec<char> {
    s.chars().collect()
}

fn cosine_value(a: &str, b: &str) -> f32 {
    let terms = cosine_similarity(&letters(a), &letters(b));
    let product = (terms.norm_a * terms.norm_b) as f32;
    if product == 0.0 {
        0.0
    } else {
        terms.dot as f32 / product.sqrt()
    }
}

#[test]
fn distance_of_kitten_and_sitting_is_three() {
    assert_eq!(levenshtein_edit_distance(&letters("kitten"), &letters("sitting")), 3);
}

#[test]
fn distance_to_an_empty_sequence_is_the_other_length() {
    assert_eq!(levenshtein_edit_distance(&letters(""), &letters("abc")), 3);
    assert_eq!(levenshtein_edit_distance(&letters("abcd"), &letters("")), 4);
    assert_eq!(levenshtein_edit_distance(&letters(""), &letters("")), 0);
}

#[test]
fn distance_of_a_sequence_to_itself_is_zero() {
    assert_eq!(levenshtein_edit_distance(&letters("comparison"), &letters("comparison")), 0);
}

#[test]
fn distance_counts_insertions_deletions_and_substitutions() {
    assert_eq!(levenshtein_edit_distance(&letters("flaw"), &letters("lawn")), 2);
    assert_eq!(levenshtein_edit_distance(&letters("abc"), &letters("abxc")), 1);
    assert_eq!(levenshtein_edit_distance(&letters("abxc"), &letters("abc")), 1);
    assert_eq!(levenshtein_edit_distance(&letters("abc"), &letters("axc")), 1);
    assert_eq!(levenshtein_edit_distance(&letters("abc"), &letters("xyz")), 3);
    assert_eq!(levenshtein_edit_distance(&letters("saturday"), &letters("sunday")), 3);
}

#[test]
fn distance_stays_within_the_lengths() {
    let pairs = [("abc", "xyzuvw"), ("kitten", "sitting"), ("a", ""), ("abab", "baba")];
    for (a, b) in pairs {
        let d = levenshtein_edit_distance(&letters(a), &letters(b));
        let (la, lb) = (a.chars().count(), b.chars().count());
        assert!(d <= la.max(lb));
        assert!(d >= la.max(lb) - la.min(lb));
    }
}

#[test]
fn cosine_of_aab_and_aac_is_four_fifths() {
    let terms = cosine_similarity(&letters("aab"), &letters("aac"));
    assert_eq!(terms.dot, 4);
    assert_eq!(terms.norm_a, 5);
    assert_eq!(terms.norm_b, 5);
    assert!((cosine_value("aab", "aac") - 0.8).abs() < 1e-6);
}

#[test]
fn cosine_of_disjoint_alphabets_is_zero() {
    let terms = cosine_similarity(&letters("abc"), &letters("xyz"));
    assert_eq!(terms.dot, 0);
    assert_eq!(terms.norm_a, 3);
    assert_eq!(terms.norm_b, 3);
    assert_eq!(cosine_value("abc", "xyz"), 0.0);
}

#[test]
fn cosine_with_an_empty_text_is_zero() {
    let terms = cosine_similarity(&letters(""), &letters("abc"));
    assert_eq!(terms.dot, 0);
    assert_eq!(terms.norm_a, 0);
    assert_eq!(terms.norm_b, 3);
    assert_eq!(cosine_value("", "abc"), 0.0);
    assert_eq!(cosine_value("", ""), 0.0);
}

#[test]
fn cosine_counts_every_occurrence() {
    // a: 3, b: 2, c: 1 against a: 1, b: 4
    let terms = cosine_similarity(&letters("abacab"), &letters("bbabb"));
    assert_eq!(terms.dot, 3 * 1 + 2 * 4);
    assert_eq!(terms.norm_a, 9 + 4 + 1);
    assert_eq!(terms.norm_b, 1 + 16);
}

#[test]
fn cosine_of_a_text_with_itself_is_one() {
    assert!((cosine_value("hello world", "hello world") - 1.0).abs() < 1e-6);
}

#[test]
fn ratio_of_a_window_is_the_share_left_untouched() {
    let a = letters("kitten");
    let b = letters("sitting");
    let ratio = recompute_ratio(&a, &b, 0, 6, 0, 7, 6);
    assert_eq!((ratio.num, ratio.den), (3, 6));
    let inner = recompute_ratio(&a, &b, 1, 4, 1, 4, 3);
    assert_eq!((inner.num, inner.den), (3, 3));
}

#[test]
fn ratio_of_a_window_never_falls_below_zero() {
    let a = letters("ab");
    let b = letters("xyzw");
    let ratio = recompute_ratio(&a, &b, 0, 2, 0, 4, 2);
    assert_eq!((ratio.num, ratio.den), (0, 2));
}

#[test]
fn ratio_of_an_empty_window_stands_for_zero() {
    let a = letters("ab");
    let b = letters("ab");
    let ratio = recompute_ratio(&a, &b, 1, 1, 1, 1, 0);
    assert_eq!((ratio.num, ratio.den), (0, 0));
    assert!(ratio.is_below(&Ratio { num: 1, den: 10 }));
    assert!(!ratio.is_below(&Ratio { num: 0, den: 5 }));
}

#[test]
fn ratios_compare_as_fractions() {
    assert!(Ratio { num: 1, den: 2 }.is_below(&Ratio { num: 2, den: 3 }));
    assert!(!Ratio { num: 2, den: 3 }.is_below(&Ratio { num: 1, den: 2 }));
    assert!(!Ratio { num: 2, den: 4 }.is_below(&Ratio { num: 1, den: 2 }));
    assert!(Ratio { num: 5, den: 0 }.is_below(&Ratio { num: 1, den: 100 }));
    let big = usize::MAX;
    assert!(Ratio { num: big - 1, den: big }.is_below(&Ratio { num: big, den: big }));
    assert!(!Ratio { num: big, den: big }.is_below(&Ratio { num: big - 1, den: big }));
}

#[test]
fn thresholds_are_fractions_between_zero_and_one() {
    assert!(Ratio { num: 0, den: 1 }.check_threshold());
    assert!(Ratio { num: 4, den: 5 }.check_threshold());
    assert!(Ratio { num: 7, den: 7 }.check_threshold());
    assert!(!Ratio { num: 8, den: 7 }.check_threshold());
    assert!(!Ratio { num: 0, den: 0 }.check_threshold());
    let one = Ratio::one();
    assert_eq!((one.num, one.den), (1, 1));
    let kept = Ratio::of_window(10, 3);
    assert_eq!((kept.num, kept.den), (7, 10));
}

#[test]
fn rolling_matrix_keeps_two_rows() {
    let mut l: EfficientMatrix<usize> = EfficientMatrix::new(0, 3);
    l.set(0, 1, 5);
    l.set(1, 2, 7);
    assert_eq!(l.get(0, 1), 5);
    assert_eq!(l.get(1, 2), 7);
    assert_eq!(l.get(1, 1), 0);
    assert_eq!(l.get(0, 2), 0);
    // row 2 lives where row 0 lived
    assert_eq!(l.get(2, 1), 5);
    l.set(2, 1, 9);
    assert_eq!(l.get(2, 1), 9);
    assert_eq!(l.get(1, 2), 7);
}

#[test]
fn matrix_element_resets_to_zero() {
    let mut cell = MatrixElement { len: 12 };
    cell.zero();
    assert_eq!(cell.len, 0);
}
