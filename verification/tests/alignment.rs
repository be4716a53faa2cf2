use compare_text::alignment::assemble;
use compare_text::order::sort_by_start;
use compare_text::ratio::Ratio;
use compare_text::report::InvalidArgument;
use compare_text::synonyms::{tokenize_text, Synonym, Word};
use compare_text::utils::{Result as Piece, Similarity, SubstringResult};
use compare_text::{process, Algorithm};

fn glyphs(s: &str) -> Vec<char> {
    s.chars().collect()
}

fn found(start_a: usize, end_a: usize, start_b: usize, end_b: usize) -> SubstringResult {
    let len = end_a - start_a;
    SubstringResult { start_a, end_a, start_b, end_b, len, edit_ratio: Ratio { num: len, den: len } }
}

/// The ranges of a piece, whether it is a match, and its similarity: the
/// two parts of an edit ratio, or the three terms of a cosine.
fn told(piece: &Piece) -> ((usize, usize), (usize, usize), bool, Vec<u128>) {
    let similarity = match piece.similarity {
        Similarity::EditRatio(r) => vec![r.num as u128, r.den as u128],
        Similarity::Cosine(c) => vec![c.dot, c.norm_a, c.norm_b],
    };
    ((piece.a.start, piece.a.end), (piece.b.start, piece.b.end), piece.levenshteinMatch, similarity)
}

fn score(piece: &Piece) -> f32 {
    match piece.similarity {
        Similarity::EditRatio(r) => {
            if r.den == 0 {
                0.0
            } else {
                r.num as f32 / r.den as f32
            }
        }
        Similarity::Cosine(c) => {
            let product = (c.norm_a * c.norm_b) as f32;
            if product == 0.0 {
                0.0
            } else {
                c.dot as f32 / product.sqrt()
            }
        }
    }
}

const WHOLE: Ratio = Ratio { num: 1, den: 1 };

#[test]
fn no_match_leaves_one_gap_over_both_texts() {
    let a = glyphs("abc");
    let b = glyphs("xyz");
    let none: Vec<Synonym> = Vec::new();
    let tokens_a = tokenize_text(0, a.len(), &none, &a);
    let tokens_b = tokenize_text(0, b.len(), &none, &b);
    let pieces = assemble(&Vec::new(), &Vec::new(), &tokens_a, &tokens_b);
    assert_eq!(pieces.len(), 1);
    assert_eq!(told(&pieces[0]), ((0, 3), (0, 3), false, vec![0, 3, 3]));
    assert_eq!(score(&pieces[0]), 0.0);
}

#[test]
fn disjoint_alphabets_align_as_one_gap() {
    let a = glyphs("abc");
    let b = glyphs("xyz");
    let none: Vec<Synonym> = Vec::new();
    for algorithm in [Algorithm::Comparativus, Algorithm::Matrix] {
        let laid_out =
            process(&a, &b, 2, Ratio { num: 9, den: 10 }, 3, 100, 2, 3, algorithm, &none, &none).unwrap();
        assert!(!laid_out.truncated);
        assert_eq!(laid_out.segments.len(), 1);
        assert_eq!(told(&laid_out.segments[0]), ((0, 3), (0, 3), false, vec![0, 3, 3]));
        assert_eq!(score(&laid_out.segments[0]), 0.0);
    }
}

#[test]
fn gaps_and_matches_take_turns() {
    let a = glyphs("0123456789");
    let b = glyphs("abcdefghij");
    let none: Vec<Synonym> = Vec::new();
    let tokens_a = tokenize_text(0, a.len(), &none, &a);
    let tokens_b = tokenize_text(0, b.len(), &none, &b);
    let matches = vec![found(2, 4, 1, 3), found(6, 8, 5, 7)];
    let pieces = assemble(&matches, &matches, &tokens_a, &tokens_b);
    let all: Vec<_> = pieces.iter().map(told).collect();
    assert_eq!(
        all,
        vec![
            ((0, 2), (0, 1), false, vec![0, 2, 1]),
            ((2, 4), (1, 3), true, vec![2, 2]),
            ((4, 6), (3, 5), false, vec![0, 2, 2]),
            ((6, 8), (5, 7), true, vec![2, 2]),
            ((8, 10), (7, 10), false, vec![0, 2, 3]),
        ]
    );
}

#[test]
fn a_gap_scores_what_its_two_ranges_share() {
    let a = glyphs("aabXX");
    let b = glyphs("XXaac");
    let none: Vec<Synonym> = Vec::new();
    let tokens_a = tokenize_text(0, a.len(), &none, &a);
    let tokens_b = tokenize_text(0, b.len(), &none, &b);
    let by_a = vec![found(3, 5, 0, 2)];
    let pieces = assemble(&by_a, &by_a, &tokens_a, &tokens_b);
    // in front of the match side B is empty, and behind it side A
    let all: Vec<_> = pieces.iter().map(told).collect();
    assert_eq!(
        all,
        vec![
            ((0, 3), (0, 0), false, vec![0, 5, 0]),
            ((3, 5), (0, 2), true, vec![2, 2]),
            ((5, 5), (2, 5), false, vec![0, 0, 5]),
        ]
    );
    assert_eq!(score(&pieces[0]), 0.0);
    assert_eq!(score(&pieces[2]), 0.0);
    let by_a = vec![found(3, 4, 1, 2)];
    let pieces = assemble(&by_a, &by_a, &tokens_a, &tokens_b);
    let all: Vec<_> = pieces.iter().map(told).collect();
    assert_eq!(
        all,
        vec![
            ((0, 3), (0, 1), false, vec![0, 5, 1]),
            ((3, 4), (1, 2), true, vec![1, 1]),
            ((4, 5), (2, 5), false, vec![0, 1, 5]),
        ]
    );
}

#[test]
fn a_gap_reads_the_text_of_its_tokens() {
    let a = glyphs("aab");
    let b = glyphs("aac");
    let table_a = vec![Synonym::new(Word::new(0, 2), vec![])];
    let none: Vec<Synonym> = Vec::new();
    let tokens_a = tokenize_text(0, a.len(), &table_a, &a);
    let tokens_b = tokenize_text(0, b.len(), &none, &b);
    assert_eq!(tokens_a.len(), 2);
    let pieces = assemble(&Vec::new(), &Vec::new(), &tokens_a, &tokens_b);
    assert_eq!(pieces.len(), 1);
    assert_eq!(told(&pieces[0]), ((0, 2), (0, 3), false, vec![4, 5, 5]));
    assert!((score(&pieces[0]) - 0.8).abs() < 1e-6);
}

#[test]
fn crossing_matches_are_laid_out_without_a_failure() {
    let a = glyphs("0123456789");
    let b = glyphs("abcdefghij");
    let none: Vec<Synonym> = Vec::new();
    let tokens_a = tokenize_text(0, a.len(), &none, &a);
    let tokens_b = tokenize_text(0, b.len(), &none, &b);
    let matches = vec![found(6, 8, 1, 3), found(2, 4, 5, 7)];
    let by_a = sort_by_start(&matches, true);
    let by_b = sort_by_start(&matches, false);
    let pieces = assemble(&by_a, &by_b, &tokens_a, &tokens_b);
    let all: Vec<_> = pieces.iter().map(told).collect();
    assert_eq!(
        all,
        vec![
            ((0, 2), (0, 1), false, vec![0, 2, 1]),
            ((2, 4), (5, 7), true, vec![2, 2]),
            ((4, 6), (3, 5), false, vec![0, 2, 2]),
            ((6, 8), (1, 3), true, vec![2, 2]),
            ((8, 10), (7, 10), false, vec![0, 2, 3]),
        ]
    );
}

#[test]
fn overlapping_matches_leave_no_gap_between_them() {
    let a = glyphs("0123456789");
    let b = glyphs("abcdefghij");
    let none: Vec<Synonym> = Vec::new();
    let tokens_a = tokenize_text(0, a.len(), &none, &a);
    let tokens_b = tokenize_text(0, b.len(), &none, &b);
    let matches = vec![found(0, 5, 0, 5), found(3, 8, 3, 8), found(8, 10, 8, 10)];
    let pieces = assemble(&matches, &matches, &tokens_a, &tokens_b);
    let all: Vec<_> = pieces.iter().map(told).collect();
    assert_eq!(
        all,
        vec![
            ((0, 5), (0, 5), true, vec![5, 5]),
            ((3, 8), (3, 8), true, vec![5, 5]),
            ((8, 10), (8, 10), true, vec![2, 2]),
        ]
    );
}

#[test]
fn matches_outside_the_texts_are_laid_out_without_a_failure() {
    let a = glyphs("abc");
    let b = glyphs("abc");
    let none: Vec<Synonym> = Vec::new();
    let tokens_a = tokenize_text(0, a.len(), &none, &a);
    let tokens_b = tokenize_text(0, b.len(), &none, &b);
    let matches = vec![found(7, 9, 7, 9)];
    let pieces = assemble(&matches, &matches, &tokens_a, &tokens_b);
    let all: Vec<_> = pieces.iter().map(told).collect();
    assert_eq!(all, vec![((7, 9), (7, 9), true, vec![2, 2])]);
}

#[test]
fn sorting_keeps_the_order_of_equal_starts() {
    let matches = vec![found(5, 6, 2, 3), found(1, 9, 7, 8), found(5, 8, 0, 1), found(1, 2, 7, 9)];
    let by_a: Vec<_> =
        sort_by_start(&matches, true).iter().map(|m| (m.start_a, m.end_a)).collect();
    assert_eq!(by_a, vec![(1, 9), (1, 2), (5, 6), (5, 8)]);
    let by_b: Vec<_> =
        sort_by_start(&matches, false).iter().map(|m| (m.start_b, m.end_b)).collect();
    assert_eq!(by_b, vec![(0, 1), (2, 3), (7, 8), (7, 9)]);
    assert!(sort_by_start(&Vec::new(), true).is_empty());
}

#[test]
fn two_texts_are_compared_from_end_to_end() {
    let a = glyphs("xxhello worldyy");
    let b = glyphs("hello worldzzz");
    let none: Vec<Synonym> = Vec::new();
    let laid_out =
        process(&a, &b, 3, WHOLE, 2, 10, 3, 4, Algorithm::Comparativus, &none, &none).unwrap();
    let all: Vec<_> = laid_out.segments.iter().map(told).collect();
    assert_eq!(
        all,
        vec![
            ((0, 2), (0, 0), false, vec![0, 4, 0]),
            ((2, 13), (0, 11), true, vec![11, 11]),
            ((13, 15), (11, 14), false, vec![0, 4, 9]),
        ]
    );
    assert!(!laid_out.truncated);
    assert_eq!(score(&laid_out.segments[0]), 0.0);
    assert_eq!(score(&laid_out.segments[1]), 1.0);
    assert_eq!(score(&laid_out.segments[2]), 0.0);
}

#[test]
fn synonyms_align_as_one_match() {
    let text_a = glyphs("abigdog");
    let text_b = glyphs("alargedog");
    let table_a = vec![Synonym::new(Word::new(1, 4), vec![Word::new(1, 6)])];
    let table_b = vec![Synonym::new(Word::new(1, 6), vec![Word::new(1, 4)])];
    let laid_out = process(
        &text_a, &text_b, 2, WHOLE, 2, 10, 2, 2, Algorithm::Comparativus, &table_a, &table_b,
    )
    .unwrap();
    let all: Vec<_> = laid_out.segments.iter().map(told).collect();
    assert_eq!(all, vec![((0, 5), (0, 5), true, vec![5, 5])]);
}

#[test]
fn the_cap_cuts_the_comparison_short() {
    let a = glyphs("ab-ab-ab");
    let b = glyphs("ab");
    let none: Vec<Synonym> = Vec::new();
    let laid_out =
        process(&a, &b, 2, WHOLE, 0, 2, 2, 2, Algorithm::Comparativus, &none, &none).unwrap();
    assert!(laid_out.truncated);
    let matches = laid_out.segments.iter().filter(|piece| piece.levenshteinMatch).count();
    assert_eq!(matches, 2);
}

#[test]
fn arguments_are_refused_before_the_comparison() {
    let a = glyphs("abcdef");
    let none: Vec<Synonym> = Vec::new();
    let outside = vec![Synonym::new(Word::new(4, 9), vec![])];
    let empty_entry = vec![Synonym::new(Word::new(2, 2), vec![])];
    let overlapping =
        vec![Synonym::new(Word::new(0, 3), vec![]), Synonym::new(Word::new(2, 5), vec![])];
    let refused = |min: usize, ratio: Ratio, ta: &Vec<Synonym>, tb: &Vec<Synonym>| {
        process(&a, &a, min, ratio, 1, 10, 2, 2, Algorithm::Comparativus, ta, tb).err()
    };
    assert_eq!(refused(1, WHOLE, &none, &none), Some(InvalidArgument::MinLength));
    assert_eq!(refused(2, Ratio { num: 2, den: 1 }, &none, &none), Some(InvalidArgument::Ratio));
    assert_eq!(refused(2, Ratio { num: 0, den: 0 }, &none, &none), Some(InvalidArgument::Ratio));
    assert_eq!(refused(2, WHOLE, &outside, &none), Some(InvalidArgument::Synonyms));
    assert_eq!(refused(2, WHOLE, &none, &empty_entry), Some(InvalidArgument::Synonyms));
    assert_eq!(refused(2, WHOLE, &overlapping, &none), Some(InvalidArgument::Synonyms));
    assert_eq!(refused(1, Ratio { num: 2, den: 1 }, &outside, &none), Some(InvalidArgument::MinLength));
    assert_eq!(refused(2, Ratio { num: 2, den: 1 }, &outside, &none), Some(InvalidArgument::Ratio));
    assert_eq!(refused(2, WHOLE, &none, &none), None);
}

/// Whether the ranges of the pieces follow one another on both sides, from
/// zero to the two lengths.
fn covers(pieces: &[Piece], a_len: usize, b_len: usize) -> bool {
    let mut at_a = 0;
    let mut at_b = 0;
    for piece in pieces {
        if piece.a.start != at_a || piece.b.start != at_b {
            return false;
        }
        if piece.a.end < piece.a.start || piece.b.end < piece.b.start {
            return false;
        }
        at_a = piece.a.end;
        at_b = piece.b.end;
    }
    at_a == a_len && at_b == b_len
}

#[test]
fn a_gap_that_is_empty_on_one_side_is_laid_out() {
    let a = glyphs("ab");
    let b = glyphs("abX");
    let none: Vec<Synonym> = Vec::new();
    let tokens_a = tokenize_text(0, a.len(), &none, &a);
    let tokens_b = tokenize_text(0, b.len(), &none, &b);
    let matches = vec![found(0, 2, 0, 2)];
    let pieces = assemble(&matches, &matches, &tokens_a, &tokens_b);
    let all: Vec<_> = pieces.iter().map(told).collect();
    assert_eq!(
        all,
        vec![((0, 2), (0, 2), true, vec![2, 2]), ((2, 2), (2, 3), false, vec![0, 0, 1])]
    );
    assert_eq!(score(&pieces[1]), 0.0);
    assert!(covers(&pieces, 2, 3));
}

#[test]
fn an_empty_text_is_one_gap_against_the_other() {
    let a = glyphs("");
    let b = glyphs("abc");
    let none: Vec<Synonym> = Vec::new();
    for algorithm in [Algorithm::Comparativus, Algorithm::Matrix] {
        let laid_out = process(&a, &b, 2, WHOLE, 1, 10, 2, 2, algorithm, &none, &none).unwrap();
        let all: Vec<_> = laid_out.segments.iter().map(told).collect();
        assert_eq!(all, vec![((0, 0), (0, 3), false, vec![0, 0, 3])]);
        let laid_out = process(&b, &a, 2, WHOLE, 1, 10, 2, 2, algorithm, &none, &none).unwrap();
        let all: Vec<_> = laid_out.segments.iter().map(told).collect();
        assert_eq!(all, vec![((0, 3), (0, 0), false, vec![0, 3, 0])]);
        let laid_out = process(&a, &a, 2, WHOLE, 1, 10, 2, 2, algorithm, &none, &none).unwrap();
        assert!(laid_out.segments.is_empty());
    }
}

#[test]
fn every_position_lies_in_one_piece() {
    let none: Vec<Synonym> = Vec::new();
    let a = glyphs("XabY");
    let b = glyphs("abZ");
    let laid_out = process(&a, &b, 2, WHOLE, 0, 10, 2, 2, Algorithm::Matrix, &none, &none).unwrap();
    let all: Vec<_> = laid_out.segments.iter().map(told).collect();
    assert_eq!(
        all,
        vec![
            ((0, 1), (0, 0), false, vec![0, 1, 0]),
            ((1, 3), (0, 2), true, vec![2, 2]),
            ((3, 4), (2, 3), false, vec![0, 1, 1]),
        ]
    );
    assert!(covers(&laid_out.segments, 4, 3));
    let pairs = [
        ("xxhello worldyy", "hello worldzzz"),
        ("pqabcdbaa", "zzabcdcaa"),
        ("abc", "xyz"),
        ("abcdef", "abcdef"),
        ("", "abc"),
    ];
    for (a, b) in pairs {
        let a = glyphs(a);
        let b = glyphs(b);
        let laid_out =
            process(&a, &b, 3, WHOLE, 1, 10, 3, 3, Algorithm::Comparativus, &none, &none).unwrap();
        assert!(covers(&laid_out.segments, a.len(), b.len()));
    }
}

#[test]
fn a_kernel_of_zero_finds_nothing() {
    let a = glyphs("abcabc");
    let none: Vec<Synonym> = Vec::new();
    let laid_out =
        process(&a, &a, 2, WHOLE, 1, 10, 0, 3, Algorithm::Comparativus, &none, &none).unwrap();
    let all: Vec<_> = laid_out.segments.iter().map(told).collect();
    assert_eq!(all, vec![((0, 6), (0, 6), false, vec![12, 12, 12])]);
    assert!(!laid_out.truncated);
}
