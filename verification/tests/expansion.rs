use compare_text::expansion::{expand_pass, Direction, Sides};
use compare_text::ratio::Ratio;
use compare_text::utils::{
    expand_match_left_and_right, expand_matches_backward, expand_matches_forward,
    expand_matches_left_and_right, SubstringResult,
};

fn symbols(s: &str) -> Vec<char> {
    s.chars().collect()
}

fn exact(start_a: usize, end_a: usize, start_b: usize, end_b: usize) -> SubstringResult {
    let len = end_a - start_a;
    SubstringResult { start_a, end_a, start_b, end_b, len, edit_ratio: Ratio { num: len, den: len } }
}

fn shape(m: &SubstringResult) -> (usize, usize, usize, usize, usize, usize, usize) {
    (m.start_a, m.end_a, m.start_b, m.end_b, m.len, m.edit_ratio.num, m.edit_ratio.den)
}

#[test]
fn forward_growth_reaches_the_end_of_the_sequences() {
    let a = symbols("abcdefgh");
    let b = symbols("abcdXfgh");
    let mut m = exact(0, 2, 0, 2);
    expand_matches_forward(&a, &b, Ratio { num: 3, den: 4 }, 2, &mut m);
    assert_eq!(shape(&m), (0, 8, 0, 8, 8, 7, 8));
}

#[test]
fn forward_growth_stops_at_the_strikes() {
    let a = symbols("abcdefgh");
    let b = symbols("abcdXfgh");
    let mut m = exact(0, 2, 0, 2);
    expand_matches_forward(&a, &b, Ratio { num: 1, den: 1 }, 1, &mut m);
    assert_eq!(shape(&m), (0, 4, 0, 4, 4, 4, 4));
    let mut m = exact(0, 2, 0, 2);
    expand_matches_forward(&a, &b, Ratio { num: 1, den: 1 }, 2, &mut m);
    assert_eq!(shape(&m), (0, 4, 0, 4, 4, 4, 4));
}

#[test]
fn growth_without_strikes_changes_nothing() {
    let a = symbols("abcdefgh");
    let b = symbols("abcdefgh");
    let mut m = exact(2, 4, 2, 4);
    expand_match_left_and_right(&mut m, &a, &b, Ratio { num: 1, den: 2 }, 0);
    assert_eq!(shape(&m), (2, 4, 2, 4, 2, 2, 2));
}

#[test]
fn a_strike_is_forgiven_when_a_later_stretch_passes() {
    let a = symbols("abcdefgh");
    let b = symbols("abcdXfgh");
    let threshold = Ratio { num: 5, den: 6 };
    let mut m = exact(0, 4, 0, 4);
    expand_matches_forward(&a, &b, threshold, 2, &mut m);
    assert_eq!(shape(&m), (0, 8, 0, 8, 8, 7, 8));
    let mut m = exact(0, 4, 0, 4);
    expand_matches_forward(&a, &b, threshold, 1, &mut m);
    assert_eq!(shape(&m), (0, 4, 0, 4, 4, 4, 4));
}

#[test]
fn backward_growth_moves_the_starts() {
    let a = symbols("Xbcd");
    let b = symbols("abcd");
    let mut m = exact(2, 4, 2, 4);
    expand_matches_backward(&a, &b, Ratio { num: 1, den: 1 }, 1, &mut m);
    assert_eq!(shape(&m), (1, 4, 1, 4, 3, 3, 3));
    let mut m = exact(2, 4, 2, 4);
    expand_matches_backward(&a, &b, Ratio { num: 3, den: 4 }, 1, &mut m);
    assert_eq!(shape(&m), (0, 4, 0, 4, 4, 3, 4));
}

#[test]
fn one_side_grows_alone_where_the_other_has_ended() {
    let a = symbols("abcx");
    let b = symbols("abc");
    let mut m = exact(0, 3, 0, 3);
    expand_match_left_and_right(&mut m, &a, &b, Ratio { num: 3, den: 4 }, 1);
    assert_eq!(shape(&m), (0, 4, 0, 3, 4, 3, 4));
    let mut m = exact(0, 3, 0, 3);
    expand_match_left_and_right(&mut m, &a, &b, Ratio { num: 4, den: 5 }, 1);
    assert_eq!(shape(&m), (0, 3, 0, 3, 3, 3, 3));
}

#[test]
fn side_b_grows_alone_with_the_length_of_side_a() {
    let a = symbols("abc");
    let b = symbols("abcx");
    let mut m = exact(0, 3, 0, 3);
    expand_pass(&a, &b, Ratio { num: 2, den: 3 }, 1, Direction::Forward, Sides::OnlyB, &mut m);
    assert_eq!(shape(&m), (0, 3, 0, 4, 3, 2, 3));
    let mut m = exact(0, 3, 0, 3);
    expand_pass(&a, &b, Ratio { num: 2, den: 3 }, 1, Direction::Forward, Sides::OnlyA, &mut m);
    assert_eq!(shape(&m), (0, 3, 0, 3, 3, 3, 3));
}

#[test]
fn growth_never_shortens_and_keeps_the_ratio_at_the_threshold() {
    let a = symbols("the quick brown fox jumps");
    let b = symbols("the quack brown fax jumps");
    let thresholds = [(1, 1), (9, 10), (3, 4), (1, 2), (0, 1)];
    for (num, den) in thresholds {
        for strikes in 0..4 {
            let threshold = Ratio { num, den };
            let before = exact(10, 13, 10, 13);
            let mut m = before;
            expand_match_left_and_right(&mut m, &a, &b, threshold, strikes);
            assert!(m.len >= before.len);
            assert!(m.start_a <= before.start_a && before.end_a <= m.end_a);
            assert!(m.start_b <= before.start_b && before.end_b <= m.end_b);
            assert!(m.end_a <= a.len() && m.end_b <= b.len());
            assert_eq!(m.len, m.end_a - m.start_a);
            assert!(m.edit_ratio.num <= m.edit_ratio.den);
            let unchanged = m.edit_ratio.num == before.edit_ratio.num
                && m.edit_ratio.den == before.edit_ratio.den;
            assert!(unchanged || !m.edit_ratio.is_below(&threshold));
        }
    }
}

#[test]
fn every_match_of_a_list_is_grown() {
    let a = symbols("abcdefgh");
    let b = symbols("abcdefgh");
    let mut list = vec![exact(0, 2, 0, 2), exact(5, 6, 5, 6)];
    expand_matches_left_and_right(&mut list, &a, &b, Ratio { num: 1, den: 1 }, 1);
    assert_eq!(list.len(), 2);
    assert_eq!(shape(&list[0]), (0, 8, 0, 8, 8, 8, 8));
    assert_eq!(shape(&list[1]), (0, 8, 0, 8, 8, 8, 8));
}
