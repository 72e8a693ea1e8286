use segment_eval::align::checked_score;
use segment_eval::align::is_left_to_right;
use segment_eval::align::score;
use segment_eval::span::tile;
use segment_eval::span::Span;

fn spans(pairs: &[(usize, usize)]) -> Vec<Span> {
    pairs.iter().map(|&(start, len)| Span { start, len }).collect()
}

#[test]
fn identical_sequences_match_in_every_span() {
    let expected = spans(&[(0, 1), (1, 2), (3, 3), (6, 4)]);
    assert_eq!(score(&expected, &expected), 4);
    assert_eq!(checked_score(&expected, &expected), Some(4));
}

#[test]
fn empty_sequences_have_no_match() {
    let none: Vec<Span> = Vec::new();
    let some = spans(&[(0, 2), (2, 2)]);
    assert_eq!(score(&none, &none), 0);
    assert_eq!(score(&none, &some), 0);
    assert_eq!(score(&some, &none), 0);
}

#[test]
fn sequences_without_a_shared_span_have_no_match() {
    let predicted = spans(&[(0, 3), (3, 3)]);
    let expected = spans(&[(0, 1), (1, 1), (2, 2), (4, 2)]);
    assert_eq!(score(&predicted, &expected), 0);
}

#[test]
fn one_character_per_token_matches_single_character_words_only() {
    let predicted = spans(&[(0, 1), (1, 1), (2, 1), (3, 1), (4, 1), (5, 1)]);
    let expected = spans(&[(0, 1), (1, 2), (3, 3)]);
    assert_eq!(score(&predicted, &expected), 1);
}

#[test]
fn cursors_find_each_other_again_after_a_mismatch() {
    let predicted = spans(&[(0, 2), (2, 1), (3, 3)]);
    let expected = spans(&[(0, 1), (1, 2), (3, 3)]);
    assert_eq!(score(&predicted, &expected), 1);
}

#[test]
fn a_merged_token_costs_the_words_it_swallows() {
    let predicted = spans(&[(0, 1), (1, 5), (6, 4)]);
    let expected = spans(&[(0, 1), (1, 2), (3, 3), (6, 4)]);
    assert_eq!(score(&predicted, &expected), 2);
}

#[test]
fn a_split_word_costs_that_word() {
    let predicted = spans(&[(0, 1), (1, 1), (2, 1), (3, 3)]);
    let expected = spans(&[(0, 1), (1, 2), (3, 3)]);
    assert_eq!(score(&predicted, &expected), 2);
}

#[test]
fn shifted_predictions_never_score_above_the_exact_match() {
    let expected = spans(&[(0, 1), (1, 2), (3, 3), (6, 4)]);
    let exact = score(&expected, &expected);
    for shift in 1..5usize {
        let shifted: Vec<Span> =
            expected.iter().map(|s| Span { start: s.start + shift, len: s.len }).collect();
        let tp = score(&shifted, &expected);
        assert!(tp <= exact);
        assert_eq!(tp, 0);
    }
    let late = spans(&[(0, 2), (2, 1), (3, 3), (6, 4)]);
    assert_eq!(score(&late, &expected), 2);
    assert!(score(&late, &expected) <= exact);
}

#[test]
fn equal_text_elsewhere_is_no_match() {
    // Two words of the same length at different offsets denote different ranges.
    let predicted = spans(&[(0, 4), (4, 2)]);
    let expected = spans(&[(0, 2), (2, 2), (4, 2)]);
    assert_eq!(score(&predicted, &expected), 1);
}

#[test]
fn a_permuted_expectation_is_refused() {
    let predicted = spans(&[(0, 1), (1, 2), (3, 3)]);
    let permuted = spans(&[(1, 2), (0, 1), (3, 3)]);
    assert!(is_left_to_right(&predicted));
    assert!(!is_left_to_right(&permuted));
    assert_eq!(checked_score(&predicted, &permuted), None);
    assert_eq!(checked_score(&permuted, &predicted), None);
    assert_eq!(checked_score(&predicted, &predicted), Some(3));
}

#[test]
fn overlapping_spans_are_refused() {
    let overlapping = spans(&[(0, 3), (2, 2)]);
    let fine = spans(&[(0, 2), (2, 2)]);
    assert!(!is_left_to_right(&overlapping));
    assert_eq!(checked_score(&overlapping, &fine), None);
}

#[test]
fn spans_with_gaps_are_in_order() {
    let gaps = spans(&[(0, 1), (5, 2), (9, 1)]);
    assert!(is_left_to_right(&gaps));
    assert_eq!(checked_score(&gaps, &gaps), Some(3));
}

#[test]
fn spans_at_the_far_end_of_the_range_are_in_order() {
    let far = spans(&[(usize::MAX - 1, 1), (usize::MAX, usize::MAX)]);
    assert!(is_left_to_right(&far));
    assert_eq!(checked_score(&far, &far), Some(2));
    let beyond = spans(&[(usize::MAX, 1), (usize::MAX, 1)]);
    assert!(!is_left_to_right(&beyond));
}

#[test]
fn tile_lays_lengths_end_to_end() {
    assert_eq!(tile(&vec![1, 2, 3]), Some(spans(&[(0, 1), (1, 2), (3, 3)])));
    assert_eq!(tile(&Vec::new()), Some(Vec::new()));
    assert_eq!(tile(&vec![0, 4, 0]), Some(spans(&[(0, 0), (0, 4), (4, 0)])));
}

#[test]
fn tile_refuses_what_no_offset_can_hold() {
    assert_eq!(tile(&vec![usize::MAX]), Some(spans(&[(0, usize::MAX)])));
    assert_eq!(tile(&vec![usize::MAX, 1]), None);
    assert_eq!(tile(&vec![usize::MAX, 0, 1, 5]), None);
}
