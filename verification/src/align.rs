//! Positional alignment of a predicted span sequence against the expected one.
//!
//! Two cursors walk the sequences in step. Each cursor keeps the number of
//! bytes it has passed. A predicted span counts as a true positive where it
//! and the expected span under the other cursor denote the same byte range;
//! otherwise the cursor that lags behind advances, and both advance where they
//! stand level.

use crate::span::is_ordered;
use crate::span::is_segmentation;
use crate::span::is_tiling;
use crate::span::lemma_prefix_total_monotonic;
use crate::span::lemma_tiling_offsets;
use crate::span::lemma_tiling_starts_increase;
use crate::span::lengths_of;
use crate::span::prefix_total;
use crate::span::total;
use crate::span::Span;
use vstd::prelude::*;

verus! {

/// The true positives that the walk still finds with the predicted cursor at
/// `i` having passed `at_i` bytes and the expected cursor at `j` having passed
/// `at_j` bytes.
pub open spec fn matches_from(
    predicted: Seq<Span>,
    expected: Seq<Span>,
    i: int,
    j: int,
    at_i: int,
    at_j: int,
) -> nat
    decreases predicted.len() - i + expected.len() - j,
{
    if i < 0 || j < 0 || i >= predicted.len() || j >= expected.len() {
        0
    } else if predicted[i] == expected[j] {
        1 + matches_from(
            predicted,
            expected,
            i + 1,
            j + 1,
            at_i + predicted[i].len,
            at_i + predicted[i].len,
        )
    } else if at_i < at_j {
        matches_from(predicted, expected, i + 1, j, at_i + predicted[i].len, at_j)
    } else if at_j < at_i {
        matches_from(predicted, expected, i, j + 1, at_i, at_j + expected[j].len)
    } else {
        matches_from(
            predicted,
            expected,
            i + 1,
            j + 1,
            at_i + predicted[i].len,
            at_j + expected[j].len,
        )
    }
}

/// The number of true positives of `predicted` against `expected`.
pub open spec fn true_positives(predicted: Seq<Span>, expected: Seq<Span>) -> nat {
    matches_from(predicted, expected, 0, 0, 0, 0)
}

/// How many of the spans from index `from` on occur in `others`.
pub open spec fn count_shared(spans: Seq<Span>, others: Seq<Span>, from: int) -> nat
    decreases spans.len() - from,
{
    if from < 0 || from >= spans.len() {
        0
    } else if others.contains(spans[from]) {
        1 + count_shared(spans, others, from + 1)
    } else {
        count_shared(spans, others, from + 1)
    }
}

/// The bytes passed before span `n` of an ordered sequence lie before that
/// span, and all of them lie before twice the largest offset.
pub proof fn lemma_ordered_prefix_bounded(spans: Seq<Span>, n: int)
    requires
        is_ordered(spans),
        0 <= n <= spans.len(),
    ensures
        0 <= prefix_total(lengths_of(spans), n),
        n < spans.len() ==> prefix_total(lengths_of(spans), n) <= spans[n].start,
        n > 0 ==> prefix_total(lengths_of(spans), n) <= spans[n - 1].end(),
        prefix_total(lengths_of(spans), n) <= 2 * usize::MAX,
    decreases n,
{
    if n > 0 {
        lemma_ordered_prefix_bounded(spans, n - 1);
        assert(spans[n - 1].end() <= 2 * usize::MAX);
        if n < spans.len() {
            assert(spans[n - 1].end() <= spans[n].start);
        }
    }
}

/// Counts the true positives of `predicted` against `expected`, in one pass
/// over both. Both must stand left to right without overlap. Where both are
/// segmentations, the count is that of the predicted spans that occur among
/// the expected ones.
pub fn score(predicted: &Vec<Span>, expected: &Vec<Span>) -> (tp: usize)
    requires
        is_ordered(predicted@),
        is_ordered(expected@),
    ensures
        tp == true_positives(predicted@, expected@),
        tp <= predicted.len(),
        tp <= expected.len(),
        is_segmentation(predicted@) && is_segmentation(expected@) ==> tp == count_shared(
            predicted@,
            expected@,
            0,
        ),
{
    proof {
        if is_segmentation(predicted@) && is_segmentation(expected@) {
            lemma_segmentations_score_shared_spans(predicted@, expected@);
        }
    }
    let mut tp: usize = 0;
    let mut i: usize = 0;
    let mut j: usize = 0;
    let mut at_i: u128 = 0;
    let mut at_j: u128 = 0;
    while i < predicted.len() && j < expected.len()
        invariant
            is_ordered(predicted@),
            is_ordered(expected@),
            i <= predicted.len(),
            j <= expected.len(),
            tp <= i,
            tp <= j,
            at_i == prefix_total(lengths_of(predicted@), i as int),
            at_j <= prefix_total(lengths_of(predicted@), i as int) + prefix_total(
                lengths_of(expected@),
                j as int,
            ),
            tp + matches_from(predicted@, expected@, i as int, j as int, at_i as int, at_j as int)
                == true_positives(predicted@, expected@),
        decreases predicted.len() - i + expected.len() - j,
    {
        proof {
            lemma_ordered_prefix_bounded(predicted@, i as int);
            lemma_ordered_prefix_bounded(predicted@, i + 1);
            lemma_ordered_prefix_bounded(expected@, j as int);
            lemma_ordered_prefix_bounded(expected@, j + 1);
        }
        let p = predicted[i];
        let e = expected[j];
        if p.start == e.start && p.len == e.len {
            tp = tp + 1;
            at_i = at_i + p.len as u128;
            i = i + 1;
            j = j + 1;
            at_j = at_i;
        } else if at_i < at_j {
            at_i = at_i + p.len as u128;
            i = i + 1;
        } else if at_j < at_i {
            at_j = at_j + e.len as u128;
            j = j + 1;
        } else {
            at_i = at_i + p.len as u128;
            i = i + 1;
            at_j = at_j + e.len as u128;
            j = j + 1;
        }
    }
    tp
}

/// Whether the spans stand left to right without overlap.
pub fn is_left_to_right(spans: &Vec<Span>) -> (ordered: bool)
    ensures
        ordered == is_ordered(spans@),
{
    let mut i: usize = 1;
    while i < spans.len()
        invariant
            1 <= i,
            forall|k: int| 0 < k < i && k < spans.len() ==> spans[k - 1].end() <= (
            #[trigger] spans[k]).start,
        decreases spans.len() - i,
    {
        let before = spans[i - 1];
        if before.start as u128 + before.len as u128 > spans[i].start as u128 {
            return false;
        }
        i = i + 1;
    }
    true
}

/// Counts the true positives where both sequences stand left to right without
/// overlap, and refuses to where one of them does not.
pub fn checked_score(predicted: &Vec<Span>, expected: &Vec<Span>) -> (outcome: Option<usize>)
    ensures
        outcome is Some <==> is_ordered(predicted@) && is_ordered(expected@),
        outcome matches Some(tp) ==> tp == true_positives(predicted@, expected@),
{
    if is_left_to_right(predicted) && is_left_to_right(expected) {
        Some(score(predicted, expected))
    } else {
        None
    }
}

proof fn lemma_matches_from_bounded(
    predicted: Seq<Span>,
    expected: Seq<Span>,
    i: int,
    j: int,
    at_i: int,
    at_j: int,
)
    requires
        0 <= i <= predicted.len(),
        0 <= j <= expected.len(),
    ensures
        matches_from(predicted, expected, i, j, at_i, at_j) <= predicted.len() - i,
        matches_from(predicted, expected, i, j, at_i, at_j) <= expected.len() - j,
    decreases predicted.len() - i + expected.len() - j,
{
    if i < predicted.len() && j < expected.len() {
        if predicted[i] == expected[j] {
            lemma_matches_from_bounded(
                predicted,
                expected,
                i + 1,
                j + 1,
                at_i + predicted[i].len,
                at_i + predicted[i].len,
            );
        } else if at_i < at_j {
            lemma_matches_from_bounded(
                predicted,
                expected,
                i + 1,
                j,
                at_i + predicted[i].len,
                at_j,
            );
        } else if at_j < at_i {
            lemma_matches_from_bounded(
                predicted,
                expected,
                i,
                j + 1,
                at_i,
                at_j + expected[j].len,
            );
        } else {
            lemma_matches_from_bounded(
                predicted,
                expected,
                i + 1,
                j + 1,
                at_i + predicted[i].len,
                at_j + expected[j].len,
            );
        }
    }
}

proof fn lemma_same_sequence_matches_from(spans: Seq<Span>, i: int, at: int)
    requires
        0 <= i <= spans.len(),
    ensures
        matches_from(spans, spans, i, i, at, at) == spans.len() - i,
    decreases spans.len() - i,
{
    if i < spans.len() {
        lemma_same_sequence_matches_from(spans, i + 1, at + spans[i].len);
    }
}

proof fn lemma_no_shared_span_matches_from(
    predicted: Seq<Span>,
    expected: Seq<Span>,
    i: int,
    j: int,
    at_i: int,
    at_j: int,
)
    requires
        forall|a: int, b: int|
            0 <= a < predicted.len() && 0 <= b < expected.len() ==> predicted[a] != expected[b],
    ensures
        matches_from(predicted, expected, i, j, at_i, at_j) == 0,
    decreases predicted.len() - i + expected.len() - j,
{
    if 0 <= i < predicted.len() && 0 <= j < expected.len() {
        if at_i < at_j {
            lemma_no_shared_span_matches_from(
                predicted,
                expected,
                i + 1,
                j,
                at_i + predicted[i].len,
                at_j,
            );
        } else if at_j < at_i {
            lemma_no_shared_span_matches_from(
                predicted,
                expected,
                i,
                j + 1,
                at_i,
                at_j + expected[j].len,
            );
        } else {
            lemma_no_shared_span_matches_from(
                predicted,
                expected,
                i + 1,
                j + 1,
                at_i + predicted[i].len,
                at_j + expected[j].len,
            );
        }
    }
}

/// A sequence scored against itself matches in every span.
pub proof fn lemma_identical_sequences_match_fully(spans: Seq<Span>)
    ensures
        true_positives(spans, spans) == spans.len(),
{
    lemma_same_sequence_matches_from(spans, 0, 0);
}

/// Where no predicted span denotes the byte range of any expected span, there
/// is no true positive.
pub proof fn lemma_no_shared_span_no_match(predicted: Seq<Span>, expected: Seq<Span>)
    requires
        forall|a: int, b: int|
            0 <= a < predicted.len() && 0 <= b < expected.len() ==> predicted[a] != expected[b],
    ensures
        true_positives(predicted, expected) == 0,
{
    lemma_no_shared_span_matches_from(predicted, expected, 0, 0, 0, 0);
}

/// No prediction, however its spans are shifted, scores more true positives
/// than there are predicted spans, than there are expected spans, or than the
/// expected sequence scores against itself.
pub proof fn lemma_score_never_exceeds_exact_match(predicted: Seq<Span>, expected: Seq<Span>)
    ensures
        true_positives(predicted, expected) <= predicted.len(),
        true_positives(predicted, expected) <= expected.len(),
        true_positives(predicted, expected) <= true_positives(expected, expected),
{
    lemma_matches_from_bounded(predicted, expected, 0, 0, 0, 0);
    lemma_identical_sequences_match_fully(expected);
}

/// A span at or after index `n` of a tiling starts at or after the bytes that
/// the first `n` spans take.
proof fn lemma_tiling_start_from(spans: Seq<Span>, extent: int, n: int, k: int)
    requires
        is_tiling(spans, extent),
        0 <= n <= k < spans.len(),
    ensures
        spans[k].start >= prefix_total(lengths_of(spans), n),
        k > n && (forall|m: int| 0 <= m < spans.len() ==> (#[trigger] spans[m]).len > 0)
            ==> spans[k].start > prefix_total(lengths_of(spans), n),
{
    lemma_tiling_offsets(spans, extent);
    lemma_prefix_total_monotonic(lengths_of(spans), n, k);
    if k > n && (forall|m: int| 0 <= m < spans.len() ==> (#[trigger] spans[m]).len > 0) {
        lemma_tiling_starts_increase(spans, extent, n, k);
    }
}

proof fn lemma_tilings_match_shared_from(
    predicted: Seq<Span>,
    expected: Seq<Span>,
    extent_p: int,
    extent_e: int,
    i: int,
    j: int,
)
    requires
        is_tiling(predicted, extent_p),
        is_tiling(expected, extent_e),
        forall|k: int| 0 <= k < predicted.len() ==> (#[trigger] predicted[k]).len > 0,
        forall|l: int| 0 <= l < expected.len() ==> (#[trigger] expected[l]).len > 0,
        0 <= i <= predicted.len(),
        0 <= j <= expected.len(),
        forall|k: int, l: int|
            i <= k < predicted.len() && 0 <= l < j ==> predicted[k] != expected[l],
    ensures
        matches_from(
            predicted,
            expected,
            i,
            j,
            prefix_total(lengths_of(predicted), i),
            prefix_total(lengths_of(expected), j),
        ) == count_shared(predicted, expected, i),
    decreases predicted.len() - i + expected.len() - j,
{
    let at_i = prefix_total(lengths_of(predicted), i);
    let at_j = prefix_total(lengths_of(expected), j);
    if i >= predicted.len() {
    } else if j >= expected.len() {
        lemma_unshared_tail_counts_nothing(predicted, expected, i);
    } else {
        let p = predicted[i];
        let e = expected[j];
        lemma_tiling_offsets(predicted, extent_p);
        lemma_tiling_offsets(expected, extent_e);
        assert(p.start == at_i && e.start == at_j);
        assert forall|k: int| i < k < predicted.len() implies (#[trigger] predicted[k]).start
            > at_i by {
            lemma_tiling_start_from(predicted, extent_p, i, k);
        }
        assert forall|l: int| j < l < expected.len() implies (#[trigger] expected[l]).start
            > at_j by {
            lemma_tiling_start_from(expected, extent_e, j, l);
        }
        if p == e {
            assert(expected.contains(p));
            lemma_tilings_match_shared_from(predicted, expected, extent_p, extent_e, i + 1, j + 1);
        } else if at_i < at_j {
            assert forall|l: int| 0 <= l < expected.len() implies expected[l] != p by {
                if l >= j {
                    lemma_tiling_start_from(expected, extent_e, j, l);
                }
            }
            lemma_tilings_match_shared_from(predicted, expected, extent_p, extent_e, i + 1, j);
        } else if at_j < at_i {
            lemma_tilings_match_shared_from(predicted, expected, extent_p, extent_e, i, j + 1);
        } else {
            assert forall|l: int| 0 <= l < expected.len() implies expected[l] != p by {}
            lemma_tilings_match_shared_from(predicted, expected, extent_p, extent_e, i + 1, j + 1);
        }
    }
}

proof fn lemma_unshared_tail_counts_nothing(spans: Seq<Span>, others: Seq<Span>, from: int)
    requires
        0 <= from,
        forall|k: int, l: int|
            from <= k < spans.len() && 0 <= l < others.len() ==> spans[k] != others[l],
    ensures
        count_shared(spans, others, from) == 0,
    decreases spans.len() - from,
{
    if from < spans.len() {
        assert(!others.contains(spans[from]));
        lemma_unshared_tail_counts_nothing(spans, others, from + 1);
    }
}

/// Where both sequences are segmentations, the true positives are exactly
/// the predicted spans that occur among the expected ones.
pub proof fn lemma_segmentations_score_shared_spans(predicted: Seq<Span>, expected: Seq<Span>)
    requires
        is_segmentation(predicted),
        is_segmentation(expected),
    ensures
        true_positives(predicted, expected) == count_shared(predicted, expected, 0),
{
    lemma_tilings_match_shared_from(
        predicted,
        expected,
        total(lengths_of(predicted)),
        total(lengths_of(expected)),
        0,
        0,
    );
}

} // verus!
