//! One trial: what was counted and measured, and the scores that follow.

use crate::align::score;
use crate::align::true_positives;
use crate::clock::millis_since;
use crate::corpus::byte_len;
use crate::corpus::is_draw;
use crate::corpus::is_ground_truth;
use crate::corpus::synthesize;
use crate::corpus::Corpus;
use crate::corpus::Fraction;
use crate::corpus::SynthError;
use crate::dictionary::concat;
use crate::dictionary::Dictionary;
use crate::segmenter::token_lengths;
use crate::span::is_ordered;
use crate::span::tile;
use crate::span::tiling_of;
use crate::span::Span;
use rand::rngs::ThreadRng;
use std::time::Instant;
use vstd::prelude::*;

verus! {

/// The value that stands for a score of 1: scores are whole parts per
/// billion.
pub const SCORE_SCALE: u32 = 1_000_000_000;

/// The counts and timings of one trial.
#[derive(Clone, Copy, Debug, PartialEq, Eq)]
pub struct TrialResult {
    /// How many predicted spans denote the byte range of an expected span.
    pub true_positive: usize,
    /// How many spans the tokenizer predicted.
    pub predicted: usize,
    /// How many spans there are in truth.
    pub actual: usize,
    /// The milliseconds it took to build the tokenizer.
    pub construction_ms: u128,
    /// The milliseconds it took the tokenizer to cut the text.
    pub tokenize_ms: u128,
}

/// The quotient `numer / denom` in parts per billion, rounded down.
pub open spec fn parts_per_billion(numer: int, denom: int) -> int {
    (numer * SCORE_SCALE) / denom
}

/// The duration as a sample, where it is short enough to be one.
pub open spec fn millis_sample(millis: u128) -> Option<u32> {
    if millis <= u32::MAX {
        Some(millis as u32)
    } else {
        None
    }
}

impl TrialResult {
    /// No more true positives than predicted spans, nor than actual ones.
    pub open spec fn is_consistent(self) -> bool {
        self.true_positive <= self.predicted && self.true_positive <= self.actual
    }

    /// The share of the predicted spans that are true positives, in parts per
    /// billion; undefined where nothing was predicted.
    pub open spec fn precision_spec(self) -> Option<u32> {
        if self.is_consistent() && self.predicted > 0 {
            Some(parts_per_billion(self.true_positive as int, self.predicted as int) as u32)
        } else {
            None
        }
    }

    /// The share of the actual spans that are true positives, in parts per
    /// billion; undefined where there is no actual span.
    pub open spec fn recall_spec(self) -> Option<u32> {
        if self.is_consistent() && self.actual > 0 {
            Some(parts_per_billion(self.true_positive as int, self.actual as int) as u32)
        } else {
            None
        }
    }

    /// The harmonic mean of precision and recall, `2 tp / (predicted +
    /// actual)`, in parts per billion; undefined where precision and recall
    /// add up to nothing, that is without a true positive.
    pub open spec fn f1_spec(self) -> Option<u32> {
        if self.is_consistent() && self.true_positive > 0 {
            Some(
                parts_per_billion(2 * self.true_positive, self.predicted + self.actual) as u32,
            )
        } else {
            None
        }
    }

    /// The share of the predicted spans that are true positives.
    pub fn precision(&self) -> (precision: Option<u32>)
        ensures
            precision == self.precision_spec(),
            precision matches Some(p) ==> p == parts_per_billion(
                self.true_positive as int,
                self.predicted as int,
            ) && p <= SCORE_SCALE,
    {
        if self.true_positive <= self.predicted && self.true_positive <= self.actual
            && self.predicted > 0 {
            Some(scaled_quotient(self.true_positive as u128, self.predicted as u128))
        } else {
            None
        }
    }

    /// The share of the actual spans that are true positives.
    pub fn recall(&self) -> (recall: Option<u32>)
        ensures
            recall == self.recall_spec(),
            recall matches Some(r) ==> r == parts_per_billion(
                self.true_positive as int,
                self.actual as int,
            ) && r <= SCORE_SCALE,
    {
        if self.true_positive <= self.predicted && self.true_positive <= self.actual && self.actual
            > 0 {
            Some(scaled_quotient(self.true_positive as u128, self.actual as u128))
        } else {
            None
        }
    }

    /// The harmonic mean of precision and recall.
    pub fn f1(&self) -> (f1: Option<u32>)
        ensures
            f1 == self.f1_spec(),
            f1 matches Some(f) ==> f == parts_per_billion(
                2 * self.true_positive,
                self.predicted + self.actual,
            ) && f <= SCORE_SCALE,
    {
        if self.true_positive <= self.predicted && self.true_positive <= self.actual
            && self.true_positive > 0 {
            Some(
                scaled_quotient(
                    2 * (self.true_positive as u128),
                    self.predicted as u128 + self.actual as u128,
                ),
            )
        } else {
            None
        }
    }

    /// The build time as a sample for the statistics.
    pub fn construction_sample(&self) -> (sample: Option<u32>)
        ensures
            sample == millis_sample(self.construction_ms),
    {
        sample_of_millis(self.construction_ms)
    }

    /// The tokenization time as a sample for the statistics.
    pub fn tokenize_sample(&self) -> (sample: Option<u32>)
        ensures
            sample == millis_sample(self.tokenize_ms),
    {
        sample_of_millis(self.tokenize_ms)
    }
}

/// The duration as a sample, where it is short enough to be one.
pub fn sample_of_millis(millis: u128) -> (sample: Option<u32>)
    ensures
        sample == millis_sample(millis),
{
    if millis <= u32::MAX as u128 {
        Some(millis as u32)
    } else {
        None
    }
}

/// A part of a whole in parts per billion, rounded down.
fn scaled_quotient(part: u128, whole: u128) -> (quotient: u32)
    requires
        part <= whole,
        0 < whole <= 2 * usize::MAX,
    ensures
        quotient == parts_per_billion(part as int, whole as int),
        quotient <= SCORE_SCALE,
        part == whole ==> quotient == SCORE_SCALE,
{
    proof {
        let p = part as int;
        let w = whole as int;
        assert(0 <= p * 1_000_000_000 <= w * 1_000_000_000) by (nonlinear_arith)
            requires
                0 <= p <= w,
        ;
        assert((p * 1_000_000_000) / w <= 1_000_000_000) by (nonlinear_arith)
            requires
                0 <= p * 1_000_000_000 <= w * 1_000_000_000,
                w > 0,
        ;
        assert(0 <= (p * 1_000_000_000) / w) by (nonlinear_arith)
            requires
                0 <= p * 1_000_000_000,
                w > 0,
        ;
        if p == w {
            assert((w * 1_000_000_000) / w == 1_000_000_000) by (nonlinear_arith)
                requires
                    w > 0,
            ;
        }
    }
    let scaled: u128 = part * (SCORE_SCALE as u128);
    (scaled / whole) as u32
}

/// The harmonic mean of precision `tp / predicted` and recall `tp / actual`
/// is `2 tp / (predicted + actual)`. Stated free of division: twice the
/// product of the two, `2 tp tp / (predicted actual)`, over their sum,
/// `(tp actual + tp predicted) / (predicted actual)`, is the same quotient.
pub proof fn lemma_f1_is_harmonic_mean(tp: nat, predicted: nat, actual: nat)
    requires
        0 < tp <= predicted,
        tp <= actual,
    ensures
        (2 * tp * tp) * (predicted * actual) * (predicted + actual) == (2 * tp) * ((predicted
            * actual) * (tp * actual + tp * predicted)),
        (predicted * actual) * (tp * actual + tp * predicted) > 0,
{
    let t = tp as int;
    let pa = (predicted * actual) as int;
    let s = (predicted + actual) as int;
    assert(pa > 0) by (nonlinear_arith)
        requires
            pa == predicted * actual,
            predicted > 0,
            actual > 0,
    ;
    assert(t * actual + t * predicted == t * s) by (nonlinear_arith)
        requires
            s == predicted + actual,
    ;
    assert(t * s > 0) by (nonlinear_arith)
        requires
            t > 0,
            s > 0,
    ;
    assert(pa * (t * s) > 0) by (nonlinear_arith)
        requires
            pa > 0,
            t * s > 0,
    ;
    assert((2 * t * t) * pa * s == (2 * t) * (pa * (t * s))) by (nonlinear_arith);
}

/// A prediction that matches in every span, and is not empty, has precision,
/// recall and their harmonic mean 1.
pub proof fn lemma_full_match_scores_one(result: TrialResult)
    requires
        result.true_positive == result.predicted,
        result.true_positive == result.actual,
        result.true_positive > 0,
    ensures
        result.precision_spec() == Some(SCORE_SCALE),
        result.recall_spec() == Some(SCORE_SCALE),
        result.f1_spec() == Some(SCORE_SCALE),
{
    let n = result.true_positive as int;
    assert((n * 1_000_000_000) / n == 1_000_000_000) by (nonlinear_arith)
        requires
            n > 0,
    ;
    assert(((2 * n) * 1_000_000_000) / (n + n) == 1_000_000_000) by (nonlinear_arith)
        requires
            n > 0,
    ;
}

/// The counts are those of a tokenizer that knows the training words and
/// cuts the text, its tokens laid end to end from the start of the text and
/// scored against the expected spans.
pub open spec fn is_evaluation(
    result: TrialResult,
    training: Seq<Seq<char>>,
    text: Seq<char>,
    expected: Seq<Span>,
) -> bool {
    &&& result.predicted == token_lengths(training, text).len()
    &&& result.actual == expected.len()
    &&& result.true_positive == true_positives(tiling_of(token_lengths(training, text)), expected)
}

/// The counts are those of an evaluation on some draw from the dictionary.
pub open spec fn is_trial_of(
    result: TrialResult,
    dictionary: Seq<Seq<char>>,
    fraction: Fraction,
) -> bool {
    exists|training: Seq<Seq<char>>, words: Seq<Seq<char>>, spans: Seq<Span>|
        #![trigger is_draw(dictionary, fraction, training, words), is_ground_truth(spans, words)]
        is_draw(dictionary, fraction, training, words) && is_ground_truth(spans, words)
            && is_evaluation(result, training, concat(words), spans)
}

/// Builds a tokenizer that knows the training words, lets it cut the text of
/// the corpus, and scores its tokens, laid end to end from the start of the
/// text, against the ground truth. Both steps are timed.
pub fn evaluate(training: &Dictionary, corpus: &Corpus) -> (result: TrialResult)
    requires
        training.wf(),
        corpus.wf(),
    ensures
        is_evaluation(result, training@, corpus.text(), corpus.spans()),
        result.is_consistent(),
{
    let clock = Instant::now();
    let tokenizer = crate::segmenter::build(training.words());
    let construction_ms = millis_since(&clock);
    let clock = Instant::now();
    let lengths = crate::segmenter::tokenize(&tokenizer, corpus.buffer());
    let tokenize_ms = millis_since(&clock);
    let expected = corpus.ground_truth();
    let predicted: Vec<Span> = match tile(&lengths) {
        Some(spans) => spans,
        None => unreached(),
    };
    proof {
        assert(is_ordered(predicted@)) by {
            crate::span::lemma_tiling_offsets(predicted@, crate::span::total(lengths@));
        }
        assert(is_ordered(expected@)) by {
            crate::corpus::lemma_ground_truth_tiles(corpus.spans(), corpus.words());
            crate::span::lemma_tiling_offsets(corpus.spans(), byte_len(corpus.text()) as int);
        }
    }
    let true_positive = score(&predicted, expected);
    TrialResult {
        true_positive,
        predicted: predicted.len(),
        actual: expected.len(),
        construction_ms,
        tokenize_ms,
    }
}

/// Runs one trial: draws the material from the dictionary, then evaluates the
/// tokenizer on it.
pub fn run_trial(dictionary: &Dictionary, fraction: Fraction, rng: &mut ThreadRng) -> (outcome:
    Result<TrialResult, SynthError>)
    requires
        dictionary.wf(),
    ensures
        match outcome {
            Ok(result) => {
                &&& fraction.is_proper()
                &&& dictionary@.len() > 0
                &&& is_trial_of(result, dictionary@, fraction)
                &&& result.actual == dictionary@.len()
                &&& result.is_consistent()
            },
            Err(SynthError::FractionOutOfRange) => !fraction.is_proper(),
            Err(SynthError::EmptyDictionary) => fraction.is_proper() && dictionary@.len() == 0,
        },
{
    match synthesize(dictionary, fraction, rng) {
        Ok((training, corpus)) => {
            let result = evaluate(&training, &corpus);
            proof {
                vstd::seq_lib::to_multiset_len(corpus.words());
                vstd::seq_lib::to_multiset_len(dictionary@);
                assert(is_draw(dictionary@, fraction, training@, corpus.words())
                    && is_ground_truth(corpus.spans(), corpus.words()));
            }
            Ok(result)
        },
        Err(error) => Err(error),
    }
}

} // verus!
