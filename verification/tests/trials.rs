use segment_eval::align::score;
use segment_eval::corpus::synthesize;
use segment_eval::corpus::Corpus;
use segment_eval::corpus::Fraction;
use segment_eval::corpus::SynthError;
use segment_eval::dictionary::Dictionary;
use segment_eval::report::run;
use segment_eval::report::Report;
use segment_eval::span::tile;
use segment_eval::stats::Ratio;
use segment_eval::trial::evaluate;
use segment_eval::trial::run_trial;
use segment_eval::trial::sample_of_millis;
use segment_eval::trial::TrialResult;
use segment_eval::trial::SCORE_SCALE;

fn counts(true_positive: usize, predicted: usize, actual: usize) -> TrialResult {
    TrialResult { true_positive, predicted, actual, construction_ms: 0, tokenize_ms: 0 }
}

#[test]
fn scores_are_parts_per_billion() {
    let result = counts(3, 4, 6);
    assert_eq!(result.precision(), Some(750_000_000));
    assert_eq!(result.recall(), Some(500_000_000));
    assert_eq!(result.f1(), Some(600_000_000));
}

#[test]
fn scores_are_rounded_down() {
    let result = counts(1, 3, 3);
    assert_eq!(result.precision(), Some(333_333_333));
    assert_eq!(result.recall(), Some(333_333_333));
    assert_eq!(result.f1(), Some(333_333_333));
    assert_eq!(counts(2, 3, 4).f1(), Some(571_428_571));
}

#[test]
fn a_full_match_scores_one() {
    let result = counts(5, 5, 5);
    assert_eq!(result.precision(), Some(SCORE_SCALE));
    assert_eq!(result.recall(), Some(SCORE_SCALE));
    assert_eq!(result.f1(), Some(SCORE_SCALE));
    let huge = counts(usize::MAX, usize::MAX, usize::MAX);
    assert_eq!(huge.f1(), Some(SCORE_SCALE));
}

#[test]
fn without_a_prediction_precision_and_f1_are_undefined() {
    let result = counts(0, 0, 3);
    assert_eq!(result.precision(), None);
    assert_eq!(result.recall(), Some(0));
    assert_eq!(result.f1(), None);
}

#[test]
fn without_a_true_positive_f1_is_undefined() {
    let result = counts(0, 4, 3);
    assert_eq!(result.precision(), Some(0));
    assert_eq!(result.recall(), Some(0));
    assert_eq!(result.f1(), None);
}

#[test]
fn counts_that_contradict_each_other_have_no_score() {
    assert_eq!(counts(5, 4, 6).precision(), None);
    assert_eq!(counts(5, 4, 6).f1(), None);
    assert_eq!(counts(5, 6, 4).recall(), None);
}

#[test]
fn durations_up_to_the_largest_sample_are_samples() {
    assert_eq!(sample_of_millis(0), Some(0));
    assert_eq!(sample_of_millis(1234), Some(1234));
    assert_eq!(sample_of_millis(u32::MAX as u128), Some(u32::MAX));
    assert_eq!(sample_of_millis(u32::MAX as u128 + 1), None);
    let result = TrialResult {
        true_positive: 1,
        predicted: 1,
        actual: 1,
        construction_ms: 17,
        tokenize_ms: u128::MAX,
    };
    assert_eq!(result.construction_sample(), Some(17));
    assert_eq!(result.tokenize_sample(), None);
}

#[test]
fn a_tokenizer_that_knows_every_word_finds_every_word() {
    let dictionary = Dictionary::from_text("a bb ccc");
    let corpus = Corpus::build(Dictionary::from_text("a bb ccc"));
    let result = evaluate(&dictionary, &corpus);
    assert_eq!((result.true_positive, result.predicted, result.actual), (3, 3, 3));
    assert_eq!(result.f1(), Some(SCORE_SCALE));
}

#[test]
fn the_known_words_decide_where_the_text_is_cut() {
    let corpus = Corpus::build(Dictionary::from_text("a bc"));
    let misled = evaluate(&Dictionary::from_text("ab c"), &corpus);
    assert_eq!((misled.true_positive, misled.predicted, misled.actual), (0, 2, 2));
    let informed = evaluate(&Dictionary::from_text("a bc"), &corpus);
    assert_eq!((informed.true_positive, informed.predicted, informed.actual), (2, 2, 2));
    let ignorant = evaluate(&Dictionary::from_text("zzz"), &corpus);
    assert_eq!((ignorant.true_positive, ignorant.predicted, ignorant.actual), (0, 1, 2));
}

#[test]
fn an_unknown_word_between_known_ones_is_isolated() {
    let corpus = Corpus::build(Dictionary::from_text("ภาษาไทย ง่าย นิดเดียว"));
    let result = evaluate(&Dictionary::from_text("ภาษาไทย นิดเดียว"), &corpus);
    assert_eq!((result.true_positive, result.predicted, result.actual), (3, 3, 3));
}

#[test]
fn an_oracle_scores_one_in_every_trial() {
    let dictionary = Dictionary::from_text("a bb ccc");
    let mut rng = rand::thread_rng();
    let mut report = Report::new();
    for _ in 0..25 {
        let (_, corpus) =
            synthesize(&dictionary, Fraction { numer: 0, denom: 1 }, &mut rng).ok().unwrap();
        let lengths: Vec<usize> = corpus.ground_truth().iter().map(|span| span.len).collect();
        let predicted = tile(&lengths).unwrap();
        let result = TrialResult {
            true_positive: score(&predicted, corpus.ground_truth()),
            predicted: predicted.len(),
            actual: corpus.ground_truth().len(),
            construction_ms: 0,
            tokenize_ms: 0,
        };
        assert_eq!(result.precision(), Some(SCORE_SCALE));
        assert_eq!(result.recall(), Some(SCORE_SCALE));
        assert_eq!(result.f1(), Some(SCORE_SCALE));
        report.record(result).unwrap();
    }
    let f1 = report.f1();
    assert_eq!(f1.count(), 25);
    assert_eq!(f1.excluded(), 0);
    assert_eq!(f1.mean(), Some(Ratio { numer: 25 * SCORE_SCALE as u128, denom: 25 }));
    assert_eq!(f1.variance(), Some(Ratio { numer: 0, denom: 25 * 24 }));
    let mean = f1.mean().unwrap();
    assert_eq!(mean.numer as f64 / mean.denom as f64 / SCORE_SCALE as f64, 1.0);
}

#[test]
fn a_full_dictionary_makes_the_tokenizer_an_oracle() {
    let dictionary = Dictionary::from_text("a bb ccc");
    let mut rng = rand::thread_rng();
    let report = run(&dictionary, 30, Fraction { numer: 0, denom: 1 }, &mut rng).ok().unwrap();
    assert_eq!(report.trials().len(), 30);
    for trial in report.trials() {
        assert_eq!((trial.true_positive, trial.predicted, trial.actual), (3, 3, 3));
        assert_eq!(trial.f1(), Some(SCORE_SCALE));
    }
    let f1 = report.f1();
    assert_eq!(f1.count(), 30);
    assert_eq!(f1.excluded(), 0);
    assert_eq!(f1.mean(), Some(Ratio { numer: 30 * SCORE_SCALE as u128, denom: 30 }));
    assert_eq!(f1.variance().unwrap().numer, 0);
    assert_eq!(f1.squared_standard_error().unwrap().numer, 0);
    assert_eq!(report.best_f1(), Some(SCORE_SCALE));
    assert_eq!(report.worst_f1(), Some(SCORE_SCALE));
    assert_eq!(report.construction_time().count(), 30);
    assert_eq!(report.tokenize_time().count(), 30);
}

#[test]
fn a_tokenizer_without_output_leaves_no_valid_trial() {
    let dictionary = Dictionary::from_text("a bb ccc");
    let mut rng = rand::thread_rng();
    let mut report = Report::new();
    for _ in 0..12 {
        let (_, corpus) =
            synthesize(&dictionary, Fraction { numer: 0, denom: 1 }, &mut rng).ok().unwrap();
        let predicted = tile(&Vec::new()).unwrap();
        let result = TrialResult {
            true_positive: score(&predicted, corpus.ground_truth()),
            predicted: predicted.len(),
            actual: corpus.ground_truth().len(),
            construction_ms: 1,
            tokenize_ms: 2,
        };
        assert_eq!((result.true_positive, result.predicted, result.actual), (0, 0, 3));
        assert_eq!(result.f1(), None);
        assert_eq!(report.record(result), Ok(()));
    }
    assert_eq!(report.trials().len(), 12);
    assert_eq!(report.f1().count(), 0);
    assert_eq!(report.f1().excluded(), 12);
    assert_eq!(report.f1().mean(), None);
    assert_eq!(report.f1().variance(), None);
    assert_eq!(report.best_f1(), None);
    assert_eq!(report.worst_f1(), None);
    assert_eq!(report.construction_time().count(), 12);
    assert_eq!(report.tokenize_time().mean(), Some(Ratio { numer: 24, denom: 12 }));
}

#[test]
fn the_report_keeps_the_best_and_the_worst_score() {
    let mut report = Report::new();
    report.record(counts(1, 2, 2)).unwrap();
    assert_eq!(report.best_f1(), Some(500_000_000));
    assert_eq!(report.worst_f1(), Some(500_000_000));
    report.record(counts(0, 2, 2)).unwrap();
    report.record(counts(2, 2, 2)).unwrap();
    report.record(counts(1, 4, 4)).unwrap();
    assert_eq!(report.best_f1(), Some(SCORE_SCALE));
    assert_eq!(report.worst_f1(), Some(250_000_000));
    assert_eq!(report.f1().max(), report.best_f1());
    assert_eq!(report.f1().min(), report.worst_f1());
    assert_eq!(report.f1().count(), 3);
    assert_eq!(report.f1().excluded(), 1);
    assert_eq!(report.trials().len(), 4);
}

#[test]
fn timings_go_to_their_own_statistics() {
    let mut report = Report::new();
    for (construction_ms, tokenize_ms) in [(10u128, 1u128), (20, 2), (30, 3)] {
        let mut trial = counts(1, 1, 1);
        trial.construction_ms = construction_ms;
        trial.tokenize_ms = tokenize_ms;
        report.record(trial).unwrap();
    }
    report
        .record(TrialResult {
            true_positive: 1,
            predicted: 1,
            actual: 1,
            construction_ms: u128::MAX,
            tokenize_ms: 4,
        })
        .unwrap();
    assert_eq!(report.construction_time().mean(), Some(Ratio { numer: 60, denom: 3 }));
    assert_eq!(report.construction_time().excluded(), 1);
    assert_eq!(report.tokenize_time().mean(), Some(Ratio { numer: 10, denom: 4 }));
    assert_eq!(report.tokenize_time().excluded(), 0);
    assert_eq!(report.f1().count(), 4);
}

#[test]
fn a_run_refuses_a_bad_configuration_before_any_trial() {
    let dictionary = Dictionary::from_text("a bb ccc");
    let empty = Dictionary::from_text("");
    let mut rng = rand::thread_rng();
    assert_eq!(
        run(&dictionary, 5, Fraction { numer: 1, denom: 1 }, &mut rng).err(),
        Some(SynthError::FractionOutOfRange)
    );
    assert_eq!(
        run(&dictionary, 0, Fraction { numer: 7, denom: 0 }, &mut rng).err(),
        Some(SynthError::FractionOutOfRange)
    );
    assert_eq!(
        run(&empty, 5, Fraction { numer: 1, denom: 10 }, &mut rng).err(),
        Some(SynthError::EmptyDictionary)
    );
    assert_eq!(
        run_trial(&empty, Fraction { numer: 1, denom: 10 }, &mut rng).err(),
        Some(SynthError::EmptyDictionary)
    );
    assert_eq!(
        run_trial(&dictionary, Fraction { numer: 2, denom: 1 }, &mut rng).err(),
        Some(SynthError::FractionOutOfRange)
    );
}

#[test]
fn a_run_of_no_trial_reports_nothing() {
    let dictionary = Dictionary::from_text("a bb ccc");
    let mut rng = rand::thread_rng();
    let report = run(&dictionary, 0, Fraction { numer: 1, denom: 10 }, &mut rng).ok().unwrap();
    assert!(report.trials().is_empty());
    assert_eq!(report.f1().count(), 0);
    assert_eq!(report.f1().excluded(), 0);
    assert_eq!(report.best_f1(), None);
}

#[test]
fn withheld_words_still_give_consistent_counts() {
    let words: Vec<String> = (0..30).map(|k| format!("k{}q", k)).collect();
    let dictionary = Dictionary::from_text(&words.join("\n"));
    let mut rng = rand::thread_rng();
    let report = run(&dictionary, 10, Fraction { numer: 1, denom: 3 }, &mut rng).ok().unwrap();
    assert_eq!(report.trials().len(), 10);
    for trial in report.trials() {
        assert_eq!(trial.actual, 30);
        assert!(trial.true_positive <= trial.predicted);
        assert!(trial.true_positive <= trial.actual);
        assert!(trial.predicted >= 1);
    }
    assert_eq!(report.f1().count() + report.f1().excluded(), 10);
}

#[test]
fn ambiguous_vocabularies_are_cut_without_failure() {
    // Words over two letters share prefixes and suffixes in every way.
    let mut words: Vec<String> = Vec::new();
    for len in 1..=4usize {
        for bits in 0..(1u32 << len) {
            let word: String =
                (0..len).map(|k| if bits & (1 << k) == 0 { 'ก' } else { 'a' }).collect();
            words.push(word);
        }
    }
    let dictionary = Dictionary::from_text(&words.join(" "));
    assert_eq!(dictionary.len(), 30);
    let mut rng = rand::thread_rng();
    for numer in 0..10u64 {
        let fraction = Fraction { numer, denom: 10 };
        let report = run(&dictionary, 40, fraction, &mut rng).ok().unwrap();
        for trial in report.trials() {
            assert_eq!(trial.actual, 30);
            assert!(trial.predicted >= 1);
            assert!(trial.true_positive <= trial.predicted);
            assert!(trial.true_positive <= trial.actual);
        }
    }
}

#[test]
fn tokens_never_outgrow_the_text() {
    let alphabet = ['a', 'b', 'é', 'ไ', '😀'];
    let mut rng = rand::thread_rng();
    let mut seed: u64 = 0x9E37_79B9_7F4A_7C15;
    let mut next = move || {
        seed ^= seed << 13;
        seed ^= seed >> 7;
        seed ^= seed << 17;
        seed
    };
    for _ in 0..60 {
        let count = 2 + (next() % 25) as usize;
        let words: Vec<String> = (0..count)
            .map(|_| {
                let len = 1 + (next() % 5) as usize;
                (0..len).map(|_| alphabet[(next() % 5) as usize]).collect()
            })
            .collect();
        let dictionary = Dictionary::from_text(&words.join("\n"));
        let fraction = Fraction { numer: next() % 4, denom: 4 };
        let (training, corpus) = synthesize(&dictionary, fraction, &mut rng).ok().unwrap();
        let result = evaluate(&training, &corpus);
        assert_eq!(result.actual, dictionary.len());
        assert!(result.predicted >= 1);
        assert!(result.predicted <= corpus.extent());
        assert!(result.true_positive <= result.actual);
    }
}
