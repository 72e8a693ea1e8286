//! The trials of a run and the statistics drawn from them.

use crate::corpus::Fraction;
use crate::corpus::SynthError;
use crate::dictionary::Dictionary;
use crate::stats::max_of;
use crate::stats::min_of;
use crate::stats::spread;
use crate::stats::sum_of;
use crate::stats::RunningStats;
use crate::stats::StatsError;
use crate::trial::is_trial_of;
use crate::trial::millis_sample;
use crate::trial::run_trial;
use crate::trial::TrialResult;
use crate::trial::SCORE_SCALE;
use rand::rngs::ThreadRng;
use vstd::prelude::*;

verus! {

/// The observations that are defined, in order.
pub open spec fn defined(observations: Seq<Option<u32>>) -> Seq<u32>
    decreases observations.len(),
{
    if observations.len() == 0 {
        Seq::empty()
    } else {
        match observations.last() {
            Some(value) => defined(observations.drop_last()).push(value),
            None => defined(observations.drop_last()),
        }
    }
}

/// The harmonic mean of precision and recall of each trial.
pub open spec fn f1_observations(trials: Seq<TrialResult>) -> Seq<Option<u32>> {
    Seq::new(trials.len(), |i: int| trials[i].f1_spec())
}

/// The time each trial took to build the tokenizer.
pub open spec fn construction_observations(trials: Seq<TrialResult>) -> Seq<Option<u32>> {
    Seq::new(trials.len(), |i: int| millis_sample(trials[i].construction_ms))
}

/// The time the tokenizer took in each trial to cut the text.
pub open spec fn tokenize_observations(trials: Seq<TrialResult>) -> Seq<Option<u32>> {
    Seq::new(trials.len(), |i: int| millis_sample(trials[i].tokenize_ms))
}

/// There are no more defined observations than observations.
pub proof fn lemma_defined_bounded(observations: Seq<Option<u32>>)
    ensures
        defined(observations).len() <= observations.len(),
    decreases observations.len(),
{
    if observations.len() > 0 {
        lemma_defined_bounded(observations.drop_last());
    }
}

/// Where no observation is defined, none is taken.
pub proof fn lemma_nothing_defined(observations: Seq<Option<u32>>)
    requires
        forall|i: int| 0 <= i < observations.len() ==> observations[i] is None,
    ensures
        defined(observations).len() == 0,
    decreases observations.len(),
{
    if observations.len() > 0 {
        lemma_nothing_defined(observations.drop_last());
    }
}

/// Where every observation is the same value, the defined ones are as many
/// and all that value.
pub proof fn lemma_all_defined_alike(observations: Seq<Option<u32>>, value: u32)
    requires
        forall|i: int| 0 <= i < observations.len() ==> observations[i] == Some(value),
    ensures
        defined(observations).len() == observations.len(),
        forall|i: int| 0 <= i < observations.len() ==> defined(observations)[i] == value,
    decreases observations.len(),
{
    if observations.len() > 0 {
        lemma_all_defined_alike(observations.drop_last(), value);
    }
}

/// Where the tokenizer predicts nothing in any trial, no trial has a defined
/// score: all are left out of the statistics of the score.
pub proof fn lemma_no_prediction_no_score(trials: Seq<TrialResult>)
    requires
        forall|i: int| 0 <= i < trials.len() ==> (#[trigger] trials[i]).predicted == 0,
    ensures
        defined(f1_observations(trials)).len() == 0,
{
    lemma_nothing_defined(f1_observations(trials));
}

/// Where every trial matches in full and is not empty, every score is 1:
/// the scores add up to as many times 1 as there are trials, and they have no
/// spread, so their mean is 1 and their variance is 0.
pub proof fn lemma_full_matches_score_one(trials: Seq<TrialResult>)
    requires
        forall|i: int|
            0 <= i < trials.len() ==> (#[trigger] trials[i]).true_positive == trials[i].predicted
                && trials[i].true_positive == trials[i].actual && trials[i].true_positive > 0,
    ensures
        defined(f1_observations(trials)).len() == trials.len(),
        sum_of(defined(f1_observations(trials))) == trials.len() * SCORE_SCALE,
        spread(defined(f1_observations(trials))) == 0,
{
    let observations = f1_observations(trials);
    assert forall|i: int| 0 <= i < observations.len() implies observations[i] == Some(
        SCORE_SCALE,
    ) by {
        crate::trial::lemma_full_match_scores_one(trials[i]);
    }
    lemma_all_defined_alike(observations, SCORE_SCALE);
    crate::stats::lemma_constant_samples_have_no_spread(defined(observations), SCORE_SCALE);
}

/// The trials recorded so far with running statistics of their scores and
/// timings.
pub struct Report {
    trials: Vec<TrialResult>,
    f1: RunningStats,
    construction: RunningStats,
    tokenization: RunningStats,
    best_f1: Option<u32>,
    worst_f1: Option<u32>,
}

impl View for Report {
    type V = Seq<TrialResult>;

    /// The trials recorded, in order.
    closed spec fn view(&self) -> Seq<TrialResult> {
        self.trials@
    }
}

/// The aggregator has taken exactly the given observations.
pub open spec fn has_taken(stats: &RunningStats, observations: Seq<Option<u32>>) -> bool {
    &&& stats.wf()
    &&& stats@ == defined(observations)
    &&& stats.excluded_count() == observations.len() - defined(observations).len()
}

impl Report {
    /// The statistics of the harmonic mean of precision and recall.
    pub closed spec fn f1_stats(&self) -> &RunningStats {
        &self.f1
    }

    /// The statistics of the time to build the tokenizer, in milliseconds.
    pub closed spec fn construction_stats(&self) -> &RunningStats {
        &self.construction
    }

    /// The statistics of the time to cut the text, in milliseconds.
    pub closed spec fn tokenize_stats(&self) -> &RunningStats {
        &self.tokenization
    }

    /// The best harmonic mean of any trial, where one is defined.
    pub closed spec fn best(&self) -> Option<u32> {
        self.best_f1
    }

    /// The worst harmonic mean of any trial, where one is defined.
    pub closed spec fn worst(&self) -> Option<u32> {
        self.worst_f1
    }

    /// The statistics are those of the trials recorded, and the best and
    /// worst scores are the extremes of the defined ones.
    pub open spec fn wf(&self) -> bool {
        &&& self@.len() <= u32::MAX
        &&& has_taken(self.f1_stats(), f1_observations(self@))
        &&& has_taken(self.construction_stats(), construction_observations(self@))
        &&& has_taken(self.tokenize_stats(), tokenize_observations(self@))
        &&& self.best() == if self.f1_stats()@.len() > 0 {
            Some(max_of(self.f1_stats()@))
        } else {
            None
        }
        &&& self.worst() == if self.f1_stats()@.len() > 0 {
            Some(min_of(self.f1_stats()@))
        } else {
            None
        }
    }

    /// A report of no trial.
    pub fn new() -> (report: Self)
        ensures
            report.wf(),
            report@ == Seq::<TrialResult>::empty(),
    {
        let report = Report {
            trials: Vec::new(),
            f1: RunningStats::new(),
            construction: RunningStats::new(),
            tokenization: RunningStats::new(),
            best_f1: None,
            worst_f1: None,
        };
        proof {
            assert(f1_observations(report@) =~= Seq::<Option<u32>>::empty());
            assert(construction_observations(report@) =~= Seq::<Option<u32>>::empty());
            assert(tokenize_observations(report@) =~= Seq::<Option<u32>>::empty());
        }
        report
    }

    /// Records a trial: its score and its two timings each go to their
    /// aggregator, where an undefined one is counted as excluded. Nothing
    /// changes where the report is full.
    pub fn record(&mut self, trial: TrialResult) -> (outcome: Result<(), StatsError>)
        requires
            old(self).wf(),
        ensures
            final(self).wf(),
            outcome is Ok <==> old(self)@.len() < u32::MAX,
            outcome is Ok ==> final(self)@ == old(self)@.push(trial),
            outcome is Err ==> final(self)@ == old(self)@,
    {
        if self.trials.len() >= u32::MAX as usize {
            return Err(StatsError::Full);
        }
        let ghost before = self@;
        let ghost after = before.push(trial);
        proof {
            lemma_defined_bounded(f1_observations(before));
            lemma_defined_bounded(construction_observations(before));
            lemma_defined_bounded(tokenize_observations(before));
            assert(f1_observations(after).drop_last() =~= f1_observations(before));
            assert(construction_observations(after).drop_last() =~= construction_observations(
                before,
            ));
            assert(tokenize_observations(after).drop_last() =~= tokenize_observations(before));
        }
        let score = trial.f1();
        let ghost scores = self.f1@;
        let _ = self.f1.update(score);
        let _ = self.construction.update(trial.construction_sample());
        let _ = self.tokenization.update(trial.tokenize_sample());
        match score {
            Some(value) => {
                proof {
                    assert(scores.push(value).drop_last() =~= scores);
                }
                self.best_f1 = match self.best_f1 {
                    Some(best) if best >= value => Some(best),
                    _ => Some(value),
                };
                self.worst_f1 = match self.worst_f1 {
                    Some(worst) if worst <= value => Some(worst),
                    _ => Some(value),
                };
            },
            None => {},
        }
        self.trials.push(trial);
        Ok(())
    }

    /// The trials recorded, in order.
    pub fn trials(&self) -> (trials: &Vec<TrialResult>)
        ensures
            trials@ == self@,
    {
        &self.trials
    }

    /// The statistics of the harmonic mean of precision and recall, in parts
    /// per billion.
    pub fn f1(&self) -> (stats: &RunningStats)
        ensures
            stats == self.f1_stats(),
    {
        &self.f1
    }

    /// The statistics of the time to build the tokenizer, in milliseconds.
    pub fn construction_time(&self) -> (stats: &RunningStats)
        ensures
            stats == self.construction_stats(),
    {
        &self.construction
    }

    /// The statistics of the time to cut the text, in milliseconds.
    pub fn tokenize_time(&self) -> (stats: &RunningStats)
        ensures
            stats == self.tokenize_stats(),
    {
        &self.tokenization
    }

    /// The best harmonic mean of any trial, where one is defined.
    pub fn best_f1(&self) -> (best: Option<u32>)
        ensures
            best == self.best(),
    {
        self.best_f1
    }

    /// The worst harmonic mean of any trial, where one is defined.
    pub fn worst_f1(&self) -> (worst: Option<u32>)
        ensures
            worst == self.worst(),
    {
        self.worst_f1
    }
}

/// Runs `trial_count` trials on the dictionary, one after the other, and
/// reports on them. A fraction out of range or an empty dictionary is refused
/// before any trial runs.
pub fn run(
    dictionary: &Dictionary,
    trial_count: u32,
    fraction: Fraction,
    rng: &mut ThreadRng,
) -> (outcome: Result<Report, SynthError>)
    requires
        dictionary.wf(),
    ensures
        match outcome {
            Ok(report) => {
                &&& fraction.is_proper()
                &&& dictionary@.len() > 0
                &&& report.wf()
                &&& report@.len() == trial_count
                &&& forall|i: int|
                    0 <= i < report@.len() ==> is_trial_of(
                        #[trigger] report@[i],
                        dictionary@,
                        fraction,
                    ) && report@[i].actual == dictionary@.len() && report@[i].is_consistent()
            },
            Err(SynthError::FractionOutOfRange) => !fraction.is_proper(),
            Err(SynthError::EmptyDictionary) => fraction.is_proper() && dictionary@.len() == 0,
        },
{
    if !fraction.in_range() {
        return Err(SynthError::FractionOutOfRange);
    }
    if dictionary.len() == 0 {
        return Err(SynthError::EmptyDictionary);
    }
    let mut report = Report::new();
    let mut done: u32 = 0;
    while done < trial_count
        invariant
            dictionary.wf(),
            fraction.is_proper(),
            dictionary@.len() > 0,
            done <= trial_count,
            report.wf(),
            report@.len() == done,
            forall|i: int|
                0 <= i < report@.len() ==> is_trial_of(#[trigger] report@[i], dictionary@, fraction)
                    && report@[i].actual == dictionary@.len() && report@[i].is_consistent(),
        decreases trial_count - done,
    {
        match run_trial(dictionary, fraction, rng) {
            Ok(trial) => {
                let _ = report.record(trial);
            },
            Err(error) => {
                return Err(error);
            },
        }
        done = done + 1;
    }
    Ok(report)
}

} // verus!
