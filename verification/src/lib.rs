//! Evaluation of word segmentation over a corpus synthesised from a dictionary.
//!
//! A trial shuffles the dictionary, withholds a fraction of its words from the
//! tokenizer, concatenates a second shuffle of all words into one text, lets
//! the tokenizer segment that text and scores the outcome against the known
//! word boundaries. Scores and timings of many trials are accumulated into
//! exact running statistics.
//!
//! * [`dictionary`]: the distinct words of a whitespace-separated word list.
//! * [`corpus`]: the training words and the test text of a trial.
//! * [`span`]: byte ranges of a text, and tilings of it.
//! * [`align`]: the count of true positives of one segmentation against
//!   another.
//! * [`stats`]: mean, variance and extremes of a stream of observations.
//! * [`trial`]: the counts and timings of a trial and the scores they give.
//! * [`report`]: the statistics of a run of trials.
//! * [`shuffle`], [`segmenter`], [`clock`]: what is taken on trust from the
//!   random number generator, the tokenizer and the system clock.

pub mod align;
pub mod clock;
pub mod corpus;
pub mod dictionary;
pub mod report;
pub mod segmenter;
pub mod shuffle;
pub mod span;
pub mod stats;
pub mod trial;
