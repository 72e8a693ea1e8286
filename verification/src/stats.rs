//! Running statistics over a stream of observations, in exact arithmetic.
//!
//! An observation is a whole number of some unit (a score in parts per
//! billion, a duration in milliseconds) or is undefined. Undefined
//! observations are counted and otherwise left out. Of the defined ones the
//! aggregator keeps the count, the sum, the sum of squares and the extremes,
//! from which the mean and the sample variance follow as exact ratios after
//! every update.

use vstd::prelude::*;

verus! {

/// The exact quotient `numer / denom`. The denominator is never zero.
#[derive(Clone, Copy, Debug, PartialEq, Eq)]
pub struct Ratio {
    pub numer: u128,
    pub denom: u128,
}

/// Why an observation was not taken.
#[derive(Clone, Copy, Debug, PartialEq, Eq)]
pub enum StatsError {
    /// The aggregator has taken as many observations as it can count.
    Full,
}

/// What the aggregator reports of the observations taken so far.
#[derive(Clone, Copy, Debug, PartialEq, Eq)]
pub struct Snapshot {
    /// How many defined observations were taken.
    pub count: u32,
    /// How many undefined observations were left out.
    pub excluded: u32,
    /// The mean, where there is an observation.
    pub mean: Option<Ratio>,
    /// The sample variance, where there are two observations.
    pub variance: Option<Ratio>,
    /// The least observation, where there is one.
    pub min: Option<u32>,
    /// The greatest observation, where there is one.
    pub max: Option<u32>,
}

/// The sum of the samples.
pub open spec fn sum_of(samples: Seq<u32>) -> int
    decreases samples.len(),
{
    if samples.len() == 0 {
        0
    } else {
        sum_of(samples.drop_last()) + samples.last()
    }
}

/// The sum of the squares of the samples.
pub open spec fn sum_of_squares(samples: Seq<u32>) -> int
    decreases samples.len(),
{
    if samples.len() == 0 {
        0
    } else {
        sum_of_squares(samples.drop_last()) + samples.last() * samples.last()
    }
}

/// The least of the samples (0 where there is none).
pub open spec fn min_of(samples: Seq<u32>) -> u32
    decreases samples.len(),
{
    if samples.len() == 0 {
        0
    } else if samples.len() == 1 || samples.last() < min_of(samples.drop_last()) {
        samples.last()
    } else {
        min_of(samples.drop_last())
    }
}

/// The greatest of the samples (0 where there is none).
pub open spec fn max_of(samples: Seq<u32>) -> u32
    decreases samples.len(),
{
    if samples.len() == 0 {
        0
    } else if samples.len() == 1 || samples.last() > max_of(samples.drop_last()) {
        samples.last()
    } else {
        max_of(samples.drop_last())
    }
}

/// The count times the sum of the squared deviations from the mean:
/// `n * sum(x^2) - sum(x)^2`, a whole number.
pub open spec fn spread(samples: Seq<u32>) -> int {
    samples.len() * sum_of_squares(samples) - sum_of(samples) * sum_of(samples)
}

/// The mean of the samples as numerator and denominator.
pub open spec fn mean_of(samples: Seq<u32>) -> (int, int) {
    (sum_of(samples), samples.len() as int)
}

/// The sample variance (with Bessel's correction) as numerator and
/// denominator.
pub open spec fn variance_of(samples: Seq<u32>) -> (int, int) {
    (spread(samples), samples.len() * (samples.len() - 1))
}

/// The variance divided by the count, the square of the standard error of
/// the mean, as numerator and denominator.
pub open spec fn squared_standard_error_of(samples: Seq<u32>) -> (int, int) {
    (spread(samples), samples.len() * samples.len() * (samples.len() - 1))
}

/// The sum, over the first `upto` samples `x`, of `(n * x - s)^2`. With `n`
/// the count and `s` the sum of all samples this is the sum of the squared
/// deviations from the mean `s / n`, times `n^2`.
pub open spec fn scaled_squared_deviations(samples: Seq<u32>, n: int, s: int, upto: int) -> int
    decreases upto,
{
    if upto <= 0 || upto > samples.len() {
        0
    } else {
        scaled_squared_deviations(samples, n, s, upto - 1) + (n * samples[upto - 1] - s) * (n
            * samples[upto - 1] - s)
    }
}

/// The sums are bounded by the count and the largest sample there can be.
pub proof fn lemma_sums_bounded(samples: Seq<u32>)
    ensures
        0 <= sum_of(samples) <= samples.len() * 0xFFFF_FFFF,
        0 <= sum_of_squares(samples) <= samples.len() * 0xFFFF_FFFE_0000_0001,
    decreases samples.len(),
{
    if samples.len() > 0 {
        lemma_sums_bounded(samples.drop_last());
        let x = samples.last() as int;
        assert(0 <= x * x <= 0xFFFF_FFFE_0000_0001) by (nonlinear_arith)
            requires
                0 <= x <= 0xFFFF_FFFF,
        ;
    }
}

proof fn lemma_spread_step(n: int, s: int, q: int, x: int)
    ensures
        n * ((n + 1) * (q + x * x) - (s + x) * (s + x)) - (n + 1) * (n * q - s * s) == (n * x - s)
            * (n * x - s),
        (n * x - s) * (n * x - s) >= 0,
{
    let xx = x * x;
    let ss = s * s;
    let sx = s * x;
    let nq = n * q;
    let nxx = n * xx;
    let nx = n * x;
    let after = (n + 1) * (q + xx) - (s + x) * (s + x);
    let before = nq - ss;
    assert((s + x) * (s + x) == ss + 2 * sx + xx) by (nonlinear_arith)
        requires
            ss == s * s,
            sx == s * x,
            xx == x * x,
    ;
    assert((n + 1) * (q + xx) == nq + q + nxx + xx) by (nonlinear_arith)
        requires
            nq == n * q,
            nxx == n * xx,
    ;
    assert(after == nq + q + nxx - ss - 2 * sx);
    assert(n * after == n * nq + nq + n * nxx - n * ss - 2 * (n * sx)) by (nonlinear_arith)
        requires
            after == nq + q + nxx - ss - 2 * sx,
            nq == n * q,
    ;
    assert((n + 1) * before == n * nq - n * ss + nq - ss) by (nonlinear_arith)
        requires
            before == nq - ss,
    ;
    assert(nx * nx == n * nxx) by (nonlinear_arith)
        requires
            nx == n * x,
            nxx == n * (x * x),
    ;
    assert(nx * s == n * sx) by (nonlinear_arith)
        requires
            nx == n * x,
            sx == s * x,
    ;
    assert((nx - s) * (nx - s) == nx * nx - 2 * (nx * s) + ss) by (nonlinear_arith)
        requires
            ss == s * s,
    ;
    assert((nx - s) * (nx - s) >= 0) by (nonlinear_arith);
}

/// The spread is never negative.
pub proof fn lemma_spread_nonnegative(samples: Seq<u32>)
    ensures
        spread(samples) >= 0,
    decreases samples.len(),
{
    if samples.len() > 0 {
        let before = samples.drop_last();
        let n = before.len() as int;
        let x = samples.last() as int;
        lemma_spread_nonnegative(before);
        lemma_spread_step(n, sum_of(before), sum_of_squares(before), x);
        let q_after = spread(samples);
        let q_before = spread(before);
        assert(samples.len() == n + 1);
        if n == 0 {
            assert(sum_of(before) == 0 && sum_of_squares(before) == 0);
            assert(q_after == 0) by (nonlinear_arith)
                requires
                    q_after == 1 * (0 + x * x) - (0 + x) * (0 + x),
            ;
        } else {
            assert(n * q_after == (n + 1) * q_before + (n * x - sum_of(before)) * (n * x - sum_of(
                before,
            )));
            assert((n + 1) * q_before >= 0) by (nonlinear_arith)
                requires
                    n >= 0,
                    q_before >= 0,
            ;
            assert(q_after >= 0) by (nonlinear_arith)
                requires
                    n > 0,
                    n * q_after >= 0,
            ;
        }
    }
}

proof fn lemma_deviations_expand(samples: Seq<u32>, n: int, s: int, upto: int)
    requires
        0 <= upto <= samples.len(),
    ensures
        scaled_squared_deviations(samples, n, s, upto) == (n * n) * sum_of_squares(
            samples.take(upto),
        ) - (2 * (n * s)) * sum_of(samples.take(upto)) + upto * (s * s),
    decreases upto,
{
    if upto == 0 {
        assert(samples.take(0) =~= Seq::<u32>::empty());
    } else {
        lemma_deviations_expand(samples, n, s, upto - 1);
        assert(samples.take(upto).drop_last() =~= samples.take(upto - 1));
        let x = samples[upto - 1] as int;
        let nn = n * n;
        let ns = n * s;
        let ss = s * s;
        let sums = sum_of(samples.take(upto - 1));
        let squares = sum_of_squares(samples.take(upto - 1));
        assert((n * x - s) * (n * x - s) == nn * (x * x) - (2 * ns) * x + ss) by (nonlinear_arith)
            requires
                nn == n * n,
                ns == n * s,
                ss == s * s,
        ;
        assert(nn * (squares + x * x) == nn * squares + nn * (x * x)) by (nonlinear_arith);
        assert((2 * ns) * (sums + x) == (2 * ns) * sums + (2 * ns) * x) by (nonlinear_arith);
        assert(upto * ss == (upto - 1) * ss + ss) by (nonlinear_arith);
    }
}

/// The spread is what its name says: the squared deviations of the samples
/// from their mean, added up, times the count. Stated free of division, with
/// `n` the count and `s` the sum: the sum of `(n * x - s)^2` over the samples
/// `x` is `n` times the spread.
pub proof fn lemma_spread_is_squared_deviations(samples: Seq<u32>)
    ensures
        scaled_squared_deviations(
            samples,
            samples.len() as int,
            sum_of(samples),
            samples.len() as int,
        ) == samples.len() * spread(samples),
{
    let n = samples.len() as int;
    let s = sum_of(samples);
    let q = sum_of_squares(samples);
    lemma_deviations_expand(samples, n, s, n);
    assert(samples.take(n) =~= samples);
    let nn = n * n;
    let ns = n * s;
    let ss = s * s;
    assert((2 * ns) * s == 2 * (n * ss)) by (nonlinear_arith)
        requires
            ns == n * s,
            ss == s * s,
    ;
    assert(n * (n * q - ss) == nn * q - n * ss) by (nonlinear_arith)
        requires
            nn == n * n,
    ;
}

/// Each update moves the mean and the sum of squared deviations as the
/// single-pass rule prescribes: with `n` samples of mean `m` and sum of
/// squared deviations `d` before, and mean `m'` and `d'` after taking `x`,
/// `m' = m + (x - m) / (n + 1)` and `d' = d + (x - m) * (x - m')`. The first
/// sample gives `m' = x` and `d' = 0`. The equations are stated free of
/// division, over `sum = n * m` and `spread = n * d`.
pub proof fn lemma_update_is_single_pass_rule(samples: Seq<u32>, x: u32)
    ensures
        ({
            let after = samples.push(x);
            let n = samples.len() as int;
            &&& after.len() == n + 1
            &&& sum_of(after) == sum_of(samples) + x
            &&& n == 0 ==> sum_of(after) == x && spread(after) == 0
            &&& n * sum_of(after) - (n + 1) * sum_of(samples) == n * x - sum_of(samples)
            &&& n * spread(after) - (n + 1) * spread(samples) == (n * x - sum_of(samples)) * ((n
                + 1) * x - sum_of(after))
        }),
{
    let after = samples.push(x);
    let n = samples.len() as int;
    assert(after.drop_last() =~= samples);
    lemma_spread_step(n, sum_of(samples), sum_of_squares(samples), x as int);
    assert(n * sum_of(after) - (n + 1) * sum_of(samples) == n * x - sum_of(samples))
        by (nonlinear_arith)
        requires
            sum_of(after) == sum_of(samples) + x,
    ;
    assert((n + 1) * x - sum_of(after) == n * x - sum_of(samples)) by (nonlinear_arith)
        requires
            sum_of(after) == sum_of(samples) + x,
    ;
    if n == 0 {
        assert(sum_of(samples) == 0 && sum_of_squares(samples) == 0);
        assert(spread(after) == 0) by (nonlinear_arith)
            requires
                spread(after) == 1 * (0 + x * x) - (0 + x) * (0 + x),
        ;
    }
}

/// Samples that are all alike have no spread: their variance and their
/// standard error are zero, whatever the count.
pub proof fn lemma_constant_samples_have_no_spread(samples: Seq<u32>, value: u32)
    requires
        forall|i: int| 0 <= i < samples.len() ==> samples[i] == value,
    ensures
        sum_of(samples) == samples.len() * value,
        sum_of_squares(samples) == samples.len() * (value * value),
        spread(samples) == 0,
        variance_of(samples).0 == 0,
        squared_standard_error_of(samples).0 == 0,
    decreases samples.len(),
{
    let n = samples.len() as int;
    let v = value as int;
    if samples.len() > 0 {
        lemma_constant_samples_have_no_spread(samples.drop_last(), value);
        assert(sum_of(samples) == n * v) by (nonlinear_arith)
            requires
                sum_of(samples) == (n - 1) * v + v,
        ;
        assert(sum_of_squares(samples) == n * (v * v)) by (nonlinear_arith)
            requires
                sum_of_squares(samples) == (n - 1) * (v * v) + v * v,
        ;
    }
    assert(spread(samples) == 0) by (nonlinear_arith)
        requires
            spread(samples) == n * (n * (v * v)) - (n * v) * (n * v),
    ;
}

/// The extremes bound every sample and are samples themselves.
pub proof fn lemma_extremes_bound_samples(samples: Seq<u32>)
    requires
        samples.len() > 0,
    ensures
        forall|i: int|
            0 <= i < samples.len() ==> min_of(samples) <= #[trigger] samples[i] <= max_of(samples),
        exists|i: int| 0 <= i < samples.len() && samples[i] == min_of(samples),
        exists|i: int| 0 <= i < samples.len() && samples[i] == max_of(samples),
    decreases samples.len(),
{
    let before = samples.drop_last();
    let last = samples.len() - 1;
    if samples.len() > 1 {
        lemma_extremes_bound_samples(before);
        let lo = choose|i: int| 0 <= i < before.len() && before[i] == min_of(before);
        let hi = choose|i: int| 0 <= i < before.len() && before[i] == max_of(before);
        assert(samples[lo] == before[lo] && samples[hi] == before[hi]);
        assert(samples[last] == samples.last());
        assert forall|i: int| 0 <= i < samples.len() implies min_of(samples)
            <= #[trigger] samples[i] <= max_of(samples) by {
            if i < last {
                assert(samples[i] == before[i]);
            }
        }
    } else {
        assert(samples[0] == samples.last());
    }
}

/// The sums of two runs of samples add up, and the extremes of the whole are
/// the extremes of the parts.
pub proof fn lemma_sums_of_parts(first: Seq<u32>, second: Seq<u32>)
    ensures
        sum_of(first + second) == sum_of(first) + sum_of(second),
        sum_of_squares(first + second) == sum_of_squares(first) + sum_of_squares(second),
        first.len() == 0 ==> min_of(first + second) == min_of(second) && max_of(first + second)
            == max_of(second),
        second.len() == 0 ==> min_of(first + second) == min_of(first) && max_of(first + second)
            == max_of(first),
        first.len() > 0 && second.len() > 0 ==> min_of(first + second) == (if min_of(first)
            <= min_of(second) {
            min_of(first)
        } else {
            min_of(second)
        }) && max_of(first + second) == (if max_of(first) >= max_of(second) {
            max_of(first)
        } else {
            max_of(second)
        }),
    decreases second.len(),
{
    if second.len() == 0 {
        assert(first + second =~= first);
    } else {
        assert((first + second).drop_last() =~= first + second.drop_last());
        lemma_sums_of_parts(first, second.drop_last());
        if first.len() == 0 {
            assert(first + second =~= second);
        }
    }
}

/// An aggregator of observations that is ready to report after every update.
pub struct RunningStats {
    count: u32,
    excluded: u32,
    sum: u64,
    sum_sq: u128,
    min: u32,
    max: u32,
    samples: Ghost<Seq<u32>>,
}

impl View for RunningStats {
    type V = Seq<u32>;

    /// The defined observations taken so far, in the order they came.
    closed spec fn view(&self) -> Seq<u32> {
        self.samples@
    }
}

impl RunningStats {
    /// The fields agree with the observations taken.
    pub closed spec fn wf(&self) -> bool {
        &&& self.count == self.samples@.len()
        &&& self.count + self.excluded <= u32::MAX
        &&& self.sum == sum_of(self.samples@)
        &&& self.sum_sq == sum_of_squares(self.samples@)
        &&& self.count > 0 ==> self.min == min_of(self.samples@) && self.max == max_of(
            self.samples@,
        )
    }

    /// How many undefined observations were left out.
    pub closed spec fn excluded_count(&self) -> nat {
        self.excluded as nat
    }

    /// An aggregator that has seen nothing yet.
    pub fn new() -> (stats: Self)
        ensures
            stats.wf(),
            stats@ == Seq::<u32>::empty(),
            stats.excluded_count() == 0,
    {
        RunningStats {
            count: 0,
            excluded: 0,
            sum: 0,
            sum_sq: 0,
            min: 0,
            max: 0,
            samples: Ghost(Seq::empty()),
        }
    }

    /// Takes one observation. A defined one joins the samples, an undefined
    /// one is counted as excluded. Nothing changes where the aggregator is
    /// full.
    pub fn update(&mut self, observation: Option<u32>) -> (outcome: Result<(), StatsError>)
        requires
            old(self).wf(),
        ensures
            final(self).wf(),
            outcome is Ok <==> old(self)@.len() + old(self).excluded_count() < u32::MAX,
            outcome is Err ==> final(self)@ == old(self)@,
            outcome is Err ==> final(self).excluded_count() == old(self).excluded_count(),
            outcome is Ok ==> match observation {
                Some(value) => {
                    &&& final(self)@ == old(self)@.push(value)
                    &&& final(self).excluded_count() == old(self).excluded_count()
                },
                None => {
                    &&& final(self)@ == old(self)@
                    &&& final(self).excluded_count() == old(self).excluded_count() + 1
                },
            },
    {
        if self.count as u64 + self.excluded as u64 >= u32::MAX as u64 {
            return Err(StatsError::Full);
        }
        match observation {
            None => {
                self.excluded = self.excluded + 1;
            },
            Some(value) => {
                let ghost before = self.samples@;
                let ghost after = before.push(value);
                proof {
                    assert(after.drop_last() =~= before);
                    lemma_sums_bounded(before);
                    lemma_sums_bounded(after);
                    let n = after.len() as int;
                    assert(n * 0xFFFF_FFFF <= 0xFFFF_FFFF * 0xFFFF_FFFF) by (nonlinear_arith)
                        requires
                            n <= 0xFFFF_FFFF,
                    ;
                    assert(n * 0xFFFF_FFFE_0000_0001 <= 0xFFFF_FFFF * 0xFFFF_FFFE_0000_0001)
                        by (nonlinear_arith)
                        requires
                            n <= 0xFFFF_FFFF,
                    ;
                    let x = value as int;
                    assert(0 <= x * x <= 0xFFFF_FFFE_0000_0001) by (nonlinear_arith)
                        requires
                            0 <= x <= 0xFFFF_FFFF,
                    ;
                }
                let square: u128 = (value as u128) * (value as u128);
                if self.count == 0 || value < self.min {
                    self.min = value;
                }
                if self.count == 0 || value > self.max {
                    self.max = value;
                }
                self.count = self.count + 1;
                self.sum = self.sum + value as u64;
                self.sum_sq = self.sum_sq + square;
                self.samples = Ghost(after);
            },
        }
        Ok(())
    }

    /// Takes the observations of another aggregator after its own, as if
    /// each had come by an update. Nothing changes where both together hold
    /// more observations than one aggregator can count.
    pub fn merge(&mut self, other: &RunningStats) -> (outcome: Result<(), StatsError>)
        requires
            old(self).wf(),
            other.wf(),
        ensures
            final(self).wf(),
            outcome is Ok <==> old(self)@.len() + old(self).excluded_count() + other@.len()
                + other.excluded_count() <= u32::MAX,
            outcome is Ok ==> final(self)@ == old(self)@ + other@,
            outcome is Ok ==> final(self).excluded_count() == old(self).excluded_count()
                + other.excluded_count(),
            outcome is Err ==> final(self)@ == old(self)@,
            outcome is Err ==> final(self).excluded_count() == old(self).excluded_count(),
    {
        let taken: u64 = self.count as u64 + self.excluded as u64 + other.count as u64
            + other.excluded as u64;
        if taken > u32::MAX as u64 {
            return Err(StatsError::Full);
        }
        let ghost whole = self.samples@ + other.samples@;
        proof {
            lemma_sums_of_parts(self.samples@, other.samples@);
            lemma_sums_bounded(whole);
            let n = whole.len() as int;
            assert(n * 0xFFFF_FFFF <= 0xFFFF_FFFF * 0xFFFF_FFFF) by (nonlinear_arith)
                requires
                    n <= 0xFFFF_FFFF,
            ;
            assert(n * 0xFFFF_FFFE_0000_0001 <= 0xFFFF_FFFF * 0xFFFF_FFFE_0000_0001)
                by (nonlinear_arith)
                requires
                    n <= 0xFFFF_FFFF,
            ;
        }
        if other.count > 0 {
            if self.count == 0 || other.min < self.min {
                self.min = other.min;
            }
            if self.count == 0 || other.max > self.max {
                self.max = other.max;
            }
        }
        self.count = self.count + other.count;
        self.excluded = self.excluded + other.excluded;
        self.sum = self.sum + other.sum;
        self.sum_sq = self.sum_sq + other.sum_sq;
        self.samples = Ghost(whole);
        Ok(())
    }

    /// How many defined observations were taken.
    pub fn count(&self) -> (count: u32)
        requires
            self.wf(),
        ensures
            count == self@.len(),
    {
        self.count
    }

    /// How many undefined observations were left out.
    pub fn excluded(&self) -> (excluded: u32)
        requires
            self.wf(),
        ensures
            excluded == self.excluded_count(),
    {
        self.excluded
    }

    /// The mean of the samples, where there is one.
    pub fn mean(&self) -> (mean: Option<Ratio>)
        requires
            self.wf(),
        ensures
            mean is Some <==> self@.len() >= 1,
            mean matches Some(m) ==> (m.numer as int, m.denom as int) == mean_of(self@),
    {
        if self.count == 0 {
            None
        } else {
            Some(Ratio { numer: self.sum as u128, denom: self.count as u128 })
        }
    }

    /// The count times the sum of squared deviations from the mean.
    fn spread(&self) -> (q: u128)
        requires
            self.wf(),
        ensures
            q == spread(self@),
    {
        proof {
            lemma_sums_bounded(self@);
            lemma_spread_nonnegative(self@);
            let n = self@.len() as int;
            let s = sum_of(self@);
            let q = sum_of_squares(self@);
            assert(n * q <= 0xFFFF_FFFF * (0xFFFF_FFFF * 0xFFFF_FFFE_0000_0001))
                by (nonlinear_arith)
                requires
                    0 <= n <= 0xFFFF_FFFF,
                    0 <= q <= n * 0xFFFF_FFFE_0000_0001,
            ;
            assert(0 <= s * s <= (0xFFFF_FFFF * 0xFFFF_FFFF) * (0xFFFF_FFFF * 0xFFFF_FFFF))
                by (nonlinear_arith)
                requires
                    0 <= n <= 0xFFFF_FFFF,
                    0 <= s <= n * 0xFFFF_FFFF,
            ;
        }
        let scaled: u128 = (self.count as u128) * self.sum_sq;
        let squared: u128 = (self.sum as u128) * (self.sum as u128);
        scaled - squared
    }

    /// The sample variance, where there are two samples.
    pub fn variance(&self) -> (variance: Option<Ratio>)
        requires
            self.wf(),
        ensures
            variance is Some <==> self@.len() >= 2,
            variance matches Some(v) ==> (v.numer as int, v.denom as int) == variance_of(self@),
            variance matches Some(v) ==> v.denom > 0,
    {
        if self.count < 2 {
            None
        } else {
            let n: u128 = self.count as u128;
            proof {
                assert(2 <= n * (n - 1) <= 0xFFFF_FFFF * 0xFFFF_FFFF) by (nonlinear_arith)
                    requires
                        2 <= n <= 0xFFFF_FFFF,
                ;
            }
            Some(Ratio { numer: self.spread(), denom: n * (n - 1) })
        }
    }

    /// The square of the standard error of the mean, the variance divided by
    /// the count, where there are two samples. A margin of error is a critical
    /// value times the root of this.
    pub fn squared_standard_error(&self) -> (error: Option<Ratio>)
        requires
            self.wf(),
        ensures
            error is Some <==> self@.len() >= 2,
            error matches Some(e) ==> (e.numer as int, e.denom as int) == squared_standard_error_of(
                self@,
            ) && e.denom > 0,
    {
        if self.count < 2 {
            None
        } else {
            let n: u128 = self.count as u128;
            proof {
                assert(4 <= n * n <= 0xFFFF_FFFF * 0xFFFF_FFFF) by (nonlinear_arith)
                    requires
                        2 <= n <= 0xFFFF_FFFF,
                ;
                assert(4 <= (n * n) * (n - 1) <= (0xFFFF_FFFF * 0xFFFF_FFFF) * 0xFFFF_FFFF)
                    by (nonlinear_arith)
                    requires
                        2 <= n <= 0xFFFF_FFFF,
                        4 <= n * n <= 0xFFFF_FFFF * 0xFFFF_FFFF,
                ;
            }
            Some(Ratio { numer: self.spread(), denom: n * n * (n - 1) })
        }
    }

    /// The least sample, where there is one.
    pub fn min(&self) -> (min: Option<u32>)
        requires
            self.wf(),
        ensures
            min is Some <==> self@.len() >= 1,
            min matches Some(m) ==> m == min_of(self@),
    {
        if self.count == 0 {
            None
        } else {
            Some(self.min)
        }
    }

    /// The greatest sample, where there is one.
    pub fn max(&self) -> (max: Option<u32>)
        requires
            self.wf(),
        ensures
            max is Some <==> self@.len() >= 1,
            max matches Some(m) ==> m == max_of(self@),
    {
        if self.count == 0 {
            None
        } else {
            Some(self.max)
        }
    }

    /// Everything the aggregator reports, at once.
    pub fn snapshot(&self) -> (report: Snapshot)
        requires
            self.wf(),
        ensures
            report.count == self@.len(),
            report.excluded == self.excluded_count(),
            report.mean is Some <==> self@.len() >= 1,
            report.mean matches Some(m) ==> (m.numer as int, m.denom as int) == mean_of(self@),
            report.variance is Some <==> self@.len() >= 2,
            report.variance matches Some(v) ==> (v.numer as int, v.denom as int) == variance_of(
                self@,
            ),
            report.min is Some <==> self@.len() >= 1,
            report.min matches Some(m) ==> m == min_of(self@),
            report.max is Some <==> self@.len() >= 1,
            report.max matches Some(m) ==> m == max_of(self@),
    {
        Snapshot {
            count: self.count(),
            excluded: self.excluded(),
            mean: self.mean(),
            variance: self.variance(),
            min: self.min(),
            max: self.max(),
        }
    }
}

} // verus!
