//! Per-key running statistics: minimum, maximum, exact sum and count of the
//! readings seen so far, with readings held as fixed-point tenths.

use vstd::prelude::*;

verus! {

/// Largest magnitude, in tenths, that a single reading may have.
/// Chosen so that a sum of up to `u64::MAX` readings still fits in `i128`.
pub const VALUE_LIMIT: i64 = 999_999_999_999_999;

/// Mathematical content of a running statistic: exact, unbounded integers.
pub ghost struct StatsModel {
    pub min: int,
    pub max: int,
    pub sum: int,
    pub count: nat,
}

/// The statistic of a single observation.
pub open spec fn stats_one(v: int) -> StatsModel {
    StatsModel { min: v, max: v, sum: v, count: 1 }
}

/// The statistic after one further observation.
pub open spec fn stats_add(s: StatsModel, v: int) -> StatsModel {
    StatsModel {
        min: vstd::math::min(s.min, v),
        max: vstd::math::max(s.max, v),
        sum: s.sum + v,
        count: s.count + 1,
    }
}

/// The combined statistic of two disjoint groups of observations.
pub open spec fn stats_merge(a: StatsModel, b: StatsModel) -> StatsModel {
    StatsModel {
        min: vstd::math::min(a.min, b.min),
        max: vstd::math::max(a.max, b.max),
        sum: a.sum + b.sum,
        count: a.count + b.count,
    }
}

/// A statistic that can arise from a nonempty sequence of bounded readings.
/// The last conjunct is the mean bound `min <= sum / count <= max` cleared
/// of division.
pub open spec fn stats_wf(s: StatsModel) -> bool {
    &&& 1 <= s.count
    &&& -(VALUE_LIMIT as int) <= s.min <= s.max <= VALUE_LIMIT as int
    &&& (s.count as int) * s.min <= s.sum <= (s.count as int) * s.max
}

proof fn lemma_mul_mono(c: int, a: int, b: int)
    requires
        0 <= c,
        a <= b,
    ensures
        c * a <= c * b,
{
    assert(c * a <= c * b) by (nonlinear_arith)
        requires
            0 <= c,
            a <= b,
    ;
}

/// Bound on the sum of a well-formed statistic, used to rule out overflow.
proof fn lemma_sum_bound(s: StatsModel)
    requires
        stats_wf(s),
    ensures
        -((s.count as int) * (VALUE_LIMIT as int)) <= s.sum <= (s.count as int) * (VALUE_LIMIT as int),
{
    lemma_mul_mono(s.count as int, s.min, VALUE_LIMIT as int);
    lemma_mul_mono(s.count as int, -(VALUE_LIMIT as int), s.min);
    lemma_mul_mono(s.count as int, s.max, VALUE_LIMIT as int);
    assert((s.count as int) * (-(VALUE_LIMIT as int)) == -((s.count as int) * (VALUE_LIMIT as int)))
        by (nonlinear_arith);
}

/// The mean `sum / count` rounded to the nearest integer number of tenths,
/// ties away from zero.
pub open spec fn avg_tenths(sum: int, count: int) -> int
    recommends
        count >= 1,
{
    if sum >= 0 {
        (2 * sum + count) / (2 * count)
    } else {
        -((2 * (-sum) + count) / (2 * count))
    }
}

/// The rounded mean of a well-formed statistic lies between the extremes.
pub proof fn lemma_avg_between(s: StatsModel)
    requires
        stats_wf(s),
    ensures
        s.min <= avg_tenths(s.sum, s.count as int) <= s.max,
{
    let c = s.count as int;
    if s.sum >= 0 {
        assert(2 * ((c * s.min)) == (2 * c) * s.min && 2 * ((c * s.max)) == (2 * c) * s.max)
            by (nonlinear_arith);
        vstd::arithmetic::div_mod::lemma_div_is_ordered(
            (2 * c) * s.min + c,
            2 * s.sum + c,
            2 * c,
        );
        vstd::arithmetic::div_mod::lemma_div_is_ordered(
            2 * s.sum + c,
            (2 * c) * s.max + c,
            2 * c,
        );
        vstd::arithmetic::div_mod::lemma_div_multiples_vanish_fancy(s.min, c, 2 * c);
        vstd::arithmetic::div_mod::lemma_div_multiples_vanish_fancy(s.max, c, 2 * c);
    } else {
        let m = -s.sum;
        assert(2 * ((c * s.min)) == (2 * c) * s.min && 2 * ((c * s.max)) == (2 * c) * s.max)
            by (nonlinear_arith);
        assert((2 * c) * (-s.max) == -((2 * c) * s.max) && (2 * c) * (-s.min) == -((2 * c) * s.min))
            by (nonlinear_arith);
        vstd::arithmetic::div_mod::lemma_div_is_ordered(
            (2 * c) * (-s.max) + c,
            2 * m + c,
            2 * c,
        );
        vstd::arithmetic::div_mod::lemma_div_is_ordered(
            2 * m + c,
            (2 * c) * (-s.min) + c,
            2 * c,
        );
        vstd::arithmetic::div_mod::lemma_div_multiples_vanish_fancy(-s.max, c, 2 * c);
        vstd::arithmetic::div_mod::lemma_div_multiples_vanish_fancy(-s.min, c, 2 * c);
    }
}

/// Running statistics for one key.  `sum` is held exactly rather than an
/// incrementally rounded mean: with readings bounded by `VALUE_LIMIT` the
/// sum provably fits in `i128`, each update stays O(1), and the average
/// `sum / count` is the exact arithmetic mean of the readings.
#[derive(Clone, Copy, PartialEq, Eq, Structural, Debug)]
pub struct Stats {
    pub min: i64,
    pub max: i64,
    pub sum: i128,
    pub count: u64,
}

impl View for Stats {
    type V = StatsModel;

    open spec fn view(&self) -> StatsModel {
        StatsModel {
            min: self.min as int,
            max: self.max as int,
            sum: self.sum as int,
            count: self.count as nat,
        }
    }
}

impl Stats {
    /// The statistic is reachable from a nonempty run of bounded readings.
    pub open spec fn wf(&self) -> bool {
        stats_wf(self@)
    }

    /// The statistic recording exactly one reading.
    pub fn new(v: i64) -> (s: Stats)
        requires
            -VALUE_LIMIT <= v <= VALUE_LIMIT,
        ensures
            s@ == stats_one(v as int),
            s.wf(),
    {
        Stats { min: v, max: v, sum: v as i128, count: 1 }
    }

    /// Record one further reading: update the extremes, add to the exact
    /// sum, and increment the count last.
    pub fn observe(&mut self, v: i64)
        requires
            old(self).wf(),
            -VALUE_LIMIT <= v <= VALUE_LIMIT,
            old(self).count < u64::MAX,
        ensures
            final(self)@ == stats_add(old(self)@, v as int),
            final(self).wf(),
    {
        proof {
            lemma_sum_bound(self@);
            assert((self@.count as int) * (VALUE_LIMIT as int) <= 0xffff_ffff_ffff_ffff * (VALUE_LIMIT as int))
                by (nonlinear_arith)
                requires
                    self@.count <= 0xffff_ffff_ffff_ffff,
            ;
        }
        if v < self.min {
            self.min = v;
        }
        if v > self.max {
            self.max = v;
        }
        self.sum = self.sum + (v as i128);
        self.count = self.count + 1;
        proof {
            let o = old(self)@;
            let n = self@;
            lemma_mul_mono(o.count as int, n.min, o.min);
            lemma_mul_mono(o.count as int, o.max, n.max);
            assert((o.count as int) * n.min + n.min == (n.count as int) * n.min) by (nonlinear_arith)
                requires
                    n.count == o.count + 1,
            ;
            assert((o.count as int) * n.max + n.max == (n.count as int) * n.max) by (nonlinear_arith)
                requires
                    n.count == o.count + 1,
            ;
        }
    }

    /// Fold another key's worth of statistics into this one: extremes by
    /// comparison, exact sums and counts by addition.
    pub fn merge_with(&mut self, other: &Stats)
        requires
            old(self).wf(),
            other.wf(),
            old(self).count + other.count <= u64::MAX,
        ensures
            final(self)@ == stats_merge(old(self)@, other@),
            final(self).wf(),
    {
        proof {
            lemma_sum_bound(self@);
            lemma_sum_bound(other@);
            assert((self@.count as int) * (VALUE_LIMIT as int) + (other@.count as int) * (VALUE_LIMIT as int)
                <= 0xffff_ffff_ffff_ffff * (VALUE_LIMIT as int)) by (nonlinear_arith)
                requires
                    self@.count + other@.count <= 0xffff_ffff_ffff_ffff,
            ;
        }
        if other.min < self.min {
            self.min = other.min;
        }
        if other.max > self.max {
            self.max = other.max;
        }
        self.sum = self.sum + other.sum;
        self.count = self.count + other.count;
        proof {
            let a = old(self)@;
            let b = other@;
            let n = self@;
            lemma_mul_mono(a.count as int, n.min, a.min);
            lemma_mul_mono(b.count as int, n.min, b.min);
            lemma_mul_mono(a.count as int, a.max, n.max);
            lemma_mul_mono(b.count as int, b.max, n.max);
            assert((a.count as int) * n.min + (b.count as int) * n.min == (n.count as int) * n.min)
                by (nonlinear_arith)
                requires
                    n.count == a.count + b.count,
            ;
            assert((a.count as int) * n.max + (b.count as int) * n.max == (n.count as int) * n.max)
                by (nonlinear_arith)
                requires
                    n.count == a.count + b.count,
            ;
        }
    }
}

impl Stats {
    /// The mean in tenths, rounded to the nearest tenth, ties away from
    /// zero.  It always lies between the recorded extremes.
    pub fn avg(&self) -> (a: i64)
        requires
            self.wf(),
        ensures
            a as int == avg_tenths(self@.sum, self@.count as int),
            self@.min <= a as int <= self@.max,
    {
        proof {
            lemma_sum_bound(self@);
            lemma_avg_between(self@);
            assert((self@.count as int) * (VALUE_LIMIT as int) <= 0xffff_ffff_ffff_ffff * (VALUE_LIMIT as int))
                by (nonlinear_arith)
                requires
                    self@.count <= 0xffff_ffff_ffff_ffff,
            ;
        }
        let c2: u128 = 2 * (self.count as u128);
        if self.sum >= 0 {
            let q: u128 = (2 * (self.sum as u128) + (self.count as u128)) / c2;
            q as i64
        } else {
            let m: u128 = (-self.sum) as u128;
            let q: u128 = (2 * m + (self.count as u128)) / c2;
            -(q as i64)
        }
    }
}

/// Combining statistics is commutative, exactly.
pub proof fn lemma_stats_merge_comm(a: StatsModel, b: StatsModel)
    ensures
        stats_merge(a, b) == stats_merge(b, a),
{
}

/// Combining statistics is associative, exactly.
pub proof fn lemma_stats_merge_assoc(a: StatsModel, b: StatsModel, c: StatsModel)
    ensures
        stats_merge(stats_merge(a, b), c) == stats_merge(a, stats_merge(b, c)),
{
}

/// Merging in a single observation is the same as recording it directly.
pub proof fn lemma_stats_merge_one(a: StatsModel, v: int)
    ensures
        stats_merge(a, stats_one(v)) == stats_add(a, v),
{
}

/// For every reachable statistic the mean lies between the extremes:
/// `count * min <= sum <= count * max`, i.e. `min <= sum / count <= max`.
pub proof fn lemma_mean_between_extremes(s: StatsModel)
    requires
        stats_wf(s),
    ensures
        (s.count as int) * s.min <= s.sum <= (s.count as int) * s.max,
{
}

} // verus!
