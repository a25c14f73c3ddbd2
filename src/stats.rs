//! Running minimum, maximum, sum and count of the readings of one key.

use vstd::prelude::*;

verus! {

/// The most readings that a `Stats` may hold, so that its sum of tenths
/// (at most 999 per reading) fits in an `i64`.
pub const MAX_COUNT: u64 = 9_000_000_000_000_000;

/// What a `Stats` stands for: readings in tenths, as mathematical integers.
pub ghost struct Summary {
    pub min: int,
    pub max: int,
    pub sum: int,
    pub count: int,
}

/// The summary of a single reading.
pub open spec fn single(v: int) -> Summary {
    Summary { min: v, max: v, sum: v, count: 1 }
}

pub open spec fn min_int(a: int, b: int) -> int {
    if a <= b {
        a
    } else {
        b
    }
}

pub open spec fn max_int(a: int, b: int) -> int {
    if a >= b {
        a
    } else {
        b
    }
}

/// Folds two summaries into one.
pub open spec fn combine(a: Summary, b: Summary) -> Summary {
    Summary {
        min: min_int(a.min, b.min),
        max: max_int(a.max, b.max),
        sum: a.sum + b.sum,
        count: a.count + b.count,
    }
}

/// A summary of at least one reading, each within the range of a reading.
pub open spec fn summary_wf(s: Summary) -> bool {
    &&& 1 <= s.count
    &&& -999 <= s.min <= s.max <= 999
    &&& s.min * s.count <= s.sum <= s.max * s.count
}

/// Combining summaries gives the same result in either order.
pub proof fn lemma_combine_commutative(a: Summary, b: Summary)
    ensures
        combine(a, b) == combine(b, a),
{
}

/// Combining summaries gives the same result in any grouping.
pub proof fn lemma_combine_associative(a: Summary, b: Summary, c: Summary)
    ensures
        combine(combine(a, b), c) == combine(a, combine(b, c)),
{
}

/// Combining two well-formed summaries gives a well-formed summary.
pub proof fn lemma_combine_wf(a: Summary, b: Summary)
    requires
        summary_wf(a),
        summary_wf(b),
    ensures
        summary_wf(combine(a, b)),
{
    let c = combine(a, b);
    assert(c.min * a.count <= a.min * a.count) by (nonlinear_arith)
        requires c.min <= a.min, a.count >= 1;
    assert(c.min * b.count <= b.min * b.count) by (nonlinear_arith)
        requires c.min <= b.min, b.count >= 1;
    assert(a.max * a.count <= c.max * a.count) by (nonlinear_arith)
        requires c.max >= a.max, a.count >= 1;
    assert(b.max * b.count <= c.max * b.count) by (nonlinear_arith)
        requires c.max >= b.max, b.count >= 1;
    assert(c.min * c.count == c.min * a.count + c.min * b.count) by (nonlinear_arith)
        requires c.count == a.count + b.count;
    assert(c.max * c.count == c.max * a.count + c.max * b.count) by (nonlinear_arith)
        requires c.count == a.count + b.count;
}

/// Statistics of the readings seen for one key, in tenths.
#[derive(Clone, Copy)]
pub struct Stats {
    pub min: i32,
    pub max: i32,
    pub sum: i64,
    pub count: u64,
}

impl View for Stats {
    type V = Summary;

    open spec fn view(&self) -> Summary {
        Summary { min: self.min as int, max: self.max as int, sum: self.sum as int, count: self.count as int }
    }
}

impl Default for Stats {
    /// The empty statistics: the identity of `merge`.
    fn default() -> (r: Self)
        ensures
            r.min == i32::MAX,
            r.max == i32::MIN,
            r.sum == 0,
            r.count == 0,
    {
        Stats { min: i32::MAX, max: i32::MIN, sum: 0, count: 0 }
    }
}

impl Stats {
    /// Well-formed statistics of at most `MAX_COUNT` readings.
    pub open spec fn wf(&self) -> bool {
        summary_wf(self@) && self.count <= MAX_COUNT
    }

    /// The statistics of one reading.
    pub fn singleton(value: i32) -> (r: Self)
        ensures
            r@ == single(value as int),
    {
        Stats { min: value, max: value, sum: value as i64, count: 1 }
    }

    /// Folds the statistics `other` into `self`.
    pub fn merge(&mut self, other: Self)
        requires
            old(self).wf(),
            other.wf(),
            old(self).count + other.count <= MAX_COUNT,
        ensures
            final(self)@ == combine(old(self)@, other@),
            final(self).wf(),
    {
        proof {
            lemma_combine_wf(self@, other@);
            let c = combine(self@, other@);
            assert(-999 * c.count <= c.sum <= 999 * c.count) by (nonlinear_arith)
                requires
                    c.min * c.count <= c.sum <= c.max * c.count,
                    -999 <= c.min,
                    c.max <= 999,
                    c.count >= 1,
            ;
        }
        self.min = if self.min <= other.min {
            self.min
        } else {
            other.min
        };
        self.max = if self.max >= other.max {
            self.max
        } else {
            other.max
        };
        self.sum = self.sum + other.sum;
        self.count = self.count + other.count;
    }

    /// Adds one reading to `self`.
    pub fn update(&mut self, value: i32)
        requires
            old(self).wf(),
            -999 <= value <= 999,
            old(self).count < MAX_COUNT,
        ensures
            final(self)@ == combine(old(self)@, single(value as int)),
            final(self).wf(),
    {
        self.merge(Self::singleton(value))
    }
}

} // verus!
