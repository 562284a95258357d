//! The running aggregate of one station's readings.
use vstd::prelude::*;

verus! {

/// Minimum, maximum, sum and count of a station's readings, in tenths.
pub struct Summary {
    pub min: int,
    pub max: int,
    pub sum: int,
    pub count: int,
}

/// The aggregate of a single reading.
pub open spec fn single(v: int) -> Summary {
    Summary { min: v, max: v, sum: v, count: 1 }
}

/// The aggregate of the readings of two aggregates taken together.
pub open spec fn combine(a: Summary, b: Summary) -> Summary {
    Summary {
        min: if a.min <= b.min { a.min } else { b.min },
        max: if a.max >= b.max { a.max } else { b.max },
        sum: a.sum + b.sum,
        count: a.count + b.count,
    }
}

/// What holds of any aggregate of readings within -99.9 ..= 99.9.
pub open spec fn summary_ok(s: Summary) -> bool {
    &&& 1 <= s.count
    &&& -999 <= s.min <= s.max <= 999
    &&& -999 * s.count <= s.sum <= 999 * s.count
}

/// Combining aggregates does not depend on their order.
pub proof fn lemma_combine_commutative(a: Summary, b: Summary)
    ensures
        combine(a, b) == combine(b, a),
{
}

/// Combining aggregates does not depend on their grouping.
pub proof fn lemma_combine_associative(a: Summary, b: Summary, c: Summary)
    ensures
        combine(combine(a, b), c) == combine(a, combine(b, c)),
{
}

pub proof fn lemma_combine_ok(a: Summary, b: Summary)
    requires
        summary_ok(a),
        summary_ok(b),
    ensures
        summary_ok(combine(a, b)),
{
}

#[derive(Clone, Copy)]
pub struct CityStats {
    pub sum: i128,
    pub count: u64,
    pub min: i16,
    pub max: i16,
}

impl View for CityStats {
    type V = Summary;

    open spec fn view(&self) -> Summary {
        Summary { min: self.min as int, max: self.max as int, sum: self.sum as int, count: self.count as int }
    }
}

impl CityStats {
    /// The aggregate of a first reading.
    pub fn from_temp(temp: i16) -> (r: Self)
        ensures
            r@ == single(temp as int),
    {
        CityStats { min: temp, max: temp, sum: temp as i128, count: 1 }
    }

    /// Folds one more reading into the aggregate.
    pub fn add_temp(&mut self, temp: i16)
        requires
            summary_ok(old(self)@),
            -999 <= temp <= 999,
            old(self).count < u64::MAX,
        ensures
            final(self)@ == combine(old(self)@, single(temp as int)),
            summary_ok(final(self)@),
    {
        if temp < self.min {
            self.min = temp;
        } else if temp > self.max {
            self.max = temp;
        }
        self.sum = self.sum + temp as i128;
        self.count = self.count + 1;
    }

    /// Folds the readings of another aggregate of the same station into this one.
    pub fn merge(&mut self, other: &CityStats)
        requires
            summary_ok(old(self)@),
            summary_ok(other@),
            old(self).count + other.count <= u64::MAX,
        ensures
            final(self)@ == combine(old(self)@, other@),
            summary_ok(final(self)@),
    {
        if other.min < self.min {
            self.min = other.min;
        }
        if other.max > self.max {
            self.max = other.max;
        }
        self.sum = self.sum + other.sum;
        self.count = self.count + other.count;
    }
}

} // verus!
