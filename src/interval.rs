use vstd::prelude::*;

verus! {

/// A closed interval `[min, max]` of fixed-point values. It is empty when `min > max`.
#[derive(Clone, Copy, Debug, PartialEq, Eq, Structural)]
pub struct Interval {
    pub min: i64,
    pub max: i64,
}

impl Interval {
    /// `t` lies in the closed interval.
    pub open spec fn contains_spec(self, t: int) -> bool {
        self.min <= t && t <= self.max
    }

    /// `t` lies strictly inside the interval.
    pub open spec fn surrounds_spec(self, t: int) -> bool {
        self.min < t && t < self.max
    }

    /// `self` contains every value of `other`, where `other` is not empty.
    pub open spec fn encloses(self, other: Interval) -> bool {
        other.min <= other.max ==> (self.min <= other.min && other.max <= self.max)
    }

    pub open spec fn hull_spec(a: Interval, b: Interval) -> Interval {
        Interval {
            min: if a.min <= b.min { a.min } else { b.min },
            max: if a.max >= b.max { a.max } else { b.max },
        }
    }

    pub fn new(min: i64, max: i64) -> (r: Interval)
        ensures
            r.min == min,
            r.max == max,
    {
        Interval { min, max }
    }

    /// The interval that holds nothing: the identity of `from_interval_pair`.
    pub fn empty() -> (r: Interval)
        ensures
            r.min == i64::MAX,
            r.max == i64::MIN,
            forall|t: int| !r.contains_spec(t),
    {
        Interval { min: i64::MAX, max: i64::MIN }
    }

    /// The interval that holds every representable value.
    pub fn universe() -> (r: Interval)
        ensures
            r.min == i64::MIN,
            r.max == i64::MAX,
            forall|t: int| i64::MIN <= t <= i64::MAX ==> r.contains_spec(t),
    {
        Interval { min: i64::MIN, max: i64::MAX }
    }

    /// The smallest interval that holds both `a` and `b`.
    pub fn from_interval_pair(a: Interval, b: Interval) -> (r: Interval)
        ensures
            r == Interval::hull_spec(a, b),
            r.encloses(a),
            r.encloses(b),
    {
        Interval {
            min: if a.min <= b.min { a.min } else { b.min },
            max: if a.max >= b.max { a.max } else { b.max },
        }
    }

    /// The extent `max - min`; negative for an empty interval.
    pub fn size(&self) -> (r: i128)
        ensures
            r == self.max - self.min,
    {
        self.max as i128 - self.min as i128
    }

    pub fn contains(&self, t: i64) -> (r: bool)
        ensures
            r == self.contains_spec(t as int),
    {
        self.min <= t && t <= self.max
    }

    pub fn surrounds(&self, t: i64) -> (r: bool)
        ensures
            r == self.surrounds_spec(t as int),
    {
        self.min < t && t < self.max
    }

    /// The value of the interval nearest to `t`.
    pub fn clamp(&self, t: i64) -> (r: i64)
        requires
            self.min <= self.max,
        ensures
            t < self.min ==> r == self.min,
            t > self.max ==> r == self.max,
            self.contains_spec(t as int) ==> r == t,
    {
        if t < self.min {
            self.min
        } else if t > self.max {
            self.max
        } else {
            t
        }
    }

    /// The interval widened by `delta / 2` (rounded down) on each side.
    pub fn expand(&self, delta: i64) -> (r: Interval)
        requires
            delta >= 0,
            self.min - delta / 2 >= i64::MIN,
            self.max + delta / 2 <= i64::MAX,
        ensures
            r.min == self.min - delta / 2,
            r.max == self.max + delta / 2,
    {
        let padding = delta / 2;
        Interval { min: self.min - padding, max: self.max + padding }
    }
}

} // verus!
