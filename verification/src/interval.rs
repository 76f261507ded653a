//! Closed intervals of time coordinates.

use vstd::prelude::*;
use crate::coordinate::TimeCoordinate;

verus! {

/// The closed range from `self.0` to `self.1`, both ends included.
#[derive(Clone, Copy, Debug, Eq, Ord, PartialEq, PartialOrd)]
pub struct Interval<T>(pub T, pub T);

impl<T: TimeCoordinate> Interval<T> {
    /// Position of the lower end.
    pub open spec fn lo(self) -> int {
        self.0.position()
    }

    /// Position of the upper end.
    pub open spec fn hi(self) -> int {
        self.1.position()
    }

    /// The lower end does not lie after the upper end.
    pub open spec fn is_valid(self) -> bool {
        self.lo() <= self.hi()
    }

    /// The position `p` lies within the interval.
    pub open spec fn has_point(self, p: int) -> bool {
        self.lo() <= p <= self.hi()
    }

    /// Both ends of `other` lie within `self`.
    pub open spec fn covers(self, other: Interval<T>) -> bool {
        self.has_point(other.lo()) && self.has_point(other.hi())
    }

    /// At least one end of `other` lies within `self`.
    pub open spec fn reaches(self, other: Interval<T>) -> bool {
        self.has_point(other.lo()) || self.has_point(other.hi())
    }

    /// An end of one of the two intervals lies within the other.
    pub open spec fn meets(self, other: Interval<T>) -> bool {
        self.reaches(other) || other.reaches(self)
    }

    /// Whether `time` lies within the interval, ends included.
    pub fn contains(&self, time: &T) -> (r: bool)
        ensures
            r == self.has_point(time.position()),
    {
        !time.before(&self.0) && !self.1.before(time)
    }

    /// Whether both ends of `interval` lie within `self`.
    pub fn contains_interval(&self, interval: &Interval<T>) -> (r: bool)
        ensures
            r == self.covers(*interval),
    {
        self.contains(&interval.0) && self.contains(&interval.1)
    }

    /// Whether at least one end of `interval` lies within `self`.
    ///
    /// This is one-sided: an interval that lies strictly inside `interval`
    /// does not intersect it in this sense, though `interval` intersects
    /// it. See [`Interval::touches`] for the symmetric relation.
    pub fn intersects(&self, interval: &Interval<T>) -> (r: bool)
        ensures
            r == self.reaches(*interval),
    {
        self.contains(&interval.0) || self.contains(&interval.1)
    }

    /// Whether an end of either interval lies within the other.
    pub fn touches(&self, interval: &Interval<T>) -> (r: bool)
        ensures
            r == self.meets(*interval),
    {
        self.intersects(interval) || interval.intersects(self)
    }
}

/// Two valid intervals meet exactly when neither ends before the other
/// begins; so it does not matter which of the two is asked.
pub proof fn law_meeting_is_mutual<T: TimeCoordinate>(a: Interval<T>, b: Interval<T>)
    requires
        a.is_valid(),
        b.is_valid(),
    ensures
        a.meets(b) <==> (a.lo() <= b.hi() && b.lo() <= a.hi()),
        a.meets(b) == b.meets(a),
{
}

} // verus!
