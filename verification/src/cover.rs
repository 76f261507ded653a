//! The mathematics of interval sets: what a sorted sequence of intervals
//! covers, how it grows when an interval is added, and what it leaves
//! uncovered inside a requested window.

use vstd::prelude::*;
use crate::coordinate::TimeCoordinate;
use crate::interval::Interval;

verus! {

/// Every member is valid, and each member ends no later than the next one
/// begins. Members may share an endpoint, but no member occurs twice.
pub open spec fn ascending<T: TimeCoordinate>(s: Seq<Interval<T>>) -> bool {
    &&& forall|i: int| 0 <= i < s.len() ==> (#[trigger] s[i]).is_valid()
    &&& forall|i: int, j: int|
        0 <= i < j < s.len() ==> (#[trigger] s[i]).hi() <= (#[trigger] s[j]).lo() && s[i].lo()
            < s[j].hi()
}

/// Ascending, and no two members overlap or share an endpoint.
pub open spec fn separated<T: TimeCoordinate>(s: Seq<Interval<T>>) -> bool {
    &&& ascending(s)
    &&& forall|i: int, j: int|
        0 <= i < j < s.len() ==> (#[trigger] s[i]).hi() < (#[trigger] s[j]).lo()
}

/// Some member holds the position `p`.
pub open spec fn covers_point<T: TimeCoordinate>(s: Seq<Interval<T>>, p: int) -> bool {
    exists|i: int| 0 <= i < s.len() && (#[trigger] s[i]).has_point(p)
}

/// Some member holds the half position `q`.
///
/// Half positions count in halves of a step: the even number `2 * p` is
/// the position `p`, and the odd number `2 * p + 1` is the open stretch
/// between the positions `p` and `p + 1`.
pub open spec fn covers_half<T: TimeCoordinate>(s: Seq<Interval<T>>, q: int) -> bool {
    exists|i: int| 0 <= i < s.len() && (#[trigger] s[i]).has_half(q)
}

/// Some single member holds both ends of `interval`.
pub open spec fn covers_interval<T: TimeCoordinate>(
    s: Seq<Interval<T>>,
    interval: Interval<T>,
) -> bool {
    exists|i: int| 0 <= i < s.len() && (#[trigger] s[i]).covers(interval)
}

/// The intervals that end before `interval` begins.
pub open spec fn ends_before<T: TimeCoordinate>(interval: Interval<T>) -> spec_fn(
    Interval<T>,
) -> bool {
    |e: Interval<T>| e.hi() < interval.lo()
}

/// The intervals that begin after `interval` ends.
pub open spec fn begins_after<T: TimeCoordinate>(interval: Interval<T>) -> spec_fn(
    Interval<T>,
) -> bool {
    |e: Interval<T>| e.lo() > interval.hi()
}

/// The intervals that hold the lower or the upper end of `interval`.
pub open spec fn reaching<T: TimeCoordinate>(interval: Interval<T>) -> spec_fn(
    Interval<T>,
) -> bool {
    |e: Interval<T>| e.reaches(interval)
}

/// The intervals that meet `interval`.
pub open spec fn meeting<T: TimeCoordinate>(interval: Interval<T>) -> spec_fn(
    Interval<T>,
) -> bool {
    |e: Interval<T>| e.meets(interval)
}

impl<T: TimeCoordinate> Interval<T> {
    /// The half position `q` lies within the interval: a position of the
    /// interval, or the stretch between two of them.
    pub open spec fn has_half(self, q: int) -> bool {
        2 * self.lo() <= q <= 2 * self.hi()
    }

    /// The smallest interval that holds both `self` and `e`.
    pub open spec fn widened_by(self, e: Interval<T>) -> Interval<T> {
        Interval(
            if e.lo() < self.lo() {
                e.0
            } else {
                self.0
            },
            if self.hi() < e.hi() {
                e.1
            } else {
                self.1
            },
        )
    }
}

/// The smallest interval that holds `interval` and every member of `t`.
pub open spec fn hull<T: TimeCoordinate>(t: Seq<Interval<T>>, interval: Interval<T>) -> Interval<
    T,
>
    decreases t.len(),
{
    if t.len() == 0 {
        interval
    } else {
        hull(t.drop_last(), interval).widened_by(t.last())
    }
}

/// The set after `interval` has been added: unchanged where a member already
/// holds the interval; otherwise the members that end before it, then the
/// hull of the interval and every member meeting it, then the members that
/// begin after it.
pub open spec fn with_interval<T: TimeCoordinate>(
    s: Seq<Interval<T>>,
    interval: Interval<T>,
) -> Seq<Interval<T>> {
    if covers_interval(s, interval) {
        s
    } else {
        s.filter(ends_before(interval)) + seq![hull(s.filter(meeting(interval)), interval)]
            + s.filter(begins_after(interval))
    }
}

/// The set after every interval of `added` has been added in turn.
pub open spec fn with_intervals<T: TimeCoordinate>(
    s: Seq<Interval<T>>,
    added: Seq<Interval<T>>,
) -> Seq<Interval<T>>
    decreases added.len(),
{
    if added.len() == 0 {
        s
    } else {
        with_interval(with_intervals(s, added.drop_last()), added.last())
    }
}

/// What is left of the window once the walk has reached the end of the
/// members: the stretch from the cursor to the end of the window, if any.
pub open spec fn final_gap<T: TimeCoordinate>(cursor: T, window: Interval<T>) -> Seq<Interval<T>> {
    if cursor.position() < window.hi() {
        seq![Interval(cursor, window.1)]
    } else {
        Seq::empty()
    }
}

/// The uncovered stretches of `window` found by walking the members `s` in
/// order with a cursor that starts at `cursor`.
///
/// A member that ends before the window begins is passed over. A member that
/// holds the cursor moves the cursor to its upper end. A member that begins
/// after the cursor, within the window, yields the stretch from the cursor to
/// its lower end and moves the cursor to its upper end. A member that begins
/// after the window ends stops the walk. When the walk is over, whatever lies
/// between the cursor and the end of the window is the last stretch.
pub open spec fn gaps_from<T: TimeCoordinate>(
    s: Seq<Interval<T>>,
    cursor: T,
    window: Interval<T>,
) -> Seq<Interval<T>>
    decreases s.len(),
{
    if s.len() == 0 {
        final_gap(cursor, window)
    } else {
        let e = s.first();
        let rest = s.drop_first();
        if e.hi() < window.lo() {
            gaps_from(rest, cursor, window)
        } else if e.has_point(cursor.position()) {
            gaps_from(rest, e.1, window)
        } else if cursor.position() < e.lo() <= window.hi() {
            seq![Interval(cursor, e.0)] + gaps_from(rest, e.1, window)
        } else if e.lo() > window.hi() {
            final_gap(cursor, window)
        } else {
            gaps_from(rest, cursor, window)
        }
    }
}

/// The sub-ranges of `window` that the members of `s` leave uncovered.
pub open spec fn gaps<T: TimeCoordinate>(s: Seq<Interval<T>>, window: Interval<T>) -> Seq<
    Interval<T>,
> {
    gaps_from(s, window.0, window)
}

} // verus!
