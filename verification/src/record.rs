//! The mathematics of an interval store: values ordered by their time, what
//! it means for a batch of new values to agree with the stored ones, and how
//! a batch is taken in.

use vstd::prelude::*;
use crate::coordinate::TimeCoordinate;
use crate::cover::{covers_point, separated, with_interval};
use crate::interval::Interval;

verus! {

/// A value that carries the time by which it is ordered and identified: two
/// values with the same time are taken to be the same value.
pub trait UniquelyIdentifiedTimeValue<T: TimeCoordinate>: Clone {
    /// The time the value carries.
    spec fn time_spec(&self) -> T;

    /// A clone of a value carries the time of the value.
    proof fn clone_keeps_time(a: Self, b: Self)
        requires
            cloned::<Self>(a, b),
        ensures
            a.time_spec() == b.time_spec(),
    ;

    /// The time the value carries.
    fn time(&self) -> (t: T)
        ensures
            t == self.time_spec(),
    ;
}

/// A 64-bit number is a value that carries itself as its time.
impl UniquelyIdentifiedTimeValue<u64> for u64 {
    open spec fn time_spec(&self) -> u64 {
        *self
    }

    proof fn clone_keeps_time(a: Self, b: Self) {
    }

    fn time(&self) -> (t: u64) {
        *self
    }
}

/// A 32-bit number is a value whose time is the same number, 64 bits wide.
impl UniquelyIdentifiedTimeValue<u64> for u32 {
    open spec fn time_spec(&self) -> u64 {
        *self as u64
    }

    proof fn clone_keeps_time(a: Self, b: Self) {
    }

    fn time(&self) -> (t: u64) {
        *self as u64
    }
}

/// The position of the time that `v` carries.
pub open spec fn time_of<T: TimeCoordinate, V: UniquelyIdentifiedTimeValue<T>>(v: V) -> int {
    v.time_spec().position()
}

/// Some value of the sequence carries a time at position `p`.
pub open spec fn holds_time<T: TimeCoordinate, V: UniquelyIdentifiedTimeValue<T>>(
    values: Seq<V>,
    p: int,
) -> bool {
    exists|k: int| 0 <= k < values.len() && time_of::<T, V>(#[trigger] values[k]) == p
}

/// The values stand in strictly ascending order of time, so no time occurs
/// twice.
pub open spec fn ordered_by_time<T: TimeCoordinate, V: UniquelyIdentifiedTimeValue<T>>(
    values: Seq<V>,
) -> bool {
    forall|i: int, j: int|
        0 <= i < j < values.len() ==> time_of::<T, V>(#[trigger] values[i]) < time_of::<T, V>(
            #[trigger] values[j],
        )
}

/// The time of every value lies within some interval of `known`.
pub open spec fn all_covered<T: TimeCoordinate, V: UniquelyIdentifiedTimeValue<T>>(
    known: Seq<Interval<T>>,
    values: Seq<V>,
) -> bool {
    forall|k: int|
        0 <= k < values.len() ==> covers_point(known, time_of::<T, V>(#[trigger] values[k]))
}

/// The values whose time lies within `interval`.
pub open spec fn within<T: TimeCoordinate, V: UniquelyIdentifiedTimeValue<T>>(
    interval: Interval<T>,
) -> spec_fn(V) -> bool {
    |v: V| interval.has_point(time_of::<T, V>(v))
}

/// `found` is what is handed out for `kept`: a clone of each value, in the
/// same order.
pub open spec fn handed_out<T: TimeCoordinate, V: UniquelyIdentifiedTimeValue<T>>(
    kept: Seq<V>,
    found: Seq<V>,
) -> bool {
    &&& found.len() == kept.len()
    &&& forall|k: int| 0 <= k < kept.len() ==> cloned::<V>(#[trigger] kept[k], found[k])
}

/// The values whose time lies before position `p`.
pub open spec fn earlier_than<T: TimeCoordinate, V: UniquelyIdentifiedTimeValue<T>>(
    p: int,
) -> spec_fn(V) -> bool {
    |v: V| time_of::<T, V>(v) < p
}

/// The batch agrees with what is stored: at every position of `interval`
/// that `known` covers, the batch holds a value exactly when the store does.
pub open spec fn agrees<T: TimeCoordinate, V: UniquelyIdentifiedTimeValue<T>>(
    known: Seq<Interval<T>>,
    stored: Seq<V>,
    interval: Interval<T>,
    batch: Seq<V>,
) -> bool {
    forall|p: int|
        #![trigger holds_time::<T, V>(stored, p)]
        #![trigger holds_time::<T, V>(batch, p)]
        interval.has_point(p) && covers_point(known, p) ==> (holds_time::<T, V>(stored, p)
            <==> holds_time::<T, V>(batch, p))
}

impl<T: TimeCoordinate> Interval<T> {
    /// What `self` and `other` have in common: from the later of their
    /// lower ends to the earlier of their upper ends.
    pub open spec fn overlap(self, other: Interval<T>) -> Interval<T> {
        Interval(
            if self.lo() < other.lo() {
                other.0
            } else {
                self.0
            },
            if other.hi() < self.hi() {
                other.1
            } else {
                self.1
            },
        )
    }
}

/// The stored values after `v` has been offered for `interval`: unchanged
/// where the time of `v` lies outside the interval or is already held;
/// otherwise `v` stands after the values with an earlier time.
pub open spec fn placed<T: TimeCoordinate, V: UniquelyIdentifiedTimeValue<T>>(
    stored: Seq<V>,
    v: V,
    interval: Interval<T>,
) -> Seq<V> {
    if !interval.has_point(time_of::<T, V>(v)) || holds_time::<T, V>(stored, time_of::<T, V>(v)) {
        stored
    } else {
        stored.insert(
            stored.filter(earlier_than::<T, V>(time_of::<T, V>(v))).len() as int,
            v,
        )
    }
}

/// The stored values after every value of the batch has been offered for
/// `interval`, the last value of the batch first.
pub open spec fn absorbed<T: TimeCoordinate, V: UniquelyIdentifiedTimeValue<T>>(
    stored: Seq<V>,
    batch: Seq<V>,
    interval: Interval<T>,
) -> Seq<V>
    decreases batch.len(),
{
    if batch.len() == 0 {
        stored
    } else {
        absorbed(placed(stored, batch.last(), interval), batch.drop_last(), interval)
    }
}

/// What an interval store holds: the intervals known to be fully
/// enumerated, and the values found in them.
pub struct StoreView<T, V> {
    pub known: Seq<Interval<T>>,
    pub values: Seq<V>,
}

/// The store that knows nothing.
pub open spec fn empty_store<T: TimeCoordinate, V: UniquelyIdentifiedTimeValue<T>>() -> StoreView<
    T,
    V,
> {
    StoreView { known: Seq::empty(), values: Seq::empty() }
}

/// The known intervals neither overlap nor touch, the values stand in
/// ascending order of time with no time twice, and the time of every value
/// lies in a known interval.
pub open spec fn well_formed<T: TimeCoordinate, V: UniquelyIdentifiedTimeValue<T>>(
    store: StoreView<T, V>,
) -> bool {
    &&& separated(store.known)
    &&& ordered_by_time::<T, V>(store.values)
    &&& all_covered::<T, V>(store.known, store.values)
}

/// The store after `batch` has been inserted for `interval`, or `None`
/// where the batch disagrees with the store and the insert is refused.
pub open spec fn after_insert<T: TimeCoordinate, V: UniquelyIdentifiedTimeValue<T>>(
    store: StoreView<T, V>,
    interval: Interval<T>,
    batch: Seq<V>,
) -> Option<StoreView<T, V>> {
    if agrees::<T, V>(store.known, store.values, interval, batch) {
        Some(
            StoreView {
                known: with_interval(store.known, interval),
                values: absorbed::<T, V>(store.values, batch, interval),
            },
        )
    } else {
        None
    }
}

/// The store after every insert of `history` has been made in turn on
/// `store`, or `None` where one of them is refused.
pub open spec fn replay_from<T: TimeCoordinate, V: UniquelyIdentifiedTimeValue<T>>(
    store: StoreView<T, V>,
    history: Seq<(Interval<T>, Seq<V>)>,
) -> Option<StoreView<T, V>>
    decreases history.len(),
{
    if history.len() == 0 {
        Some(store)
    } else {
        match replay_from(store, history.drop_last()) {
            Some(earlier) => after_insert(earlier, history.last().0, history.last().1),
            None => None,
        }
    }
}

/// The store after every insert of `history` has been made in turn on the
/// empty store, or `None` where one of them is refused.
pub open spec fn replay<T: TimeCoordinate, V: UniquelyIdentifiedTimeValue<T>>(
    history: Seq<(Interval<T>, Seq<V>)>,
) -> Option<StoreView<T, V>> {
    replay_from(empty_store(), history)
}

/// The intervals of a history, in order.
pub open spec fn intervals_of<T: TimeCoordinate, V: UniquelyIdentifiedTimeValue<T>>(
    history: Seq<(Interval<T>, Seq<V>)>,
) -> Seq<Interval<T>> {
    Seq::new(history.len(), |i: int| history[i].0)
}

/// Some insert of the history offered a value with a time at `p`, for an
/// interval that holds `p`.
pub open spec fn offered_at<T: TimeCoordinate, V: UniquelyIdentifiedTimeValue<T>>(
    history: Seq<(Interval<T>, Seq<V>)>,
    p: int,
) -> bool {
    exists|i: int|
        0 <= i < history.len() && (#[trigger] history[i]).0.has_point(p) && holds_time::<T, V>(
            history[i].1,
            p,
        )
}

/// Some insert of the history offered the value `v`, for an interval that
/// holds the time of `v`.
pub open spec fn offered<T: TimeCoordinate, V: UniquelyIdentifiedTimeValue<T>>(
    history: Seq<(Interval<T>, Seq<V>)>,
    v: V,
) -> bool {
    exists|i: int|
        0 <= i < history.len() && (#[trigger] history[i]).1.contains(v) && history[i].0.has_point(
            time_of::<T, V>(v),
        )
}

} // verus!
