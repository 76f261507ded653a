//! Values keyed by time, together with the intervals in which every value
//! is known.

use vstd::prelude::*;
use crate::coordinate::TimeCoordinate;
use crate::cover::{covers_interval, covers_point, gaps, separated};
use crate::cover_lemmas::{lemma_filter_take_none, lemma_filter_take_step};
use crate::interval::Interval;
use crate::interval_set::IntervalSet;
use crate::record::{
    absorbed, after_insert, agrees, all_covered, handed_out, holds_time, ordered_by_time, placed,
    time_of, well_formed, within, StoreView, UniquelyIdentifiedTimeValue,
};
use crate::record_lemmas::{
    lemma_earlier_is_prefix, lemma_handed_out_keeps_times, lemma_insert_keeps_order, lemma_kept,
    lemma_kept_times,
};

verus! {

/// An insert offered values that disagree with what the store already knows
/// about a range it has enumerated before.
#[derive(Clone, Copy, Debug, PartialEq, Eq)]
pub struct ConflictError;

impl ConflictError {
    /// A short description of the error.
    pub fn message(&self) -> (r: String)
        ensures
            r@ == "Conflicting values"@,
    {
        "Conflicting values".to_owned()
    }
}

/// Values ordered by time, with the set of intervals for which the store
/// holds every value there is.
///
/// An interval may be known and hold no value: the store then asserts that
/// there is none.
pub struct IntervalStore<T, V> {
    intervals: IntervalSet<T>,
    values: Vec<V>,
}

impl<T: TimeCoordinate, V: UniquelyIdentifiedTimeValue<T>> View for IntervalStore<T, V> {
    type V = StoreView<T, V>;

    closed spec fn view(&self) -> StoreView<T, V> {
        StoreView { known: self.intervals@, values: self.values@ }
    }
}

/// Whether two coordinates lie at the same position.
fn same_time<T: TimeCoordinate>(a: &T, b: &T) -> (r: bool)
    ensures
        r == (a.position() == b.position()),
{
    !a.before(b) && !b.before(a)
}

/// Whether some value carries the time `t`.
fn holds<T: TimeCoordinate, V: UniquelyIdentifiedTimeValue<T>>(values: &Vec<V>, t: &T) -> (r: bool)
    ensures
        r == holds_time::<T, V>(values@, t.position()),
{
    let n = values.len();
    let mut i: usize = 0;
    while i < n
        invariant
            i <= n,
            n == values@.len(),
            forall|k: int| 0 <= k < i ==> time_of::<T, V>(#[trigger] values@[k]) != t.position(),
        decreases n - i,
    {
        let u = values[i].time();
        if same_time(&u, t) {
            return true;
        }
        i += 1;
    }
    false
}

/// Offers `v` to the stored values: it is put in its place by time, unless
/// its time lies outside `interval` or is already held.
fn place<T: TimeCoordinate, V: UniquelyIdentifiedTimeValue<T>>(
    values: &mut Vec<V>,
    v: V,
    interval: &Interval<T>,
    Ghost(known): Ghost<Seq<Interval<T>>>,
)
    requires
        ordered_by_time::<T, V>(old(values)@),
        all_covered::<T, V>(known, old(values)@),
        covers_interval(known, *interval),
    ensures
        final(values)@ == placed::<T, V>(old(values)@, v, *interval),
        ordered_by_time::<T, V>(final(values)@),
        all_covered::<T, V>(known, final(values)@),
{
    let t = v.time();
    if !interval.contains(&t) {
        return ;
    }
    let ghost stored = values@;
    let ghost p = t.position();
    let n = values.len();
    let mut i: usize = 0;
    while i < n && values[i].time().before(&t)
        invariant
            i <= n,
            n == stored.len(),
            values@ == stored,
            p == t.position(),
            forall|k: int| 0 <= k < i ==> time_of::<T, V>(#[trigger] stored[k]) < p,
        decreases n - i,
    {
        i += 1;
    }
    if i < n {
        let u = values[i].time();
        if same_time(&u, &t) {
            return ;
        }
    }
    proof {
        assert forall|k: int| i <= k < stored.len() implies time_of::<T, V>(#[trigger] stored[k])
            > p by {
            if k > i {
                assert(time_of::<T, V>(stored[i as int]) < time_of::<T, V>(stored[k]));
            }
        }
        lemma_earlier_is_prefix::<T, V>(stored, p, i as int);
        lemma_insert_keeps_order::<T, V>(stored, v, i as int);
        let m = choose|m: int| 0 <= m < known.len() && (#[trigger] known[m]).covers(*interval);
        assert(known[m].has_point(p));
        let r = stored.insert(i as int, v);
        assert forall|k: int| 0 <= k < r.len() implies covers_point(
            known,
            time_of::<T, V>(#[trigger] r[k]),
        ) by {
            if k < i {
                assert(r[k] == stored[k]);
            } else if k > i {
                assert(r[k] == stored[k - 1]);
            }
        }
    }
    values.insert(i, v);
}

impl<T: TimeCoordinate, V: UniquelyIdentifiedTimeValue<T>> IntervalStore<T, V> {
    /// The known intervals neither overlap nor touch, the values stand in
    /// ascending order of time with no time twice, and the time of every
    /// value lies in a known interval.
    pub open spec fn wf(&self) -> bool {
        well_formed(self@)
    }

    /// The store that knows nothing.
    pub fn new() -> (r: IntervalStore<T, V>)
        ensures
            r@.known == Seq::<Interval<T>>::empty(),
            r@.values == Seq::<V>::empty(),
            r.wf(),
    {
        IntervalStore { intervals: IntervalSet::new(), values: Vec::new() }
    }

    /// Whether the whole of `interval` lies in one known interval.
    pub fn has(&self, interval: &Interval<T>) -> (r: bool)
        ensures
            r == covers_interval(self@.known, *interval),
    {
        self.intervals.contains(interval)
    }

    /// The sub-ranges of `interval` that are not known.
    pub fn missing(&self, interval: &Interval<T>) -> (r: IntervalSet<T>)
        requires
            self.wf(),
            interval.is_valid(),
        ensures
            r@ == gaps(self@.known, *interval),
            r.wf(),
    {
        self.intervals.missing(interval)
    }

    /// The values whose time lies in `interval`, in ascending order of time,
    /// or `None` where the interval is not known.
    ///
    /// The values handed out are clones of the stored ones, and carry
    /// their times.
    pub fn get(&self, interval: &Interval<T>) -> (r: Option<Vec<V>>)
        ensures
            r.is_some() == covers_interval(self@.known, *interval),
            r matches Some(found) ==> {
                let kept = self@.values.filter(within::<T, V>(*interval));
                &&& handed_out::<T, V>(kept, found@)
                &&& forall|k: int|
                    0 <= k < kept.len() ==> time_of::<T, V>(#[trigger] found@[k]) == time_of::<T, V>(
                        kept[k],
                    )
                &&& forall|p: int| #[trigger]
                    holds_time::<T, V>(found@, p) <==> holds_time::<T, V>(self@.values, p)
                        && interval.has_point(p)
                &&& self.wf() ==> ordered_by_time::<T, V>(found@)
            },
    {
        if !self.has(interval) {
            return None;
        }
        let ghost stored = self@.values;
        let ghost keep = within::<T, V>(*interval);
        let n = self.values.len();
        let mut found: Vec<V> = Vec::new();
        let mut i: usize = 0;
        proof {
            lemma_filter_take_none(stored, keep);
        }
        while i < n
            invariant
                i <= n,
                n == stored.len(),
                self@.values == stored,
                keep == within::<T, V>(*interval),
                handed_out::<T, V>(stored.take(i as int).filter(keep), found@),
            decreases n - i,
        {
            proof {
                lemma_filter_take_step(stored, keep, i as int);
            }
            let t = self.values[i].time();
            if interval.contains(&t) {
                found.push(self.values[i].clone());
            }
            i += 1;
        }
        proof {
            assert(stored.take(n as int) =~= stored);
            let kept = stored.filter(keep);
            lemma_handed_out_keeps_times::<T, V>(kept, found@);
            lemma_kept_times::<T, V>(stored, *interval);
            if self.wf() {
                lemma_kept::<T, V>(stored, *interval);
            }
        }
        Some(found)
    }

    /// Whether `values` agree with what is stored, at every known position
    /// of `interval`.
    fn accepts(&self, interval: &Interval<T>, values: &Vec<V>) -> (r: bool)
        requires
            self.wf(),
        ensures
            r == agrees::<T, V>(self@.known, self@.values, *interval, values@),
    {
        let ghost known = self@.known;
        let ghost stored = self@.values;
        let ghost batch = values@;
        let n = self.values.len();
        let mut i: usize = 0;
        while i < n
            invariant
                i <= n,
                n == stored.len(),
                self@.known == known,
                self@.values == stored,
                values@ == batch,
                all_covered::<T, V>(known, stored),
                forall|k: int|
                    0 <= k < i && interval.has_point(time_of::<T, V>(#[trigger] stored[k]))
                        ==> holds_time::<T, V>(batch, time_of::<T, V>(stored[k])),
            decreases n - i,
        {
            let t = self.values[i].time();
            if interval.contains(&t) && !holds(values, &t) {
                proof {
                    let p = t.position();
                    assert(time_of::<T, V>(stored[i as int]) == p);
                    assert(holds_time::<T, V>(stored, p));
                    assert(covers_point(known, p));
                }
                return false;
            }
            i += 1;
        }
        let m = values.len();
        let mut j: usize = 0;
        while j < m
            invariant
                j <= m,
                m == batch.len(),
                n == stored.len(),
                self@.known == known,
                self@.values == stored,
                values@ == batch,
                forall|k: int|
                    0 <= k < n && interval.has_point(time_of::<T, V>(#[trigger] stored[k]))
                        ==> holds_time::<T, V>(batch, time_of::<T, V>(stored[k])),
                forall|k: int|
                    0 <= k < j && interval.has_point(time_of::<T, V>(#[trigger] batch[k]))
                        && covers_point(known, time_of::<T, V>(batch[k])) ==> holds_time::<T, V>(
                        stored,
                        time_of::<T, V>(batch[k]),
                    ),
            decreases m - j,
        {
            let t = values[j].time();
            if interval.contains(&t) && self.intervals.contains(&Interval(t, t)) && !holds(
                &self.values,
                &t,
            ) {
                proof {
                    let p = t.position();
                    let at = choose|at: int|
                        0 <= at < known.len() && (#[trigger] known[at]).covers(Interval(t, t));
                    assert(known[at].has_point(p));
                    assert(time_of::<T, V>(batch[j as int]) == p);
                    assert(holds_time::<T, V>(batch, p));
                }
                return false;
            }
            proof {
                let p = t.position();
                if interval.has_point(p) && covers_point(known, p) {
                    let at = choose|at: int| 0 <= at < known.len() && (#[trigger] known[at]).has_point(p);
                    assert(known[at].covers(Interval(t, t)));
                }
            }
            j += 1;
        }
        proof {
            assert forall|p: int|
                #![trigger holds_time::<T, V>(stored, p)]
                #![trigger holds_time::<T, V>(batch, p)]
                interval.has_point(p) && covers_point(known, p) implies (holds_time::<T, V>(
                stored,
                p,
            ) <==> holds_time::<T, V>(batch, p)) by {
                if holds_time::<T, V>(stored, p) {
                    let k = choose|k: int|
                        0 <= k < stored.len() && time_of::<T, V>(#[trigger] stored[k]) == p;
                    assert(holds_time::<T, V>(batch, time_of::<T, V>(stored[k])));
                }
                if holds_time::<T, V>(batch, p) {
                    let k = choose|k: int|
                        0 <= k < batch.len() && time_of::<T, V>(#[trigger] batch[k]) == p;
                    assert(holds_time::<T, V>(stored, time_of::<T, V>(batch[k])));
                }
            }
        }
        true
    }

    /// Records that `interval` has been enumerated and that `values` are
    /// the values found in it.
    ///
    /// The insert is refused, and nothing changes, where the values disagree
    /// with the store at a position of `interval` that is already known.
    /// Otherwise the interval becomes known and each value whose time lies
    /// in it is taken in, unless a value with that time is already held.
    /// Values whose time lies outside `interval` are ignored: the store
    /// keeps no value outside the ranges it knows.
    pub fn insert(&mut self, interval: &Interval<T>, values: Vec<V>) -> (r: Result<
        (),
        ConflictError,
    >)
        requires
            old(self).wf(),
            interval.is_valid(),
        ensures
            final(self).wf(),
            r.is_ok() == agrees::<T, V>(old(self)@.known, old(self)@.values, *interval, values@),
            r.is_ok() ==> Some(final(self)@) == after_insert(old(self)@, *interval, values@),
            r.is_err() ==> *final(self) == *old(self),
    {
        if !self.accepts(interval, &values) {
            return Err(ConflictError);
        }
        let ghost stored = self@.values;
        let ghost offered = values@;
        self.intervals.insert(interval);
        let ghost known = self@.known;
        proof {
            assert forall|k: int| 0 <= k < stored.len() implies covers_point(
                known,
                time_of::<T, V>(#[trigger] stored[k]),
            ) by {
                assert(covers_point(old(self)@.known, time_of::<T, V>(stored[k])));
            }
        }
        let mut batch = values;
        while batch.len() > 0
            invariant
                self@.known == known,
                separated(known),
                covers_interval(known, *interval),
                ordered_by_time::<T, V>(self@.values),
                all_covered::<T, V>(known, self@.values),
                absorbed::<T, V>(stored, offered, *interval) == absorbed::<T, V>(
                    self@.values,
                    batch@,
                    *interval,
                ),
            decreases batch.len(),
        {
            let ghost before = batch@;
            let v = batch.pop().unwrap();
            proof {
                assert(batch@ =~= before.drop_last());
            }
            place(&mut self.values, v, interval, Ghost(known));
        }
        Ok(())
    }
}

} // verus!
