//! A set of intervals kept sorted and, when grown by `insert`, merged.

use vstd::prelude::*;
use crate::coordinate::TimeCoordinate;
use crate::cover::{
    ascending, begins_after, covers_interval, covers_point, ends_before, final_gap, gaps,
    gaps_from, hull, meeting, reaching, separated, with_interval,
};
use crate::cover_lemmas::{
    lemma_filter_is_ascending, lemma_filter_members, lemma_filter_take_none,
    lemma_filter_take_step, lemma_gaps_from,
    lemma_with_interval,
};
use crate::interval::Interval;

verus! {

/// A sorted collection of intervals.
///
/// A set grown from the empty set by [`IntervalSet::insert`] is canonical:
/// its members neither overlap nor share an endpoint. The sets returned by
/// [`IntervalSet::missing`] are sorted, but two neighbouring members may
/// share an endpoint.
#[derive(Debug, Eq, PartialEq)]
pub struct IntervalSet<T> {
    intervals: Vec<Interval<T>>,
}

impl<T: TimeCoordinate> View for IntervalSet<T> {
    type V = Seq<Interval<T>>;

    /// The members in ascending order.
    closed spec fn view(&self) -> Seq<Interval<T>> {
        self.intervals@
    }
}

impl<T: TimeCoordinate> IntervalSet<T> {
    /// The members are valid and stand in ascending order.
    pub open spec fn wf(&self) -> bool {
        ascending(self@)
    }

    /// No two members overlap or share an endpoint.
    pub open spec fn is_canonical(&self) -> bool {
        separated(self@)
    }

    /// The empty set.
    pub fn new() -> (r: IntervalSet<T>)
        ensures
            r@ == Seq::<Interval<T>>::empty(),
            r.wf(),
            r.is_canonical(),
    {
        IntervalSet { intervals: Vec::new() }
    }

    /// The set whose only member is `interval`.
    pub fn from_interval(interval: &Interval<T>) -> (r: IntervalSet<T>)
        requires
            interval.is_valid(),
        ensures
            r@ == seq![*interval],
            r.wf(),
            r.is_canonical(),
    {
        let mut intervals: Vec<Interval<T>> = Vec::new();
        intervals.push(*interval);
        IntervalSet { intervals }
    }

    /// The number of members.
    pub fn len(&self) -> (n: usize)
        ensures
            n == self@.len(),
    {
        self.intervals.len()
    }

    /// Adds `interval`, merging it with every member it meets.
    ///
    /// Nothing changes where a member already holds the interval.
    pub fn insert(&mut self, interval: &Interval<T>)
        requires
            old(self).wf(),
            interval.is_valid(),
        ensures
            final(self)@ == with_interval(old(self)@, *interval),
            final(self).wf(),
            old(self).is_canonical() ==> final(self).is_canonical(),
            covers_interval(final(self)@, *interval),
            forall|p: int| #[trigger]
                covers_point(final(self)@, p) <==> covers_point(old(self)@, p)
                    || interval.has_point(p),
    {
        let ghost s = self@;
        let ghost w = *interval;
        proof {
            lemma_with_interval(s, w);
        }
        if self.contains(interval) {
            return ;
        }
        let n = self.intervals.len();
        let mut below: Vec<Interval<T>> = Vec::new();
        let mut above: Vec<Interval<T>> = Vec::new();
        let mut merged: Interval<T> = *interval;
        let mut i: usize = 0;
        proof {
            lemma_filter_take_none(s, ends_before(w));
            lemma_filter_take_none(s, begins_after(w));
            lemma_filter_take_none(s, meeting(w));
        }
        while i < n
            invariant
                i <= n,
                n == s.len(),
                self@ == s,
                w == *interval,
                w.is_valid(),
                ascending(s),
                below@ == s.take(i as int).filter(ends_before(w)),
                above@ == s.take(i as int).filter(begins_after(w)),
                merged == hull(s.take(i as int).filter(meeting(w)), w),
            decreases n - i,
        {
            let e = self.intervals[i];
            proof {
                lemma_filter_take_step(s, ends_before(w), i as int);
                lemma_filter_take_step(s, begins_after(w), i as int);
                lemma_filter_take_step(s, meeting(w), i as int);
                assert(e == s[i as int]);
                assert(e.is_valid());
                let t = s.take(i as int).filter(meeting(w));
                assert(t.push(e).drop_last() =~= t);
            }
            if e.1.before(&interval.0) {
                below.push(e);
            } else if interval.1.before(&e.0) {
                above.push(e);
            } else {
                let lower = if e.0.before(&merged.0) {
                    e.0
                } else {
                    merged.0
                };
                let upper = if merged.1.before(&e.1) {
                    e.1
                } else {
                    merged.1
                };
                merged = Interval(lower, upper);
            }
            i += 1;
        }
        proof {
            assert(s.take(n as int) =~= s);
        }
        let ghost kept_below = below@;
        let ghost kept_above = above@;
        below.push(merged);
        below.append(&mut above);
        self.intervals = below;
        proof {
            assert(self@ =~= kept_below + seq![merged] + kept_above);
        }
    }

    /// Whether some member holds both ends of `interval`.
    pub fn contains(&self, interval: &Interval<T>) -> (r: bool)
        ensures
            r == covers_interval(self@, *interval),
    {
        let n = self.intervals.len();
        let mut i: usize = 0;
        while i < n
            invariant
                i <= n,
                n == self@.len(),
                forall|k: int| 0 <= k < i ==> !(#[trigger] self@[k]).covers(*interval),
            decreases n - i,
        {
            if self.intervals[i].contains_interval(interval) {
                return true;
            }
            i += 1;
        }
        false
    }

    /// The members that hold the lower or the upper end of `interval`, in
    /// order.
    ///
    /// A member that lies strictly inside `interval` holds neither end and
    /// is not among them.
    pub fn intersecting(&self, interval: &Interval<T>) -> (r: IntervalSet<T>)
        ensures
            r@ == self@.filter(reaching(*interval)),
            forall|e: Interval<T>| #[trigger]
                r@.contains(e) <==> self@.contains(e) && e.reaches(*interval),
            self.wf() ==> r.wf(),
            self.is_canonical() ==> r.is_canonical(),
    {
        let ghost s = self@;
        let ghost w = *interval;
        let n = self.intervals.len();
        let mut found: Vec<Interval<T>> = Vec::new();
        let mut i: usize = 0;
        proof {
            lemma_filter_take_none(s, reaching(w));
        }
        while i < n
            invariant
                i <= n,
                n == s.len(),
                self@ == s,
                w == *interval,
                found@ == s.take(i as int).filter(reaching(w)),
            decreases n - i,
        {
            let e = self.intervals[i];
            proof {
                lemma_filter_take_step(s, reaching(w), i as int);
            }
            if e.intersects(interval) {
                found.push(e);
            }
            i += 1;
        }
        proof {
            assert(s.take(n as int) =~= s);
            lemma_filter_members(s, reaching(w));
            if ascending(s) {
                lemma_filter_is_ascending(s, reaching(w));
            }
        }
        IntervalSet { intervals: found }
    }

    /// The sub-ranges of `interval` that no member covers, in order.
    ///
    /// A sub-range runs from where one member ends (or the interval begins)
    /// to where the next member begins (or the interval ends), so it shares
    /// its ends with the members around it.
    pub fn missing(&self, interval: &Interval<T>) -> (r: IntervalSet<T>)
        requires
            self.wf(),
            interval.is_valid(),
        ensures
            r@ == gaps(self@, *interval),
            r.wf(),
            forall|k: int|
                0 <= k < r@.len() ==> interval.lo() <= (#[trigger] r@[k]).lo() < r@[k].hi()
                    <= interval.hi(),
            forall|k: int, i: int|
                0 <= k < r@.len() && 0 <= i < self@.len() ==> (#[trigger] self@[i]).hi() <= (
                #[trigger] r@[k]).lo() || r@[k].hi() <= self@[i].lo(),
            forall|p: int|
                interval.has_point(p) && interval.lo() < interval.hi() ==> #[trigger] covers_point(
                    r@,
                    p,
                ) || covers_point(self@, p),
    {
        let ghost s = self@;
        let ghost w = *interval;
        let n = self.intervals.len();
        let mut out: Vec<Interval<T>> = Vec::new();
        let mut cursor: T = interval.0;
        let mut i: usize = 0;
        proof {
            lemma_gaps_from(s, w.0, w);
            assert(s.skip(0) =~= s);
        }
        while i < n
            invariant_except_break
                gaps(s, w) == out@ + gaps_from(s.skip(i as int), cursor, w),
            invariant
                i <= n,
                n == s.len(),
                self@ == s,
                w == *interval,
            ensures
                gaps(s, w) == out@ + final_gap(cursor, w),
            decreases n - i,
        {
            let e = self.intervals[i];
            proof {
                assert(s.skip(i as int).first() == s[i as int]);
                assert(s.skip(i as int).drop_first() =~= s.skip(i + 1));
            }
            let ghost before = out@;
            if e.1.before(&interval.0) {
            } else if e.contains(&cursor) {
                cursor = e.1;
            } else if cursor.before(&e.0) && !interval.1.before(&e.0) {
                out.push(Interval(cursor, e.0));
                proof {
                    let head = seq![Interval(cursor, e.0)];
                    let tail = gaps_from(s.skip(i + 1), e.1, w);
                    assert(before + (head + tail) =~= before.push(Interval(cursor, e.0)) + tail);
                }
                cursor = e.1;
            } else if interval.1.before(&e.0) {
                break ;
            }
            i += 1;
        }
        if cursor.before(&interval.1) {
            out.push(Interval(cursor, interval.1));
        }
        proof {
            assert(out@ =~= gaps(s, w));
        }
        IntervalSet { intervals: out }
    }

    /// The members in ascending order.
    pub fn iter(&self) -> (r: &[Interval<T>])
        ensures
            r@ == self@,
    {
        self.intervals.as_slice()
    }
}

} // verus!
