//! Lemmas about sorted sequences of intervals.

use vstd::prelude::*;
use crate::coordinate::TimeCoordinate;
use crate::cover::{
    ascending, begins_after, covers_half, covers_interval, covers_point, ends_before, final_gap,
    gaps_from, hull, meeting, separated, with_interval,
};
use crate::interval::Interval;

verus! {

/// Filtering one more element of a sequence either appends it or leaves the
/// filtered prefix as it was.
pub proof fn lemma_filter_take_step<A>(s: Seq<A>, p: spec_fn(A) -> bool, i: int)
    requires
        0 <= i < s.len(),
    ensures
        s.take(i + 1).filter(p) == if p(s[i]) {
            s.take(i).filter(p).push(s[i])
        } else {
            s.take(i).filter(p)
        },
{
    reveal(Seq::filter);
    assert(s.take(i + 1).drop_last() =~= s.take(i));
    assert(s.take(i + 1).last() == s[i]);
}

/// Nothing is kept of an empty prefix.
pub proof fn lemma_filter_take_none<A>(s: Seq<A>, p: spec_fn(A) -> bool)
    ensures
        s.take(0).filter(p) == Seq::<A>::empty(),
{
    reveal(Seq::filter);
    assert(s.take(0) =~= Seq::<A>::empty());
}

/// Filtering a sequence filters all but its last element and then decides
/// on the last.
pub proof fn lemma_filter_last<A>(s: Seq<A>, p: spec_fn(A) -> bool)
    ensures
        s.len() == 0 ==> s.filter(p) == Seq::<A>::empty(),
        s.len() > 0 ==> s.filter(p) == if p(s.last()) {
            s.drop_last().filter(p).push(s.last())
        } else {
            s.drop_last().filter(p)
        },
{
    reveal(Seq::filter);
    if s.len() == 0 {
        assert(s =~= Seq::<A>::empty());
    }
}

/// A prefix of an ascending sequence is ascending.
pub proof fn lemma_ascending_prefix<T: TimeCoordinate>(s: Seq<Interval<T>>, n: int)
    requires
        ascending(s),
        0 <= n <= s.len(),
    ensures
        ascending(s.take(n)),
        separated(s) ==> separated(s.take(n)),
{
    let r = s.take(n);
    assert forall|i: int| 0 <= i < r.len() implies (#[trigger] r[i]).is_valid() by {
        assert(r[i] == s[i]);
    }
    assert forall|i: int, j: int| 0 <= i < j < r.len() implies (#[trigger] r[i]).hi() <= (
    #[trigger] r[j]).lo() && r[i].lo() < r[j].hi() by {
        assert(r[i] == s[i] && r[j] == s[j]);
    }
    if separated(s) {
        assert forall|i: int, j: int| 0 <= i < j < r.len() implies (#[trigger] r[i]).hi() < (
        #[trigger] r[j]).lo() by {
            assert(r[i] == s[i] && r[j] == s[j]);
        }
    }
}

/// In an ascending sequence the members that end before a window come
/// first, those that meet it follow, and those that begin after it come
/// last. The result gives the two places where the sequence is cut.
pub proof fn lemma_partition<T: TimeCoordinate>(s: Seq<Interval<T>>, w: Interval<T>) -> (cut: (
    int,
    int,
))
    requires
        ascending(s),
        w.is_valid(),
    ensures
        0 <= cut.0 <= cut.1 <= s.len(),
        s.filter(ends_before(w)) == s.take(cut.0),
        s.filter(meeting(w)) == s.subrange(cut.0, cut.1),
        s.filter(begins_after(w)) == s.skip(cut.1),
        forall|i: int| 0 <= i < cut.0 ==> (#[trigger] s[i]).hi() < w.lo(),
        forall|i: int| cut.0 <= i < cut.1 ==> (#[trigger] s[i]).meets(w),
        forall|i: int| cut.1 <= i < s.len() ==> (#[trigger] s[i]).lo() > w.hi(),
    decreases s.len(),
{
    lemma_filter_last(s, ends_before(w));
    lemma_filter_last(s, meeting(w));
    lemma_filter_last(s, begins_after(w));
    if s.len() == 0 {
        assert(s.take(0) =~= Seq::<Interval<T>>::empty());
        assert(s.subrange(0, 0) =~= Seq::<Interval<T>>::empty());
        assert(s.skip(0) =~= Seq::<Interval<T>>::empty());
        (0, 0)
    } else {
        let r = s.drop_last();
        let e = s.last();
        lemma_ascending_prefix(s, s.len() - 1);
        assert(r =~= s.take(s.len() - 1));
        let (a, b) = lemma_partition(r, w);
        assert(forall|i: int| 0 <= i < r.len() ==> r[i] == s[i]);
        assert(e.is_valid());
        if e.hi() < w.lo() {
            assert forall|i: int| 0 <= i < r.len() implies (#[trigger] r[i]).hi() < w.lo() by {
                assert(s[i].hi() <= s[s.len() - 1].lo());
            }
            if a < r.len() {
                if a < b {
                    assert(r[a].meets(w));
                } else {
                    assert(r[a].lo() > w.hi());
                    assert(r[a].is_valid());
                }
                assert(false);
            }
            assert(s.filter(ends_before(w)) =~= s.take(s.len() as int));
            assert(s.filter(meeting(w)) =~= s.subrange(s.len() as int, s.len() as int));
            assert(s.filter(begins_after(w)) =~= s.skip(s.len() as int));
            (s.len() as int, s.len() as int)
        } else if e.lo() > w.hi() {
            assert(s.filter(ends_before(w)) =~= s.take(a));
            assert(s.filter(meeting(w)) =~= s.subrange(a, b));
            assert(s.filter(begins_after(w)) =~= s.skip(b));
            (a, b)
        } else {
            if b < r.len() {
                assert(r[b].lo() > w.hi());
                assert(s[b].hi() <= s[s.len() - 1].lo());
                assert(r[b].is_valid());
                assert(false);
            }
            assert(e.meets(w));
            assert(s.filter(ends_before(w)) =~= s.take(a));
            assert(s.filter(meeting(w)) =~= s.subrange(a, s.len() as int));
            assert(s.filter(begins_after(w)) =~= s.skip(s.len() as int));
            (a, s.len() as int)
        }
    }
}

/// The hull holds the interval and every member, and each of its ends is an
/// end of the interval or of a member.
pub proof fn lemma_hull<T: TimeCoordinate>(t: Seq<Interval<T>>, w: Interval<T>)
    requires
        w.is_valid(),
        forall|k: int| 0 <= k < t.len() ==> (#[trigger] t[k]).is_valid(),
    ensures
        hull(t, w).is_valid(),
        hull(t, w).covers(w),
        forall|k: int| 0 <= k < t.len() ==> hull(t, w).covers(#[trigger] t[k]),
        hull(t, w).0 == w.0 || exists|k: int| 0 <= k < t.len() && (#[trigger] t[k]).0 == hull(t, w).0,
        hull(t, w).1 == w.1 || exists|k: int| 0 <= k < t.len() && (#[trigger] t[k]).1 == hull(t, w).1,
    decreases t.len(),
{
    if t.len() > 0 {
        let r = t.drop_last();
        let e = t.last();
        lemma_hull(r, w);
        let h0 = hull(r, w);
        let h = hull(t, w);
        assert(h == h0.widened_by(e));
        assert(forall|k: int| 0 <= k < r.len() ==> r[k] == t[k]);
        assert forall|k: int| 0 <= k < t.len() implies h.covers(#[trigger] t[k]) by {
            if k < r.len() {
                assert(h0.covers(r[k]));
            }
        }
        if h.0 != w.0 {
            if h.0 == h0.0 {
                let k = choose|k: int| 0 <= k < r.len() && (#[trigger] r[k]).0 == h0.0;
                assert(t[k].0 == h.0);
            } else {
                assert(t[t.len() - 1].0 == h.0);
            }
        }
        if h.1 != w.1 {
            if h.1 == h0.1 {
                let k = choose|k: int| 0 <= k < r.len() && (#[trigger] r[k]).1 == h0.1;
                assert(t[k].1 == h.1);
            } else {
                assert(t[t.len() - 1].1 == h.1);
            }
        }
    }
}

/// The shape of a set after an interval has been added that no member
/// held: the members before the cut, the hull at the cut, and the members
/// after the second cut; the members between the cuts are those that meet
/// the interval, and the hull holds them and the interval and ends where
/// the interval or one of them ends.
pub proof fn lemma_with_interval_shape<T: TimeCoordinate>(
    s: Seq<Interval<T>>,
    w: Interval<T>,
) -> (cut: (int, int))
    requires
        ascending(s),
        w.is_valid(),
        !covers_interval(s, w),
    ensures
        0 <= cut.0 <= cut.1 <= s.len(),
        with_interval(s, w).len() == cut.0 + 1 + s.len() - cut.1,
        forall|i: int| 0 <= i < cut.0 ==> (#[trigger] with_interval(s, w)[i]) == s[i],
        forall|i: int| 0 <= i < cut.0 ==> (#[trigger] s[i]).hi() < w.lo(),
        forall|i: int|
            cut.0 < i < with_interval(s, w).len() ==> (#[trigger] with_interval(s, w)[i]) == s[i
                - cut.0 - 1 + cut.1],
        forall|i: int|
            cut.0 <= i < cut.1 ==> (#[trigger] s[i]).meets(w) && with_interval(s, w)[cut.0].covers(
                s[i],
            ),
        forall|i: int| cut.1 <= i < s.len() ==> (#[trigger] s[i]).lo() > w.hi(),
        with_interval(s, w)[cut.0].is_valid(),
        with_interval(s, w)[cut.0].covers(w),
        with_interval(s, w)[cut.0].0 == w.0 || exists|k: int|
            cut.0 <= k < cut.1 && (#[trigger] s[k]).0 == with_interval(s, w)[cut.0].0,
        with_interval(s, w)[cut.0].1 == w.1 || exists|k: int|
            cut.0 <= k < cut.1 && (#[trigger] s[k]).1 == with_interval(s, w)[cut.0].1,
{
    let r = with_interval(s, w);
    let (a, b) = lemma_partition(s, w);
    let t = s.subrange(a, b);
    assert(forall|k: int| 0 <= k < t.len() ==> t[k] == s[a + k]);
    lemma_hull(t, w);
    let h = hull(t, w);
    assert(r == s.take(a) + seq![h] + s.skip(b));
    assert(r[a] == h);
    assert forall|i: int| a <= i < b implies (#[trigger] s[i]).meets(w) && r[a].covers(s[i]) by {
        assert(h.covers(t[i - a]));
    }
    if h.0 != w.0 {
        let k = choose|k: int| 0 <= k < t.len() && (#[trigger] t[k]).0 == h.0;
        assert(s[a + k].0 == h.0);
    }
    if h.1 != w.1 {
        let k = choose|k: int| 0 <= k < t.len() && (#[trigger] t[k]).1 == h.1;
        assert(s[a + k].1 == h.1);
    }
    (a, b)
}

/// Adding an interval keeps the set ascending (and separated, where it was),
/// adds exactly the interval's points to what is covered, leaves the
/// interval within a single member, and keeps within a single member
/// whatever was within one before.
pub proof fn lemma_with_interval<T: TimeCoordinate>(s: Seq<Interval<T>>, w: Interval<T>)
    requires
        ascending(s),
        w.is_valid(),
    ensures
        ascending(with_interval(s, w)),
        separated(s) ==> separated(with_interval(s, w)),
        covers_interval(with_interval(s, w), w),
        forall|p: int| #[trigger]
            covers_point(with_interval(s, w), p) <==> covers_point(s, p) || w.has_point(p),
        forall|x: Interval<T>| #[trigger]
            covers_interval(s, x) ==> covers_interval(with_interval(s, w), x),
{
    let r = with_interval(s, w);
    assert forall|p: int| #[trigger]
        covers_point(r, p) <==> covers_point(s, p) || w.has_point(p) by {
        lemma_with_interval_halves(s, w);
        lemma_points_are_even_halves(r, p);
        lemma_points_are_even_halves(s, p);
        assert(covers_half(r, 2 * p) <==> covers_half(s, 2 * p) || w.has_half(2 * p));
    }
    if !covers_interval(s, w) {
        let (a, b) = lemma_with_interval_shape(s, w);
        let h = r[a];
        let n = s.len() as int;
        assert(forall|i: int| 0 <= i < a ==> (#[trigger] s[i]).hi() <= h.lo()) by {
            if h.0 != w.0 {
                let k = choose|k: int| a <= k < b && (#[trigger] s[k]).0 == h.0;
                assert(s[k].lo() == h.lo());
            }
        }
        assert(forall|i: int| b <= i < n ==> h.hi() <= (#[trigger] s[i]).lo()) by {
            if h.1 != w.1 {
                let k = choose|k: int| a <= k < b && (#[trigger] s[k]).1 == h.1;
                assert(s[k].hi() == h.hi());
            }
        }
        assert forall|i: int| 0 <= i < r.len() implies (#[trigger] r[i]).is_valid() by {
            if i < a {
                assert(s[i].is_valid());
            } else if i > a {
                assert(s[i - a - 1 + b].is_valid());
            }
        }
        assert forall|i: int, j: int| 0 <= i < j < r.len() implies (#[trigger] r[i]).hi() <= (
        #[trigger] r[j]).lo() && r[i].lo() < r[j].hi() by {
            if j < a {
                assert(s[i].hi() <= s[j].lo());
            } else if j == a {
                assert(s[i].hi() <= h.lo());
                assert(s[i].is_valid());
            } else if i < a {
                assert(s[i].hi() <= s[j - a - 1 + b].lo());
            } else if i == a {
                assert(h.hi() <= s[j - a - 1 + b].lo());
                assert(s[j - a - 1 + b].is_valid());
            } else {
                assert(s[i - a - 1 + b].hi() <= s[j - a - 1 + b].lo());
            }
        }
        if separated(s) {
            assert(forall|i: int| 0 <= i < a ==> (#[trigger] s[i]).hi() < h.lo()) by {
                if h.0 != w.0 {
                    let k = choose|k: int| a <= k < b && (#[trigger] s[k]).0 == h.0;
                    assert(s[k].lo() == h.lo());
                }
            }
            assert(forall|i: int| b <= i < n ==> h.hi() < (#[trigger] s[i]).lo()) by {
                if h.1 != w.1 {
                    let k = choose|k: int| a <= k < b && (#[trigger] s[k]).1 == h.1;
                    assert(s[k].hi() == h.hi());
                }
            }
            assert forall|i: int, j: int| 0 <= i < j < r.len() implies (#[trigger] r[i]).hi() < (
            #[trigger] r[j]).lo() by {
                if j < a {
                    assert(s[i].hi() < s[j].lo());
                } else if j == a {
                    assert(s[i].hi() < h.lo());
                } else if i < a {
                    assert(s[i].hi() < s[j - a - 1 + b].lo());
                } else if i == a {
                    assert(h.hi() < s[j - a - 1 + b].lo());
                } else {
                    assert(s[i - a - 1 + b].hi() < s[j - a - 1 + b].lo());
                }
            }
        }
        assert(r[a].covers(w));
        assert forall|x: Interval<T>| #[trigger] covers_interval(s, x) implies covers_interval(
            r,
            x,
        ) by {
            let m = choose|i: int| 0 <= i < s.len() && (#[trigger] s[i]).covers(x);
            if m < a {
                assert(r[m].covers(x));
            } else if m < b {
                assert(h.covers(s[m]));
                assert(r[a].covers(x));
            } else {
                assert(r[m - b + a + 1].covers(x));
            }
        }
    }
}

/// Adding an interval adds exactly the interval's half positions to the
/// half positions that are covered.
pub proof fn lemma_with_interval_halves<T: TimeCoordinate>(s: Seq<Interval<T>>, w: Interval<T>)
    requires
        ascending(s),
        w.is_valid(),
    ensures
        forall|q: int| #[trigger]
            covers_half(with_interval(s, w), q) <==> covers_half(s, q) || w.has_half(q),
{
    let r = with_interval(s, w);
    if covers_interval(s, w) {
        let m = choose|i: int| 0 <= i < s.len() && (#[trigger] s[i]).covers(w);
        assert forall|q: int| #[trigger]
            covers_half(r, q) <==> covers_half(s, q) || w.has_half(q) by {
            if w.has_half(q) {
                assert(s[m].has_half(q));
            }
        }
    } else {
        let (a, b) = lemma_with_interval_shape(s, w);
        let h = r[a];
        assert forall|q: int| #[trigger]
            covers_half(r, q) <==> covers_half(s, q) || w.has_half(q) by {
            if covers_half(s, q) {
                let m = choose|i: int| 0 <= i < s.len() && (#[trigger] s[i]).has_half(q);
                if m < a {
                    assert(r[m].has_half(q));
                } else if m < b {
                    assert(h.covers(s[m]));
                    assert(r[a].has_half(q));
                } else {
                    assert(r[m - b + a + 1].has_half(q));
                }
            }
            if w.has_half(q) {
                assert(r[a].has_half(q));
            }
            if covers_half(r, q) && !w.has_half(q) {
                let m = choose|i: int| 0 <= i < r.len() && (#[trigger] r[i]).has_half(q);
                if m < a {
                    assert(s[m].has_half(q));
                } else if m > a {
                    assert(s[m - a - 1 + b].has_half(q));
                } else if q < 2 * w.lo() {
                    let k = choose|k: int| a <= k < b && (#[trigger] s[k]).0 == h.0;
                    assert(s[k].meets(w));
                    assert(s[k].has_half(q));
                } else {
                    let k = choose|k: int| a <= k < b && (#[trigger] s[k]).1 == h.1;
                    assert(s[k].meets(w));
                    assert(s[k].has_half(q));
                }
            }
        }
    }
}

/// A position is covered exactly when its half position is.
pub proof fn lemma_points_are_even_halves<T: TimeCoordinate>(s: Seq<Interval<T>>, p: int)
    ensures
        covers_point(s, p) <==> covers_half(s, 2 * p),
{
    if covers_point(s, p) {
        let i = choose|i: int| 0 <= i < s.len() && (#[trigger] s[i]).has_point(p);
        assert(s[i].has_half(2 * p));
    }
    if covers_half(s, 2 * p) {
        let i = choose|i: int| 0 <= i < s.len() && (#[trigger] s[i]).has_half(2 * p);
        assert(s[i].has_point(p));
    }
}

/// What remains of an ascending sequence after its first member is ascending.
pub proof fn lemma_ascending_rest<T: TimeCoordinate>(s: Seq<Interval<T>>)
    requires
        ascending(s),
        s.len() > 0,
    ensures
        ascending(s.drop_first()),
        separated(s) ==> separated(s.drop_first()),
        forall|i: int| 0 <= i < s.len() - 1 ==> (#[trigger] s.drop_first()[i]) == s[i + 1],
{
    let r = s.drop_first();
    assert(forall|i: int| 0 <= i < r.len() ==> (#[trigger] r[i]) == s[i + 1]);
    assert forall|i: int| 0 <= i < r.len() implies (#[trigger] r[i]).is_valid() by {
        assert(s[i + 1].is_valid());
    }
    assert forall|i: int, j: int| 0 <= i < j < r.len() implies (#[trigger] r[i]).hi() <= (
    #[trigger] r[j]).lo() && r[i].lo() < r[j].hi() by {
        assert(s[i + 1].hi() <= s[j + 1].lo());
    }
    if separated(s) {
        assert forall|i: int, j: int| 0 <= i < j < r.len() implies (#[trigger] r[i]).hi() < (
        #[trigger] r[j]).lo() by {
            assert(s[i + 1].hi() < s[j + 1].lo());
        }
    }
}

/// The condition under which a walk may stand at `cursor` before the
/// members `s`: the cursor lies at or after the start of the window, and
/// every member either ends before the window begins or ends at or after
/// the cursor.
pub open spec fn walk_ready<T: TimeCoordinate>(
    s: Seq<Interval<T>>,
    cursor: T,
    w: Interval<T>,
) -> bool {
    &&& ascending(s)
    &&& w.is_valid()
    &&& w.lo() <= cursor.position()
    &&& forall|i: int|
        0 <= i < s.len() ==> (#[trigger] s[i]).hi() < w.lo() || cursor.position() <= s[i].hi()
}

/// One step of a walk: the first member is valid, what follows it is
/// ascending and begins no earlier than the first member ends, and the walk
/// may go on over what follows, with the cursor where it was if the first
/// member ends before the window begins, and at the end of the first member
/// otherwise. A first member that neither ends before the window, nor holds
/// the cursor, nor begins after the cursor within the window, begins after
/// the window ends.
pub proof fn lemma_walk_step<T: TimeCoordinate>(s: Seq<Interval<T>>, cursor: T, w: Interval<T>)
    requires
        walk_ready(s, cursor, w),
        s.len() > 0,
    ensures
        s.first() == s[0],
        s.first().is_valid(),
        ascending(s.drop_first()),
        separated(s) ==> separated(s.drop_first()),
        forall|i: int| 0 <= i < s.len() - 1 ==> (#[trigger] s.drop_first()[i]) == s[i + 1],
        forall|i: int|
            0 <= i < s.len() - 1 ==> s.first().hi() <= (#[trigger] s.drop_first()[i]).lo(),
        separated(s) ==> forall|i: int|
            0 <= i < s.len() - 1 ==> s.first().hi() < (#[trigger] s.drop_first()[i]).lo(),
        s.first().hi() < w.lo() ==> walk_ready(s.drop_first(), cursor, w),
        s.first().hi() >= w.lo() ==> walk_ready(s.drop_first(), s.first().1, w),
        s.first().hi() >= w.lo() && !s.first().has_point(cursor.position()) && !(cursor.position()
            < s.first().lo() <= w.hi()) ==> s.first().lo() > w.hi(),
{
    let e = s.first();
    let rest = s.drop_first();
    let c = cursor.position();
    lemma_ascending_rest(s);
    assert(e == s[0]);
    assert(e.is_valid());
    assert forall|i: int| 0 <= i < rest.len() implies e.hi() <= (#[trigger] rest[i]).lo() by {
        assert(s[0].hi() <= s[i + 1].lo());
    }
    if separated(s) {
        assert forall|i: int| 0 <= i < rest.len() implies e.hi() < (#[trigger] rest[i]).lo() by {
            assert(s[0].hi() < s[i + 1].lo());
        }
    }
    if e.hi() < w.lo() {
        assert forall|i: int| 0 <= i < rest.len() implies (#[trigger] rest[i]).hi() < w.lo() || c
            <= rest[i].hi() by {
            assert(s[i + 1].hi() < w.lo() || c <= s[i + 1].hi());
        }
    } else {
        assert forall|i: int| 0 <= i < rest.len() implies (#[trigger] rest[i]).hi() < w.lo()
            || e.hi() <= rest[i].hi() by {
            assert(rest[i].is_valid());
        }
    }
}

/// No member of the sequence is a single point.
pub open spec fn no_point_member<T: TimeCoordinate>(s: Seq<Interval<T>>) -> bool {
    forall|i: int| 0 <= i < s.len() ==> (#[trigger] s[i]).lo() < s[i].hi()
}

/// What a walk yields: the stretches are ascending, each is longer than a
/// point and lies between the cursor and the end of the window; no member
/// reaches inside a stretch; every position from the cursor to the end of
/// the window lies in a stretch or in a member, provided the cursor is not
/// already at the end of the window; and the stretches are separated where
/// no member is a single point.
pub proof fn lemma_gaps_from<T: TimeCoordinate>(s: Seq<Interval<T>>, cursor: T, w: Interval<T>)
    requires
        walk_ready(s, cursor, w),
    ensures
        ascending(gaps_from(s, cursor, w)),
        forall|k: int|
            0 <= k < gaps_from(s, cursor, w).len() ==> {
                let g = #[trigger] gaps_from(s, cursor, w)[k];
                cursor.position() <= g.lo() < g.hi() <= w.hi()
            },
        forall|k: int, i: int|
            0 <= k < gaps_from(s, cursor, w).len() && 0 <= i < s.len() ==> {
                let g = #[trigger] gaps_from(s, cursor, w)[k];
                (#[trigger] s[i]).hi() <= g.lo() || g.hi() <= s[i].lo()
            },
        forall|p: int|
            cursor.position() <= p <= w.hi() && cursor.position() < w.hi() ==> #[trigger] covers_point(
                gaps_from(s, cursor, w),
                p,
            ) || covers_point(s, p),
        no_point_member(s) ==> separated(gaps_from(s, cursor, w)),
    decreases s.len(),
{
    let c = cursor.position();
    let g = gaps_from(s, cursor, w);
    if s.len() == 0 {
        lemma_final_gap(cursor, w);
    } else {
        let e = s.first();
        let rest = s.drop_first();
        lemma_walk_step(s, cursor, w);
        if no_point_member(s) {
            assert(s[0].lo() < s[0].hi());
            assert forall|i: int| 0 <= i < rest.len() implies (#[trigger] rest[i]).lo()
                < rest[i].hi() by {
                assert(s[i + 1].lo() < s[i + 1].hi());
            }
        }
        if e.hi() < w.lo() {
            lemma_gaps_from(rest, cursor, w);
            assert(g == gaps_from(rest, cursor, w));
            lemma_rest_members(s, g);
            assert forall|p: int| c <= p <= w.hi() && c < w.hi() implies #[trigger] covers_point(
                g,
                p,
            ) || covers_point(s, p) by {
                lemma_covers_point_rest(s, p);
            }
        } else if e.has_point(c) {
            lemma_gaps_from(rest, e.1, w);
            assert(g == gaps_from(rest, e.1, w));
            lemma_rest_members(s, g);
            assert forall|p: int| c <= p <= w.hi() && c < w.hi() implies #[trigger] covers_point(
                g,
                p,
            ) || covers_point(s, p) by {
                if p <= e.hi() {
                    assert(s[0].has_point(p));
                } else {
                    lemma_covers_point_rest(s, p);
                }
            }
        } else if c < e.lo() <= w.hi() {
            let first = Interval(cursor, e.0);
            let more = gaps_from(rest, e.1, w);
            lemma_gaps_from(rest, e.1, w);
            assert(g == seq![first] + more);
            assert(g[0] == first);
            assert(forall|k: int| 1 <= k < g.len() ==> g[k] == more[k - 1]);
            assert forall|k: int| 0 <= k < g.len() implies (#[trigger] g[k]).is_valid() by {
                if k > 0 {
                    assert(more[k - 1].is_valid());
                }
            }
            assert forall|i: int, j: int| 0 <= i < j < g.len() implies (#[trigger] g[i]).hi() <= (
            #[trigger] g[j]).lo() && g[i].lo() < g[j].hi() by {
                assert(e.hi() <= more[j - 1].lo() < more[j - 1].hi());
                if i > 0 {
                    assert(more[i - 1].hi() <= more[j - 1].lo());
                }
            }
            assert forall|k: int| 0 <= k < g.len() implies {
                let x = #[trigger] g[k];
                c <= x.lo() < x.hi() <= w.hi()
            } by {
                if k > 0 {
                    let x = more[k - 1];
                    assert(e.hi() <= x.lo() < x.hi() <= w.hi());
                }
            }
            if no_point_member(s) {
                assert forall|i: int, j: int| 0 <= i < j < g.len() implies (#[trigger] g[i]).hi()
                    < (#[trigger] g[j]).lo() by {
                    assert(e.hi() <= more[j - 1].lo());
                    if i > 0 {
                        assert(more[i - 1].hi() < more[j - 1].lo());
                    }
                }
            }
            assert forall|k: int, i: int| 0 <= k < g.len() && 0 <= i < s.len() implies {
                let x = #[trigger] g[k];
                (#[trigger] s[i]).hi() <= x.lo() || x.hi() <= s[i].lo()
            } by {
                if k > 0 {
                    let x = more[k - 1];
                    assert(e.hi() <= x.lo());
                    if i > 0 {
                        assert(rest[i - 1] == s[i]);
                    }
                } else if i > 0 {
                    assert(rest[i - 1] == s[i]);
                    assert(e.hi() <= rest[i - 1].lo());
                }
            }
            assert forall|p: int| c <= p <= w.hi() && c < w.hi() implies #[trigger] covers_point(
                g,
                p,
            ) || covers_point(s, p) by {
                if p <= e.lo() {
                    assert(g[0].has_point(p));
                } else if p <= e.hi() {
                    assert(s[0].has_point(p));
                } else {
                    lemma_covers_point_rest(s, p);
                    if covers_point(more, p) {
                        let k = choose|k: int| 0 <= k < more.len() && (#[trigger] more[k]).has_point(p);
                        assert(g[k + 1].has_point(p));
                    }
                }
            }
        } else {
            lemma_final_gap(cursor, w);
            assert(g == final_gap(cursor, w));
            assert forall|k: int, i: int| 0 <= k < g.len() && 0 <= i < s.len() implies {
                let x = #[trigger] g[k];
                (#[trigger] s[i]).hi() <= x.lo() || x.hi() <= s[i].lo()
            } by {
                if i > 0 {
                    assert(s[0].hi() <= s[i].lo());
                }
            }
        }
    }
}

/// Stretches that begin where the first member ends or later, and that no
/// later member reaches into, are reached into by no member.
proof fn lemma_rest_members<T: TimeCoordinate>(s: Seq<Interval<T>>, g: Seq<Interval<T>>)
    requires
        s.len() > 0,
        forall|k: int| 0 <= k < g.len() ==> s[0].hi() <= (#[trigger] g[k]).lo(),
        forall|k: int, i: int|
            0 <= k < g.len() && 0 <= i < s.len() - 1 ==> (#[trigger] s.drop_first()[i]).hi() <= (
            #[trigger] g[k]).lo() || g[k].hi() <= s.drop_first()[i].lo(),
    ensures
        forall|k: int, i: int|
            0 <= k < g.len() && 0 <= i < s.len() ==> (#[trigger] s[i]).hi() <= (
            #[trigger] g[k]).lo() || g[k].hi() <= s[i].lo(),
{
    let rest = s.drop_first();
    assert forall|k: int, i: int| 0 <= k < g.len() && 0 <= i < s.len() implies (
    #[trigger] s[i]).hi() <= (#[trigger] g[k]).lo() || g[k].hi() <= s[i].lo() by {
        if i > 0 {
            assert(rest[i - 1] == s[i]);
        }
    }
}

/// The last stretch of a walk, if there is one, runs from the cursor to the
/// end of the window.
proof fn lemma_final_gap<T: TimeCoordinate>(cursor: T, w: Interval<T>)
    requires
        w.is_valid(),
        w.lo() <= cursor.position(),
    ensures
        ascending(final_gap(cursor, w)),
        separated(final_gap(cursor, w)),
        forall|k: int|
            0 <= k < final_gap(cursor, w).len() ==> {
                let g = #[trigger] final_gap(cursor, w)[k];
                g == Interval(cursor, w.1) && cursor.position() < w.hi()
            },
        forall|p: int|
            cursor.position() <= p <= w.hi() && cursor.position() < w.hi() ==> #[trigger] covers_point(
                final_gap(cursor, w),
                p,
            ),
{
    let g = final_gap(cursor, w);
    if cursor.position() < w.hi() {
        assert(g[0] == Interval(cursor, w.1));
        assert forall|p: int| cursor.position() <= p <= w.hi() implies #[trigger] covers_point(
            g,
            p,
        ) by {
            assert(g[0].has_point(p));
        }
    }
}

/// A position held by a member after the first is held by a member.
proof fn lemma_covers_point_rest<T: TimeCoordinate>(s: Seq<Interval<T>>, p: int)
    requires
        s.len() > 0,
    ensures
        covers_point(s.drop_first(), p) ==> covers_point(s, p),
{
    let rest = s.drop_first();
    if covers_point(rest, p) {
        let k = choose|k: int| 0 <= k < rest.len() && (#[trigger] rest[k]).has_point(p);
        assert(s[k + 1].has_point(p));
    }
}

/// What is picked from a sequence are exactly its elements that meet the
/// condition.
pub proof fn lemma_filter_members<A>(s: Seq<A>, p: spec_fn(A) -> bool)
    ensures
        forall|e: A| #[trigger] s.filter(p).contains(e) <==> s.contains(e) && p(e),
    decreases s.len(),
{
    lemma_filter_last(s, p);
    let kept = s.filter(p);
    if s.len() > 0 {
        let rest = s.drop_last();
        let last = s.last();
        let sub = rest.filter(p);
        lemma_filter_members(rest, p);
        assert(forall|j: int| 0 <= j < rest.len() ==> rest[j] == s[j]);
        assert forall|e: A| #[trigger] kept.contains(e) <==> s.contains(e) && p(e) by {
            if kept.contains(e) {
                let k = choose|k: int| 0 <= k < kept.len() && kept[k] == e;
                if k < sub.len() {
                    assert(sub[k] == e);
                    assert(sub.contains(e));
                    let j = choose|j: int| 0 <= j < rest.len() && rest[j] == e;
                    assert(s[j] == e);
                } else {
                    assert(s[s.len() - 1] == e);
                }
            }
            if s.contains(e) && p(e) {
                let j = choose|j: int| 0 <= j < s.len() && s[j] == e;
                if j < rest.len() {
                    assert(rest[j] == e);
                    assert(rest.contains(e));
                    assert(sub.contains(e));
                    let k = choose|k: int| 0 <= k < sub.len() && sub[k] == e;
                    assert(kept[k] == e);
                } else {
                    assert(kept[kept.len() - 1] == e);
                }
            }
        }
    }
}

/// Whatever is picked from an ascending sequence is ascending, separated
/// where the sequence is, and made of members of the sequence.
pub proof fn lemma_filter_is_ascending<T: TimeCoordinate>(
    s: Seq<Interval<T>>,
    p: spec_fn(Interval<T>) -> bool,
)
    requires
        ascending(s),
    ensures
        ascending(s.filter(p)),
        separated(s) ==> separated(s.filter(p)),
        forall|k: int| 0 <= k < s.filter(p).len() ==> s.contains(#[trigger] s.filter(p)[k]),
    decreases s.len(),
{
    lemma_filter_last(s, p);
    if s.len() > 0 {
        let rest = s.drop_last();
        let last = s.last();
        let sub = rest.filter(p);
        let kept = s.filter(p);
        lemma_ascending_prefix(s, s.len() - 1);
        assert(rest =~= s.take(s.len() - 1));
        lemma_filter_is_ascending(rest, p);
        assert(forall|j: int| 0 <= j < rest.len() ==> rest[j] == s[j]);
        assert(last == s[s.len() - 1]);
        assert(last.is_valid());
        assert forall|k: int| 0 <= k < sub.len() implies s.contains(#[trigger] sub[k]) && sub[k].hi()
            <= last.lo() && sub[k].lo() < last.hi() && (separated(s) ==> sub[k].hi()
            < last.lo()) by {
            let j = choose|j: int| 0 <= j < rest.len() && rest[j] == sub[k];
            assert(s[j] == sub[k]);
            assert(s[j].hi() <= s[s.len() - 1].lo());
        }
        assert forall|k: int| 0 <= k < kept.len() implies s.contains(#[trigger] kept[k]) by {
            if k < sub.len() {
                assert(kept[k] == sub[k]);
            }
        }
        assert forall|i: int| 0 <= i < kept.len() implies (#[trigger] kept[i]).is_valid() by {
            if i < sub.len() {
                assert(kept[i] == sub[i]);
            }
        }
        assert forall|i: int, j: int| 0 <= i < j < kept.len() implies (#[trigger] kept[i]).hi() <= (
        #[trigger] kept[j]).lo() && kept[i].lo() < kept[j].hi() by {
            assert(kept[i] == sub[i]);
            if j < sub.len() {
                assert(kept[j] == sub[j]);
            }
        }
        if separated(s) {
            assert forall|i: int, j: int| 0 <= i < j < kept.len() implies (#[trigger] kept[i]).hi()
                < (#[trigger] kept[j]).lo() by {
                assert(kept[i] == sub[i]);
                if j < sub.len() {
                    assert(kept[j] == sub[j]);
                }
            }
        }
    }
}

} // verus!
