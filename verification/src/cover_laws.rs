//! What holds of every interval set: the laws that relate adding intervals,
//! the positions covered, and the sub-ranges that are missing.

use vstd::prelude::*;
use crate::coordinate::TimeCoordinate;
use crate::cover::{
    ascending, covers_half, covers_interval, covers_point, final_gap, gaps, gaps_from, separated,
    with_interval, with_intervals,
};
use crate::cover_lemmas::{
    lemma_ascending_rest, lemma_gaps_from, lemma_walk_step, lemma_with_interval,
    lemma_with_interval_halves, no_point_member, walk_ready,
};
use crate::interval::Interval;

verus! {

/// Every interval of the sequence is valid.
pub open spec fn all_valid<T: TimeCoordinate>(s: Seq<Interval<T>>) -> bool {
    forall|k: int| 0 <= k < s.len() ==> (#[trigger] s[k]).is_valid()
}

/// Adding intervals one after another keeps a set sorted, keeps it
/// canonical where it was canonical, keeps within one member whatever lay
/// within one member before, and leaves each added interval within one
/// member.
pub proof fn law_growth_keeps_order<T: TimeCoordinate>(
    s: Seq<Interval<T>>,
    added: Seq<Interval<T>>,
)
    requires
        ascending(s),
        all_valid(added),
    ensures
        ascending(with_intervals(s, added)),
        separated(s) ==> separated(with_intervals(s, added)),
        forall|x: Interval<T>| #[trigger]
            covers_interval(s, x) ==> covers_interval(with_intervals(s, added), x),
        forall|k: int|
            0 <= k < added.len() ==> covers_interval(with_intervals(s, added), #[trigger] added[k]),
    decreases added.len(),
{
    if added.len() > 0 {
        let before = added.drop_last();
        let last = added.last();
        let mid = with_intervals(s, before);
        assert(forall|k: int| 0 <= k < before.len() ==> before[k] == added[k]);
        law_growth_keeps_order(s, before);
        lemma_with_interval(mid, last);
        let r = with_interval(mid, last);
        assert forall|x: Interval<T>| #[trigger] covers_interval(s, x) implies covers_interval(
            r,
            x,
        ) by {
            assert(covers_interval(mid, x));
        }
        assert forall|k: int| 0 <= k < added.len() implies covers_interval(
            r,
            #[trigger] added[k],
        ) by {
            if k < before.len() {
                assert(covers_interval(mid, before[k]));
            }
        }
    }
}

/// A set grown from the empty set by adding intervals is canonical: its
/// members are sorted, and no two of them overlap or share an endpoint.
pub proof fn law_grown_set_is_canonical<T: TimeCoordinate>(added: Seq<Interval<T>>)
    requires
        all_valid(added),
    ensures
        separated(with_intervals(Seq::<Interval<T>>::empty(), added)),
{
    law_growth_keeps_order(Seq::<Interval<T>>::empty(), added);
}

/// After intervals have been added to a set, a position lies in a member
/// exactly when it lay in a member before or lies in one of the added
/// intervals.
pub proof fn law_growth_covers_union<T: TimeCoordinate>(
    s: Seq<Interval<T>>,
    added: Seq<Interval<T>>,
    p: int,
)
    requires
        ascending(s),
        all_valid(added),
    ensures
        covers_point(with_intervals(s, added), p) <==> covers_point(s, p) || covers_point(
            added,
            p,
        ),
    decreases added.len(),
{
    if added.len() > 0 {
        let before = added.drop_last();
        let last = added.last();
        let mid = with_intervals(s, before);
        assert(forall|k: int| 0 <= k < before.len() ==> before[k] == added[k]);
        law_growth_keeps_order(s, before);
        law_growth_covers_union(s, before, p);
        lemma_with_interval(mid, last);
        assert(covers_point(with_interval(mid, last), p) <==> covers_point(mid, p)
            || last.has_point(p));
        if covers_point(before, p) {
            let k = choose|k: int| 0 <= k < before.len() && (#[trigger] before[k]).has_point(p);
            assert(added[k].has_point(p));
        }
        if last.has_point(p) {
            assert(added[added.len() - 1].has_point(p));
        }
        if covers_point(added, p) {
            let k = choose|k: int| 0 <= k < added.len() && (#[trigger] added[k]).has_point(p);
            if k < before.len() {
                assert(before[k].has_point(p));
            }
        }
    }
}

/// In a set grown from the empty set, a position lies in a member exactly
/// when it lies in one of the intervals that were added.
pub proof fn law_grown_set_covers_union<T: TimeCoordinate>(added: Seq<Interval<T>>, p: int)
    requires
        all_valid(added),
    ensures
        covers_point(with_intervals(Seq::<Interval<T>>::empty(), added), p) <==> covers_point(
            added,
            p,
        ),
{
    law_growth_covers_union(Seq::<Interval<T>>::empty(), added, p);
}

/// The missing sub-ranges of a window that is longer than a point,
/// together with what the set covers of the window, make up the window:
/// a position lies in the window exactly when it lies in a missing
/// sub-range or in a member and the window.
pub proof fn law_missing_completes_window<T: TimeCoordinate>(
    s: Seq<Interval<T>>,
    w: Interval<T>,
    p: int,
)
    requires
        ascending(s),
        w.lo() < w.hi(),
    ensures
        w.has_point(p) <==> covers_point(gaps(s, w), p) || (covers_point(s, p) && w.has_point(p)),
{
    lemma_gaps_from(s, w.0, w);
    let g = gaps(s, w);
    if covers_point(g, p) {
        let k = choose|k: int| 0 <= k < g.len() && (#[trigger] g[k]).has_point(p);
        assert(w.lo() <= g[k].lo() < g[k].hi() <= w.hi());
    }
    if w.has_point(p) {
        assert(covers_point(gaps_from(s, w.0, w), p) || covers_point(s, p));
    }
}

/// The missing sub-ranges stand in order, each ending no later than the
/// next begins, and no member of the set reaches inside one of them.
/// Where no member of the set is a single point, the missing sub-ranges
/// are pairwise disjoint.
pub proof fn law_missing_is_apart<T: TimeCoordinate>(s: Seq<Interval<T>>, w: Interval<T>)
    requires
        ascending(s),
        w.is_valid(),
    ensures
        ascending(gaps(s, w)),
        forall|k: int, i: int|
            0 <= k < gaps(s, w).len() && 0 <= i < s.len() ==> (#[trigger] s[i]).hi() <= (
            #[trigger] gaps(s, w)[k]).lo() || gaps(s, w)[k].hi() <= s[i].lo(),
        no_point_member(s) ==> separated(gaps(s, w)),
{
    lemma_gaps_from(s, w.0, w);
}

/// Nothing is missing of a window that lies within one member.
pub proof fn law_nothing_missing_when_covered<T: TimeCoordinate>(
    s: Seq<Interval<T>>,
    w: Interval<T>,
)
    requires
        ascending(s),
        w.is_valid(),
        covers_interval(s, w),
    ensures
        gaps(s, w) == Seq::<Interval<T>>::empty(),
{
    lemma_gaps_from(s, w.0, w);
    let g = gaps(s, w);
    if g.len() > 0 {
        let m = choose|i: int| 0 <= i < s.len() && (#[trigger] s[i]).covers(w);
        assert(w.lo() <= g[0].lo() < g[0].hi() <= w.hi());
        assert(s[m].hi() <= g[0].lo() || g[0].hi() <= s[m].lo());
        assert(false);
    }
    assert(g =~= Seq::<Interval<T>>::empty());
}

/// A walk over a canonical set that yields no stretch ends with the cursor
/// at or past the end of the window, or has met a member that holds both
/// the cursor and the end of the window.
proof fn lemma_no_gaps<T: TimeCoordinate>(s: Seq<Interval<T>>, cursor: T, w: Interval<T>)
    requires
        walk_ready(s, cursor, w),
        separated(s),
        gaps_from(s, cursor, w).len() == 0,
    ensures
        cursor.position() >= w.hi() || exists|i: int|
            0 <= i < s.len() && (#[trigger] s[i]).lo() <= cursor.position() && w.hi() <= s[i].hi(),
    decreases s.len(),
{
    let c = cursor.position();
    if s.len() > 0 {
        let e = s.first();
        let rest = s.drop_first();
        lemma_walk_step(s, cursor, w);
        if e.hi() < w.lo() {
            lemma_no_gaps(rest, cursor, w);
            if c < w.hi() {
                let i = choose|i: int|
                    0 <= i < rest.len() && (#[trigger] rest[i]).lo() <= c && w.hi() <= rest[i].hi();
                assert(s[i + 1].lo() <= c && w.hi() <= s[i + 1].hi());
            }
        } else if e.has_point(c) {
            lemma_no_gaps(rest, e.1, w);
            if e.hi() >= w.hi() {
                assert(s[0].lo() <= c && w.hi() <= s[0].hi());
            } else {
                let i = choose|i: int|
                    0 <= i < rest.len() && (#[trigger] rest[i]).lo() <= e.hi() && w.hi()
                        <= rest[i].hi();
                assert(s[0].hi() < s[i + 1].lo());
                assert(false);
            }
        } else if c < e.lo() <= w.hi() {
            assert(gaps_from(s, cursor, w).len() > 0);
        } else if e.lo() > w.hi() {
        } else {
            assert(false);
        }
    }
}

/// Where nothing is missing of a window that is longer than a point, the
/// window lies within one member of a canonical set.
pub proof fn law_covered_when_nothing_missing<T: TimeCoordinate>(
    s: Seq<Interval<T>>,
    w: Interval<T>,
)
    requires
        separated(s),
        w.lo() < w.hi(),
        gaps(s, w).len() == 0,
    ensures
        covers_interval(s, w),
{
    lemma_no_gaps(s, w.0, w);
    let i = choose|i: int|
        0 <= i < s.len() && (#[trigger] s[i]).lo() <= w.lo() && w.hi() <= s[i].hi();
    assert(s[i].covers(w));
}

/// In a canonical set only one member holds a given position.
proof fn lemma_one_member_per_point<T: TimeCoordinate>(s: Seq<Interval<T>>, i: int, j: int, p: int)
    requires
        separated(s),
        0 <= i < s.len(),
        0 <= j < s.len(),
        s[i].has_point(p),
        s[j].has_point(p),
    ensures
        i == j,
{
    if i < j {
        assert(s[i].hi() < s[j].lo());
    } else if j < i {
        assert(s[j].hi() < s[i].lo());
    }
}

/// The window has been reached up to `cursor`: one member of `full` holds
/// both the start of the window and the cursor.
spec fn reached<T: TimeCoordinate>(full: Seq<Interval<T>>, w: Interval<T>, cursor: T) -> bool {
    exists|m: int|
        0 <= m < full.len() && (#[trigger] full[m]).has_point(w.lo()) && full[m].has_point(
            cursor.position(),
        )
}

/// A canonical set in which every member met by a walk and every stretch
/// the walk yields lies within one member holds the whole window in one
/// member.
proof fn lemma_walk_is_bridged<T: TimeCoordinate>(
    s: Seq<Interval<T>>,
    cursor: T,
    w: Interval<T>,
    full: Seq<Interval<T>>,
)
    requires
        walk_ready(s, cursor, w),
        separated(full),
        forall|i: int| 0 <= i < s.len() ==> covers_interval(full, #[trigger] s[i]),
        forall|k: int|
            0 <= k < gaps_from(s, cursor, w).len() ==> covers_interval(
                full,
                #[trigger] gaps_from(s, cursor, w)[k],
            ),
        (cursor.position() == w.lo() && w.lo() < w.hi()) || reached(full, w, cursor),
    ensures
        covers_interval(full, w),
    decreases s.len(),
{
    let c = cursor.position();
    let g = gaps_from(s, cursor, w);
    if s.len() == 0 || (s.first().hi() >= w.lo() && !s.first().has_point(c) && !(c
        < s.first().lo() <= w.hi()) && s.first().lo() > w.hi()) {
        assert(g == final_gap(cursor, w));
        if c < w.hi() {
            assert(g[0] == Interval(cursor, w.1));
            let m1 = choose|m: int| 0 <= m < full.len() && (#[trigger] full[m]).covers(g[0]);
            if reached(full, w, cursor) {
                let m2 = choose|m: int|
                    0 <= m < full.len() && (#[trigger] full[m]).has_point(w.lo())
                        && full[m].has_point(c);
                lemma_one_member_per_point(full, m1, m2, c);
            }
            assert(full[m1].covers(w));
        } else {
            let m2 = choose|m: int|
                0 <= m < full.len() && (#[trigger] full[m]).has_point(w.lo()) && full[m].has_point(
                    c,
                );
            assert(full[m2].covers(w));
        }
    } else {
        let e = s.first();
        let rest = s.drop_first();
        lemma_walk_step(s, cursor, w);
        assert(forall|i: int| 0 <= i < rest.len() ==> covers_interval(full, #[trigger] rest[i])) by {
            assert forall|i: int| 0 <= i < rest.len() implies covers_interval(
                full,
                #[trigger] rest[i],
            ) by {
                assert(rest[i] == s[i + 1]);
            }
        }
        if e.hi() < w.lo() {
            lemma_walk_is_bridged(rest, cursor, w, full);
        } else {
            let m1 = choose|m: int| 0 <= m < full.len() && (#[trigger] full[m]).covers(s[0]);
            if e.has_point(c) {
                assert(g == gaps_from(rest, e.1, w));
                if reached(full, w, cursor) {
                    let m2 = choose|m: int|
                        0 <= m < full.len() && (#[trigger] full[m]).has_point(w.lo())
                            && full[m].has_point(c);
                    lemma_one_member_per_point(full, m1, m2, c);
                }
                assert(full[m1].has_point(w.lo()) && full[m1].has_point(e.hi()));
            } else {
                assert(c < e.lo() <= w.hi());
                let more = gaps_from(rest, e.1, w);
                assert(g == seq![Interval(cursor, e.0)] + more);
                assert(g[0] == Interval(cursor, e.0));
                assert forall|k: int| 0 <= k < more.len() implies covers_interval(
                    full,
                    #[trigger] more[k],
                ) by {
                    assert(g[k + 1] == more[k]);
                }
                let m3 = choose|m: int| 0 <= m < full.len() && (#[trigger] full[m]).covers(g[0]);
                lemma_one_member_per_point(full, m1, m3, e.lo());
                if reached(full, w, cursor) {
                    let m2 = choose|m: int|
                        0 <= m < full.len() && (#[trigger] full[m]).has_point(w.lo())
                            && full[m].has_point(c);
                    lemma_one_member_per_point(full, m3, m2, c);
                }
                assert(full[m1].has_point(w.lo()) && full[m1].has_point(e.hi()));
            }
            assert(reached(full, w, e.1));
            lemma_walk_is_bridged(rest, e.1, w, full);
        }
    }
}

/// Once every missing sub-range of a window has been added to a canonical
/// set, the window lies within one member: nothing of it is missing any
/// more. The window must be longer than a point.
pub proof fn law_filling_gaps_covers_window<T: TimeCoordinate>(
    s: Seq<Interval<T>>,
    w: Interval<T>,
)
    requires
        separated(s),
        w.lo() < w.hi(),
    ensures
        covers_interval(with_intervals(s, gaps(s, w)), w),
{
    let g = gaps(s, w);
    let full = with_intervals(s, g);
    lemma_gaps_from(s, w.0, w);
    assert(all_valid(g));
    law_growth_keeps_order(s, g);
    assert forall|i: int| 0 <= i < s.len() implies covers_interval(full, #[trigger] s[i]) by {
        assert(s[i].is_valid());
        assert(s[i].covers(s[i]));
        assert(covers_interval(s, s[i]));
    }
    lemma_walk_is_bridged(s, w.0, w, full);
}

/// A canonical set is told by the intervals it holds: two canonical sets
/// in which the same intervals lie within one member have the same
/// members.
pub proof fn law_canonical_sets_are_unique<T: TimeCoordinate>(
    a: Seq<Interval<T>>,
    b: Seq<Interval<T>>,
)
    requires
        separated(a),
        separated(b),
        forall|x: Interval<T>| covers_interval(a, x) <==> covers_interval(b, x),
    ensures
        a == b,
    decreases a.len(),
{
    if a.len() == 0 {
        if b.len() > 0 {
            assert(b[0].is_valid());
            assert(b[0].covers(b[0]));
            assert(covers_interval(b, b[0]));
            assert(covers_interval(a, b[0]));
        }
        assert(a =~= b);
    } else {
        lemma_first_members_agree(a, b);
        lemma_first_members_agree(b, a);
        assert(b.len() > 0);
        assert(a[0].lo() == b[0].lo() && a[0].hi() == b[0].hi()) by {
            assert(a[0].is_valid() && b[0].is_valid());
        }
        T::position_is_injective(a[0].0, b[0].0);
        T::position_is_injective(a[0].1, b[0].1);
        assert(a[0] == b[0]);
        let ra = a.drop_first();
        let rb = b.drop_first();
        lemma_ascending_rest(a);
        lemma_ascending_rest(b);
        assert forall|x: Interval<T>| covers_interval(ra, x) <==> covers_interval(rb, x) by {
            lemma_rest_holds_the_rest(a, x);
            lemma_rest_holds_the_rest(b, x);
            assert(covers_interval(a, x) <==> covers_interval(b, x));
        }
        law_canonical_sets_are_unique(ra, rb);
        assert(a =~= seq![a[0]] + ra);
        assert(b =~= seq![b[0]] + rb);
    }
}

/// Where a canonical set holds every interval that another holds, its
/// first member does not begin after the first member of the other, and
/// holds it if it begins with it.
proof fn lemma_first_members_agree<T: TimeCoordinate>(a: Seq<Interval<T>>, b: Seq<Interval<T>>)
    requires
        separated(a),
        separated(b),
        a.len() > 0,
        forall|x: Interval<T>| covers_interval(a, x) <==> covers_interval(b, x),
    ensures
        b.len() > 0,
        b[0].lo() <= a[0].lo(),
        b[0].lo() == a[0].lo() ==> a[0].hi() <= b[0].hi(),
{
    assert(a[0].is_valid());
    assert(a[0].covers(a[0]));
    assert(covers_interval(a, a[0]));
    assert(covers_interval(b, a[0]));
    let j = choose|j: int| 0 <= j < b.len() && (#[trigger] b[j]).covers(a[0]);
    assert(b[0].is_valid());
    if j > 0 {
        assert(b[0].hi() < b[j].lo());
    }
}

/// In a canonical set an interval lies within a member after the first
/// exactly when it lies within a member and not within the first.
proof fn lemma_rest_holds_the_rest<T: TimeCoordinate>(a: Seq<Interval<T>>, x: Interval<T>)
    requires
        separated(a),
        a.len() > 0,
    ensures
        covers_interval(a.drop_first(), x) <==> covers_interval(a, x) && !a[0].covers(x),
{
    let rest = a.drop_first();
    assert(forall|i: int| 0 <= i < rest.len() ==> rest[i] == a[i + 1]);
    if covers_interval(rest, x) {
        let i = choose|i: int| 0 <= i < rest.len() && (#[trigger] rest[i]).covers(x);
        assert(a[i + 1].covers(x));
        assert(a[0].hi() < a[i + 1].lo());
    }
    if covers_interval(a, x) && !a[0].covers(x) {
        let i = choose|i: int| 0 <= i < a.len() && (#[trigger] a[i]).covers(x);
        assert(rest[i - 1].covers(x));
    }
}

/// A canonical set that covers every half position another canonical set
/// covers holds every interval the other holds.
proof fn lemma_halves_tell_intervals<T: TimeCoordinate>(a: Seq<Interval<T>>, b: Seq<Interval<T>>)
    requires
        separated(a),
        separated(b),
        forall|q: int| covers_half(a, q) ==> covers_half(b, q),
    ensures
        forall|x: Interval<T>| covers_interval(a, x) ==> covers_interval(b, x),
{
    assert forall|x: Interval<T>| covers_interval(a, x) implies covers_interval(b, x) by {
        let i = choose|i: int| 0 <= i < a.len() && (#[trigger] a[i]).covers(x);
        let m = a[i];
        assert(m.is_valid());
        assert(m.has_half(2 * m.lo()));
        assert(covers_half(a, 2 * m.lo()));
        let j = choose|j: int| 0 <= j < b.len() && (#[trigger] b[j]).has_half(2 * m.lo());
        let n = b[j];
        if n.hi() < m.hi() {
            let q = 2 * n.hi() + 1;
            assert(m.has_half(q));
            assert(covers_half(a, q));
            let k = choose|k: int| 0 <= k < b.len() && (#[trigger] b[k]).has_half(q);
            if k < j {
                assert(b[k].hi() < b[j].lo());
            } else if k > j {
                assert(b[j].hi() < b[k].lo());
            }
            assert(false);
        }
        assert(b[j].covers(x));
    }
}

/// A canonical set is told by what it covers: two canonical sets that
/// cover the same half positions have the same members.
pub proof fn law_canonical_sets_are_told_by_what_they_cover<T: TimeCoordinate>(
    a: Seq<Interval<T>>,
    b: Seq<Interval<T>>,
)
    requires
        separated(a),
        separated(b),
        forall|q: int| covers_half(a, q) <==> covers_half(b, q),
    ensures
        a == b,
{
    lemma_halves_tell_intervals(a, b);
    lemma_halves_tell_intervals(b, a);
    law_canonical_sets_are_unique(a, b);
}

/// After intervals have been added to a set, a half position is covered
/// exactly when it was covered before or lies in one of the added
/// intervals.
pub proof fn law_growth_covers_halves<T: TimeCoordinate>(
    s: Seq<Interval<T>>,
    added: Seq<Interval<T>>,
    q: int,
)
    requires
        ascending(s),
        all_valid(added),
    ensures
        covers_half(with_intervals(s, added), q) <==> covers_half(s, q) || covers_half(added, q),
    decreases added.len(),
{
    if added.len() > 0 {
        let before = added.drop_last();
        let last = added.last();
        let mid = with_intervals(s, before);
        assert(forall|k: int| 0 <= k < before.len() ==> before[k] == added[k]);
        law_growth_keeps_order(s, before);
        law_growth_covers_halves(s, before, q);
        lemma_with_interval_halves(mid, last);
        assert(covers_half(with_interval(mid, last), q) <==> covers_half(mid, q) || last.has_half(
            q,
        ));
        if covers_half(before, q) {
            let k = choose|k: int| 0 <= k < before.len() && (#[trigger] before[k]).has_half(q);
            assert(added[k].has_half(q));
        }
        if last.has_half(q) {
            assert(added[added.len() - 1].has_half(q));
        }
        if covers_half(added, q) {
            let k = choose|k: int| 0 <= k < added.len() && (#[trigger] added[k]).has_half(q);
            if k < before.len() {
                assert(before[k].has_half(q));
            }
        }
    }
}

/// What a canonical set grows into is told by what is added, not by how:
/// two sequences of intervals that cover the same half positions, added
/// to the same canonical set, give the same set. So neither the order of
/// the inserts nor the way the intervals are cut matters.
pub proof fn law_growth_is_told_by_what_is_added<T: TimeCoordinate>(
    s: Seq<Interval<T>>,
    x: Seq<Interval<T>>,
    y: Seq<Interval<T>>,
)
    requires
        separated(s),
        all_valid(x),
        all_valid(y),
        forall|q: int| covers_half(x, q) <==> covers_half(y, q),
    ensures
        with_intervals(s, x) == with_intervals(s, y),
{
    law_growth_keeps_order(s, x);
    law_growth_keeps_order(s, y);
    assert forall|q: int|
        covers_half(with_intervals(s, x), q) <==> covers_half(with_intervals(s, y), q) by {
        law_growth_covers_halves(s, x, q);
        law_growth_covers_halves(s, y, q);
    }
    law_canonical_sets_are_told_by_what_they_cover(with_intervals(s, x), with_intervals(s, y));
}

/// Two intervals added to a canonical set give the same set in either
/// order.
pub proof fn law_order_of_inserts_does_not_matter<T: TimeCoordinate>(
    s: Seq<Interval<T>>,
    a: Interval<T>,
    b: Interval<T>,
)
    requires
        separated(s),
        a.is_valid(),
        b.is_valid(),
    ensures
        with_interval(with_interval(s, a), b) == with_interval(with_interval(s, b), a),
{
    let ab = with_interval(with_interval(s, a), b);
    let ba = with_interval(with_interval(s, b), a);
    lemma_with_interval(s, a);
    lemma_with_interval(s, b);
    lemma_with_interval(with_interval(s, a), b);
    lemma_with_interval(with_interval(s, b), a);
    lemma_with_interval_halves(s, a);
    lemma_with_interval_halves(s, b);
    lemma_with_interval_halves(with_interval(s, a), b);
    lemma_with_interval_halves(with_interval(s, b), a);
    assert forall|q: int| covers_half(ab, q) <==> covers_half(ba, q) by {
        assert(covers_half(ab, q) <==> covers_half(with_interval(s, a), q) || b.has_half(q));
        assert(covers_half(ba, q) <==> covers_half(with_interval(s, b), q) || a.has_half(q));
        assert(covers_half(with_interval(s, a), q) <==> covers_half(s, q) || a.has_half(q));
        assert(covers_half(with_interval(s, b), q) <==> covers_half(s, q) || b.has_half(q));
    }
    law_canonical_sets_are_told_by_what_they_cover(ab, ba);
}

} // verus!
