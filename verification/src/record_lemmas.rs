//! Lemmas about sequences of values ordered by time.

use vstd::prelude::*;
use crate::coordinate::TimeCoordinate;
use crate::cover_lemmas::{lemma_filter_last, lemma_filter_members};
use crate::interval::Interval;
use crate::record::{
    absorbed, earlier_than, handed_out, holds_time, ordered_by_time, placed, time_of, within,
    UniquelyIdentifiedTimeValue,
};

verus! {

/// In values ordered by time, those with a time before `p` are the first
/// `i` values, where `i` is the place at which the times reach `p`.
pub proof fn lemma_earlier_is_prefix<T: TimeCoordinate, V: UniquelyIdentifiedTimeValue<T>>(
    values: Seq<V>,
    p: int,
    i: int,
)
    requires
        0 <= i <= values.len(),
        forall|k: int| 0 <= k < i ==> time_of::<T, V>(#[trigger] values[k]) < p,
        forall|k: int| i <= k < values.len() ==> time_of::<T, V>(#[trigger] values[k]) >= p,
    ensures
        values.filter(earlier_than::<T, V>(p)) == values.take(i),
    decreases values.len(),
{
    lemma_filter_last(values, earlier_than::<T, V>(p));
    if values.len() == 0 {
        assert(values.take(0) =~= Seq::<V>::empty());
    } else {
        let rest = values.drop_last();
        assert(forall|k: int| 0 <= k < rest.len() ==> rest[k] == values[k]);
        if i == values.len() {
            lemma_earlier_is_prefix::<T, V>(rest, p, i - 1);
            assert(rest.take(i - 1) =~= rest);
            assert(rest.push(values.last()) =~= values.take(i));
        } else {
            lemma_earlier_is_prefix::<T, V>(rest, p, i);
            assert(rest.take(i) =~= values.take(i));
        }
    }
}

/// Putting a value at the place where the times reach its own keeps the
/// values ordered, provided its time is not yet held.
pub proof fn lemma_insert_keeps_order<T: TimeCoordinate, V: UniquelyIdentifiedTimeValue<T>>(
    values: Seq<V>,
    v: V,
    i: int,
)
    requires
        ordered_by_time::<T, V>(values),
        0 <= i <= values.len(),
        forall|k: int| 0 <= k < i ==> time_of::<T, V>(#[trigger] values[k]) < time_of::<T, V>(v),
        forall|k: int|
            i <= k < values.len() ==> time_of::<T, V>(#[trigger] values[k]) > time_of::<T, V>(v),
    ensures
        ordered_by_time::<T, V>(values.insert(i, v)),
        values.insert(i, v).len() == values.len() + 1,
        values.insert(i, v)[i] == v,
        forall|k: int| 0 <= k < i ==> (#[trigger] values.insert(i, v)[k]) == values[k],
        forall|k: int|
            i < k <= values.len() ==> (#[trigger] values.insert(i, v)[k]) == values[k - 1],
{
    let r = values.insert(i, v);
    values.insert_ensures(i, v);
    assert(forall|k: int| i < k <= values.len() ==> (#[trigger] r[k]) == values[k - 1]) by {
        assert forall|k: int| i < k <= values.len() implies (#[trigger] r[k]) == values[k - 1] by {
            assert(r[(k - 1) + 1] == values[k - 1]);
        }
    }
    assert forall|a: int, b: int| 0 <= a < b < r.len() implies time_of::<T, V>(#[trigger] r[a])
        < time_of::<T, V>(#[trigger] r[b]) by {
        if b < i {
            assert(r[a] == values[a] && r[b] == values[b]);
        } else if b == i {
            assert(r[a] == values[a]);
        } else if a < i {
            assert(r[a] == values[a] && r[b] == values[b - 1]);
        } else if a == i {
            assert(r[b] == values[b - 1]);
        } else {
            assert(r[a] == values[a - 1] && r[b] == values[b - 1]);
        }
    }
}

/// All but the last of values ordered by time are ordered by time.
pub proof fn lemma_ordered_prefix<T: TimeCoordinate, V: UniquelyIdentifiedTimeValue<T>>(
    values: Seq<V>,
)
    requires
        ordered_by_time::<T, V>(values),
        values.len() > 0,
    ensures
        ordered_by_time::<T, V>(values.drop_last()),
{
    let rest = values.drop_last();
    assert forall|i: int, j: int| 0 <= i < j < rest.len() implies time_of::<T, V>(
        #[trigger] rest[i],
    ) < time_of::<T, V>(#[trigger] rest[j]) by {
        assert(rest[i] == values[i] && rest[j] == values[j]);
    }
}

/// The place at which the times of ordered values reach `p`: the values
/// before it are exactly those with an earlier time.
pub proof fn lemma_rank<T: TimeCoordinate, V: UniquelyIdentifiedTimeValue<T>>(
    values: Seq<V>,
    p: int,
) -> (i: int)
    requires
        ordered_by_time::<T, V>(values),
    ensures
        0 <= i <= values.len(),
        forall|k: int| 0 <= k < i ==> time_of::<T, V>(#[trigger] values[k]) < p,
        forall|k: int| i <= k < values.len() ==> time_of::<T, V>(#[trigger] values[k]) >= p,
        values.filter(earlier_than::<T, V>(p)) == values.take(i),
    decreases values.len(),
{
    if values.len() == 0 {
        lemma_earlier_is_prefix::<T, V>(values, p, 0);
        0
    } else {
        let rest = values.drop_last();
        lemma_ordered_prefix::<T, V>(values);
        let i0 = lemma_rank::<T, V>(rest, p);
        assert(forall|k: int| 0 <= k < rest.len() ==> rest[k] == values[k]);
        let i = if time_of::<T, V>(values.last()) < p {
            if i0 < rest.len() {
                assert(time_of::<T, V>(values[i0]) < time_of::<T, V>(values[values.len() - 1]));
                assert(time_of::<T, V>(rest[i0]) >= p);
                assert(false);
            }
            values.len() as int
        } else {
            i0
        };
        lemma_earlier_is_prefix::<T, V>(values, p, i);
        i
    }
}

/// What offering one value does: the values stay ordered, the times held
/// grow by the time of the value where it lies in the interval, and the
/// values are the old ones and, at most, the new one.
pub proof fn lemma_placed<T: TimeCoordinate, V: UniquelyIdentifiedTimeValue<T>>(
    stored: Seq<V>,
    v: V,
    interval: Interval<T>,
)
    requires
        ordered_by_time::<T, V>(stored),
    ensures
        ordered_by_time::<T, V>(placed::<T, V>(stored, v, interval)),
        forall|p: int| #[trigger]
            holds_time::<T, V>(placed::<T, V>(stored, v, interval), p) <==> holds_time::<T, V>(
                stored,
                p,
            ) || (p == time_of::<T, V>(v) && interval.has_point(p)),
        forall|k: int|
            0 <= k < placed::<T, V>(stored, v, interval).len() ==> {
                let x = #[trigger] placed::<T, V>(stored, v, interval)[k];
                stored.contains(x) || (x == v && interval.has_point(time_of::<T, V>(v)))
            },
        forall|j: int|
            0 <= j < stored.len() ==> placed::<T, V>(stored, v, interval).contains(
                #[trigger] stored[j],
            ),
{
    let r = placed::<T, V>(stored, v, interval);
    let tv = time_of::<T, V>(v);
    if !interval.has_point(tv) || holds_time::<T, V>(stored, tv) {
        assert(r == stored);
        assert forall|k: int| 0 <= k < r.len() implies stored.contains(#[trigger] r[k]) by {
            assert(stored[k] == r[k]);
        }
    } else {
        let i = lemma_rank::<T, V>(stored, tv);
        assert forall|k: int| i <= k < stored.len() implies time_of::<T, V>(#[trigger] stored[k])
            > tv by {
            if time_of::<T, V>(stored[k]) == tv {
                assert(holds_time::<T, V>(stored, tv));
            }
        }
        assert(stored.take(i).len() == i);
        assert(r == stored.insert(i, v));
        lemma_insert_keeps_order::<T, V>(stored, v, i);
        assert forall|k: int| 0 <= k < r.len() implies stored.contains(#[trigger] r[k]) || (r[k]
            == v && interval.has_point(tv)) by {
            if k < i {
                assert(stored[k] == r[k]);
            } else if k > i {
                assert(stored[k - 1] == r[k]);
            }
        }
        assert forall|j: int| 0 <= j < stored.len() implies r.contains(#[trigger] stored[j]) by {
            if j < i {
                assert(r[j] == stored[j]);
            } else {
                assert(r[j + 1] == stored[j]);
            }
        }
        assert forall|p: int| #[trigger]
            holds_time::<T, V>(r, p) <==> holds_time::<T, V>(stored, p) || (p == tv
                && interval.has_point(p)) by {
            if holds_time::<T, V>(stored, p) {
                let j = choose|j: int|
                    0 <= j < stored.len() && time_of::<T, V>(#[trigger] stored[j]) == p;
                if j < i {
                    assert(r[j] == stored[j]);
                } else {
                    assert(r[j + 1] == stored[j]);
                }
            }
            if p == tv {
                assert(time_of::<T, V>(r[i]) == p);
            }
            if holds_time::<T, V>(r, p) && p != tv {
                let k = choose|k: int| 0 <= k < r.len() && time_of::<T, V>(#[trigger] r[k]) == p;
                if k < i {
                    assert(stored[k] == r[k]);
                } else {
                    assert(stored[k - 1] == r[k]);
                }
            }
        }
    }
}

/// What taking in a batch does: the values stay ordered, the times held
/// grow by the times of the batch that lie in the interval, and the values
/// are the old ones and values of the batch whose time lies in the
/// interval.
pub proof fn lemma_absorbed<T: TimeCoordinate, V: UniquelyIdentifiedTimeValue<T>>(
    stored: Seq<V>,
    batch: Seq<V>,
    interval: Interval<T>,
)
    requires
        ordered_by_time::<T, V>(stored),
    ensures
        ordered_by_time::<T, V>(absorbed::<T, V>(stored, batch, interval)),
        forall|p: int| #[trigger]
            holds_time::<T, V>(absorbed::<T, V>(stored, batch, interval), p) <==> holds_time::<
                T,
                V,
            >(stored, p) || (interval.has_point(p) && holds_time::<T, V>(batch, p)),
        forall|k: int|
            0 <= k < absorbed::<T, V>(stored, batch, interval).len() ==> {
                let x = #[trigger] absorbed::<T, V>(stored, batch, interval)[k];
                stored.contains(x) || (batch.contains(x) && interval.has_point(time_of::<T, V>(x)))
            },
        forall|j: int|
            0 <= j < stored.len() ==> absorbed::<T, V>(stored, batch, interval).contains(
                #[trigger] stored[j],
            ),
    decreases batch.len(),
{
    let a = absorbed::<T, V>(stored, batch, interval);
    if batch.len() == 0 {
        assert forall|k: int| 0 <= k < a.len() implies stored.contains(#[trigger] a[k]) by {
            assert(stored[k] == a[k]);
        }
        assert forall|j: int| 0 <= j < stored.len() implies a.contains(#[trigger] stored[j]) by {
            assert(a[j] == stored[j]);
        }
    } else {
        let v = batch.last();
        let rest = batch.drop_last();
        let mid = placed::<T, V>(stored, v, interval);
        lemma_placed::<T, V>(stored, v, interval);
        lemma_absorbed::<T, V>(mid, rest, interval);
        assert(a == absorbed::<T, V>(mid, rest, interval));
        assert(forall|k: int| 0 <= k < rest.len() ==> rest[k] == batch[k]);
        assert forall|p: int| #[trigger]
            holds_time::<T, V>(a, p) <==> holds_time::<T, V>(stored, p) || (interval.has_point(p)
                && holds_time::<T, V>(batch, p)) by {
            assert(holds_time::<T, V>(mid, p) <==> holds_time::<T, V>(stored, p) || (p
                == time_of::<T, V>(v) && interval.has_point(p)));
            if holds_time::<T, V>(rest, p) {
                let k = choose|k: int| 0 <= k < rest.len() && time_of::<T, V>(#[trigger] rest[k]) == p;
                assert(time_of::<T, V>(batch[k]) == p);
            }
            if p == time_of::<T, V>(v) {
                assert(time_of::<T, V>(batch[batch.len() - 1]) == p);
            }
            if holds_time::<T, V>(batch, p) {
                let k = choose|k: int|
                    0 <= k < batch.len() && time_of::<T, V>(#[trigger] batch[k]) == p;
                if k < rest.len() {
                    assert(time_of::<T, V>(rest[k]) == p);
                }
            }
        }
        assert forall|k: int| 0 <= k < a.len() implies {
            let x = #[trigger] a[k];
            stored.contains(x) || (batch.contains(x) && interval.has_point(time_of::<T, V>(x)))
        } by {
            let x = a[k];
            if mid.contains(x) {
                let m = choose|m: int| 0 <= m < mid.len() && mid[m] == x;
                assert(stored.contains(mid[m]) || (mid[m] == v && interval.has_point(
                    time_of::<T, V>(v),
                )));
                if !stored.contains(x) {
                    assert(batch[batch.len() - 1] == x);
                }
            } else {
                let m = choose|m: int| 0 <= m < rest.len() && rest[m] == x;
                assert(batch[m] == x);
            }
        }
        assert forall|j: int| 0 <= j < stored.len() implies a.contains(#[trigger] stored[j]) by {
            assert(mid.contains(stored[j]));
            let m = choose|m: int| 0 <= m < mid.len() && mid[m] == stored[j];
            assert(a.contains(mid[m]));
        }
    }
}

/// Offering a batch whose times within the interval are all held already
/// changes nothing.
pub proof fn lemma_absorbed_nothing_new<T: TimeCoordinate, V: UniquelyIdentifiedTimeValue<T>>(
    stored: Seq<V>,
    batch: Seq<V>,
    interval: Interval<T>,
)
    requires
        forall|k: int|
            0 <= k < batch.len() && interval.has_point(time_of::<T, V>(#[trigger] batch[k]))
                ==> holds_time::<T, V>(stored, time_of::<T, V>(batch[k])),
    ensures
        absorbed::<T, V>(stored, batch, interval) == stored,
    decreases batch.len(),
{
    if batch.len() > 0 {
        let rest = batch.drop_last();
        assert(forall|k: int| 0 <= k < rest.len() ==> rest[k] == batch[k]);
        assert(interval.has_point(time_of::<T, V>(batch[batch.len() - 1])) ==> holds_time::<T, V>(
            stored,
            time_of::<T, V>(batch[batch.len() - 1]),
        ));
        assert(placed::<T, V>(stored, batch.last(), interval) == stored);
        lemma_absorbed_nothing_new::<T, V>(stored, rest, interval);
    }
}

/// The values of a window, picked from values ordered by time: they are
/// ordered, they hold exactly the times of the window that were held, and
/// each of them is one of the values and lies in the window.
pub proof fn lemma_kept<T: TimeCoordinate, V: UniquelyIdentifiedTimeValue<T>>(
    values: Seq<V>,
    window: Interval<T>,
)
    requires
        ordered_by_time::<T, V>(values),
    ensures
        ordered_by_time::<T, V>(values.filter(within::<T, V>(window))),
        forall|p: int| #[trigger]
            holds_time::<T, V>(values.filter(within::<T, V>(window)), p) <==> holds_time::<T, V>(
                values,
                p,
            ) && window.has_point(p),
        forall|k: int|
            0 <= k < values.filter(within::<T, V>(window)).len() ==> {
                let x = #[trigger] values.filter(within::<T, V>(window))[k];
                values.contains(x) && window.has_point(time_of::<T, V>(x))
            },
    decreases values.len(),
{
    let keep = within::<T, V>(window);
    let kept = values.filter(keep);
    lemma_filter_last(values, keep);
    if values.len() > 0 {
        let rest = values.drop_last();
        let last = values.last();
        let sub = rest.filter(keep);
        lemma_ordered_prefix::<T, V>(values);
        lemma_kept::<T, V>(rest, window);
        assert(forall|k: int| 0 <= k < rest.len() ==> rest[k] == values[k]);
        assert forall|k: int| 0 <= k < sub.len() implies values.contains(#[trigger] sub[k])
            && time_of::<T, V>(sub[k]) < time_of::<T, V>(last) by {
            let m = choose|m: int| 0 <= m < rest.len() && rest[m] == sub[k];
            assert(values[m] == sub[k]);
            assert(time_of::<T, V>(values[m]) < time_of::<T, V>(values[values.len() - 1]));
        }
        assert forall|k: int| 0 <= k < kept.len() implies {
            let x = #[trigger] kept[k];
            values.contains(x) && window.has_point(time_of::<T, V>(x))
        } by {
            if k < sub.len() {
                assert(kept[k] == sub[k]);
            } else {
                assert(kept[k] == values[values.len() - 1]);
            }
        }
        assert forall|i: int, j: int| 0 <= i < j < kept.len() implies time_of::<T, V>(
            #[trigger] kept[i],
        ) < time_of::<T, V>(#[trigger] kept[j]) by {
            assert(kept[i] == sub[i]);
            if j < sub.len() {
                assert(kept[j] == sub[j]);
            }
        }
        assert forall|p: int| #[trigger]
            holds_time::<T, V>(kept, p) <==> holds_time::<T, V>(values, p) && window.has_point(
                p,
            ) by {
            if holds_time::<T, V>(kept, p) {
                let k = choose|k: int| 0 <= k < kept.len() && time_of::<T, V>(#[trigger] kept[k]) == p;
                let m = choose|m: int| 0 <= m < values.len() && values[m] == kept[k];
                assert(time_of::<T, V>(values[m]) == p);
            }
            if holds_time::<T, V>(values, p) && window.has_point(p) {
                let m = choose|m: int|
                    0 <= m < values.len() && time_of::<T, V>(#[trigger] values[m]) == p;
                if m < rest.len() {
                    assert(time_of::<T, V>(rest[m]) == p);
                    assert(holds_time::<T, V>(sub, p));
                    let k = choose|k: int| 0 <= k < sub.len() && time_of::<T, V>(#[trigger] sub[k]) == p;
                    assert(kept[k] == sub[k]);
                } else {
                    assert(kept[kept.len() - 1] == last);
                }
            }
        }
    }
}

/// The values of a window hold exactly the times of the window that the
/// values hold.
pub proof fn lemma_kept_times<T: TimeCoordinate, V: UniquelyIdentifiedTimeValue<T>>(
    values: Seq<V>,
    window: Interval<T>,
)
    ensures
        forall|p: int| #[trigger]
            holds_time::<T, V>(values.filter(within::<T, V>(window)), p) <==> holds_time::<T, V>(
                values,
                p,
            ) && window.has_point(p),
{
    let kept = values.filter(within::<T, V>(window));
    lemma_filter_members(values, within::<T, V>(window));
    assert forall|p: int| #[trigger]
        holds_time::<T, V>(kept, p) <==> holds_time::<T, V>(values, p) && window.has_point(p) by {
        if holds_time::<T, V>(kept, p) {
            let k = choose|k: int| 0 <= k < kept.len() && time_of::<T, V>(#[trigger] kept[k]) == p;
            assert(kept.contains(kept[k]));
            let j = choose|j: int| 0 <= j < values.len() && values[j] == kept[k];
            assert(time_of::<T, V>(values[j]) == p);
        }
        if holds_time::<T, V>(values, p) && window.has_point(p) {
            let j = choose|j: int|
                0 <= j < values.len() && time_of::<T, V>(#[trigger] values[j]) == p;
            assert(values.contains(values[j]));
            assert(kept.contains(values[j]));
            let k = choose|k: int| 0 <= k < kept.len() && kept[k] == values[j];
            assert(time_of::<T, V>(kept[k]) == p);
        }
    }
}

/// What is handed out carries, place by place, the times of what it was
/// cloned from: it holds the same times, and is ordered where that is.
pub proof fn lemma_handed_out_keeps_times<T: TimeCoordinate, V: UniquelyIdentifiedTimeValue<T>>(
    kept: Seq<V>,
    found: Seq<V>,
)
    requires
        handed_out::<T, V>(kept, found),
    ensures
        forall|k: int|
            0 <= k < kept.len() ==> time_of::<T, V>(#[trigger] found[k]) == time_of::<T, V>(kept[k]),
        forall|p: int| #[trigger] holds_time::<T, V>(found, p) <==> holds_time::<T, V>(kept, p),
        ordered_by_time::<T, V>(kept) ==> ordered_by_time::<T, V>(found),
{
    assert forall|k: int| 0 <= k < kept.len() implies time_of::<T, V>(#[trigger] found[k])
        == time_of::<T, V>(kept[k]) by {
        V::clone_keeps_time(kept[k], found[k]);
    }
    assert forall|p: int| #[trigger]
        holds_time::<T, V>(found, p) <==> holds_time::<T, V>(kept, p) by {
        if holds_time::<T, V>(found, p) {
            let k = choose|k: int| 0 <= k < found.len() && time_of::<T, V>(#[trigger] found[k]) == p;
            assert(time_of::<T, V>(kept[k]) == p);
        }
        if holds_time::<T, V>(kept, p) {
            let k = choose|k: int| 0 <= k < kept.len() && time_of::<T, V>(#[trigger] kept[k]) == p;
            assert(time_of::<T, V>(found[k]) == p);
        }
    }
    if ordered_by_time::<T, V>(kept) {
        assert forall|i: int, j: int| 0 <= i < j < found.len() implies time_of::<T, V>(
            #[trigger] found[i],
        ) < time_of::<T, V>(#[trigger] found[j]) by {
            assert(time_of::<T, V>(kept[i]) < time_of::<T, V>(kept[j]));
        }
    }
}

} // verus!
