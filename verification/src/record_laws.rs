//! What holds of every interval store: the laws that relate the inserts
//! made and the values handed out.

use vstd::prelude::*;
use crate::coordinate::TimeCoordinate;
use crate::cover::{covers_interval, covers_point, with_interval, with_intervals};
use crate::cover_lemmas::lemma_with_interval;
use crate::interval::Interval;
use crate::record::{
    absorbed, after_insert, agrees, handed_out, holds_time, intervals_of, offered, offered_at,
    ordered_by_time, replay, replay_from, time_of, well_formed, within, StoreView,
    UniquelyIdentifiedTimeValue,
};
use crate::record_lemmas::{
    lemma_absorbed, lemma_absorbed_nothing_new, lemma_handed_out_keeps_times, lemma_kept,
};

verus! {

/// An insert that is accepted leaves the store well formed, with the
/// interval known, and with exactly the times it held before and the times
/// of the batch that lie in the interval; every value it holds was held
/// before or belongs to the batch and lies in the interval.
pub proof fn law_insert_takes_in_the_batch<T: TimeCoordinate, V: UniquelyIdentifiedTimeValue<T>>(
    store: StoreView<T, V>,
    interval: Interval<T>,
    batch: Seq<V>,
)
    requires
        well_formed(store),
        interval.is_valid(),
        after_insert(store, interval, batch) is Some,
    ensures
        well_formed(after_insert(store, interval, batch).unwrap()),
        covers_interval(after_insert(store, interval, batch).unwrap().known, interval),
        forall|p: int| #[trigger]
            holds_time::<T, V>(after_insert(store, interval, batch).unwrap().values, p)
                <==> holds_time::<T, V>(store.values, p) || (interval.has_point(p) && holds_time::<
                T,
                V,
            >(batch, p)),
        forall|k: int|
            0 <= k < after_insert(store, interval, batch).unwrap().values.len() ==> {
                let x = #[trigger] after_insert(store, interval, batch).unwrap().values[k];
                store.values.contains(x) || (batch.contains(x) && interval.has_point(
                    time_of::<T, V>(x),
                ))
            },
{
    let next = after_insert(store, interval, batch).unwrap();
    lemma_with_interval(store.known, interval);
    lemma_absorbed::<T, V>(store.values, batch, interval);
    assert forall|k: int| 0 <= k < next.values.len() implies covers_point(
        next.known,
        time_of::<T, V>(#[trigger] next.values[k]),
    ) by {
        let x = next.values[k];
        let p = time_of::<T, V>(x);
        if store.values.contains(x) {
            let j = choose|j: int| 0 <= j < store.values.len() && store.values[j] == x;
            assert(covers_point(store.known, time_of::<T, V>(store.values[j])));
        }
        assert(covers_point(with_interval(store.known, interval), p) <==> covers_point(
            store.known,
            p,
        ) || interval.has_point(p));
    }
}

/// An insert made a second time, right after it was accepted, is accepted
/// again and changes nothing.
pub proof fn law_insert_is_idempotent<T: TimeCoordinate, V: UniquelyIdentifiedTimeValue<T>>(
    store: StoreView<T, V>,
    interval: Interval<T>,
    batch: Seq<V>,
)
    requires
        well_formed(store),
        interval.is_valid(),
        after_insert(store, interval, batch) is Some,
    ensures
        after_insert(after_insert(store, interval, batch).unwrap(), interval, batch)
            == after_insert(store, interval, batch),
{
    let next = after_insert(store, interval, batch).unwrap();
    law_insert_takes_in_the_batch(store, interval, batch);
    assert forall|p: int|
        #![trigger holds_time::<T, V>(next.values, p)]
        #![trigger holds_time::<T, V>(batch, p)]
        interval.has_point(p) && covers_point(next.known, p) implies (holds_time::<T, V>(
        next.values,
        p,
    ) <==> holds_time::<T, V>(batch, p)) by {
        if holds_time::<T, V>(store.values, p) {
            let k = choose|k: int|
                0 <= k < store.values.len() && time_of::<T, V>(#[trigger] store.values[k]) == p;
            assert(covers_point(store.known, time_of::<T, V>(store.values[k])));
            assert(holds_time::<T, V>(batch, p));
        }
    }
    assert(agrees::<T, V>(next.known, next.values, interval, batch));
    assert(with_interval(next.known, interval) == next.known);
    assert forall|k: int|
        0 <= k < batch.len() && interval.has_point(
            time_of::<T, V>(#[trigger] batch[k]),
        ) implies holds_time::<T, V>(next.values, time_of::<T, V>(batch[k])) by {
        assert(holds_time::<T, V>(batch, time_of::<T, V>(batch[k])));
    }
    lemma_absorbed_nothing_new::<T, V>(next.values, batch, interval);
    assert(absorbed::<T, V>(next.values, batch, interval) == next.values);
}

/// Every interval of the history is valid.
pub open spec fn valid_history<T: TimeCoordinate, V: UniquelyIdentifiedTimeValue<T>>(
    history: Seq<(Interval<T>, Seq<V>)>,
) -> bool {
    forall|i: int| 0 <= i < history.len() ==> (#[trigger] history[i]).0.is_valid()
}

/// After any sequence of accepted inserts the store is well formed; it
/// holds a time exactly when an insert offered a value with that time for
/// an interval that holds it; and every value it holds was offered so.
pub proof fn law_store_holds_what_was_offered<T: TimeCoordinate, V: UniquelyIdentifiedTimeValue<T>>(
    history: Seq<(Interval<T>, Seq<V>)>,
)
    requires
        valid_history(history),
        replay(history) is Some,
    ensures
        well_formed(replay(history).unwrap()),
        forall|p: int| #[trigger]
            holds_time::<T, V>(replay(history).unwrap().values, p) <==> offered_at(history, p),
        forall|k: int|
            0 <= k < replay(history).unwrap().values.len() ==> offered(
                history,
                #[trigger] replay(history).unwrap().values[k],
            ),
    decreases history.len(),
{
    let now = replay(history).unwrap();
    if history.len() == 0 {
        assert forall|p: int| #[trigger]
            holds_time::<T, V>(now.values, p) <==> offered_at(history, p) by {}
    } else {
        let earlier = history.drop_last();
        let interval = history.last().0;
        let batch = history.last().1;
        assert(forall|i: int| 0 <= i < earlier.len() ==> earlier[i] == history[i]);
        let before = replay(earlier).unwrap();
        law_store_holds_what_was_offered(earlier);
        law_insert_takes_in_the_batch(before, interval, batch);
        assert(now == after_insert(before, interval, batch).unwrap());
        let last = history.len() - 1;
        assert forall|p: int| #[trigger]
            holds_time::<T, V>(now.values, p) <==> offered_at(history, p) by {
            if offered_at(earlier, p) {
                let i = choose|i: int|
                    0 <= i < earlier.len() && (#[trigger] earlier[i]).0.has_point(p)
                        && holds_time::<T, V>(earlier[i].1, p);
                assert(history[i].0.has_point(p) && holds_time::<T, V>(history[i].1, p));
            }
            if interval.has_point(p) && holds_time::<T, V>(batch, p) {
                assert(history[last].0.has_point(p) && holds_time::<T, V>(history[last].1, p));
            }
            if offered_at(history, p) {
                let i = choose|i: int|
                    0 <= i < history.len() && (#[trigger] history[i]).0.has_point(p)
                        && holds_time::<T, V>(history[i].1, p);
                if i < earlier.len() {
                    assert(earlier[i].0.has_point(p) && holds_time::<T, V>(earlier[i].1, p));
                }
            }
        }
        assert forall|k: int| 0 <= k < now.values.len() implies offered(
            history,
            #[trigger] now.values[k],
        ) by {
            let x = now.values[k];
            if before.values.contains(x) {
                let j = choose|j: int| 0 <= j < before.values.len() && before.values[j] == x;
                assert(offered(earlier, before.values[j]));
                let i = choose|i: int|
                    0 <= i < earlier.len() && (#[trigger] earlier[i]).1.contains(x)
                        && earlier[i].0.has_point(time_of::<T, V>(x));
                assert(history[i].1.contains(x) && history[i].0.has_point(time_of::<T, V>(x)));
            } else {
                assert(history[last].1.contains(x) && history[last].0.has_point(
                    time_of::<T, V>(x),
                ));
            }
        }
    }
}

/// After any sequence of accepted inserts, the values that the store holds
/// for a window are exactly the values offered by the inserts whose time
/// lies both in the window and in the interval they were offered for, in
/// ascending order of time.
pub proof fn law_window_holds_what_was_offered<T: TimeCoordinate, V: UniquelyIdentifiedTimeValue<T>>(
    history: Seq<(Interval<T>, Seq<V>)>,
    window: Interval<T>,
)
    requires
        valid_history(history),
        replay(history) is Some,
    ensures
        ordered_by_time::<T, V>(replay(history).unwrap().values.filter(within::<T, V>(window))),
        forall|p: int| #[trigger]
            holds_time::<T, V>(replay(history).unwrap().values.filter(within::<T, V>(window)), p)
                <==> window.has_point(p) && offered_at(history, p),
        forall|k: int|
            0 <= k < replay(history).unwrap().values.filter(within::<T, V>(window)).len() ==> {
                let x = #[trigger] replay(history).unwrap().values.filter(
                    within::<T, V>(window),
                )[k];
                offered(history, x) && window.has_point(time_of::<T, V>(x))
            },
{
    let now = replay(history).unwrap();
    let kept = now.values.filter(within::<T, V>(window));
    law_store_holds_what_was_offered(history);
    lemma_kept::<T, V>(now.values, window);
    assert forall|p: int| #[trigger]
        holds_time::<T, V>(kept, p) <==> window.has_point(p) && offered_at(history, p) by {
        assert(holds_time::<T, V>(now.values, p) <==> offered_at(history, p));
    }
    assert forall|k: int| 0 <= k < kept.len() implies {
        let x = #[trigger] kept[k];
        offered(history, x) && window.has_point(time_of::<T, V>(x))
    } by {
        let x = kept[k];
        let j = choose|j: int| 0 <= j < now.values.len() && now.values[j] == x;
        assert(offered(history, now.values[j]));
    }
}

/// After any sequence of accepted inserts, what the store hands out for a
/// window holds exactly the times of the values that the inserts offered
/// both in the window and in the interval they were offered for, each time
/// once and in ascending order.
pub proof fn law_get_returns_what_was_offered<T: TimeCoordinate, V: UniquelyIdentifiedTimeValue<T>>(
    history: Seq<(Interval<T>, Seq<V>)>,
    window: Interval<T>,
    found: Seq<V>,
)
    requires
        valid_history(history),
        replay(history) is Some,
        handed_out::<T, V>(replay(history).unwrap().values.filter(within::<T, V>(window)), found),
    ensures
        ordered_by_time::<T, V>(found),
        forall|p: int| #[trigger]
            holds_time::<T, V>(found, p) <==> window.has_point(p) && offered_at(history, p),
{
    let kept = replay(history).unwrap().values.filter(within::<T, V>(window));
    law_window_holds_what_was_offered(history, window);
    lemma_handed_out_keeps_times::<T, V>(kept, found);
    assert forall|p: int| #[trigger]
        holds_time::<T, V>(found, p) <==> window.has_point(p) && offered_at(history, p) by {
        assert(holds_time::<T, V>(kept, p) <==> window.has_point(p) && offered_at(history, p));
    }
}

/// After any sequence of accepted inserts, made on a well-formed store, the
/// store is well formed and knows what it knew before, grown by the
/// intervals of the inserts in turn.
pub proof fn law_inserts_grow_what_is_known<T: TimeCoordinate, V: UniquelyIdentifiedTimeValue<T>>(
    store: StoreView<T, V>,
    history: Seq<(Interval<T>, Seq<V>)>,
)
    requires
        well_formed(store),
        valid_history(history),
        replay_from(store, history) is Some,
    ensures
        well_formed(replay_from(store, history).unwrap()),
        replay_from(store, history).unwrap().known == with_intervals(
            store.known,
            intervals_of(history),
        ),
    decreases history.len(),
{
    if history.len() > 0 {
        let earlier = history.drop_last();
        assert(forall|i: int| 0 <= i < earlier.len() ==> earlier[i] == history[i]);
        law_inserts_grow_what_is_known(store, earlier);
        let before = replay_from(store, earlier).unwrap();
        law_insert_takes_in_the_batch(before, history.last().0, history.last().1);
        assert(intervals_of(history).drop_last() =~= intervals_of(earlier));
        assert(intervals_of(history).last() == history.last().0);
    } else {
        assert(intervals_of(history) =~= Seq::<Interval<T>>::empty());
    }
}

/// A batch agrees with the store exactly when, for every known interval
/// that meets the interval of the insert, the batch and the store hold the
/// same times within what the two intervals have in common.
pub proof fn law_agreement_is_per_overlap<T: TimeCoordinate, V: UniquelyIdentifiedTimeValue<T>>(
    store: StoreView<T, V>,
    interval: Interval<T>,
    batch: Seq<V>,
)
    requires
        well_formed(store),
        interval.is_valid(),
    ensures
        agrees::<T, V>(store.known, store.values, interval, batch) <==> forall|k: int, p: int|
            #![trigger store.known[k], holds_time::<T, V>(store.values, p)]
            #![trigger store.known[k], holds_time::<T, V>(batch, p)]
            0 <= k < store.known.len() && store.known[k].meets(interval)
                && store.known[k].overlap(interval).has_point(p) ==> (holds_time::<T, V>(
                store.values,
                p,
            ) <==> holds_time::<T, V>(batch, p)),
{
    let known = store.known;
    let stored = store.values;
    let per_overlap = forall|k: int, p: int|
        #![trigger known[k], holds_time::<T, V>(stored, p)]
        #![trigger known[k], holds_time::<T, V>(batch, p)]
        0 <= k < known.len() && known[k].meets(interval) && known[k].overlap(interval).has_point(p)
            ==> (holds_time::<T, V>(stored, p) <==> holds_time::<T, V>(batch, p));
    if agrees::<T, V>(known, stored, interval, batch) {
        assert forall|k: int, p: int|
            #![trigger known[k], holds_time::<T, V>(stored, p)]
            #![trigger known[k], holds_time::<T, V>(batch, p)]
            0 <= k < known.len() && known[k].meets(interval) && known[k].overlap(
                interval,
            ).has_point(p) implies (holds_time::<T, V>(stored, p) <==> holds_time::<T, V>(
            batch,
            p,
        )) by {
            assert(known[k].has_point(p));
            assert(covers_point(known, p));
        }
    }
    if per_overlap {
        assert forall|p: int|
            #![trigger holds_time::<T, V>(stored, p)]
            #![trigger holds_time::<T, V>(batch, p)]
            interval.has_point(p) && covers_point(known, p) implies (holds_time::<T, V>(stored, p)
            <==> holds_time::<T, V>(batch, p)) by {
            let k = choose|k: int| 0 <= k < known.len() && (#[trigger] known[k]).has_point(p);
            assert(known[k].is_valid());
            assert(known[k].meets(interval));
            assert(known[k].overlap(interval).has_point(p));
        }
    }
}

} // verus!
