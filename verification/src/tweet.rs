//! Tweets as the timeline service hands them out, and how a response is
//! put in order before it is stored.

use vstd::prelude::*;
use vstd::relations::{sorted_by, total_ordering};
use vstd::seq_lib::{lemma_sorted_unique, to_multiset_build, to_multiset_insert};
use crate::interval::Interval;
use crate::record::UniquelyIdentifiedTimeValue;
use crate::snowflake::{
    id_of_seconds, law_seconds_follow_ids, law_seconds_round_trip, representable, seconds_of_id,
    SecondsSinceUnixEpoch, Snowflake,
};

verus! {

/// A tweet, known by its identifier.
#[derive(Clone, Copy, Debug, Eq, Ord, PartialEq, PartialOrd)]
pub struct TweetFromTwitter {
    pub id: Snowflake,
}

impl UniquelyIdentifiedTimeValue<Snowflake> for TweetFromTwitter {
    open spec fn time_spec(&self) -> Snowflake {
        self.id
    }

    proof fn clone_keeps_time(a: Self, b: Self) {
    }

    fn time(&self) -> (t: Snowflake) {
        self.id
    }
}

impl TweetFromTwitter {
    /// The whole seconds from the second `from` to the second in which the
    /// tweet lies; `None` where the tweet lies before that second.
    pub fn seconds_since_start(&self, from: &SecondsSinceUnixEpoch) -> (r: Option<u64>)
        ensures
            r == if from.0 <= seconds_of_id(self.id.0) {
                Some((seconds_of_id(self.id.0) - from.0) as u64)
            } else {
                None
            },
    {
        let at: SecondsSinceUnixEpoch = self.id.into();
        if from.0 <= at.0 {
            Some(at.0 - from.0)
        } else {
            None
        }
    }
}

/// The window of identifiers from the start of the second `from` to the
/// start of the second `until`; `None` where the identifier of `until`
/// lies before that of `from`.
pub fn window_of(from: SecondsSinceUnixEpoch, until: SecondsSinceUnixEpoch) -> (r: Option<
    Interval<Snowflake>,
>)
    ensures
        r == if id_of_seconds(from.0) <= id_of_seconds(until.0) {
            Some(Interval(Snowflake(id_of_seconds(from.0)), Snowflake(id_of_seconds(until.0))))
        } else {
            None
        },
        r matches Some(window) ==> window.is_valid(),
{
    let lo: Snowflake = from.into();
    let hi: Snowflake = until.into();
    if lo.0 <= hi.0 {
        Some(Interval(lo, hi))
    } else {
        None
    }
}

/// An identifier at or after the one at which a representable second
/// begins lies in that second or a later one.
pub proof fn law_ids_of_a_window_follow_its_start(from: u64, id: u64)
    requires
        representable(from),
        id_of_seconds(from) <= id,
    ensures
        from <= seconds_of_id(id),
{
    law_seconds_round_trip(from);
    law_seconds_follow_ids(id_of_seconds(from), id);
}

/// The order of tweets by identifier.
pub open spec fn by_id() -> spec_fn(TweetFromTwitter, TweetFromTwitter) -> bool {
    |a: TweetFromTwitter, b: TweetFromTwitter| a.id.0 <= b.id.0
}

/// The order by identifier is a total order.
pub proof fn lemma_by_id_is_total()
    ensures
        total_ordering(by_id()),
{
    let leq = by_id();
    assert forall|a: TweetFromTwitter, b: TweetFromTwitter| #[trigger]
        leq(a, b) && leq(b, a) implies a == b by {
        assert(a.id.0 == b.id.0);
    }
}

/// The tweets in ascending order of identifier.
pub fn sorted_by_id(tweets: Vec<TweetFromTwitter>) -> (r: Vec<TweetFromTwitter>)
    ensures
        r@ == tweets@.sort_by(by_id()),
{
    let ghost given = tweets@;
    let ghost leq = by_id();
    let n = tweets.len();
    let mut out: Vec<TweetFromTwitter> = Vec::new();
    let mut i: usize = 0;
    proof {
        assert(given.take(0) =~= Seq::<TweetFromTwitter>::empty());
    }
    while i < n
        invariant
            i <= n,
            n == given.len(),
            tweets@ == given,
            leq == by_id(),
            sorted_by(out@, leq),
            out@.to_multiset() == given.take(i as int).to_multiset(),
        decreases n - i,
    {
        let x = tweets[i];
        let m = out.len();
        let mut k: usize = 0;
        while k < m && out[k].id.0 <= x.id.0
            invariant
                k <= m,
                m == out@.len(),
                forall|j: int| 0 <= j < k ==> (#[trigger] out@[j]).id.0 <= x.id.0,
            decreases m - k,
        {
            k += 1;
        }
        proof {
            let before = out@;
            let after = before.insert(k as int, x);
            before.insert_ensures(k as int, x);
            assert forall|a: int, b: int| 0 <= a < b < after.len() implies #[trigger] leq(
                after[a],
                after[b],
            ) by {
                if b < k {
                    assert(leq(before[a], before[b]));
                } else if b == k {
                    assert(after[a] == before[a]);
                } else {
                    assert(after[(b - 1) + 1] == before[b - 1]);
                    if a < k {
                        assert(leq(before[a], before[b - 1]));
                    } else if a == k {
                        assert(leq(before[k as int], before[b - 1]) || b - 1 == k);
                    } else {
                        assert(after[(a - 1) + 1] == before[a - 1]);
                        assert(leq(before[a - 1], before[b - 1]));
                    }
                }
            }
            to_multiset_insert(before, k as int, x);
            to_multiset_build(given.take(i as int), x);
            assert(given.take(i + 1) =~= given.take(i as int).push(x));
        }
        out.insert(k, x);
        i += 1;
    }
    proof {
        assert(given.take(n as int) =~= given);
        lemma_by_id_is_total();
        given.lemma_sort_by_ensures(leq);
        lemma_sorted_unique(out@, given.sort_by(leq), leq);
    }
    out
}

} // verus!
