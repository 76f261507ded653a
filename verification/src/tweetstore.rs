//! The cache of timelines: one interval store per user, and the decisions
//! that fill a window from the timeline service without fetching anything
//! twice.
//!
//! The cache never talks to the service itself. It says which sub-ranges
//! of a window must be fetched, and takes in what was fetched for
//! each of them.

use vstd::prelude::*;
use crate::cover::{covers_interval, gaps, separated, with_interval, with_intervals};
use crate::cover_laws::law_filling_gaps_covers_window;
use crate::cover_lemmas::{lemma_gaps_from, lemma_with_interval};
use crate::interval::Interval;
use crate::interval_set::IntervalSet;
use crate::interval_store::{ConflictError, IntervalStore};
use crate::oauth::{Context, Oauth1Token};
use crate::record::{
    after_insert, empty_store, ordered_by_time, well_formed, within, StoreView,
};
use crate::snowflake::{law_seconds_are_bounded, seconds_of_id, SecondsSinceUnixEpoch, Snowflake};
use crate::tweet::{by_id, sorted_by_id, TweetFromTwitter};
use crate::twitter_time::{
    is_minute_stamp, utc_minute_stamp, utc_minute_text, LAST_SECOND_OF_YEAR_9999,
};

verus! {

/// Why a window could not be filled.
#[derive(Clone, Copy, Debug, PartialEq, Eq)]
pub enum FetchError {
    /// What was fetched disagrees with what the cache knows of a range it
    /// has enumerated before.
    Conflict,
    /// The timeline returned nothing for a sub-range, which may mean that
    /// there is nothing or that the timeline does not reach that far back,
    /// and the caller may not ask the search endpoint.
    IndeterminateEmpty,
}

impl FetchError {
    /// A short description of the error.
    pub fn message(&self) -> (r: String)
        ensures
            *self == FetchError::Conflict ==> r@ == "Conflicting values"@,
            *self == FetchError::IndeterminateEmpty ==> r@
                == "No tweets found, but can't guarantee no tweets should have been found"@,
    {
        match self {
            FetchError::Conflict => "Conflicting values".to_owned(),
            FetchError::IndeterminateEmpty => {
                "No tweets found, but can't guarantee no tweets should have been found".to_owned()
            },
        }
    }
}

/// Which endpoint of the timeline service a response came from.
#[derive(Clone, Copy, Debug, PartialEq, Eq)]
pub enum Source {
    /// The user's timeline, bounded by identifiers.
    Timeline,
    /// The search endpoint, bounded by dates.
    Search,
}

/// What the cache says of a window.
#[derive(Debug, PartialEq, Eq)]
pub enum Lookup {
    /// The window is known: these are its tweets, in ascending order.
    Known(Vec<TweetFromTwitter>),
    /// These sub-ranges must be fetched, in this order, before the window
    /// is known.
    Fetch(IntervalSet<Snowflake>),
}

/// What follows once a response has been handed in.
#[derive(Debug, PartialEq, Eq)]
pub enum Progress {
    /// The response was taken in: the sub-range is known now.
    Stored,
    /// The timeline had nothing for the sub-range: ask the search endpoint
    /// for the tweets between these two dates.
    AskSearch { from_date: String, to_date: String },
}

/// The sub-ranges to fetch for a window that is not known: what is missing
/// of it or, where the window is a single point, the window itself.
pub open spec fn to_fetch(known: Seq<Interval<Snowflake>>, window: Interval<Snowflake>) -> Seq<
    Interval<Snowflake>,
> {
    if gaps(known, window).len() > 0 {
        gaps(known, window)
    } else {
        seq![window]
    }
}

/// Once every sub-range to fetch has been added to what is known, the
/// window is known.
pub proof fn law_fetching_makes_known(
    known: Seq<Interval<Snowflake>>,
    window: Interval<Snowflake>,
)
    requires
        separated(known),
        window.is_valid(),
    ensures
        to_fetch(known, window).len() > 0,
        covers_interval(with_intervals(known, to_fetch(known, window)), window),
{
    let g = gaps(known, window);
    if g.len() > 0 {
        lemma_gaps_from(known, window.0, window);
        assert(window.lo() <= g[0].lo() < g[0].hi() <= window.hi());
        law_filling_gaps_covers_window(known, window);
    } else {
        let only = seq![window];
        assert(only.drop_last() =~= Seq::<Interval<Snowflake>>::empty());
        assert(with_intervals(known, only.drop_last()) == known);
        assert(with_intervals(known, only) == with_interval(known, window));
        lemma_with_interval(known, window);
    }
}

/// What the cache holds for `user`: the user's store, or the empty store
/// for a user the cache has not seen.
pub open spec fn store_of(
    stores: Map<Seq<char>, StoreView<Snowflake, TweetFromTwitter>>,
    user: Seq<char>,
) -> StoreView<Snowflake, TweetFromTwitter> {
    if stores.dom().contains(user) {
        stores[user]
    } else {
        empty_store()
    }
}

/// The names that a list of strings holds.
pub open spec fn names_of(names: Seq<String>) -> Set<Seq<char>> {
    Set::new(|name: Seq<char>| exists|i: int| 0 <= i < names.len() && (#[trigger] names[i])@ == name)
}

/// The interval that is loaded into the cache by [`TweetStore::preload`].
pub open spec fn preloaded_interval() -> Interval<Snowflake> {
    Interval(Snowflake(963140650398646272), Snowflake(963155749893046272))
}

/// The tweets that are loaded into the cache by [`TweetStore::preload`].
pub open spec fn preloaded_tweets() -> Seq<TweetFromTwitter> {
    seq![
        TweetFromTwitter { id: Snowflake(963143061558743040) },
        TweetFromTwitter { id: Snowflake(963143736631869440) },
        TweetFromTwitter { id: Snowflake(963144473604534272) },
        TweetFromTwitter { id: Snowflake(963146750457499648) },
        TweetFromTwitter { id: Snowflake(963152907255377921) },
    ]
}

/// One user's timeline in the cache.
struct UserTimeline {
    name: String,
    store: IntervalStore<Snowflake, TweetFromTwitter>,
}

/// The stores of the timelines, by the name of their user.
spec fn stores_of(timelines: Seq<UserTimeline>) -> Map<
    Seq<char>,
    StoreView<Snowflake, TweetFromTwitter>,
>
    decreases timelines.len(),
{
    if timelines.len() == 0 {
        Map::empty()
    } else {
        stores_of(timelines.drop_last()).insert(timelines.last().name@, timelines.last().store@)
    }
}

/// No two timelines belong to the same user.
spec fn names_differ(timelines: Seq<UserTimeline>) -> bool {
    forall|i: int, j: int|
        0 <= i < j < timelines.len() ==> (#[trigger] timelines[i]).name@ != (
        #[trigger] timelines[j]).name@
}

/// The stores hold exactly the users of the timelines, each with the store
/// of its timeline.
proof fn lemma_stores_of(timelines: Seq<UserTimeline>)
    requires
        names_differ(timelines),
    ensures
        forall|i: int|
            0 <= i < timelines.len() ==> stores_of(timelines).dom().contains(
                (#[trigger] timelines[i]).name@,
            ) && stores_of(timelines)[timelines[i].name@] == timelines[i].store@,
        forall|name: Seq<char>| #[trigger]
            stores_of(timelines).dom().contains(name) ==> exists|i: int|
                0 <= i < timelines.len() && (#[trigger] timelines[i]).name@ == name,
    decreases timelines.len(),
{
    if timelines.len() > 0 {
        let rest = timelines.drop_last();
        let last = timelines.last();
        assert(forall|i: int| 0 <= i < rest.len() ==> rest[i] == timelines[i]);
        assert(names_differ(rest));
        lemma_stores_of(rest);
        assert forall|i: int| 0 <= i < timelines.len() implies stores_of(timelines).dom().contains(
            (#[trigger] timelines[i]).name@,
        ) && stores_of(timelines)[timelines[i].name@] == timelines[i].store@ by {
            if i < rest.len() {
                assert(rest[i].name@ != timelines[timelines.len() - 1].name@);
            }
        }
        assert forall|name: Seq<char>| #[trigger]
            stores_of(timelines).dom().contains(name) implies exists|i: int|
            0 <= i < timelines.len() && (#[trigger] timelines[i]).name@ == name by {
            if name == last.name@ {
                assert(timelines[timelines.len() - 1].name@ == name);
            } else {
                assert(stores_of(rest).dom().contains(name));
                let i = choose|i: int| 0 <= i < rest.len() && (#[trigger] rest[i]).name@ == name;
                assert(timelines[i].name@ == name);
            }
        }
    }
}

/// A timeline added for a user that has none keeps the users of the
/// timelines apart, and adds the user's store to the stores.
proof fn lemma_new_user_keeps_names_apart(before: Seq<UserTimeline>, added: UserTimeline)
    requires
        names_differ(before),
        forall|k: int| 0 <= k < before.len() ==> (#[trigger] before[k]).name@ != added.name@,
    ensures
        names_differ(before.push(added)),
        stores_of(before.push(added)) == stores_of(before).insert(added.name@, added.store@),
{
    let after = before.push(added);
    assert(after.drop_last() =~= before);
    assert forall|a: int, b: int| 0 <= a < b < after.len() implies (#[trigger] after[a]).name@ != (
    #[trigger] after[b]).name@ by {
        assert(after[a] == before[a]);
        if b < before.len() {
            assert(after[b] == before[b]);
            assert(before[a].name@ != before[b].name@);
        }
    }
}

/// Replacing the store of one timeline replaces the store of its user.
proof fn lemma_stores_of_update(before: Seq<UserTimeline>, after: Seq<UserTimeline>, at: int)
    requires
        names_differ(before),
        0 <= at < before.len(),
        after.len() == before.len(),
        after[at].name@ == before[at].name@,
        forall|i: int| 0 <= i < before.len() && i != at ==> after[i] == before[i],
    ensures
        names_differ(after),
        stores_of(after) == stores_of(before).insert(before[at].name@, after[at].store@),
    decreases before.len(),
{
    assert(names_differ(after)) by {
        assert forall|i: int, j: int| 0 <= i < j < after.len() implies (#[trigger] after[i]).name@
            != (#[trigger] after[j]).name@ by {
            assert(before[i].name@ != before[j].name@);
        }
    }
    let rest_before = before.drop_last();
    let rest_after = after.drop_last();
    assert(forall|i: int| 0 <= i < rest_before.len() ==> rest_before[i] == before[i]);
    assert(forall|i: int| 0 <= i < rest_after.len() ==> rest_after[i] == after[i]);
    if at == before.len() - 1 {
        assert(rest_after =~= rest_before);
        assert(stores_of(after) =~= stores_of(before).insert(before[at].name@, after[at].store@));
    } else {
        assert(names_differ(rest_before));
        lemma_stores_of_update(rest_before, rest_after, at);
        assert(after.last() == before.last());
        assert(before[at].name@ != before[before.len() - 1].name@);
        assert(stores_of(after) =~= stores_of(before).insert(before[at].name@, after[at].store@));
    }
}

/// The cache of timelines, with the names of the callers who may use the
/// search endpoint.
pub struct TweetStore {
    app_token: Oauth1Token,
    search_enabled_display_names: Vec<String>,
    tweets: Vec<UserTimeline>,
}

impl View for TweetStore {
    type V = Map<Seq<char>, StoreView<Snowflake, TweetFromTwitter>>;

    /// The store of each user the cache has seen.
    closed spec fn view(&self) -> Map<Seq<char>, StoreView<Snowflake, TweetFromTwitter>> {
        stores_of(self.tweets@)
    }
}

impl TweetStore {
    /// Every user has one store, and every store is well formed.
    pub closed spec fn wf(&self) -> bool {
        &&& names_differ(self.tweets@)
        &&& forall|i: int| 0 <= i < self.tweets@.len() ==> (#[trigger] self.tweets@[i]).store.wf()
    }

    /// The names of the callers who may use the search endpoint.
    pub closed spec fn search_enabled(&self) -> Set<Seq<char>> {
        names_of(self.search_enabled_display_names@)
    }

    /// The token of the application, as given to [`TweetStore::new`].
    pub closed spec fn token(&self) -> Oauth1Token {
        self.app_token
    }

    /// Every store of a well-formed cache is well formed.
    pub proof fn law_every_store_is_well_formed(&self, user: Seq<char>)
        requires
            self.wf(),
        ensures
            well_formed(store_of(self@, user)),
    {
        lemma_stores_of(self.tweets@);
        if self@.dom().contains(user) {
            let i = choose|i: int|
                0 <= i < self.tweets@.len() && (#[trigger] self.tweets@[i]).name@ == user;
            assert(self.tweets@[i].store.wf());
        }
    }

    /// The cache that has seen no user.
    pub fn new(app_oauth_token: Oauth1Token, search_enabled_display_names: Vec<String>) -> (r:
        TweetStore)
        ensures
            r.wf(),
            r@ == Map::<Seq<char>, StoreView<Snowflake, TweetFromTwitter>>::empty(),
            r.search_enabled() == names_of(search_enabled_display_names@),
            r.token() == app_oauth_token,
    {
        TweetStore {
            app_token: app_oauth_token,
            search_enabled_display_names: search_enabled_display_names,
            tweets: Vec::new(),
        }
    }

    /// The token of the application.
    pub fn app_token(&self) -> (r: &Oauth1Token)
        ensures
            *r == self.token(),
    {
        &self.app_token
    }

    /// Whether the caller of that screen name may use the search endpoint.
    pub fn is_search_enabled(&self, screen_name: &String) -> (r: bool)
        ensures
            r == self.search_enabled().contains(screen_name@),
    {
        let n = self.search_enabled_display_names.len();
        let mut i: usize = 0;
        while i < n
            invariant
                i <= n,
                n == self.search_enabled_display_names@.len(),
                forall|k: int|
                    0 <= k < i ==> (#[trigger] self.search_enabled_display_names@[k])@
                        != screen_name@,
            decreases n - i,
        {
            if self.search_enabled_display_names[i] == *screen_name {
                return true;
            }
            i += 1;
        }
        false
    }

    /// Where the timeline of `user` stands in the cache, if the cache has
    /// seen the user.
    fn interval_store(&self, user: &String) -> (r: Option<usize>)
        ensures
            match r {
                Some(i) => i < self.tweets@.len() && self.tweets@[i as int].name@ == user@,
                None => forall|k: int|
                    0 <= k < self.tweets@.len() ==> (#[trigger] self.tweets@[k]).name@ != user@,
            },
    {
        let n = self.tweets.len();
        let mut i: usize = 0;
        while i < n
            invariant
                i <= n,
                n == self.tweets@.len(),
                forall|k: int| 0 <= k < i ==> (#[trigger] self.tweets@[k]).name@ != user@,
            decreases n - i,
        {
            if self.tweets[i].name == *user {
                return Some(i);
            }
            i += 1;
        }
        None
    }

    /// The tweets of `user` in `interval`, in ascending order, where the
    /// whole interval is known; otherwise the sub-ranges to fetch.
    ///
    /// The sub-ranges are those missing of the interval. Of an interval
    /// that is a single point nothing counts as missing: where such an
    /// interval is not known, it is itself the one sub-range to fetch.
    pub fn get_known_tweets(&self, user: &String, interval: &Interval<Snowflake>) -> (r: Result<
        Vec<TweetFromTwitter>,
        IntervalSet<Snowflake>,
    >)
        requires
            self.wf(),
            interval.is_valid(),
        ensures
            r.is_ok() == covers_interval(store_of(self@, user@).known, *interval),
            r matches Ok(found) ==> found@ == store_of(self@, user@).values.filter(
                within::<Snowflake, TweetFromTwitter>(*interval),
            ) && ordered_by_time::<Snowflake, TweetFromTwitter>(found@),
            r matches Err(missing) ==> missing@ == to_fetch(
                store_of(self@, user@).known,
                *interval,
            ) && missing.wf(),
    {
        proof {
            lemma_stores_of(self.tweets@);
        }
        match self.interval_store(user) {
            Some(i) => {
                let store = &self.tweets[i].store;
                assert(store@ == store_of(self@, user@));
                match store.get(interval) {
                    Some(found) => {
                        proof {
                            let kept = store@.values.filter(
                                within::<Snowflake, TweetFromTwitter>(*interval),
                            );
                            assert forall|k: int| 0 <= k < kept.len() implies kept[k]
                                == found@[k] by {
                                assert(cloned::<TweetFromTwitter>(kept[k], found@[k]));
                            }
                            assert(found@ =~= kept);
                        }
                        Ok(found)
                    },
                    None => {
                        let missing = store.missing(interval);
                        if missing.len() > 0 {
                            Err(missing)
                        } else {
                            Err(IntervalSet::from_interval(interval))
                        }
                    },
                }
            },
            None => {
                proof {
                    assert(!self@.dom().contains(user@));
                    Self::lemma_unknown_user_misses_all(*interval);
                }
                Err(IntervalSet::from_interval(interval))
            },
        }
    }

    /// For a user the cache has not seen, the whole window is to fetch.
    proof fn lemma_unknown_user_misses_all(window: Interval<Snowflake>)
        requires
            window.is_valid(),
        ensures
            !covers_interval(Seq::<Interval<Snowflake>>::empty(), window),
            to_fetch(Seq::<Interval<Snowflake>>::empty(), window) == seq![window],
    {
        let none = Seq::<Interval<Snowflake>>::empty();
        let g = gaps(none, window);
        if g.len() > 0 {
            assert(g =~= seq![window]);
        }
    }

    /// What the cache says of the tweets of `user` in `interval`: the
    /// tweets, or the sub-ranges that must be fetched and handed in with
    /// [`TweetStore::fetch_tweets`] before the interval is known.
    pub fn tweets(&self, user: &String, interval: &Interval<Snowflake>) -> (r: Lookup)
        requires
            self.wf(),
            interval.is_valid(),
        ensures
            (r is Known) == covers_interval(store_of(self@, user@).known, *interval),
            r matches Lookup::Known(found) ==> found@ == store_of(self@, user@).values.filter(
                within::<Snowflake, TweetFromTwitter>(*interval),
            ) && ordered_by_time::<Snowflake, TweetFromTwitter>(found@),
            r matches Lookup::Fetch(missing) ==> missing@ == to_fetch(
                store_of(self@, user@).known,
                *interval,
            ) && missing.wf(),
    {
        match self.get_known_tweets(user, interval) {
            Ok(found) => Lookup::Known(found),
            Err(missing) => Lookup::Fetch(missing),
        }
    }

    /// Records for `user` that `interval` has been enumerated and that
    /// `tweets` are the tweets found in it.
    ///
    /// A user the cache has not seen gets a store of its own. The deposit
    /// is refused, and nothing changes, where the tweets disagree with
    /// what the user's store knows of the interval.
    pub fn deposit(
        &mut self,
        user: &String,
        interval: &Interval<Snowflake>,
        tweets: Vec<TweetFromTwitter>,
    ) -> (r: Result<(), ConflictError>)
        requires
            old(self).wf(),
            interval.is_valid(),
        ensures
            final(self).wf(),
            final(self).search_enabled() == old(self).search_enabled(),
            final(self).token() == old(self).token(),
            r.is_ok() == (after_insert(store_of(old(self)@, user@), *interval, tweets@) is Some),
            r.is_ok() ==> final(self)@ == old(self)@.insert(
                user@,
                after_insert(store_of(old(self)@, user@), *interval, tweets@).unwrap(),
            ),
            r.is_err() ==> final(self)@ == old(self)@,
    {
        let ghost before = self.tweets@;
        proof {
            lemma_stores_of(before);
        }
        match self.interval_store(user) {
            Some(i) => {
                assert(self.tweets@[i as int].store@ == store_of(self@, user@));
                let r = self.tweets[i].store.insert(interval, tweets);
                proof {
                    if r.is_ok() {
                        lemma_stores_of_update(before, self.tweets@, i as int);
                    } else {
                        assert(self.tweets@ =~= before);
                    }
                }
                r
            },
            None => {
                assert(!self@.dom().contains(user@));
                let mut store: IntervalStore<Snowflake, TweetFromTwitter> = IntervalStore::new();
                assert(store@ == empty_store::<Snowflake, TweetFromTwitter>());
                let r = store.insert(interval, tweets);
                let added = UserTimeline { name: user.clone(), store: store };
                proof {
                    lemma_new_user_keeps_names_apart(before, added);
                }
                self.tweets.push(added);
                r
            },
        }
    }

    /// Loads into the cache what is known of one user's timeline from the
    /// start: a stretch of February 2018 with five tweets. What the cache
    /// held for that user before is dropped.
    pub fn preload(&mut self)
        requires
            old(self).wf(),
        ensures
            final(self).wf(),
            final(self).search_enabled() == old(self).search_enabled(),
            final(self).token() == old(self).token(),
            after_insert(
                empty_store::<Snowflake, TweetFromTwitter>(),
                preloaded_interval(),
                preloaded_tweets(),
            ) is Some,
            final(self)@ == old(self)@.insert(
                "harrisimo"@,
                after_insert(
                    empty_store::<Snowflake, TweetFromTwitter>(),
                    preloaded_interval(),
                    preloaded_tweets(),
                ).unwrap(),
            ),
    {
        let interval = Interval(Snowflake(963140650398646272), Snowflake(963155749893046272));
        let mut tweets: Vec<TweetFromTwitter> = Vec::new();
        tweets.push(TweetFromTwitter { id: Snowflake(963143061558743040) });
        tweets.push(TweetFromTwitter { id: Snowflake(963143736631869440) });
        tweets.push(TweetFromTwitter { id: Snowflake(963144473604534272) });
        tweets.push(TweetFromTwitter { id: Snowflake(963146750457499648) });
        tweets.push(TweetFromTwitter { id: Snowflake(963152907255377921) });
        assert(tweets@ =~= preloaded_tweets());
        let mut store: IntervalStore<Snowflake, TweetFromTwitter> = IntervalStore::new();
        let loaded = store.insert(&interval, tweets);
        assert(loaded.is_ok());
        let user = "harrisimo".to_owned();
        let ghost before = self.tweets@;
        proof {
            lemma_stores_of(before);
        }
        match self.interval_store(&user) {
            Some(i) => {
                self.tweets[i].store = store;
                proof {
                    lemma_stores_of_update(before, self.tweets@, i as int);
                }
            },
            None => {
                let added = UserTimeline { name: user, store: store };
                proof {
                    lemma_new_user_keeps_names_apart(before, added);
                }
                self.tweets.push(added);
            },
        }
    }

    /// What the user's timeline returned, put in ascending order of
    /// identifier; `None` where it returned nothing.
    pub fn fetch_usertimeline(timeline: Vec<TweetFromTwitter>) -> (r: Option<
        Vec<TweetFromTwitter>,
    >)
        ensures
            r.is_none() == (timeline@.len() == 0),
            r matches Some(sorted) ==> sorted@ == timeline@.sort_by(by_id()),
    {
        if timeline.len() == 0 {
            None
        } else {
            Some(sorted_by_id(timeline))
        }
    }

    /// What the search endpoint returned, put in ascending order of
    /// identifier.
    pub fn fetch_user_tweets_from_search(results: Vec<TweetFromTwitter>) -> (r: Vec<
        TweetFromTwitter,
    >)
        ensures
            r@ == results@.sort_by(by_id()),
    {
        sorted_by_id(results)
    }

    /// The moment `s` as the search endpoint reads it: `YYYYMMDDHHMM` in
    /// UTC.
    pub fn as_twitter_time(s: &SecondsSinceUnixEpoch) -> (r: String)
        requires
            s.0 <= LAST_SECOND_OF_YEAR_9999,
        ensures
            r@ == utc_minute_text(s.0),
            is_minute_stamp(r@),
    {
        utc_minute_stamp(s.0)
    }

    /// Takes in what the timeline service returned for the sub-range
    /// `interval` of the timeline of `user`.
    ///
    /// Tweets from the timeline, if there are any, and whatever the search
    /// endpoint returned, are put in order and deposited. Where the
    /// timeline returned nothing, the caller is sent to the search
    /// endpoint if its screen name allows it; if not, the fetch fails and
    /// nothing is deposited.
    pub fn fetch_tweets(
        &mut self,
        context: &Context,
        user: &String,
        interval: &Interval<Snowflake>,
        source: Source,
        fetched: Vec<TweetFromTwitter>,
    ) -> (r: Result<Progress, FetchError>)
        requires
            old(self).wf(),
            interval.is_valid(),
        ensures
            final(self).wf(),
            final(self).search_enabled() == old(self).search_enabled(),
            final(self).token() == old(self).token(),
            source == Source::Timeline && fetched@.len() == 0 ==> final(self)@ == old(self)@ && (
            if old(self).search_enabled().contains(context.user_screen_name@) {
                r matches Ok(Progress::AskSearch { from_date, to_date }) && from_date@
                    == utc_minute_text(seconds_of_id(interval.0.0)) && to_date@ == utc_minute_text(
                    seconds_of_id(interval.1.0),
                ) && is_minute_stamp(from_date@) && is_minute_stamp(to_date@)
            } else {
                r == Err::<Progress, FetchError>(FetchError::IndeterminateEmpty)
            }),
            !(source == Source::Timeline && fetched@.len() == 0) ==> (match after_insert(
                store_of(old(self)@, user@),
                *interval,
                fetched@.sort_by(by_id()),
            ) {
                Some(store) => r matches Ok(Progress::Stored) && final(self)@ == old(self)@.insert(
                    user@,
                    store,
                ),
                None => r == Err::<Progress, FetchError>(FetchError::Conflict) && final(self)@
                    == old(self)@,
            }),
    {
        let tweets = match source {
            Source::Timeline => match Self::fetch_usertimeline(fetched) {
                Some(tweets) => tweets,
                None => {
                    if self.is_search_enabled(&context.user_screen_name) {
                        let from: SecondsSinceUnixEpoch = interval.0.into();
                        let to: SecondsSinceUnixEpoch = interval.1.into();
                        proof {
                            law_seconds_are_bounded(interval.0.0);
                            law_seconds_are_bounded(interval.1.0);
                        }
                        return Ok(
                            Progress::AskSearch {
                                from_date: Self::as_twitter_time(&from),
                                to_date: Self::as_twitter_time(&to),
                            },
                        );
                    } else {
                        return Err(FetchError::IndeterminateEmpty);
                    }
                },
            },
            Source::Search => Self::fetch_user_tweets_from_search(fetched),
        };
        match self.deposit(user, interval, tweets) {
            Ok(()) => Ok(Progress::Stored),
            Err(_) => Err(FetchError::Conflict),
        }
    }
}

} // verus!
