use twimetravel::oauth::Oauth1Token;
use twimetravel::{
    Context, FetchError, Interval, IntervalSet, Lookup, Progress, SecondsSinceUnixEpoch, Snowflake,
    Source, TweetFromTwitter, TweetStore,
};

fn token(name: &str) -> Oauth1Token {
    Oauth1Token {
        oauth_token: name.to_owned(),
        oauth_token_secret: format!("{}-secret", name),
    }
}

fn cache(search_enabled: Vec<&str>) -> TweetStore {
    TweetStore::new(
        token("app"),
        search_enabled.into_iter().map(|s| s.to_owned()).collect(),
    )
}

fn caller(screen_name: &str) -> Context {
    Context {
        user_oauth_token: token("user"),
        user_screen_name: screen_name.to_owned(),
    }
}

fn window(lo: u64, hi: u64) -> Interval<Snowflake> {
    Interval(Snowflake(lo), Snowflake(hi))
}

fn tweets(ids: Vec<u64>) -> Vec<TweetFromTwitter> {
    ids.into_iter()
        .map(|id| TweetFromTwitter { id: Snowflake(id) })
        .collect()
}

fn sub_ranges(ranges: Vec<(u64, u64)>) -> IntervalSet<Snowflake> {
    let mut set = IntervalSet::new();
    for (lo, hi) in ranges {
        set.insert(&window(lo, hi));
    }
    set
}

#[test]
fn lookup_miss_then_hit() {
    let mut store = cache(vec![]);
    let u = "u".to_owned();
    let who = caller("reader");
    assert_eq!(
        store.tweets(&u, &window(10, 20)),
        Lookup::Fetch(sub_ranges(vec![(10, 20)]))
    );
    assert_eq!(
        store.fetch_tweets(
            &who,
            &u,
            &window(10, 20),
            Source::Timeline,
            tweets(vec![10, 11, 15])
        ),
        Ok(Progress::Stored)
    );
    assert_eq!(
        store.tweets(&u, &window(10, 20)),
        Lookup::Known(tweets(vec![10, 11, 15]))
    );
    // a second lookup is answered from the cache: nothing is left to fetch
    assert_eq!(
        store.tweets(&u, &window(10, 20)),
        Lookup::Known(tweets(vec![10, 11, 15]))
    );
}

#[test]
fn lookup_partial_miss() {
    let mut store = cache(vec![]);
    let u = "u".to_owned();
    let who = caller("reader");
    store
        .deposit(&u, &window(10, 15), tweets(vec![10, 11, 15]))
        .expect("Seeding");
    assert_eq!(
        store.tweets(&u, &window(10, 20)),
        Lookup::Fetch(sub_ranges(vec![(15, 20)]))
    );
    assert_eq!(
        store.fetch_tweets(
            &who,
            &u,
            &window(15, 20),
            Source::Timeline,
            tweets(vec![15, 18])
        ),
        Ok(Progress::Stored)
    );
    assert_eq!(
        store.tweets(&u, &window(10, 20)),
        Lookup::Known(tweets(vec![10, 11, 15, 18]))
    );
}

#[test]
fn empty_timeline_without_search() {
    let mut store = cache(vec!["somebody_else"]);
    let u = "u".to_owned();
    let who = caller("reader");
    store
        .deposit(&u, &window(10, 15), tweets(vec![10, 11, 15]))
        .expect("Seeding");
    assert_eq!(
        store.fetch_tweets(&who, &u, &window(15, 20), Source::Timeline, vec![]),
        Err(FetchError::IndeterminateEmpty)
    );
    // nothing was deposited
    assert_eq!(
        store.tweets(&u, &window(10, 20)),
        Lookup::Fetch(sub_ranges(vec![(15, 20)]))
    );
    assert_eq!(
        store.tweets(&u, &window(10, 15)),
        Lookup::Known(tweets(vec![10, 11, 15]))
    );
}

#[test]
fn empty_timeline_with_search() {
    let mut store = cache(vec!["somebody_else", "reader"]);
    let u = "u".to_owned();
    let who = caller("reader");
    let m = window(963140650398646272, 963155749893046272);
    assert_eq!(
        store.fetch_tweets(&who, &u, &m, Source::Timeline, vec![]),
        Ok(Progress::AskSearch {
            from_date: "201802122000".to_owned(),
            to_date: "201802122100".to_owned(),
        })
    );
    // asking for a search deposits nothing
    assert_eq!(store.tweets(&u, &m), Lookup::Fetch(sub_ranges(vec![(963140650398646272, 963155749893046272)])));
    // an empty answer of the search endpoint is taken as it is
    assert_eq!(
        store.fetch_tweets(&who, &u, &m, Source::Search, vec![]),
        Ok(Progress::Stored)
    );
    assert_eq!(store.tweets(&u, &m), Lookup::Known(vec![]));
}

#[test]
fn search_results_are_deposited() {
    let mut store = cache(vec!["reader"]);
    let u = "u".to_owned();
    let who = caller("reader");
    assert_eq!(
        store.fetch_tweets(
            &who,
            &u,
            &window(10, 20),
            Source::Search,
            tweets(vec![15, 11, 10])
        ),
        Ok(Progress::Stored)
    );
    assert_eq!(
        store.tweets(&u, &window(10, 20)),
        Lookup::Known(tweets(vec![10, 11, 15]))
    );
}

#[test]
fn fetch_conflict_changes_nothing() {
    let mut store = cache(vec![]);
    let u = "u".to_owned();
    let who = caller("reader");
    store
        .deposit(&u, &window(10, 20), tweets(vec![10, 11, 15]))
        .expect("Seeding");
    assert_eq!(
        store.fetch_tweets(
            &who,
            &u,
            &window(10, 20),
            Source::Timeline,
            tweets(vec![14])
        ),
        Err(FetchError::Conflict)
    );
    assert_eq!(
        store.get_known_tweets(&u, &window(10, 20)),
        Ok(tweets(vec![10, 11, 15]))
    );
}

#[test]
fn deposit_conflict_is_refused() {
    let mut store = cache(vec![]);
    let u = "u".to_owned();
    store
        .deposit(&u, &window(10, 20), tweets(vec![10, 11, 15]))
        .expect("First deposit");
    store
        .deposit(&u, &window(10, 20), tweets(vec![11]))
        .expect_err("Second deposit");
    assert_eq!(
        store.get_known_tweets(&u, &window(10, 20)),
        Ok(tweets(vec![10, 11, 15]))
    );
}

#[test]
fn users_are_kept_apart() {
    let mut store = cache(vec![]);
    let a = "a".to_owned();
    let b = "b".to_owned();
    store
        .deposit(&a, &window(10, 20), tweets(vec![12]))
        .expect("Deposit for a");
    store
        .deposit(&b, &window(15, 30), tweets(vec![16, 29]))
        .expect("Deposit for b");
    assert_eq!(store.get_known_tweets(&a, &window(10, 20)), Ok(tweets(vec![12])));
    assert_eq!(
        store.get_known_tweets(&b, &window(15, 30)),
        Ok(tweets(vec![16, 29]))
    );
    assert_eq!(
        store.get_known_tweets(&a, &window(15, 30)),
        Err(sub_ranges(vec![(20, 30)]))
    );
    assert_eq!(
        store.get_known_tweets(&b, &window(10, 20)),
        Err(sub_ranges(vec![(10, 15)]))
    );
}

#[test]
fn unknown_user_misses_whole_window() {
    let store = cache(vec![]);
    let u = "nobody".to_owned();
    assert_eq!(
        store.get_known_tweets(&u, &window(10, 20)),
        Err(sub_ranges(vec![(10, 20)]))
    );
}

#[test]
fn single_point_window_is_fetched_whole() {
    let mut store = cache(vec![]);
    let u = "u".to_owned();
    assert_eq!(
        store.get_known_tweets(&u, &window(7, 7)),
        Err(sub_ranges(vec![(7, 7)]))
    );
    store
        .deposit(&u, &window(10, 20), tweets(vec![12]))
        .expect("Deposit");
    assert_eq!(
        store.get_known_tweets(&u, &window(7, 7)),
        Err(sub_ranges(vec![(7, 7)]))
    );
    store
        .deposit(&u, &window(7, 7), tweets(vec![7]))
        .expect("Deposit of the point");
    assert_eq!(store.get_known_tweets(&u, &window(7, 7)), Ok(tweets(vec![7])));
    assert_eq!(store.get_known_tweets(&u, &window(12, 12)), Ok(tweets(vec![12])));
}

#[test]
fn fetching_every_sub_range_makes_the_window_known() {
    let mut store = cache(vec![]);
    let u = "u".to_owned();
    let who = caller("reader");
    store
        .deposit(&u, &window(5, 10), tweets(vec![5, 7]))
        .expect("First seed");
    store
        .deposit(&u, &window(20, 30), tweets(vec![25]))
        .expect("Second seed");
    let missing = match store.tweets(&u, &window(1, 40)) {
        Lookup::Fetch(missing) => missing,
        Lookup::Known(_) => panic!("the window is not known yet"),
    };
    assert_eq!(missing, sub_ranges(vec![(1, 5), (10, 20), (30, 40)]));
    let answers = vec![vec![2, 5], vec![17, 13], vec![40]];
    for (m, answer) in missing.iter().iter().zip(answers.into_iter()) {
        assert_eq!(
            store.fetch_tweets(&who, &u, m, Source::Timeline, tweets(answer)),
            Ok(Progress::Stored)
        );
    }
    assert_eq!(
        store.tweets(&u, &window(1, 40)),
        Lookup::Known(tweets(vec![2, 5, 7, 13, 17, 25, 40]))
    );
}

#[test]
fn preload_fills_one_timeline() {
    let mut store = cache(vec![]);
    let u = "harrisimo".to_owned();
    store
        .deposit(&u, &window(1, 2), tweets(vec![1]))
        .expect("Deposit before preload");
    store.preload();
    assert_eq!(
        store.tweets(&u, &window(963140650398646272, 963155749893046272)),
        Lookup::Known(tweets(vec![
            963143061558743040,
            963143736631869440,
            963144473604534272,
            963146750457499648,
            963152907255377921,
        ]))
    );
    // what was held before is dropped
    assert_eq!(
        store.get_known_tweets(&u, &window(1, 2)),
        Err(sub_ranges(vec![(1, 2)]))
    );
}

#[test]
fn timeline_is_sorted_or_none() {
    assert_eq!(TweetStore::fetch_usertimeline(vec![]), None);
    assert_eq!(
        TweetStore::fetch_usertimeline(tweets(vec![15, 10, 11, 10])),
        Some(tweets(vec![10, 10, 11, 15]))
    );
}

#[test]
fn search_results_are_sorted() {
    assert_eq!(TweetStore::fetch_user_tweets_from_search(vec![]), vec![]);
    assert_eq!(
        TweetStore::fetch_user_tweets_from_search(tweets(vec![3, 2, 1])),
        tweets(vec![1, 2, 3])
    );
}

#[test]
fn twitter_time_is_utc_minutes() {
    assert_eq!(
        TweetStore::as_twitter_time(&SecondsSinceUnixEpoch(0)),
        "197001010000"
    );
    assert_eq!(
        TweetStore::as_twitter_time(&SecondsSinceUnixEpoch(1518480000)),
        "201802130000"
    );
    assert_eq!(
        TweetStore::as_twitter_time(&SecondsSinceUnixEpoch(1518480059)),
        "201802130000"
    );
    assert_eq!(
        TweetStore::as_twitter_time(&SecondsSinceUnixEpoch(1518480060)),
        "201802130001"
    );
    assert_eq!(
        TweetStore::as_twitter_time(&SecondsSinceUnixEpoch(253402300799)),
        "999912312359"
    );
}

#[test]
fn twitter_time_is_twelve_digits() {
    for seconds in [0u64, 59, 86399, 951782400, 1518480000, 4102444799, 253402300799] {
        let text = TweetStore::as_twitter_time(&SecondsSinceUnixEpoch(seconds));
        assert_eq!(text.len(), 12, "{}", text);
        assert!(text.chars().all(|c| c.is_ascii_digit()), "{}", text);
    }
    assert_eq!(
        TweetStore::as_twitter_time(&SecondsSinceUnixEpoch(951782400)),
        "200002290000"
    );
}

#[test]
fn search_enabled_names() {
    let store = cache(vec!["alice", "bob"]);
    assert!(store.is_search_enabled(&"alice".to_owned()));
    assert!(store.is_search_enabled(&"bob".to_owned()));
    assert!(!store.is_search_enabled(&"carol".to_owned()));
    assert!(!store.is_search_enabled(&"".to_owned()));
    assert_eq!(store.app_token().oauth_token, "app");
    assert_eq!(store.app_token().oauth_token_secret, "app-secret");
}

#[test]
fn error_messages() {
    assert_eq!(FetchError::Conflict.message(), "Conflicting values");
    assert_eq!(
        FetchError::IndeterminateEmpty.message(),
        "No tweets found, but can't guarantee no tweets should have been found"
    );
    assert_eq!(twimetravel::ConflictError.message(), "Conflicting values");
}
