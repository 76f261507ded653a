use twimetravel::{
    window_of, Interval, IntervalSet, IntervalStore, SecondsSinceUnixEpoch, Snowflake,
    TimeCoordinate, TweetFromTwitter, UniquelyIdentifiedTimeValue,
};

fn set_of(intervals: &[(u32, u32)]) -> IntervalSet<u32> {
    let mut set = IntervalSet::new();
    for &(lo, hi) in intervals {
        set.insert(&Interval(lo, hi));
    }
    set
}

fn members(set: &IntervalSet<u32>) -> Vec<(u32, u32)> {
    set.iter().iter().map(|i| (i.0, i.1)).collect()
}

fn covered(set: &IntervalSet<u32>, p: u32) -> bool {
    set.iter().iter().any(|i| i.contains(&p))
}

const INSERTS: [(u32, u32); 9] = [
    (30, 35),
    (10, 12),
    (50, 50),
    (12, 14),
    (40, 45),
    (33, 41),
    (1, 2),
    (20, 25),
    (21, 22),
];

#[test]
fn inserted_points_are_the_union() {
    let set = set_of(&INSERTS);
    for p in 0..60u32 {
        let in_union = INSERTS.iter().any(|&(lo, hi)| lo <= p && p <= hi);
        assert_eq!(covered(&set, p), in_union, "position {}", p);
    }
    assert_eq!(
        members(&set),
        vec![(1, 2), (10, 14), (20, 25), (30, 45), (50, 50)]
    );
}

#[test]
fn members_neither_overlap_nor_touch() {
    let mut set = IntervalSet::new();
    for &(lo, hi) in INSERTS.iter() {
        set.insert(&Interval(lo, hi));
        let now = members(&set);
        for pair in now.windows(2) {
            assert!(pair[0].1 < pair[1].0, "{:?}", now);
        }
        for m in now.iter() {
            assert!(m.0 <= m.1);
        }
    }
}

#[test]
fn order_of_inserts_does_not_matter() {
    let mut reversed = INSERTS.to_vec();
    reversed.reverse();
    assert_eq!(set_of(&INSERTS), set_of(&reversed));
}

#[test]
fn insert_of_a_held_interval_changes_nothing() {
    let mut set = set_of(&[(5, 10), (20, 30)]);
    set.insert(&Interval(6, 9));
    set.insert(&Interval(5, 10));
    set.insert(&Interval(20, 20));
    assert_eq!(members(&set), vec![(5, 10), (20, 30)]);
}

#[test]
fn insert_swallows_members_inside_it() {
    let mut set = set_of(&[(12, 15)]);
    set.insert(&Interval(10, 20));
    assert_eq!(members(&set), vec![(10, 20)]);
    let mut set = set_of(&[(1, 2), (12, 13), (15, 16), (30, 31)]);
    set.insert(&Interval(10, 20));
    assert_eq!(members(&set), vec![(1, 2), (10, 20), (30, 31)]);
}

#[test]
fn insert_merges_touching_members() {
    let mut set = set_of(&[(1, 5), (10, 20), (25, 30)]);
    set.insert(&Interval(5, 10));
    assert_eq!(members(&set), vec![(1, 20), (25, 30)]);
    set.insert(&Interval(22, 25));
    assert_eq!(members(&set), vec![(1, 20), (22, 30)]);
    set.insert(&Interval(21, 21));
    assert_eq!(members(&set), vec![(1, 20), (21, 21), (22, 30)]);
}

#[test]
fn intersects_is_one_sided() {
    assert!(Interval(0, 100).intersects(&Interval(50, 60)));
    assert!(!Interval(50, 60).intersects(&Interval(0, 100)));
    assert!(Interval(0, 100).touches(&Interval(50, 60)));
    assert!(Interval(50, 60).touches(&Interval(0, 100)));
    assert!(Interval(10, 20).intersects(&Interval(20, 30)));
    assert!(Interval(20, 30).intersects(&Interval(10, 20)));
    assert!(!Interval(10, 20).touches(&Interval(21, 30)));
    assert!(Interval(10, 20).contains(&10));
    assert!(Interval(10, 20).contains(&20));
    assert!(!Interval(10, 20).contains(&9));
    assert!(!Interval(10, 20).contains(&21));
    assert!(Interval(10, 20).contains_interval(&Interval(10, 20)));
    assert!(!Interval(10, 20).contains_interval(&Interval(10, 21)));
}

#[test]
fn intersecting_picks_the_members_that_hold_an_end() {
    let set = set_of(&[(1, 5), (10, 20), (22, 23), (25, 30), (40, 50)]);
    // (22,23) lies strictly inside the window and holds neither end
    assert_eq!(
        members(&set.intersecting(&Interval(20, 25))),
        vec![(10, 20), (25, 30)]
    );
    assert_eq!(members(&set.intersecting(&Interval(6, 9))), vec![]);
    assert_eq!(members(&set.intersecting(&Interval(12, 13))), vec![(10, 20)]);
    assert_eq!(members(&set.intersecting(&Interval(3, 45))), vec![(1, 5), (40, 50)]);
    assert_eq!(members(&set.intersecting(&Interval(0, 60))), vec![]);
    assert_eq!(
        members(&set_of(&[(12, 15)]).intersecting(&Interval(10, 20))),
        vec![]
    );
    assert_eq!(
        members(&set_of(&[(12, 15)]).intersecting(&Interval(15, 20))),
        vec![(12, 15)]
    );
    assert_eq!(set.len(), 5);
    assert_eq!(IntervalSet::from_interval(&Interval(3u32, 4)), set_of(&[(3, 4)]));
}

#[test]
fn missing_and_covered_make_up_the_window() {
    let set = set_of(&[(5, 10), (20, 30), (35, 35), (50, 60)]);
    for lo in 0..70u32 {
        for hi in (lo + 1)..70u32 {
            let window = Interval(lo, hi);
            let missing = set.missing(&window);
            for p in 0..70u32 {
                let in_missing = covered(&missing, p);
                let in_window = window.contains(&p);
                assert_eq!(
                    in_window,
                    in_missing || (covered(&set, p) && in_window),
                    "window {:?} position {}",
                    window,
                    p
                );
            }
            for pair in members(&missing).windows(2) {
                assert!(pair[0].1 <= pair[1].0);
            }
            for m in members(&missing) {
                assert!(lo <= m.0 && m.0 < m.1 && m.1 <= hi);
            }
            assert_eq!(missing.len() == 0, set.contains(&window));
        }
    }
}

#[test]
fn missing_is_disjoint_without_point_members() {
    let set = set_of(&[(5, 10), (20, 30), (50, 60)]);
    let missing = members(&set.missing(&Interval(0, 70)));
    assert_eq!(missing, vec![(0, 5), (10, 20), (30, 50), (60, 70)]);
    for pair in missing.windows(2) {
        assert!(pair[0].1 < pair[1].0);
    }
}

#[test]
fn missing_around_a_point_member_shares_the_point() {
    let set = set_of(&[(5, 5)]);
    assert_eq!(members(&set.missing(&Interval(1, 10))), vec![(1, 5), (5, 10)]);
}

#[test]
fn missing_of_a_point_window_is_empty() {
    let set = set_of(&[(10, 20)]);
    assert_eq!(members(&set.missing(&Interval(7, 7))), vec![]);
    assert_eq!(members(&set.missing(&Interval(15, 15))), vec![]);
    assert!(!set.contains(&Interval(7, 7)));
    assert!(set.contains(&Interval(15, 15)));
}

#[test]
fn missing_stops_at_the_end_of_the_window() {
    let set = set_of(&[(10, 20), (30, 40)]);
    assert_eq!(members(&set.missing(&Interval(12, 15))), vec![]);
    assert_eq!(members(&set.missing(&Interval(12, 25))), vec![(20, 25)]);
    assert_eq!(members(&set.missing(&Interval(1, 5))), vec![(1, 5)]);
    assert_eq!(members(&set.missing(&Interval(45, 50))), vec![(45, 50)]);
}

#[test]
fn filling_what_is_missing_covers_the_window() {
    let mut set = set_of(&[(5, 10), (20, 30), (35, 35), (50, 60)]);
    let window = Interval(7, 55);
    let missing = set.missing(&window);
    assert_eq!(members(&missing), vec![(10, 20), (30, 35), (35, 50)]);
    for m in missing.iter() {
        set.insert(m);
    }
    assert!(set.contains(&window));
    assert_eq!(members(&set), vec![(5, 60)]);
    assert_eq!(set.missing(&window), IntervalSet::new());
}

fn store_after(inserts: &[((u64, u64), Vec<u32>)]) -> IntervalStore<u64, u32> {
    let mut store = IntervalStore::new();
    for (range, values) in inserts {
        store
            .insert(&Interval(range.0, range.1), values.clone())
            .expect("Insert");
    }
    store
}

#[test]
fn get_returns_what_was_inserted() {
    let inserts = vec![
        ((10, 20), vec![15, 10, 11]),
        ((30, 40), vec![]),
        ((20, 30), vec![22, 29]),
        ((5, 12), vec![10, 7, 11]),
        ((50, 60), vec![55, 60]),
    ];
    let store = store_after(&inserts);
    for lo in 0..65u64 {
        for hi in lo..65u64 {
            let window = Interval(lo, hi);
            let got = store.get(&window);
            assert_eq!(got.is_some(), store.has(&window));
            if let Some(got) = got {
                let mut expected: Vec<u32> = Vec::new();
                for (range, values) in inserts.iter() {
                    for v in values {
                        let t = *v as u64;
                        if range.0 <= t && t <= range.1 && lo <= t && t <= hi {
                            expected.push(*v);
                        }
                    }
                }
                expected.sort();
                expected.dedup();
                assert_eq!(got, expected, "window {:?}", window);
            }
        }
    }
    assert_eq!(store.get(&Interval(5, 40)), Some(vec![7, 10, 11, 15, 22, 29]));
    assert_eq!(store.get(&Interval(5, 60)), None);
}

#[test]
fn second_identical_insert_changes_nothing() {
    let mut store = store_after(&[((10, 20), vec![10, 11, 15]), ((30, 40), vec![33])]);
    store
        .insert(&Interval(15, 35), vec![15, 33, 21])
        .expect("First insert");
    let before: Vec<_> = (0..45u64).map(|p| store.get(&Interval(p, p))).collect();
    let missing_before = store.missing(&Interval(0, 45));
    store
        .insert(&Interval(15, 35), vec![15, 33, 21])
        .expect("Second insert");
    let after: Vec<_> = (0..45u64).map(|p| store.get(&Interval(p, p))).collect();
    assert_eq!(before, after);
    assert_eq!(store.missing(&Interval(0, 45)), missing_before);
    assert_eq!(store.get(&Interval(10, 40)), Some(vec![10, 11, 15, 21, 33]));
}

#[test]
fn refused_insert_changes_nothing() {
    let mut store = store_after(&[((10, 20), vec![10, 11, 15]), ((30, 40), vec![33])]);
    let before: Vec<_> = (0..45u64).map(|p| store.get(&Interval(p, p))).collect();
    let missing_before = store.missing(&Interval(0, 45));
    // 25 is new and lies in no known interval, but 12 disagrees with [10,20]
    store
        .insert(&Interval(12, 35), vec![12, 15, 25, 33])
        .expect_err("Conflicting insert");
    // 33 is left out of the overlap with [30,40]
    store
        .insert(&Interval(20, 35), vec![25])
        .expect_err("Insert that leaves a value out");
    let after: Vec<_> = (0..45u64).map(|p| store.get(&Interval(p, p))).collect();
    assert_eq!(before, after);
    assert_eq!(store.missing(&Interval(0, 45)), missing_before);
    assert_eq!(store.get(&Interval(10, 20)), Some(vec![10, 11, 15]));
    assert_eq!(store.get(&Interval(21, 29)), None);
}

#[test]
fn values_outside_the_interval_are_ignored() {
    let mut store: IntervalStore<u64, u32> = IntervalStore::new();
    store
        .insert(&Interval(10, 20), vec![25, 12, 5])
        .expect("First insert");
    assert_eq!(store.get(&Interval(10, 20)), Some(vec![12]));
    store.insert(&Interval(22, 30), vec![]).expect("Second insert");
    assert_eq!(store.get(&Interval(22, 30)), Some(vec![]));
    store
        .insert(&Interval(1, 9), vec![5, 12])
        .expect("Third insert");
    assert_eq!(store.get(&Interval(1, 9)), Some(vec![5]));
}

#[test]
fn a_time_is_held_once() {
    let mut store: IntervalStore<u64, u32> = IntervalStore::new();
    store
        .insert(&Interval(10, 20), vec![12, 15, 12, 12])
        .expect("Insert");
    assert_eq!(store.get(&Interval(10, 20)), Some(vec![12, 15]));
}

#[test]
fn known_but_empty_is_not_missing() {
    let mut store: IntervalStore<u64, u32> = IntervalStore::new();
    assert!(!store.has(&Interval(10, 20)));
    assert_eq!(store.missing(&Interval(10, 20)).len(), 1);
    store.insert(&Interval(10, 20), vec![]).expect("Insert");
    assert!(store.has(&Interval(10, 20)));
    assert!(store.has(&Interval(12, 13)));
    assert!(!store.has(&Interval(12, 21)));
    assert_eq!(store.missing(&Interval(10, 20)), IntervalSet::new());
    let beyond = store.missing(&Interval(5, 25));
    let beyond: Vec<_> = beyond.iter().iter().map(|i| (i.0, i.1)).collect();
    assert_eq!(beyond, vec![(5, 10), (20, 25)]);
}

#[test]
fn coordinates_are_their_own_values() {
    let mut store: IntervalStore<u64, u64> = IntervalStore::new();
    store
        .insert(&Interval(10, 20), vec![15, 11])
        .expect("Insert");
    assert_eq!(store.get(&Interval(10, 20)), Some(vec![11, 15]));
}

#[test]
fn seconds_since_start_of_a_window() {
    let from = SecondsSinceUnixEpoch(1518465600);
    let tweet = TweetFromTwitter {
        id: Snowflake(963143061558743040),
    };
    assert_eq!(tweet.seconds_since_start(&from), Some(574));
    let first = TweetFromTwitter {
        id: Snowflake::from(from),
    };
    assert_eq!(first.seconds_since_start(&from), Some(0));
    assert_eq!(
        first.seconds_since_start(&SecondsSinceUnixEpoch(1518465601)),
        None
    );
}

#[test]
fn window_of_two_seconds() {
    assert_eq!(
        window_of(
            SecondsSinceUnixEpoch(1518465600),
            SecondsSinceUnixEpoch(1518469200)
        ),
        Some(Interval(
            Snowflake(963140650398646272),
            Snowflake(963155749893046272)
        ))
    );
    assert_eq!(
        window_of(
            SecondsSinceUnixEpoch(1518465600),
            SecondsSinceUnixEpoch(1518465600)
        ),
        Some(Interval(
            Snowflake(963140650398646272),
            Snowflake(963140650398646272)
        ))
    );
    assert_eq!(
        window_of(
            SecondsSinceUnixEpoch(1518469200),
            SecondsSinceUnixEpoch(1518465600)
        ),
        None
    );
}

#[test]
fn coordinates_are_ordered_by_position() {
    assert!(3u32.before(&4));
    assert!(!4u32.before(&4));
    assert!(!5u32.before(&4));
    assert!(3u64.before(&u64::MAX));
    assert!((-3i32).before(&2));
    assert!(!2i32.before(&-3));
    assert!(i64::MIN.before(&i64::MAX));
    assert!(Snowflake(1).before(&Snowflake(2)));
    assert!(!Snowflake(2).before(&Snowflake(2)));
    assert!(SecondsSinceUnixEpoch(1).before(&SecondsSinceUnixEpoch(2)));
    assert!(!SecondsSinceUnixEpoch(3).before(&SecondsSinceUnixEpoch(2)));
}

#[test]
fn values_carry_their_time() {
    let tweet = TweetFromTwitter { id: Snowflake(42) };
    assert_eq!(tweet.time(), Snowflake(42));
    assert_eq!(UniquelyIdentifiedTimeValue::<u64>::time(&7u32), 7u64);
    assert_eq!(UniquelyIdentifiedTimeValue::<u64>::time(&7u64), 7u64);
}

#[test]
fn sets_of_signed_and_wrapped_coordinates() {
    let mut signed: IntervalSet<i64> = IntervalSet::new();
    signed.insert(&Interval(-20, -10));
    signed.insert(&Interval(-10, 5));
    assert!(signed.contains(&Interval(-15, 0)));
    let gaps: Vec<_> = signed
        .missing(&Interval(-30, 10))
        .iter()
        .iter()
        .map(|i| (i.0, i.1))
        .collect();
    assert_eq!(gaps, vec![(-30, -20), (5, 10)]);
    let mut seconds: IntervalSet<SecondsSinceUnixEpoch> = IntervalSet::new();
    seconds.insert(&Interval(SecondsSinceUnixEpoch(10), SecondsSinceUnixEpoch(20)));
    assert!(seconds.contains(&Interval(
        SecondsSinceUnixEpoch(12),
        SecondsSinceUnixEpoch(13)
    )));
}
