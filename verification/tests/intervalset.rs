use twimetravel::{Interval, IntervalSet};

fn interval_set(interval: Interval<u32>) -> IntervalSet<u32> {
    interval_set_of(vec![interval])
}

fn interval_set_of(intervals: Vec<Interval<u32>>) -> IntervalSet<u32> {
    let mut set = IntervalSet::new();
    for interval in intervals.iter() {
        set.insert(interval);
    }
    set
}

#[test]
fn contains_empty() {
    let set = IntervalSet::new();
    assert!(!set.contains(&Interval(10, 20)));
}

#[test]
fn contains_part() {
    let mut set = IntervalSet::new();
    set.insert(&Interval(10, 15));
    assert!(!set.contains(&Interval(10, 20)));
}

#[test]
fn contains_exact() {
    let mut set = IntervalSet::new();
    set.insert(&Interval(10, 20));
    assert!(set.contains(&Interval(10, 20)));
}

#[test]
fn contains_more() {
    let mut set = IntervalSet::new();
    set.insert(&Interval(5, 25));
    assert!(set.contains(&Interval(10, 20)));
}

#[test]
fn missing_none() {
    let mut set = IntervalSet::new();
    set.insert(&Interval(10, 20));
    assert_eq!(set.missing(&Interval(10, 20)), IntervalSet::new());
    assert_eq!(set.missing(&Interval(12, 15)), IntervalSet::new());
}

#[test]
fn missing_lower() {
    let mut set = IntervalSet::new();
    set.insert(&Interval(10, 20));
    assert_eq!(set.missing(&Interval(5, 10)), interval_set(Interval(5, 10)));
    assert_eq!(set.missing(&Interval(5, 15)), interval_set(Interval(5, 10)));
}

#[test]
fn missing_upper() {
    let mut set = IntervalSet::new();
    set.insert(&Interval(10, 20));
    assert_eq!(
        set.missing(&Interval(20, 25)),
        interval_set(Interval(20, 25))
    );
    assert_eq!(
        set.missing(&Interval(15, 25)),
        interval_set(Interval(20, 25))
    );
}

#[test]
fn missing_middle() {
    let mut set = IntervalSet::new();
    set.insert(&Interval(5, 10));
    set.insert(&Interval(20, 30));
    assert_eq!(
        set.missing(&Interval(12, 15)),
        interval_set(Interval(12, 15))
    );
    assert_eq!(
        set.missing(&Interval(10, 15)),
        interval_set(Interval(10, 15))
    );
    assert_eq!(
        set.missing(&Interval(15, 20)),
        interval_set(Interval(15, 20))
    );
    assert_eq!(
        set.missing(&Interval(15, 25)),
        interval_set(Interval(15, 20))
    );
}

#[test]
fn missing_multi() {
    let mut set = IntervalSet::new();
    set.insert(&Interval(5, 10));
    set.insert(&Interval(20, 30));
    assert_eq!(
        set.missing(&Interval(1, 40)),
        interval_set_of(vec![Interval(1, 5), Interval(10, 20), Interval(30, 40)])
    );
}
