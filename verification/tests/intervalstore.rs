use twimetravel::{Interval, IntervalStore};

fn new() -> IntervalStore<u64, u32> {
    IntervalStore::new()
}

#[test]
fn get_missing() {
    let store = new();
    assert_eq!(store.get(&Interval(10, 20)), None);
}

#[test]
fn get_empty_bucket() {
    let mut store = new();
    store.insert(&Interval(10, 20), vec![]).expect("Insert");
    assert_eq!(store.get(&Interval(10, 20)), Some(vec![]));
}

#[test]
fn get_whole_bucket() {
    let mut store = new();
    store
        .insert(&Interval(10, 20), vec![10, 11, 15])
        .expect("Insert");
    assert_eq!(store.get(&Interval(10, 20)), Some(vec![10, 11, 15]));
}

#[test]
fn get_part_of_bucket() {
    let mut store = new();
    store
        .insert(&Interval(10, 20), vec![10, 11, 15])
        .expect("Insert");
    assert_eq!(store.get(&Interval(10, 14)), Some(vec![10, 11]));
}

#[test]
fn insert() {
    let mut store = new();
    store
        .insert(&Interval(10, 20), vec![10, 11, 15])
        .expect("Insert");
    assert_eq!(store.get(&Interval(10, 20)), Some(vec![10, 11, 15]));
}

#[test]
fn reinsert_idempotent_whole_interval() {
    let mut store = new();
    store
        .insert(&Interval(10, 20), vec![10, 11, 15])
        .expect("First insert");
    store
        .insert(&Interval(10, 20), vec![10, 11, 15])
        .expect("Second insert");
    assert_eq!(store.get(&Interval(10, 20)), Some(vec![10, 11, 15]));
}

#[test]
fn reinsert_conflict_whole_interval() {
    let mut store = new();
    store
        .insert(&Interval(10, 20), vec![10, 11, 15])
        .expect("First insert");
    store
        .insert(&Interval(10, 20), vec![14])
        .expect_err("Second insert");
    assert_eq!(store.get(&Interval(10, 20)), Some(vec![10, 11, 15]));
}

#[test]
fn reinsert_missing_some_whole_interval() {
    let mut store = new();
    store
        .insert(&Interval(10, 20), vec![10, 11, 15])
        .expect("First insert");
    store
        .insert(&Interval(10, 20), vec![11])
        .expect_err("Second insert");
    assert_eq!(store.get(&Interval(10, 20)), Some(vec![10, 11, 15]));
}

#[test]
fn insert_adjacent_interval_no_overlapping_value() {
    let mut store = new();
    store
        .insert(&Interval(15, 20), vec![16])
        .expect("First insert");
    store
        .insert(&Interval(10, 15), vec![10, 11])
        .expect("Second insert");
    assert_eq!(store.get(&Interval(10, 20)), Some(vec![10, 11, 16]));
}

#[test]
fn insert_adjacent_interval_overlapping_value() {
    let mut store = new();
    store
        .insert(&Interval(15, 20), vec![15, 16])
        .expect("First insert");
    store
        .insert(&Interval(10, 15), vec![10, 11, 15])
        .expect("Second insert");
    assert_eq!(store.get(&Interval(10, 20)), Some(vec![10, 11, 15, 16]));
}

#[test]
fn insert_bottom_overlapping_interval() {
    let mut store = new();
    store
        .insert(&Interval(10, 15), vec![10, 11, 15])
        .expect("First insert");
    store
        .insert(&Interval(8, 12), vec![9, 10, 11])
        .expect("Second insert");
    assert_eq!(store.get(&Interval(8, 15)), Some(vec![9, 10, 11, 15]));
}

#[test]
fn insert_top_overlapping_interval() {
    let mut store = new();
    store
        .insert(&Interval(8, 12), vec![9, 10, 11])
        .expect("First insert");
    store
        .insert(&Interval(10, 15), vec![10, 11, 15])
        .expect("Second insert");
    assert_eq!(store.get(&Interval(8, 15)), Some(vec![9, 10, 11, 15]));
}

#[test]
fn insert_contained_interval() {
    let mut store = new();
    store
        .insert(&Interval(8, 15), vec![9, 10, 11, 15])
        .expect("First insert");
    store
        .insert(&Interval(10, 15), vec![10, 11, 15])
        .expect("Second insert");
    assert_eq!(store.get(&Interval(8, 15)), Some(vec![9, 10, 11, 15]));
}

#[test]
fn insert_disjoint_interval() {
    let mut store = new();
    store
        .insert(&Interval(8, 9), vec![9])
        .expect("First insert");
    store
        .insert(&Interval(12, 15), vec![15])
        .expect("Second insert");
    assert_eq!(store.get(&Interval(8, 9)), Some(vec![9]));
    assert_eq!(store.get(&Interval(8, 15)), None);
}
