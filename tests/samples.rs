use ab::samples::{insert_sorted, quantile, sum_from_scratch, SampleStore};

const MS: u64 = 1_000_000;

#[test]
fn insertion_scenario_sorts_with_duplicates() {
    let mut store = SampleStore::new();
    for v in [500 * MS, 300 * MS, 900 * MS, 300 * MS] {
        store.insert(v);
    }
    assert_eq!(store.samples(), &vec![300 * MS, 300 * MS, 500 * MS, 900 * MS]);
    assert_eq!(store.len(), 4);
    assert_eq!(store.latest(), Some(300 * MS));
}

#[test]
fn insert_sorted_keeps_order_at_every_step() {
    let mut v: Vec<u64> = Vec::new();
    for x in [7u64, 3, 9, 1, 3, 8, 0, 9, 2] {
        insert_sorted(&mut v, x);
        assert!(v.windows(2).all(|w| w[0] <= w[1]));
    }
    assert_eq!(v, vec![0, 1, 2, 3, 3, 7, 8, 9, 9]);
}

#[test]
fn insert_sorted_into_empty_and_at_ends() {
    let mut v: Vec<u64> = Vec::new();
    insert_sorted(&mut v, 5);
    assert_eq!(v, vec![5]);
    insert_sorted(&mut v, 10);
    insert_sorted(&mut v, 1);
    assert_eq!(v, vec![1, 5, 10]);
}

#[test]
fn quantile_selects_rank_element() {
    let v: Vec<u64> = (1..=100).collect();
    assert_eq!(quantile(&v, 500), Some(51));
    assert_eq!(quantile(&v, 950), Some(96));
    assert_eq!(quantile(&v, 990), Some(100));
    assert_eq!(quantile(&v, 0), Some(1));
}

#[test]
fn quantile_is_always_a_present_sample() {
    let v: Vec<u64> = vec![3, 3, 10, 42, 1000];
    for q in [0u64, 100, 333, 500, 950, 990, 999] {
        let r = quantile(&v, q).unwrap();
        assert!(v.contains(&r));
    }
    assert_eq!(quantile(&v, 500), Some(10));
}

#[test]
fn quantile_clamps_at_one_and_empty_is_none() {
    let v: Vec<u64> = vec![4, 5, 6];
    assert_eq!(quantile(&v, 1000), Some(6));
    assert_eq!(quantile(&v, 5000), Some(6));
    assert_eq!(quantile(&Vec::new(), 500), None);
}

#[test]
fn mean_running_total_matches_from_scratch() {
    let mut store = SampleStore::new();
    assert_eq!(store.mean(), None);
    assert_eq!(store.mean_from_scratch(), None);
    for v in [10u64, 20, 35, 1, 99, 7] {
        store.insert(v);
        assert_eq!(store.mean(), store.mean_from_scratch());
    }
    assert_eq!(store.mean(), Some(172 / 6));
    assert_eq!(sum_from_scratch(store.samples()), 172);
}

#[test]
fn mean_of_huge_samples_does_not_overflow() {
    let mut store = SampleStore::new();
    store.insert(u64::MAX);
    store.insert(u64::MAX);
    store.insert(u64::MAX - 2);
    assert_eq!(store.mean(), Some(u64::MAX - 1));
    assert_eq!(store.quantile(500), Some(u64::MAX));
}
