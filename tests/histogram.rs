use ab::histogram::{hist_buckets, max_bucket};
use ab::samples::SampleStore;

const S: u64 = 1_000_000_000;

#[test]
fn histogram_scenario_clamps_top_value() {
    assert_eq!(hist_buckets(&vec![0, S, S], 2, 0, S), vec![1, 2]);
}

#[test]
fn histogram_counts_sum_to_sample_count() {
    let samples: Vec<u64> = (0..=1000).map(|k| k * 7).collect();
    let h = hist_buckets(&samples, 100, 0, 7000);
    assert_eq!(h.len(), 100);
    assert_eq!(h.iter().sum::<usize>(), samples.len());
    assert_eq!(h[0], 10);
    assert_eq!(h[99], 11);
}

#[test]
fn histogram_exact_buckets() {
    let h = hist_buckets(&vec![0, 24, 25, 49, 50, 99, 100], 4, 0, 100);
    assert_eq!(h, vec![2, 2, 1, 2]);
}

#[test]
fn histogram_rebuild_is_identical() {
    let samples: Vec<u64> = vec![5, 17, 17, 60, 88, 100];
    assert_eq!(hist_buckets(&samples, 10, 0, 100), hist_buckets(&samples, 10, 0, 100));
}

#[test]
fn histogram_clamps_samples_above_range() {
    let h = hist_buckets(&vec![1, 5, 10, 11, 50], 2, 0, 10);
    assert_eq!(h, vec![1, 4]);
    assert_eq!(h.iter().sum::<usize>(), 5);
}

#[test]
fn histogram_empty_range_is_all_zero() {
    assert_eq!(hist_buckets(&vec![0, 0, 0], 3, 0, 0), vec![0, 0, 0]);
    assert_eq!(hist_buckets(&vec![], 2, 0, 10), vec![0, 0]);
    assert_eq!(hist_buckets(&vec![1, 2], 0, 0, 10), Vec::<usize>::new());
}

#[test]
fn histogram_respects_lower_bound() {
    let h = hist_buckets(&vec![5, 10, 15, 20, 25], 2, 10, 20);
    assert_eq!(h, vec![1, 3]);
}

#[test]
fn max_bucket_finds_greatest() {
    assert_eq!(max_bucket(&vec![3, 9, 2, 9, 0]), 9);
    assert_eq!(max_bucket(&vec![]), 0);
    assert_eq!(max_bucket(&vec![0, 0]), 0);
}

#[test]
fn histogram_ignores_insertion_order() {
    let mut a = SampleStore::new();
    let mut b = SampleStore::new();
    for v in [40u64, 10, 90, 10, 70] {
        a.insert(v);
    }
    for v in [90u64, 70, 10, 40, 10] {
        b.insert(v);
    }
    assert_eq!(a.samples(), b.samples());
    assert_eq!(hist_buckets(a.samples(), 5, 0, 100), hist_buckets(b.samples(), 5, 0, 100));
    assert_eq!(hist_buckets(a.samples(), 5, 0, 100), vec![2, 0, 1, 1, 1]);
}
