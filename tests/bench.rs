use ab::bench::{heat_color, shows_rank_stats, standing, Bench, Standing, BUCKETS};

#[test]
fn standing_best_slower_unbounded() {
    assert!(matches!(standing(100, 100), Standing::Best));
    assert!(matches!(standing(150, 100), Standing::Slower { tenths_percent: 500 }));
    assert!(matches!(standing(1001, 1000), Standing::Slower { tenths_percent: 1 }));
    assert!(matches!(standing(3, 2), Standing::Slower { tenths_percent: 500 }));
    assert!(matches!(standing(1234, 1000), Standing::Slower { tenths_percent: 234 }));
    assert!(matches!(standing(10_005, 10_000), Standing::Slower { tenths_percent: 1 }));
    assert!(matches!(standing(10_004, 10_000), Standing::Slower { tenths_percent: 0 }));
    assert!(matches!(standing(5, 0), Standing::Unbounded));
    assert!(matches!(standing(0, 0), Standing::Best));
}

#[test]
fn heat_color_grades_from_dark_to_light() {
    assert_eq!(heat_color(0, 0), 232);
    assert_eq!(heat_color(0, 10), 232);
    assert_eq!(heat_color(5, 10), 244);
    assert_eq!(heat_color(10, 10), 255);
    assert_eq!(heat_color(1, 24), 233);
}

#[test]
fn rank_stats_gate() {
    assert!(!shows_rank_stats(0));
    assert!(!shows_rank_stats(19));
    assert!(shows_rank_stats(20));
}

#[test]
fn bench_best_mean_and_shared_max() {
    let mut b = Bench::new(3);
    assert_eq!(b.best_mean(), None);
    assert_eq!(b.shared_max(), 0);
    b.record(0, 10);
    b.record(0, 30);
    b.record(1, 50);
    b.record(1, 5);
    assert_eq!(b.mean(0), Some(20));
    assert_eq!(b.mean(1), Some(27));
    assert_eq!(b.mean(2), None);
    assert_eq!(b.best_mean(), Some(20));
    // The range follows the latest sample of each candidate, not the largest.
    assert_eq!(b.shared_max(), 30);
    assert_eq!(b.trials(), 4);
    assert_eq!(b.store(1).samples(), &vec![5, 50]);
}

#[test]
fn bench_histograms_share_range() {
    let mut b = Bench::new(2);
    b.record(0, 0);
    b.record(0, 100);
    b.record(1, 50);
    let h = b.histograms(2, 100);
    assert_eq!(h, vec![vec![1, 1], vec![0, 1]]);
}

#[test]
fn report_before_and_after_gate() {
    let mut b = Bench::new(2);
    for k in 0..19u64 {
        b.record((k % 2) as usize, 100 + k);
    }
    let r = b.report();
    assert_eq!(r.rows.len(), 2);
    assert!(r.rows[0].standing.is_none());
    assert!(r.rows[0].p50.is_none());
    assert_eq!(r.rows[0].samples + r.rows[1].samples, 19);
    assert_eq!(r.rows[0].colors.len(), BUCKETS);
    b.record(1, 200);
    let r = b.report();
    assert_eq!(r.rows[0].mean, Some(109));
    assert_eq!(r.rows[1].mean, Some(118));
    assert_eq!(r.best, Some(109));
    assert!(matches!(r.rows[0].standing, Some(Standing::Best)));
    assert!(matches!(r.rows[1].standing, Some(Standing::Slower { tenths_percent: 83 })));
    assert_eq!(r.rows[0].p50, Some(110));
    assert_eq!(r.rows[1].p99, Some(200));
    assert_eq!(r.range_max, 200);
    let total: usize = r.rows.iter().map(|row| row.samples).sum();
    assert_eq!(total, 20);
    assert!(r.max_count > 0);
    assert!(r.rows.iter().all(|row| row.colors.iter().all(|c| (232..=255).contains(c))));
}

#[test]
fn report_counts_samples_above_shared_range() {
    let mut b = Bench::new(1);
    b.record(0, 100);
    b.record(0, 10);
    let r = b.report();
    assert_eq!(r.range_max, 10);
    let h = b.histograms(BUCKETS, r.range_max);
    assert_eq!(h[0].iter().sum::<usize>(), 2);
    assert_eq!(h[0][BUCKETS - 1], 2);
    assert_eq!(r.max_count, 2);
    assert_eq!(r.rows[0].colors[BUCKETS - 1], 255);
    assert_eq!(r.rows[0].colors[0], 232);
}

#[test]
fn mean_lies_between_extremes() {
    let mut b = Bench::new(1);
    for v in [3u64, 1000, 17, 250] {
        b.record(0, v);
    }
    let m = b.mean(0).unwrap();
    assert_eq!(m, 317);
    assert!(3 <= m && m <= 1000);
}
