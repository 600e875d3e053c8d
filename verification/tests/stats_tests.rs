use latency_stats::stats::{trim_outliers, StatResult};

fn stat(min: u64, max: u64, p50: u64, p99: u64, count: usize) -> StatResult {
    StatResult { min, max, p50, p99, count }
}

#[test]
fn empty_compute_yields_zero() {
    let mut samples: Vec<u64> = Vec::new();
    let r = StatResult::compute(&mut samples);
    assert_eq!(r, stat(0, 0, 0, 0, 0));
    assert!(samples.is_empty());
}

#[test]
fn empty_merge_yields_zero() {
    let results: Vec<StatResult> = Vec::new();
    let r = StatResult::merge(&results);
    assert_eq!(r, stat(0, 0, 0, 0, 0));
}

#[test]
fn default_is_zero() {
    assert_eq!(StatResult::default(), stat(0, 0, 0, 0, 0));
}

#[test]
fn single_sample() {
    let mut samples: Vec<u64> = vec![5];
    let r = StatResult::compute(&mut samples);
    assert_eq!(r, stat(5, 5, 5, 5, 1));
}

#[test]
fn known_distribution_of_ten() {
    let mut samples: Vec<u64> = vec![1, 2, 3, 4, 5, 6, 7, 8, 9, 10];
    let r = StatResult::compute(&mut samples);
    assert_eq!(r.min, 1);
    assert_eq!(r.max, 10);
    assert_eq!(r.p50, 6); // element at index 10 / 2
    assert_eq!(r.p99, 9); // element at index (10 - 1) * 99 / 100 = 8
    assert_eq!(r.count, 10);
}

#[test]
fn compute_sorts_in_place() {
    let mut samples: Vec<u64> = vec![30, 10, 20, 10];
    let r = StatResult::compute(&mut samples);
    assert_eq!(samples, vec![10, 10, 20, 30]);
    assert_eq!(r.min, 10);
    assert_eq!(r.max, 30);
    assert_eq!(r.count, 4);
}

#[test]
fn percentiles_bracketed_by_extremes() {
    let inputs: Vec<Vec<u64>> = vec![
        vec![7],
        vec![9, 1, 5],
        vec![4, 4, 4, 4],
        vec![100, 3, 77, 12, 54, 8, 91, 23, 61, 2, 40],
    ];
    for input in inputs {
        let mut samples = input.clone();
        let n = samples.len();
        let r = StatResult::compute(&mut samples);
        assert!(r.min <= r.p50);
        assert!(r.min <= r.p99);
        assert!(r.p50 <= r.max);
        assert!(r.p99 <= r.max);
        assert!(r.p50 <= r.p99, "input {:?}", input);
        assert_eq!(r.count, n);
    }
}

#[test]
fn two_samples_put_median_above_p99() {
    // With exactly two samples the median rank (1) lies above the
    // 99th-percentile rank (0), so p50 lands on the larger sample.
    let mut samples: Vec<u64> = vec![5, 1];
    let r = StatResult::compute(&mut samples);
    assert_eq!(r.p50, 5);
    assert_eq!(r.p99, 1);
}

#[test]
fn compute_twice_gives_identical_results() {
    let mut samples: Vec<u64> = vec![90, 2, 55, 17, 3, 88, 41, 5, 5, 63];
    let first = StatResult::compute(&mut samples);
    let second = StatResult::compute(&mut samples);
    assert_eq!(first, second);
}

#[test]
fn trim_keeps_everything_inside_the_fence() {
    // Sorted: q1 = 2 (index 1), q3 = 4 (index 3), iqr = 2,
    // fence = [0, 10]: the far tail value is dropped.
    let samples: Vec<u64> = vec![1, 2, 3, 4, 1000];
    let kept = trim_outliers(&samples);
    assert_eq!(kept, vec![1, 2, 3, 4]);
}

#[test]
fn trim_keeps_uniform_run_whole() {
    let samples: Vec<u64> = vec![5, 5, 5];
    let kept = trim_outliers(&samples);
    assert_eq!(kept, vec![5, 5, 5]);
}

#[test]
fn trim_collapsed_fence_keeps_quartile_band() {
    // One sample: q1 = q3 = 8, iqr = 0, fence = [8, 8].
    let samples: Vec<u64> = vec![8];
    let kept = trim_outliers(&samples);
    assert_eq!(kept, vec![8]);
}

#[test]
fn merge_takes_extremes_and_total_count() {
    let results = vec![
        stat(1, 100, 40, 90, 10),
        stat(1, 100, 40, 90, 10),
        stat(2, 90, 40, 80, 0),
    ];
    let r = StatResult::merge(&results);
    assert_eq!(r.min, 1);
    assert_eq!(r.max, 100);
    assert_eq!(r.count, 20);
}

#[test]
fn merge_averages_percentiles_truncating() {
    let results = vec![stat(1, 10, 4, 9, 3), stat(2, 20, 7, 12, 5)];
    let r = StatResult::merge(&results);
    assert_eq!(r.p50, 5); // (4 + 7) / 2 rounded toward zero
    assert_eq!(r.p99, 10); // (9 + 12) / 2 rounded toward zero
    assert_eq!(r.count, 8);
}

#[test]
fn trim_handles_extreme_sample_values() {
    // The upper fence bound q3 + 3 * iqr exceeds u64 territory here; every
    // sample still lies inside the fence and is kept.
    let samples: Vec<u64> = vec![
        u64::MAX - 4,
        u64::MAX - 3,
        u64::MAX - 2,
        u64::MAX - 1,
        u64::MAX,
    ];
    let kept = trim_outliers(&samples);
    assert_eq!(kept, samples);
}

#[test]
fn merge_handles_extreme_percentiles() {
    let results = vec![
        stat(0, u64::MAX, u64::MAX, u64::MAX, 1),
        stat(0, u64::MAX, u64::MAX, u64::MAX, 1),
    ];
    let r = StatResult::merge(&results);
    assert_eq!(r.p50, u64::MAX);
    assert_eq!(r.p99, u64::MAX);
    assert_eq!(r.count, 2);
}

#[test]
fn merge_of_one_is_that_summary() {
    let results = vec![stat(3, 9, 6, 8, 4)];
    let r = StatResult::merge(&results);
    assert_eq!(r, stat(3, 9, 6, 8, 4));
}
