use latency_stats::histogram::{bucket_index, Histogram, NUM_BUCKETS};

#[test]
fn bucketing_scenario() {
    let samples: Vec<u64> = vec![500, 1500, 2500, 5000, 130000];
    // Microseconds: [0, 1, 2, 5, 130] -> buckets [0, 1, 2, 3, 8].
    let h = Histogram::from_samples(&samples);
    assert_eq!(h.buckets, vec![1, 1, 1, 1, 0, 0, 0, 0, 1]);
    assert_eq!(h.total, 5);
}

#[test]
fn total_equals_sample_count_and_bucket_sum() {
    let samples: Vec<u64> = vec![0, 999, 1000, 64_000, 127_999, 128_000, u64::MAX, 42];
    let h = Histogram::from_samples(&samples);
    assert_eq!(h.total as usize, samples.len());
    let sum: u64 = h.buckets.iter().map(|&c| c as u64).sum();
    assert_eq!(sum, h.total as u64);
}

#[test]
fn empty_run_counts_nothing() {
    let samples: Vec<u64> = Vec::new();
    let h = Histogram::from_samples(&samples);
    assert_eq!(h.total, 0);
    assert_eq!(h.buckets, vec![0; NUM_BUCKETS]);
}

#[test]
fn default_histogram_is_empty() {
    let h = Histogram::default();
    assert_eq!(h.total, 0);
    assert_eq!(h.buckets.len(), NUM_BUCKETS);
    assert!(h.buckets.iter().all(|&c| c == 0));
}

#[test]
fn bucket_boundaries() {
    assert_eq!(bucket_index(0), 0);
    assert_eq!(bucket_index(999), 0); // still below one microsecond
    assert_eq!(bucket_index(1000), 1);
    assert_eq!(bucket_index(1999), 1);
    assert_eq!(bucket_index(2000), 2);
    assert_eq!(bucket_index(3999), 2);
    assert_eq!(bucket_index(4000), 3);
    assert_eq!(bucket_index(7999), 3);
    assert_eq!(bucket_index(8000), 4);
    assert_eq!(bucket_index(15_999), 4);
    assert_eq!(bucket_index(16_000), 5);
    assert_eq!(bucket_index(31_999), 5);
    assert_eq!(bucket_index(32_000), 6);
    assert_eq!(bucket_index(63_999), 6);
    assert_eq!(bucket_index(64_000), 7);
    assert_eq!(bucket_index(127_999), 7);
    assert_eq!(bucket_index(128_000), 8);
    assert_eq!(bucket_index(u64::MAX), 8);
}
