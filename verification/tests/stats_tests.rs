use feedlatency::stats::{
    jitter_latency, mean_latency, percentile, sort_latencies, ExperimentResults,
    LatencyMeasurement,
};

#[test]
fn percentile_zero_is_min_and_full_is_max() {
    let sorted = sort_latencies(&vec![5, 1, 9, 3]);
    assert_eq!(sorted, vec![1, 3, 5, 9]);
    assert_eq!(percentile(&sorted, 0), 1);
    assert_eq!(percentile(&sorted, 10_000), 9);
}

#[test]
fn percentile_singleton_any_percentile() {
    let one = vec![42];
    for p in [0u64, 1, 2_500, 5_000, 7_500, 9_999, 10_000] {
        assert_eq!(percentile(&one, p), 42);
    }
}

#[test]
fn percentile_interpolates_linearly() {
    let sorted = vec![10, 20];
    // median: rank 0.5 between the two elements
    assert_eq!(percentile(&sorted, 5_000), 15);
    // p95 of two elements: 10 * 0.05 + 20 * 0.95 = 19.5, floored
    assert_eq!(percentile(&sorted, 9_500), 19);
    let sorted = vec![0, 100, 200, 300];
    assert_eq!(percentile(&sorted, 5_000), 150);
    assert_eq!(percentile(&sorted, 9_900), 297);
}

#[test]
fn percentile_empty_is_zero() {
    let empty: Vec<i128> = vec![];
    assert_eq!(percentile(&empty, 5_000), 0);
}

#[test]
fn mean_floors_toward_negative_infinity() {
    assert_eq!(mean_latency(&vec![1, 2, 3, 4]), 2); // 2.5 floored
    assert_eq!(mean_latency(&vec![-1, -2]), -2); // -1.5 floored
    assert_eq!(mean_latency(&vec![]), 0);
}

#[test]
fn jitter_of_constant_collection_is_zero() {
    assert_eq!(jitter_latency(&vec![7, 7, 7, 7, 7]), 0);
    assert_eq!(jitter_latency(&vec![-123, -123]), 0);
    assert_eq!(jitter_latency(&vec![0]), 0);
}

#[test]
fn jitter_exact_value() {
    // mean 1000; squared deviations 1000^2 each; population stddev 1000
    assert_eq!(jitter_latency(&vec![0, 2000]), 1000);
    // mean 2, deviations {-2, 0, 2}: variance 8/3 = 2 (floored), isqrt 1
    assert_eq!(jitter_latency(&vec![0, 2, 4]), 1);
}

#[test]
fn from_measurements_pins_every_field() {
    // three arrivals, end-to-end latencies 1_000_000, 3_000_000, 2_000_000 ns
    let ms = vec![
        LatencyMeasurement::new_aws_backbone(0, 1, 500, 2_000_000),
        LatencyMeasurement::new_aws_backbone(1, 1, 600, 4_000_000),
        LatencyMeasurement::new_aws_backbone(2, 1, 700, 3_000_000),
    ];
    let r = ExperimentResults::from_measurements("aws-backbone".to_string(), ms, 4);
    assert_eq!(r.setup_type, "aws-backbone");
    assert_eq!(r.sample_count, 3);
    assert_eq!(r.events_lost, 4);
    assert_eq!(r.min_latency_ns, 1_000_000);
    assert_eq!(r.max_latency_ns, 3_000_000);
    assert_eq!(r.avg_latency_ns, 2_000_000);
    assert_eq!(r.median_latency_ns, 2_000_000);
    // sorted [1e6, 2e6, 3e6]: p95 rank 1.9 -> 2e6 * 0.1 + 3e6 * 0.9
    assert_eq!(r.p95_latency_ns, 2_900_000);
    assert_eq!(r.p99_latency_ns, 2_980_000);
    // backbone latencies: 1_999_500, 3_999_400, 2_999_300
    assert_eq!(r.backbone_avg_latency_ns, Some(2_999_400));
    assert_eq!(r.backbone_median_latency_ns, Some(2_999_300));
}

#[test]
fn from_measurements_empty_is_all_zero() {
    let r = ExperimentResults::from_measurements("baseline".to_string(), vec![], 9);
    assert_eq!(r.sample_count, 0);
    assert_eq!(r.events_lost, 9); // loss passes through untouched
    assert_eq!(r.avg_latency_ns, 0);
    assert_eq!(r.median_latency_ns, 0);
    assert_eq!(r.p95_latency_ns, 0);
    assert_eq!(r.p99_latency_ns, 0);
    assert_eq!(r.min_latency_ns, 0);
    assert_eq!(r.max_latency_ns, 0);
    assert_eq!(r.jitter_stddev_ns, 0);
    assert_eq!(r.backbone_avg_latency_ns, None);
    assert_eq!(r.backbone_median_latency_ns, None);
}

#[test]
fn baseline_measurements_have_no_backbone_figures() {
    let ms = vec![
        LatencyMeasurement::new_baseline(0, 1, 2_000_000),
        LatencyMeasurement::new_baseline(1, 1, 3_000_000),
    ];
    assert!(ms[0].tokyo_receive_time.is_none());
    assert!(ms[0].backbone_latency_ns.is_none());
    let r = ExperimentResults::from_measurements("baseline".to_string(), ms, 0);
    assert_eq!(r.backbone_avg_latency_ns, None);
    assert_eq!(r.backbone_median_latency_ns, None);
}

#[test]
fn measurement_latency_derivation() {
    // producer time 2 ms = 2_000_000 ns; destination 5_000_000 ns
    let m = LatencyMeasurement::new_baseline(3, 2, 5_000_000);
    assert_eq!(m.sequence_id, 3);
    assert_eq!(m.end_to_end_latency_ns, 3_000_000);
    let m = LatencyMeasurement::new_aws_backbone(4, 2, 4_500_000, 5_000_000);
    assert_eq!(m.end_to_end_latency_ns, 3_000_000);
    assert_eq!(m.backbone_latency_ns, Some(500_000));
    // a destination clock behind the producer clock gives a negative latency
    let m = LatencyMeasurement::new_baseline(5, 10, 1_000_000);
    assert_eq!(m.end_to_end_latency_ns, -9_000_000);
}
