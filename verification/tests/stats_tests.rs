use microbench::stats::{confidence_interval, duration_diff, reduce_samples};
use microbench::timing::benchmark;

#[test]
fn duration_diff_is_absolute_difference() {
    assert_eq!(duration_diff(10, 3), 7);
    assert_eq!(duration_diff(3, 10), 7);
    assert_eq!(duration_diff(5, 5), 0);
    assert_eq!(duration_diff(0, u64::MAX), u64::MAX);
}

#[test]
fn zero_variance_degenerates_to_mean() {
    let samples = vec![5_000_000u64; 4];
    let (lo, hi) = confidence_interval(&samples);
    assert_eq!(lo, 5_000_000);
    assert_eq!(hi, 5_000_000);
}

#[test]
fn zero_variance_two_samples() {
    let samples = vec![123u64, 123u64];
    let (lo, hi) = confidence_interval(&samples);
    assert_eq!((lo, hi), (123, 123));
}

#[test]
fn interval_brackets_mean_symmetrically() {
    // 10ms, 20ms, 30ms in nanoseconds
    let samples = vec![10_000_000u64, 20_000_000, 30_000_000];
    let (lo, hi) = confidence_interval(&samples);
    let mean = 20_000_000u64;
    assert!(lo < mean && mean < hi);
    assert_eq!(hi - mean, mean - lo);
    assert_eq!(lo, 8_683_937);
    assert_eq!(hi, 31_316_063);
}

#[test]
fn reduce_accepts_in_range_samples() {
    let samples = vec![10_000_000u64, 20_000_000, 30_000_000];
    assert_eq!(reduce_samples(&samples), Some(confidence_interval(&samples)));
}

#[test]
fn reduce_rejects_out_of_range_sample() {
    // one sample at the representable limit (2^48 nanoseconds)
    let samples = vec![5u64, 0x1_0000_0000_0000u64, 7];
    assert_eq!(reduce_samples(&samples), None);
}

#[test]
fn benchmark_produces_an_interval() {
    let r = benchmark(5, &|| {
        std::hint::black_box(0u64);
    });
    let (lo, hi) = r.expect("samples must be in range");
    assert!(lo <= hi);
}
