use streamstats::meanvar::Ratio;
use streamstats::stats::{compute_stats, FloatError, Stats};

fn lines(texts: &[&str]) -> Vec<Vec<u8>> {
    texts.iter().map(|t| t.as_bytes().to_vec()).collect()
}

#[test]
fn five_values_no_header() {
    let input = lines(&["1", "2", "3", "4", "5"]);
    let stats = compute_stats(&input, false).unwrap();
    let snap = stats.snapshot();
    assert_eq!(snap.count, 5);
    assert_eq!(snap.min, Some(1000));
    assert_eq!(snap.max, Some(5000));
    // mean 3: 15000 units over 5 observations
    assert_eq!(snap.mean, Some(Ratio { num: 15000, den: 5 }));
    // population variance 2: 50e6 units^2 over 25
    assert_eq!(snap.variance, Some(Ratio { num: 50_000_000, den: 25 }));
    // with exactly five observations the quartile estimates are the exact
    // sorted values at ranks floor(5p)
    assert_eq!(snap.q1, Some(2000));
    assert_eq!(snap.median, Some(3000));
    assert_eq!(snap.q3, Some(4000));
}

#[test]
fn header_skip_matches_no_header() {
    let with_header = lines(&["value", "1", "2", "3", "4", "5"]);
    let plain = lines(&["1", "2", "3", "4", "5"]);
    let a = compute_stats(&with_header, true).unwrap().snapshot();
    let b = compute_stats(&plain, false).unwrap().snapshot();
    assert_eq!(a.count, b.count);
    assert_eq!(a.min, b.min);
    assert_eq!(a.max, b.max);
    assert_eq!(a.mean, b.mean);
    assert_eq!(a.variance, b.variance);
    assert_eq!(a.median, b.median);
    assert_eq!(a.q1, b.q1);
    assert_eq!(a.q3, b.q3);
}

#[test]
fn unparseable_third_line_aborts() {
    let input = lines(&["1", "2", "abc", "4"]);
    match compute_stats(&input, false) {
        Ok(_) => panic!("a bad line must abort the run"),
        Err(FloatError::ParsingError { lineno, number }) => {
            assert_eq!(lineno, 2);
            assert_eq!(number, b"abc".to_vec());
        }
    }
}

#[test]
fn unparseable_line_after_header_counts_from_body() {
    let input = lines(&["header", "1", "2", "bad"]);
    match compute_stats(&input, true) {
        Ok(_) => panic!("a bad line must abort the run"),
        Err(FloatError::ParsingError { lineno, number }) => {
            assert_eq!(lineno, 2);
            assert_eq!(number, b"bad".to_vec());
        }
    }
}

#[test]
fn empty_snapshot_reports_nothing() {
    let stats = Stats::default();
    let snap = stats.snapshot();
    assert_eq!(snap.count, 0);
    assert_eq!(snap.min, None);
    assert_eq!(snap.max, None);
    assert_eq!(snap.mean, None);
    assert_eq!(snap.variance, None);
    assert_eq!(snap.median, None);
    assert_eq!(snap.q1, None);
    assert_eq!(snap.q3, None);
}

#[test]
fn count_equals_number_of_updates() {
    let mut stats = Stats::default();
    for i in 0..137i64 {
        stats.update(i * 7 - 300);
    }
    assert_eq!(stats.count(), 137);
}

#[test]
fn min_max_are_exact() {
    let mut stats = Stats::default();
    let values: [i64; 9] = [5, -3, 12, 0, 12, -3, 7, -8, 1];
    for v in values {
        stats.update(v);
    }
    assert_eq!(stats.min(), Some(-8));
    assert_eq!(stats.max(), Some(12));
}

#[test]
fn initialized_after_first_update() {
    let mut stats = Stats::default();
    assert!(!stats.initialized);
    stats.update(42);
    assert!(stats.initialized);
    let snap = stats.snapshot();
    assert_eq!(snap.count, 1);
    assert_eq!(snap.min, Some(42));
    assert_eq!(snap.max, Some(42));
    assert_eq!(snap.mean, Some(Ratio { num: 42, den: 1 }));
    assert_eq!(snap.variance, Some(Ratio { num: 0, den: 1 }));
    // quantile estimates still bootstrapping
    assert_eq!(snap.median, None);
}

#[test]
fn mean_variance_match_two_pass() {
    // An ill-conditioned stream: a large common offset with tiny spread.
    let offset: i64 = 999_000_000;
    let values: Vec<i64> = (0..1_000_000i64).map(|i| offset + (i % 7) - 3).collect();
    let mut stats = Stats::default();
    for &v in &values {
        stats.update(v);
    }
    let snap = stats.snapshot();
    // two-pass reference in exact integer arithmetic
    let n = values.len() as i128;
    let sum: i128 = values.iter().map(|&v| v as i128).sum();
    let sum_sq: i128 = values.iter().map(|&v| (v as i128) * (v as i128)).sum();
    assert_eq!(snap.mean, Some(Ratio { num: sum, den: n }));
    assert_eq!(
        snap.variance,
        Some(Ratio { num: n * sum_sq - sum * sum, den: n * n })
    );
    // the exact rationals also agree with a floating-point two-pass pass
    let mean_f = sum as f64 / n as f64;
    let var_f = values
        .iter()
        .map(|&v| (v as f64 - mean_f) * (v as f64 - mean_f))
        .sum::<f64>()
        / n as f64;
    let m = snap.mean.unwrap();
    let v = snap.variance.unwrap();
    let mean_est = m.num as f64 / m.den as f64;
    let var_est = v.num as f64 / v.den as f64;
    assert!((mean_est - mean_f).abs() <= 1e-6 * mean_f.abs());
    assert!((var_est - var_f).abs() <= 1e-6 * var_f.max(1.0));
}

#[test]
fn order_does_not_change_count_min_max_mean_variance() {
    let forward: Vec<i64> = (1..=200).map(|i| i * 13 % 101 - 50).collect();
    let mut backward = forward.clone();
    backward.reverse();
    let mut a = Stats::default();
    let mut b = Stats::default();
    for &v in &forward {
        a.update(v);
    }
    for &v in &backward {
        b.update(v);
    }
    let sa = a.snapshot();
    let sb = b.snapshot();
    assert_eq!(sa.count, sb.count);
    assert_eq!(sa.min, sb.min);
    assert_eq!(sa.max, sb.max);
    assert_eq!(sa.mean, sb.mean);
    assert_eq!(sa.variance, sb.variance);
    // quantile estimates are order-sensitive: only tolerance-bounded
    let ma = sa.median.unwrap() as f64;
    let mb = sb.median.unwrap() as f64;
    let spread = (sa.max.unwrap() - sa.min.unwrap()) as f64;
    assert!((ma - mb).abs() <= 0.25 * spread);
}

#[test]
fn median_converges_on_sorted_integers() {
    // units of thousandths: k becomes k * 1000
    let n: i64 = 999;
    let mut stats = Stats::default();
    for k in 1..=n {
        stats.update(k * 1000);
    }
    let snap = stats.snapshot();
    let true_median = 500 * 1000;
    let err = (snap.median.unwrap() - true_median).abs();
    // a small bounded error relative to the spread
    assert!(err <= 20 * 1000, "median estimate off by {} units", err);
}

#[test]
fn median_exact_for_five_or_fewer() {
    let mut stats = Stats::default();
    for v in [50, 10, 40, 20, 30] {
        stats.update(v);
    }
    let snap = stats.snapshot();
    assert_eq!(snap.q1, Some(20));
    assert_eq!(snap.median, Some(30));
    assert_eq!(snap.q3, Some(40));
}

#[test]
fn all_equal_values() {
    let mut stats = Stats::default();
    for _ in 0..50 {
        stats.update(7000);
    }
    let snap = stats.snapshot();
    assert_eq!(snap.count, 50);
    assert_eq!(snap.min, Some(7000));
    assert_eq!(snap.max, Some(7000));
    assert_eq!(snap.mean, Some(Ratio { num: 350_000, den: 50 }));
    assert_eq!(snap.variance.unwrap().num, 0);
    assert_eq!(snap.median, Some(7000));
    assert_eq!(snap.q1, Some(7000));
    assert_eq!(snap.q3, Some(7000));
}

#[test]
fn ingest_line_reports_raw_text() {
    let mut stats = Stats::default();
    let good: Vec<u8> = b"12.5".to_vec();
    let bad: Vec<u8> = b"12.5x".to_vec();
    assert!(stats.ingest_line(0, &good).is_ok());
    assert_eq!(stats.count(), 1);
    match stats.ingest_line(1, &bad) {
        Ok(()) => panic!("a bad line must be reported"),
        Err(FloatError::ParsingError { lineno, number }) => {
            assert_eq!(lineno, 1);
            assert_eq!(number, bad);
        }
    }
    // the failed line left the aggregate untouched
    assert_eq!(stats.count(), 1);
    assert_eq!(stats.min(), Some(12_500));
}
