use statistics_by_rust::metrics::{exact_mean, ExactMean};
use statistics_by_rust::StatsError;

#[test]
fn test_mean() {
    let data = vec![1, 2, 3, 4, 5];
    let m = exact_mean(&data).unwrap();
    assert_eq!(ExactMean { total: 15, count: 5 }, m);
    assert_eq!(3.0, m.total as f64 / m.count as f64);
}

#[test]
fn exact_mean_empty() {
    assert_eq!(Err(StatsError::EmptyInput), exact_mean(&[]));
}

#[test]
fn exact_mean_fraction() {
    let m = exact_mean(&[4, 4, 4, 4, 5]).unwrap();
    assert_eq!(ExactMean { total: 21, count: 5 }, m);
    assert_eq!(4.2, m.total as f64 / m.count as f64);
}

#[test]
fn exact_mean_no_overflow() {
    let m = exact_mean(&[i64::MAX, i64::MAX, i64::MAX]).unwrap();
    assert_eq!(3 * (i64::MAX as i128), m.total);
    let m = exact_mean(&[i64::MIN, i64::MIN, -7]).unwrap();
    assert_eq!(2 * (i64::MIN as i128) - 7, m.total);
    assert_eq!(3, m.count);
}
