use statistics_by_rust::{frequency_distribution, StatsError};

#[test]
fn test_frequency_distribution() {
    assert_eq!(
        Ok((vec![(0, 3), (3, 6), (6, 9)], vec![2, 3, 2])),
        frequency_distribution(&[1, 2, 3, 4, 5, 6, 7], 3, 0, 9)
    );
    assert_eq!(
        Ok((vec![(1, 5), (5, 9), (9, 13)], vec![4, 3, 0])),
        frequency_distribution(&[1, 2, 3, 4, 5, 6, 7], 4, 1, 10)
    );
}

#[test]
fn frequency_distribution_invalid_range() {
    assert_eq!(Err(StatsError::InvalidRange), frequency_distribution(&[1, 2], 0, 0, 9));
    assert_eq!(Err(StatsError::InvalidRange), frequency_distribution(&[1, 2], -3, 0, 9));
    assert_eq!(Err(StatsError::InvalidRange), frequency_distribution(&[1, 2], 3, 9, 9));
    assert_eq!(Err(StatsError::InvalidRange), frequency_distribution(&[1, 2], 3, 9, 0));
}

#[test]
fn frequency_distribution_edge_overflow() {
    // the last upper edge would be i64::MAX - 1 + 4
    assert_eq!(
        Err(StatsError::InvalidRange),
        frequency_distribution(&[0], 4, i64::MAX - 9, i64::MAX)
    );
    // the last upper edge is exactly i64::MAX
    assert_eq!(
        Ok((vec![(i64::MAX - 8, i64::MAX - 4), (i64::MAX - 4, i64::MAX)], vec![0, 1])),
        frequency_distribution(&[i64::MAX - 1, 0], 4, i64::MAX - 8, i64::MAX - 1)
    );
}

#[test]
fn frequency_distribution_out_of_range_samples() {
    assert_eq!(
        Ok((vec![(0, 5), (5, 10)], vec![1, 1])),
        frequency_distribution(&[-1, 0, 9, 10, 11, 100], 5, 0, 10)
    );
}

#[test]
fn frequency_distribution_sample_equal_to_max() {
    // max is the last upper edge: a sample equal to it lands in no bin
    assert_eq!(
        Ok((vec![(0, 3), (3, 6), (6, 9)], vec![0, 0, 0])),
        frequency_distribution(&[9], 3, 0, 9)
    );
    // max lies inside the last bin: a sample equal to it is counted
    assert_eq!(
        Ok((vec![(1, 5), (5, 9), (9, 13)], vec![0, 0, 1])),
        frequency_distribution(&[10, 11], 4, 1, 10)
    );
}

#[test]
fn frequency_distribution_empty_data() {
    assert_eq!(Ok((vec![(0, 10)], vec![0])), frequency_distribution(&[], 10, 0, 1));
}

#[test]
fn frequency_distribution_negative_range() {
    assert_eq!(
        Ok((vec![(-6, -3), (-3, 0), (0, 3)], vec![2, 1, 2])),
        frequency_distribution(&[-6, -4, -1, 0, 2, 3], 3, -6, 2)
    );
}

#[test]
fn frequency_distribution_bins_contiguous() {
    let (bins, counts) = frequency_distribution(&[3, 14, 15, 92, 65], 7, -5, 100).unwrap();
    assert_eq!(bins.len(), counts.len());
    assert_eq!(-5, bins[0].0);
    for w in bins.windows(2) {
        assert_eq!(w[0].1, w[1].0);
        assert!(w[0].0 < w[0].1);
    }
    let last = bins[bins.len() - 1];
    assert!(last.0 < 100 && 100 <= last.1);
}

#[test]
fn frequency_distribution_total_count() {
    let data = [1, 2, 3, 4, 5, 6, 7];
    let (_, counts) = frequency_distribution(&data, 3, 0, 9).unwrap();
    assert_eq!(data.len(), counts.iter().sum::<usize>());
    let data = [-3, 1, 2, 9, 12];
    let (_, counts) = frequency_distribution(&data, 3, 0, 9).unwrap();
    assert_eq!(2, counts.iter().sum::<usize>());
    assert!(counts.iter().sum::<usize>() < data.len());
}
