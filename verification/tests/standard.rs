use histogram::{Bucket, Config, Error, Histogram, Histogram32, SparseHistogram};

#[test]
fn standard_size() {
    assert_eq!(std::mem::size_of::<Histogram>(), 48);
}

fn build_histograms() -> (Histogram, Histogram, Histogram, Histogram) {
    let mut h1 = Histogram::new(1, 3).unwrap();
    let mut h2 = Histogram::new(1, 3).unwrap();
    let mut h3 = Histogram::new(1, 3).unwrap();
    let h4 = Histogram::new(7, 32).unwrap();

    for i in 0..h1.config().total_buckets() {
        h1.as_mut_slice()[i] = 1;
        h2.as_mut_slice()[i] = 1;
        h3.as_mut_slice()[i] = u64::MAX;
    }

    (h1, h2, h3, h4)
}

#[test]
fn standard_checked_add() {
    let (h, h_good, h_overflow, h_mismatch) = build_histograms();
    assert_eq!(
        h.checked_add(&h_mismatch),
        Err(Error::IncompatibleParameters)
    );
    let r = h.checked_add(&h_good).unwrap();
    assert_eq!(r.as_slice(), &[2, 2, 2, 2, 2, 2]);
    assert_eq!(h.checked_add(&h_overflow), Err(Error::Overflow));
}

#[test]
fn standard_wrapping_add() {
    let (h, h_good, h_overflow, h_mismatch) = build_histograms();
    assert_eq!(
        h.wrapping_add(&h_mismatch),
        Err(Error::IncompatibleParameters)
    );
    let r = h.wrapping_add(&h_good).unwrap();
    assert_eq!(r.as_slice(), &[2, 2, 2, 2, 2, 2]);
    let r = h.wrapping_add(&h_overflow).unwrap();
    assert_eq!(r.as_slice(), &[0, 0, 0, 0, 0, 0]);
}

#[test]
fn standard_checked_sub() {
    let (h, h_good, h_overflow, h_mismatch) = build_histograms();
    assert_eq!(
        h.checked_sub(&h_mismatch),
        Err(Error::IncompatibleParameters)
    );
    let r = h.checked_sub(&h_good).unwrap();
    assert_eq!(r.as_slice(), &[0, 0, 0, 0, 0, 0]);
    assert_eq!(h.checked_sub(&h_overflow), Err(Error::Underflow));
}

#[test]
fn standard_wrapping_sub() {
    let (h, h_good, h_overflow, h_mismatch) = build_histograms();
    assert_eq!(
        h.wrapping_sub(&h_mismatch),
        Err(Error::IncompatibleParameters)
    );
    let r = h.wrapping_sub(&h_good).unwrap();
    assert_eq!(r.as_slice(), &[0, 0, 0, 0, 0, 0]);
    let r = h.wrapping_sub(&h_overflow).unwrap();
    assert_eq!(r.as_slice(), &[2, 2, 2, 2, 2, 2]);
}

#[test]
fn from_buckets() {
    let mut histogram = Histogram::new(8, 32).unwrap();
    for i in 0..=100 {
        let _ = histogram.increment(i);
    }
    let buckets = histogram.as_slice();
    let constructed = Histogram::from_buckets(8, 32, buckets.to_vec()).unwrap();
    assert!(constructed == histogram);
}

/// The smallest value: rank one.
#[test]
fn standard_min() {
    let mut histogram = Histogram::new(7, 64).unwrap();

    assert_eq!(histogram.rank_buckets(&[1]), vec![None]);

    let _ = histogram.increment(10);
    assert_eq!(histogram.rank_buckets(&[1])[0].as_ref().unwrap().end(), 10);

    let _ = histogram.increment(4);
    assert_eq!(histogram.rank_buckets(&[1])[0].as_ref().unwrap().end(), 4);
}

#[test]
fn from_buckets_rejects_wrong_length_and_bad_powers() {
    assert_eq!(
        Histogram::from_buckets(2, 4, vec![0u64; 3]),
        Err(Error::IncompatibleParameters)
    );
    assert_eq!(
        Histogram::from_buckets(2, 65, vec![]),
        Err(Error::MaxPowerTooHigh)
    );
    assert_eq!(
        Histogram::from_buckets(4, 4, vec![]),
        Err(Error::MaxPowerTooLow)
    );
    let h = Histogram::from_buckets(1, 3, vec![1, 2, 3, 4, 5, 6]).unwrap();
    assert_eq!(h.as_slice(), &[1, 2, 3, 4, 5, 6]);
}

#[test]
fn increment_and_add_update_one_bucket() {
    let mut h = Histogram::new(2, 4).unwrap();
    assert_eq!(h.as_slice().len(), 12);
    h.increment(0).unwrap();
    h.add(5, 3).unwrap();
    h.add(15, 2).unwrap();
    assert_eq!(h.as_slice(), &[1, 0, 0, 0, 0, 3, 0, 0, 0, 0, 0, 2]);
    assert_eq!(h.increment(16), Err(Error::OutOfRange));
    assert_eq!(h.as_slice(), &[1, 0, 0, 0, 0, 3, 0, 0, 0, 0, 0, 2]);
    h.add(5, u64::MAX).unwrap();
    assert_eq!(h.as_slice()[5], 2);
}

#[test]
fn totals_and_extreme_buckets() {
    let mut h = Histogram::new(2, 4).unwrap();
    assert_eq!(h.total_count(), 0);
    assert_eq!(h.min_bucket(), None);
    assert_eq!(h.max_bucket(), None);
    h.add(1, u64::MAX).unwrap();
    h.add(9, u64::MAX).unwrap();
    assert_eq!(h.total_count(), 2 * (u64::MAX as u128));
    let min = h.min_bucket().unwrap();
    assert_eq!((min.start(), min.end(), min.count()), (1, 1, u64::MAX));
    let max = h.max_bucket().unwrap();
    assert_eq!((max.start(), max.end(), max.count()), (8, 9, u64::MAX));
}

#[test]
fn rank_buckets_find_the_bucket_of_each_rank() {
    let mut h = Histogram::new(7, 64).unwrap();
    for i in 0..=100 {
        h.increment(i).unwrap();
    }
    let r = h.rank_buckets(&[1, 26, 51, 101, 102]);
    assert_eq!(r[0].as_ref().unwrap().end(), 0);
    assert_eq!(r[1].as_ref().unwrap().end(), 25);
    assert_eq!(r[2].as_ref().unwrap().end(), 50);
    assert_eq!(r[3].as_ref().unwrap().end(), 100);
    assert_eq!(r[4], None);
    h.increment(1024).unwrap();
    let r = h.rank_buckets(&[102]);
    assert_eq!(r[0].as_ref().unwrap().range(), 1024..=1031);
    assert_eq!(r[0].as_ref().unwrap().count(), 1);
}

#[test]
fn iteration_yields_every_bucket_in_order() {
    let mut h = Histogram::new(1, 3).unwrap();
    h.add(6, 4).unwrap();
    let buckets: Vec<Bucket> = h.iter().collect();
    assert_eq!(buckets.len(), 6);
    let ranges: Vec<(u64, u64)> = buckets.iter().map(|b| (b.start(), b.end())).collect();
    assert_eq!(ranges, vec![(0, 0), (1, 1), (2, 2), (3, 3), (4, 5), (6, 7)]);
    assert_eq!(buckets[5].count(), 4);
    let by_ref: Vec<Bucket> = (&h).into_iter().collect();
    assert_eq!(by_ref, buckets);
}

#[test]
fn downsample_merges_buckets() {
    let mut h = Histogram::new(2, 4).unwrap();
    for v in [4u64, 5, 6, 7, 9, 15] {
        h.increment(v).unwrap();
    }
    let d = h.downsample(1).unwrap();
    assert_eq!(d.config().grouping_power(), 1);
    assert_eq!(d.config().max_value_power(), 4);
    assert_eq!(d.as_slice(), &[0, 0, 0, 0, 2, 2, 1, 1]);
    assert_eq!(h.downsample(2), Err(Error::IncompatibleParameters));
    assert_eq!(h.downsample(3), Err(Error::IncompatibleParameters));
}

#[test]
fn downsample_wraps_merged_counts() {
    let mut h = Histogram32::new(2, 4).unwrap();
    h.add(4, u32::MAX).unwrap();
    h.add(5, 2).unwrap();
    let d = h.downsample(1).unwrap();
    assert_eq!(d.as_slice()[4], 1);
}

#[test]
fn clone_keeps_config_and_counts() {
    let mut h = Histogram::new(3, 8).unwrap();
    h.add(200, 7).unwrap();
    let c = h.clone();
    assert_eq!(c, h);
    assert_eq!(c.config(), Config::new(3, 8).unwrap());
}

#[test]
fn dense_to_sparse_and_back() {
    let mut h = Histogram::new(3, 8).unwrap();
    h.add(3, 2).unwrap();
    h.add(200, 7).unwrap();
    let s = SparseHistogram::from(&h);
    assert_eq!(s.index(), &[3, 44]);
    assert_eq!(s.count(), &[2, 7]);
    let back = Histogram::from(&s);
    assert_eq!(back, h);
}
