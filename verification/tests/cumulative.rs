use histogram::{
    Config, CumulativeROHistogram, CumulativeROHistogram32, Error, Histogram, Histogram32,
    SparseHistogram,
};

#[test]
fn from_histogram() {
    let mut h = Histogram::new(7, 64).unwrap();
    h.increment(1).unwrap();
    h.increment(1).unwrap();
    h.increment(5).unwrap();
    h.increment(100).unwrap();

    let croh = CumulativeROHistogram::from(&h);
    assert_eq!(croh.config(), h.config());
    // Three distinct buckets: index 1 (count 2), index 5 (count 1), index 100 (count 1)
    assert_eq!(croh.index().len(), 3);
    // Cumulative: [2, 3, 4]
    assert_eq!(croh.count(), &[2, 3, 4]);
    assert_eq!(croh.total_count(), 4);
}

#[test]
fn from_sparse() {
    let config = Config::new(7, 32).unwrap();
    let sparse = SparseHistogram::from_parts(config, vec![1, 3, 5], vec![6, 12, 7]).unwrap();

    let croh = CumulativeROHistogram::from(&sparse);
    assert_eq!(croh.config(), config);
    assert_eq!(croh.index(), &[1, 3, 5]);
    // Cumulative: [6, 18, 25]
    assert_eq!(croh.count(), &[6, 18, 25]);
    assert_eq!(croh.total_count(), 25);
}

#[test]
fn empty_histogram() {
    let h = Histogram::new(7, 64).unwrap();
    let croh = CumulativeROHistogram::from(&h);

    assert!(croh.is_empty());
    assert_eq!(croh.len(), 0);
    assert_eq!(croh.total_count(), 0);
    assert_eq!(croh.rank_buckets(&[1]), vec![None]);
    assert_eq!(croh.min_bucket(), None);
}

#[test]
fn cumulative_single_sample() {
    let mut h = Histogram::new(7, 64).unwrap();
    h.increment(42).unwrap();

    let croh = CumulativeROHistogram::from(&h);
    assert_eq!(croh.len(), 1);
    assert_eq!(croh.total_count(), 1);

    assert_eq!(croh.min_bucket().unwrap().end(), 42);
    assert_eq!(croh.max_bucket().unwrap().end(), 42);
    assert_eq!(croh.rank_buckets(&[1])[0].as_ref().unwrap().end(), 42);
}

#[test]
fn from_parts_validation() {
    let config = Config::new(7, 32).unwrap();

    // Mismatched lengths
    assert_eq!(
        CumulativeROHistogram::from_parts(config, vec![1, 2], vec![1]),
        Err(Error::IncompatibleParameters)
    );

    // Out of range index
    assert_eq!(
        CumulativeROHistogram::from_parts(config, vec![u32::MAX], vec![1]),
        Err(Error::OutOfRange)
    );

    // Non-ascending indices
    assert_eq!(
        CumulativeROHistogram::from_parts(config, vec![3, 1], vec![1, 2]),
        Err(Error::IncompatibleParameters)
    );

    // Duplicate indices
    assert_eq!(
        CumulativeROHistogram::from_parts(config, vec![1, 1], vec![1, 2]),
        Err(Error::IncompatibleParameters)
    );

    // Non-non-decreasing counts
    assert_eq!(
        CumulativeROHistogram::from_parts(config, vec![1, 3], vec![5, 3]),
        Err(Error::IncompatibleParameters)
    );

    // Zero count
    assert_eq!(
        CumulativeROHistogram::from_parts(config, vec![1], vec![0]),
        Err(Error::IncompatibleParameters)
    );

    // Valid
    assert!(CumulativeROHistogram::from_parts(config, vec![1, 3, 5], vec![6, 18, 25]).is_ok());

    // Empty is valid
    assert!(CumulativeROHistogram::from_parts(config, vec![], vec![]).is_ok());
}

#[test]
fn iter_individual_counts() {
    let mut h = Histogram::new(7, 64).unwrap();
    h.increment(1).unwrap();
    h.increment(1).unwrap();
    h.increment(5).unwrap();
    h.increment(100).unwrap();

    let sparse = SparseHistogram::from(&h);
    let croh = CumulativeROHistogram::from(&h);

    let sparse_buckets: Vec<_> = sparse.iter().collect();
    let croh_buckets: Vec<_> = croh.iter().collect();

    assert_eq!(sparse_buckets.len(), croh_buckets.len());
    for (sb, cb) in sparse_buckets.iter().zip(croh_buckets.iter()) {
        assert_eq!(sb.count(), cb.count());
        assert_eq!(sb.range(), cb.range());
    }
}

#[test]
fn into_parts_roundtrip() {
    let config = Config::new(7, 32).unwrap();
    let first =
        CumulativeROHistogram::from_parts(config, vec![1, 3, 5], vec![6, 18, 25]).unwrap();

    let (cfg, idx, cnt) = first.clone().into_parts();
    let reconstructed = CumulativeROHistogram::from_parts(cfg, idx, cnt).unwrap();

    assert_eq!(first, reconstructed);
}

#[test]
fn cumulative_from_histogram_u32() {
    let mut h = Histogram32::new(7, 64).unwrap();
    h.increment(1).unwrap();
    h.increment(1).unwrap();
    h.increment(5).unwrap();
    h.increment(100).unwrap();
    let croh = CumulativeROHistogram32::from(&h);
    assert_eq!(croh.index().len(), 3);
    assert_eq!(croh.count(), &[2u32, 3, 4]);
    assert_eq!(croh.total_count(), 4);
}

#[test]
fn cumulative_from_parts_u32() {
    let config = Config::new(7, 32).unwrap();
    let croh =
        CumulativeROHistogram32::from_parts(config, vec![1, 3, 5], vec![6u32, 18, 25]).unwrap();
    assert_eq!(croh.total_count(), 25);
}

#[test]
fn rank_search_matches_dense_for_long_totals() {
    // More totals than fit in one cache line, so the search bisects.
    let mut h = Histogram::new(4, 10).unwrap();
    for v in 1..1024 {
        h.increment(v).unwrap();
    }
    let croh = CumulativeROHistogram::from(&h);
    assert!(croh.len() > 16);
    let total = croh.total_count() as u128;
    let ranks: Vec<u128> = (1..=total).step_by(7).chain([total]).collect();
    let from_dense = h.rank_buckets(&ranks);
    let from_cumulative = croh.rank_buckets(&ranks);
    assert_eq!(from_dense, from_cumulative);
}

#[test]
fn rank_search_plateau_and_beyond_total() {
    let config = Config::new(4, 16).unwrap();
    let plateau = CumulativeROHistogram::from_parts(config, vec![1, 3, 7], vec![5, 5, 9]).unwrap();
    let r = plateau.rank_buckets(&[5, 6, 9, 10]);
    assert_eq!(r[0].as_ref().unwrap().range(), 1..=1);
    assert_eq!(r[1].as_ref().unwrap().range(), 7..=7);
    assert_eq!(r[1].as_ref().unwrap().count(), 4);
    assert_eq!(r[2].as_ref().unwrap().range(), 7..=7);
    // No total reaches rank 10: the last bucket answers.
    assert_eq!(r[3].as_ref().unwrap().range(), 7..=7);
    let b: Vec<_> = plateau.buckets().iter().map(|b| b.count()).collect();
    assert_eq!(b, vec![5, 0, 4]);
}

#[test]
fn totals_wrap_when_built_from_a_full_counter() {
    let mut h = Histogram32::new(2, 4).unwrap();
    h.add(1, u32::MAX).unwrap();
    h.add(2, 3).unwrap();
    let c = CumulativeROHistogram32::from(&h);
    assert_eq!(c.count(), &[u32::MAX, 2]);
    assert_eq!(c.total_count(), 2);
    let counts: Vec<u64> = c.iter().map(|b| b.count()).collect();
    assert_eq!(counts, vec![u32::MAX as u64, 3]);
}
