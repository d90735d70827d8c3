use histogram::{
    Config, Error, Histogram, Histogram32, SparseHistogram, SparseHistogram32,
    SparseHistogram32Ref, SparseHistogramRef,
};
use rand::RngExt;
use std::collections::HashMap;

/// The rank (counting from one) that a quantile asks for among `total`
/// observations.
fn ranks(quantiles: &[f64], total: u128) -> Vec<u128> {
    quantiles
        .iter()
        .map(|q| std::cmp::max(1, (q * total as f64).ceil() as u128))
        .collect()
}

#[test]
fn sparse_checked_add() {
    let config = Config::new(7, 32).unwrap();

    let h1 = SparseHistogram::from_parts(config, vec![1, 3, 5], vec![6, 12, 7]).unwrap();
    let h2 = SparseHistogram::from_parts(config, vec![2, 3], vec![5, 7]).unwrap();

    let h = h1.checked_add(&h2).unwrap();
    assert_eq!(h.index(), &[1, 2, 3, 5]);
    assert_eq!(h.count(), &[6, 5, 19, 7]);

    // overflow
    let h_max = SparseHistogram::from_parts(config, vec![3], vec![u64::MAX]).unwrap();
    assert_eq!(h1.checked_add(&h_max), Err(Error::Overflow));
}

#[test]
fn sparse_wrapping_add() {
    let config = Config::new(7, 32).unwrap();

    let h1 = SparseHistogram::from_parts(config, vec![1, 3, 5], vec![6, 12, 7]).unwrap();
    let h2 = SparseHistogram::with_config(&config);
    let h3 =
        SparseHistogram::from_parts(config, vec![2, 3, 6, 11, 13], vec![5, 7, 3, 15, 6]).unwrap();

    let hdiff = SparseHistogram::new(6, 16).unwrap();
    let h = h1.wrapping_add(&hdiff);
    assert_eq!(h, Err(Error::IncompatibleParameters));

    let h = h1.wrapping_add(&h2).unwrap();
    assert_eq!(h.index(), &[1, 3, 5]);
    assert_eq!(h.count(), &[6, 12, 7]);

    let h = h2.wrapping_add(&h3).unwrap();
    assert_eq!(h.index(), &[2, 3, 6, 11, 13]);
    assert_eq!(h.count(), &[5, 7, 3, 15, 6]);

    let h = h1.wrapping_add(&h3).unwrap();
    assert_eq!(h.index(), &[1, 2, 3, 5, 6, 11, 13]);
    assert_eq!(h.count(), &[6, 5, 19, 7, 3, 15, 6]);
}

#[test]
fn sparse_checked_sub() {
    let config = Config::new(7, 32).unwrap();

    let h1 = SparseHistogram::from_parts(config, vec![1, 3, 5], vec![6, 12, 7]).unwrap();

    let hparams = SparseHistogram::new(6, 16).unwrap();
    let h = h1.checked_sub(&hparams);
    assert_eq!(h, Err(Error::IncompatibleParameters));

    let hempty = SparseHistogram::with_config(&config);
    let h = h1.checked_sub(&hempty).unwrap();
    assert_eq!(h.index(), &[1, 3, 5]);
    assert_eq!(h.count(), &[6, 12, 7]);

    let hclone = h1.clone();
    let h = h1.checked_sub(&hclone).unwrap();
    assert!(h.index().is_empty());
    assert!(h.count().is_empty());

    let hlarger = SparseHistogram::from_parts(config, vec![1, 3, 5], vec![4, 13, 7]).unwrap();
    let h = h1.checked_sub(&hlarger);
    assert_eq!(h, Err(Error::Underflow));

    let hmore = SparseHistogram::from_parts(config, vec![1, 5, 7], vec![4, 7, 1]).unwrap();
    let h = h1.checked_sub(&hmore);
    assert_eq!(h, Err(Error::InvalidSubset));

    let hdiff = SparseHistogram::from_parts(config, vec![1, 2, 5], vec![4, 1, 7]).unwrap();
    let h = h1.checked_sub(&hdiff);
    assert_eq!(h, Err(Error::InvalidSubset));

    let hsubset = SparseHistogram::from_parts(config, vec![1, 3], vec![5, 9]).unwrap();
    let h = h1.checked_sub(&hsubset).unwrap();
    assert_eq!(h.index(), &[1, 3, 5]);
    assert_eq!(h.count(), &[1, 3, 7]);
}

#[test]
fn sparse_wrapping_sub() {
    let config = Config::new(7, 32).unwrap();

    let h1 = SparseHistogram::from_parts(config, vec![1, 3, 5], vec![6, 12, 7]).unwrap();
    let h2 = SparseHistogram::from_parts(config, vec![1, 3], vec![4, 5]).unwrap();

    let h = h1.wrapping_sub(&h2).unwrap();
    assert_eq!(h.index(), &[1, 3, 5]);
    assert_eq!(h.count(), &[2, 7, 7]);

    // wrapping underflow
    let h3 = SparseHistogram::from_parts(config, vec![1], vec![10]).unwrap();
    let h = h1.wrapping_sub(&h3).unwrap();
    assert_eq!(h.count()[0], 6u64.wrapping_sub(10)); // wraps

    // non-subset returns error
    let h4 = SparseHistogram::from_parts(config, vec![2], vec![1]).unwrap();
    assert_eq!(h1.wrapping_sub(&h4), Err(Error::InvalidSubset));
}

#[test]
fn wrapping_add_overflow() {
    let config = Config::new(7, 32).unwrap();
    let h1 = SparseHistogram::from_parts(config, vec![1], vec![u64::MAX]).unwrap();
    let h2 = SparseHistogram::from_parts(config, vec![1], vec![1]).unwrap();
    let h = h1.wrapping_add(&h2).unwrap();
    // u64::MAX + 1 wraps to 0, and a zero bucket is not stored
    assert!(h.index().is_empty());
}

/// The smallest value: rank one.
#[test]
fn sparse_min() {
    let mut histogram = Histogram::new(7, 64).unwrap();

    let h = SparseHistogram::from(&histogram);
    assert_eq!(h.as_ref().rank_buckets(&[1]), vec![None]);

    let _ = histogram.increment(10);
    let h = SparseHistogram::from(&histogram);
    assert_eq!(h.as_ref().rank_buckets(&[1])[0].as_ref().unwrap().end(), 10);

    let _ = histogram.increment(4);
    let h = SparseHistogram::from(&histogram);
    assert_eq!(h.as_ref().rank_buckets(&[1])[0].as_ref().unwrap().end(), 4);
}

fn compare_histograms(hstandard: &Histogram, hsparse: &SparseHistogram) {
    assert_eq!(hstandard.config(), hsparse.config());

    let mut buckets: HashMap<u32, u64> = HashMap::new();
    for (idx, count) in hsparse.index().iter().zip(hsparse.count().iter()) {
        let _ = buckets.insert(*idx, *count);
    }

    for (idx, count) in hstandard.as_slice().iter().enumerate() {
        if *count > 0 {
            let v = buckets.get(&(idx as u32)).unwrap();
            assert_eq!(*v, *count);
        }
    }
}

#[test]
fn snapshot() {
    let mut hstandard = Histogram::new(5, 10).unwrap();

    for v in 1..1024 {
        let _ = hstandard.increment(v);
    }

    // Convert to sparse and store buckets in a hash for random lookup
    let hsparse = SparseHistogram::from(&hstandard);
    compare_histograms(&hstandard, &hsparse);
}

#[test]
fn sparse_downsample() {
    let mut histogram = Histogram::new(8, 32).unwrap();
    let mut rng = rand::rng();

    // Generate 10,000 values to store in a histogram
    for _ in 0..10000 {
        let v: u64 = rng.random_range(1..2_u64.pow(histogram.config().max_value_power() as u32));
        let _ = histogram.increment(v);
    }

    let hsparse = SparseHistogram::from(&histogram);
    compare_histograms(&histogram, &hsparse);

    // Downsample both forms and check that they agree
    let grouping_power = histogram.config().grouping_power();
    for factor in 1..grouping_power {
        let reduced_gp = grouping_power - factor;
        let h1 = histogram.downsample(reduced_gp).unwrap();
        let h2 = hsparse.downsample(reduced_gp).unwrap();
        compare_histograms(&h1, &h2);
    }
}

#[test]
fn sparse_from_parts_u32() {
    let config = Config::new(7, 32).unwrap();
    let h = SparseHistogram32::from_parts(config, vec![1, 3, 5], vec![6u32, 12, 7]).unwrap();
    assert_eq!(h.index(), &[1, 3, 5]);
    assert_eq!(h.count(), &[6u32, 12, 7]);
}

#[test]
fn checked_add_u32_overflow() {
    let config = Config::new(7, 32).unwrap();
    let h1 = SparseHistogram32::from_parts(config, vec![1], vec![u32::MAX]).unwrap();
    let h2 = SparseHistogram32::from_parts(config, vec![1], vec![1u32]).unwrap();
    assert_eq!(h1.checked_add(&h2), Err(Error::Overflow));
}

#[test]
fn sparse_from_histogram_u32() {
    let mut h = Histogram32::new(7, 64).unwrap();
    h.increment(1).unwrap();
    h.increment(5).unwrap();
    h.increment(100).unwrap();
    let s = SparseHistogram32::from(&h);
    assert_eq!(s.count().len(), 3);
}

#[test]
fn ref_validation_parity_u64() {
    let config = Config::new(7, 32).unwrap();

    // Mismatched lengths
    assert_eq!(
        SparseHistogramRef::from_parts(config, &[1u32, 2], &[1u64]),
        Err(Error::IncompatibleParameters)
    );

    // Out of range index
    assert_eq!(
        SparseHistogramRef::from_parts(config, &[u32::MAX], &[1u64]),
        Err(Error::OutOfRange)
    );

    // Non-ascending indices
    assert_eq!(
        SparseHistogramRef::from_parts(config, &[3u32, 1], &[1u64, 2]),
        Err(Error::IncompatibleParameters)
    );

    // Duplicate indices
    assert_eq!(
        SparseHistogramRef::from_parts(config, &[1u32, 1], &[1u64, 2]),
        Err(Error::IncompatibleParameters)
    );

    // Zero count
    assert_eq!(
        SparseHistogramRef::from_parts(config, &[1u32], &[0u64]),
        Err(Error::IncompatibleParameters)
    );

    // Valid
    assert!(SparseHistogramRef::from_parts(config, &[1u32, 3, 5], &[6u64, 12, 7]).is_ok());

    // Empty
    assert!(SparseHistogramRef::from_parts(config, &[], &[]).is_ok());
}

#[test]
fn ref_validation_parity_u32() {
    let config = Config::new(7, 32).unwrap();

    assert_eq!(
        SparseHistogram32Ref::from_parts(config, &[1u32, 2], &[1u32]),
        Err(Error::IncompatibleParameters)
    );
    assert_eq!(
        SparseHistogram32Ref::from_parts(config, &[u32::MAX], &[1u32]),
        Err(Error::OutOfRange)
    );
    assert_eq!(
        SparseHistogram32Ref::from_parts(config, &[3u32, 1], &[1u32, 2]),
        Err(Error::IncompatibleParameters)
    );
    assert_eq!(
        SparseHistogram32Ref::from_parts(config, &[1u32], &[0u32]),
        Err(Error::IncompatibleParameters)
    );
    assert!(SparseHistogram32Ref::from_parts(config, &[1u32, 3, 5], &[6u32, 12, 7]).is_ok());
}

#[test]
fn ref_quantile_parity_u64() {
    let config = Config::new(7, 32).unwrap();
    let owned = SparseHistogram::from_parts(config, vec![1, 3, 5], vec![6u64, 12, 7]).unwrap();
    let r = SparseHistogramRef::from_parts(config, owned.index(), owned.count()).unwrap();

    let qs = ranks(&[0.0, 0.5, 0.99, 1.0], owned.as_ref().total_count());
    assert_eq!(owned.as_ref().rank_buckets(&qs), r.rank_buckets(&qs));
    assert_eq!(owned.as_ref().total_count(), r.total_count());
}

#[test]
fn ref_quantile_parity_u32() {
    let config = Config::new(7, 32).unwrap();
    let owned = SparseHistogram32::from_parts(config, vec![1, 3, 5], vec![6u32, 12, 7]).unwrap();
    let r = SparseHistogram32Ref::from_parts(config, owned.index(), owned.count()).unwrap();

    let qs = ranks(&[0.0, 0.5, 0.99, 1.0], owned.as_ref().total_count());
    assert_eq!(owned.as_ref().rank_buckets(&qs), r.rank_buckets(&qs));
}

#[test]
fn ref_from_parts_unchecked_matches_owned() {
    let config = Config::new(7, 32).unwrap();
    let owned = SparseHistogram::from_parts(config, vec![1, 3, 5], vec![6u64, 12, 7]).unwrap();
    let r = SparseHistogramRef::from_parts_unchecked(config, owned.index(), owned.count());

    let qs = ranks(&[0.25, 0.5, 0.75], r.total_count());
    assert_eq!(owned.as_ref().rank_buckets(&qs), r.rank_buckets(&qs));
}

#[test]
fn ref_from_owned_round_trip() {
    let config = Config::new(7, 32).unwrap();
    let owned = SparseHistogram::from_parts(config, vec![1, 3, 5], vec![6u64, 12, 7]).unwrap();
    let r = SparseHistogramRef::from(&owned);

    let qs = ranks(&[0.0, 0.5, 1.0], r.total_count());
    assert_eq!(r.rank_buckets(&qs), owned.as_ref().rank_buckets(&qs));
}

#[test]
fn ref_iter_agrees_with_owned() {
    let config = Config::new(7, 32).unwrap();
    let owned = SparseHistogram::from_parts(config, vec![1, 3, 5], vec![6u64, 12, 7]).unwrap();
    let r = SparseHistogramRef::from(&owned);

    let owned_buckets: Vec<_> = owned.iter().collect();
    let ref_buckets: Vec<_> = r.iter().collect();
    assert_eq!(owned_buckets, ref_buckets);
}

#[test]
fn ref_empty_edge_case() {
    let config = Config::new(7, 32).unwrap();
    let r = SparseHistogramRef::from_parts(config, &[], &[]).unwrap();
    assert!(r.is_empty());
    assert_eq!(r.len(), 0);
    assert_eq!(r.total_count(), 0);
    assert_eq!(r.rank_buckets(&[1]), vec![None]);
}

#[test]
fn ref_single_sample_edge_case() {
    let config = Config::new(7, 32).unwrap();
    let owned = SparseHistogram::from_parts(config, vec![5], vec![1u64]).unwrap();
    let r = SparseHistogramRef::from(&owned);

    assert_eq!(r.len(), 1);
    let qs = ranks(&[0.5], r.total_count());
    assert!(r.rank_buckets(&qs)[0].is_some());
}

#[test]
fn ref_into_iterator() {
    let config = Config::new(7, 32).unwrap();
    let owned = SparseHistogram::from_parts(config, vec![1, 3, 5], vec![6u64, 12, 7]).unwrap();
    let r = SparseHistogramRef::from(&owned);

    // IntoIterator for owned ref (consumes)
    let buckets_consumed: Vec<_> = r.into_iter().collect();
    // IntoIterator for &ref (borrows)
    let buckets_borrowed: Vec<_> = (&r).into_iter().collect();
    let owned_buckets: Vec<_> = owned.iter().collect();

    assert_eq!(buckets_consumed, owned_buckets);
    assert_eq!(buckets_borrowed, owned_buckets);
}

#[test]
fn ref_u32_symmetry() {
    let config = Config::new(7, 32).unwrap();
    let owned = SparseHistogram32::from_parts(config, vec![1, 3, 5], vec![6u32, 12, 7]).unwrap();
    let r = SparseHistogram32Ref::from(&owned);

    // Iter parity
    let owned_buckets: Vec<_> = owned.iter().collect();
    let ref_buckets: Vec<_> = r.iter().collect();
    assert_eq!(owned_buckets, ref_buckets);

    // Rank parity
    let qs = ranks(&[0.0, 0.5, 0.99, 1.0], r.total_count());
    assert_eq!(owned.as_ref().rank_buckets(&qs), r.rank_buckets(&qs));
}

#[test]
fn ref_as_ref_method() {
    let config = Config::new(7, 32).unwrap();
    let owned = SparseHistogram::from_parts(config, vec![1, 3, 5], vec![6u64, 12, 7]).unwrap();
    let r = owned.as_ref();

    let qs = ranks(&[0.5, 0.99], r.total_count());
    let from_ref = r.rank_buckets(&qs);
    let expected: Vec<_> = vec![owned.iter().nth(1), owned.iter().nth(2)];
    assert_eq!(from_ref, expected);
}

#[test]
fn sparse_from_parts_errors() {
    let config = Config::new(7, 32).unwrap();
    assert_eq!(
        SparseHistogram::from_parts(config, vec![1], vec![]),
        Err(Error::IncompatibleParameters)
    );
    // An index out of range is reported when the indices before it are in order;
    // an ordering fault before it is reported instead.
    assert_eq!(
        SparseHistogram::from_parts(config, vec![5, 9, u32::MAX], vec![1, 1, 1]),
        Err(Error::OutOfRange)
    );
    assert_eq!(
        SparseHistogram::from_parts(config, vec![5, 3, u32::MAX], vec![1, 1, 1]),
        Err(Error::IncompatibleParameters)
    );
    let (cfg, index, count) = SparseHistogram::from_parts(config, vec![2, 4], vec![1, 8])
        .unwrap()
        .into_parts();
    assert_eq!((cfg, index, count), (config, vec![2, 4], vec![1, 8]));
}

#[test]
fn sparse_downsample_merges_and_wraps() {
    let config = Config::new(2, 4).unwrap();
    // buckets 4..=7 hold the values 4..=7, bucket 8 holds 8..=9, bucket 11 holds 14..=15
    let s = SparseHistogram32::from_parts(config, vec![4, 5, 6, 8, 11], vec![1, 1, 5, 2, 3]).unwrap();
    let d = s.downsample(1).unwrap();
    assert_eq!(d.config(), Config::new(1, 4).unwrap());
    assert_eq!(d.index(), &[4, 5, 6, 7]);
    assert_eq!(d.count(), &[2, 5, 2, 3]);
    let w = SparseHistogram32::from_parts(config, vec![4, 5], vec![u32::MAX, 1]).unwrap();
    assert!(w.downsample(1).unwrap().index().is_empty());
    assert_eq!(s.downsample(2), Err(Error::IncompatibleParameters));
}

#[test]
fn sparse_totals_and_extremes() {
    let config = Config::new(2, 4).unwrap();
    let s = SparseHistogram::from_parts(config, vec![1, 8], vec![u64::MAX, u64::MAX]).unwrap();
    let r = s.as_ref();
    assert_eq!(r.total_count(), 2 * (u64::MAX as u128));
    let min = r.min_bucket().unwrap();
    assert_eq!((min.start(), min.end(), min.count()), (1, 1, u64::MAX));
    let max = r.max_bucket().unwrap();
    assert_eq!((max.start(), max.end(), max.count()), (8, 9, u64::MAX));
    let empty = SparseHistogram::with_config(&config);
    assert_eq!(empty.as_ref().min_bucket(), None);
    assert_eq!(empty.as_ref().max_bucket(), None);
}
