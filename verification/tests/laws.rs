use histogram::{
    Config, CumulativeROHistogram, CumulativeROHistogram32, Histogram, Histogram32,
    SparseHistogram,
};

fn sample(config: &Config, values: &[(u64, u64)]) -> Histogram {
    let mut h = Histogram::with_config(config);
    for (v, n) in values {
        h.add(*v, *n).unwrap();
    }
    h
}

#[test]
fn add_then_sub_restores_the_counts() {
    let config = Config::new(3, 10).unwrap();
    let a = sample(&config, &[(1, 5), (100, 7), (1000, u64::MAX - 9)]);
    let b = sample(&config, &[(1, 2), (500, 3), (1000, 9)]);
    let s = a.checked_add(&b).unwrap();
    assert_eq!(s.checked_sub(&b).unwrap(), a);
    let w = a.wrapping_add(&b).unwrap();
    assert_eq!(w, s);
    let c = sample(&config, &[(1000, 20)]);
    let wrapped = a.wrapping_add(&c).unwrap();
    assert_eq!(wrapped.wrapping_sub(&c).unwrap(), a);
}

#[test]
fn merging_commutes() {
    let config = Config::new(3, 10).unwrap();
    let a = sample(&config, &[(1, 5), (100, 7)]);
    let b = sample(&config, &[(1, 2), (500, 3)]);
    assert_eq!(a.checked_add(&b), b.checked_add(&a));
    assert_eq!(a.wrapping_add(&b), b.wrapping_add(&a));
    let sa = SparseHistogram::from(&a);
    let sb = SparseHistogram::from(&b);
    assert_eq!(sa.checked_add(&sb), sb.checked_add(&sa));
}

#[test]
fn sparse_and_dense_forms_convert_both_ways() {
    let config = Config::new(3, 10).unwrap();
    let h = sample(&config, &[(0, 1), (9, 4), (700, 2), (1023, 8)]);
    let s = SparseHistogram::from(&h);
    assert_eq!(Histogram::from(&s), h);
    assert_eq!(SparseHistogram::from(&Histogram::from(&s)), s);
}

#[test]
fn sparse_merge_matches_dense_merge() {
    let config = Config::new(3, 10).unwrap();
    let a = sample(&config, &[(1, 5), (100, 7), (600, 1)]);
    let b = sample(&config, &[(1, 2), (500, 3)]);
    let sparse_sum = SparseHistogram::from(&a)
        .checked_add(&SparseHistogram::from(&b))
        .unwrap();
    let dense_sum = a.checked_add(&b).unwrap();
    assert_eq!(sparse_sum, SparseHistogram::from(&dense_sum));
    let sparse_diff = sparse_sum.checked_sub(&SparseHistogram::from(&b)).unwrap();
    assert_eq!(sparse_diff, SparseHistogram::from(&a));
}

#[test]
fn cumulative_totals_recover_each_count() {
    let config = Config::new(3, 10).unwrap();
    let s = SparseHistogram::from_parts(config, vec![2, 6, 40], vec![3, 9, 4]).unwrap();
    let c = CumulativeROHistogram::from(&s);
    assert_eq!(c.count(), &[3, 12, 16]);
    let own: Vec<u64> = c.iter().map(|b| b.count()).collect();
    assert_eq!(own, vec![3, 9, 4]);
    let (cfg, index, count) = c.clone().into_parts();
    assert_eq!(CumulativeROHistogram::from_parts(cfg, index, count).unwrap(), c);
}

#[test]
fn cumulative_totals_wrap_but_counts_survive() {
    let mut h = Histogram32::new(3, 10).unwrap();
    h.add(5, u32::MAX - 1).unwrap();
    h.add(6, 5).unwrap();
    let c = CumulativeROHistogram32::from(&h);
    assert_eq!(c.total_count(), 3);
    let own: Vec<u64> = c.iter().map(|b| b.count()).collect();
    assert_eq!(own, vec![(u32::MAX - 1) as u64, 5]);
}

#[test]
fn widening_then_narrowing_is_the_identity() {
    let mut h = Histogram32::new(3, 10).unwrap();
    h.add(5, u32::MAX).unwrap();
    h.add(900, 17).unwrap();
    let wide = Histogram::from(&h);
    let back = Histogram32::try_from(&wide).unwrap();
    assert_eq!(back, h);
}

#[test]
fn downsampling_keeps_buckets_whole() {
    let config = Config::new(5, 12).unwrap();
    for to in 0..5 {
        let coarse = Config::new(to, 12).unwrap();
        for i in 0..config.total_buckets() {
            let lo = config.index_to_lower_bound(i);
            let hi = config.index_to_upper_bound(i);
            assert_eq!(coarse.value_to_index(lo), coarse.value_to_index(hi));
        }
    }
}

#[test]
fn downsampling_keeps_the_total() {
    let config = Config::new(5, 12).unwrap();
    let mut h = Histogram::with_config(&config);
    for v in (0..4096u64).step_by(13) {
        h.add(v, v % 7 + 1).unwrap();
    }
    let total = h.total_count();
    for to in 0..5 {
        let d = h.downsample(to).unwrap();
        assert_eq!(d.total_count(), total);
        let s = SparseHistogram::from(&h).downsample(to).unwrap();
        assert_eq!(s, SparseHistogram::from(&d));
    }
}

#[test]
fn rank_queries_agree_across_representations() {
    let config = Config::new(4, 10).unwrap();
    let mut h = Histogram::with_config(&config);
    for v in (1..1024u64).step_by(5) {
        h.add(v, v % 3 + 1).unwrap();
    }
    let s = SparseHistogram::from(&h);
    let c = CumulativeROHistogram::from(&h);
    let total = h.total_count();
    assert_eq!(total, s.as_ref().total_count());
    assert_eq!(total, c.total_count() as u128);
    let ranks: Vec<u128> = (1..=total).collect();
    let dense = h.rank_buckets(&ranks);
    assert_eq!(dense, s.as_ref().rank_buckets(&ranks));
    assert_eq!(dense, c.rank_buckets(&ranks));
}

#[test]
fn sparse_wrapping_sub_undoes_wrapping_add_unless_a_bucket_wraps_to_zero() {
    let config = Config::new(3, 10).unwrap();
    let a = SparseHistogram::from_parts(config, vec![1, 4], vec![7, 2]).unwrap();
    let b = SparseHistogram::from_parts(config, vec![4, 9], vec![u64::MAX, 3]).unwrap();
    let sum = a.wrapping_add(&b).unwrap();
    assert_eq!(sum.index(), &[1, 4, 9]);
    assert_eq!(sum.count(), &[7, 1, 3]);
    assert_eq!(sum.wrapping_sub(&b).unwrap(), a);

    let one = SparseHistogram::from_parts(config, vec![4], vec![1]).unwrap();
    let all = SparseHistogram::from_parts(config, vec![4], vec![u64::MAX]).unwrap();
    let wrapped = one.wrapping_add(&all).unwrap();
    assert!(wrapped.index().is_empty());
    assert_eq!(wrapped.wrapping_sub(&all), Err(histogram::Error::InvalidSubset));
}

#[test]
fn recording_adds_to_the_total() {
    let mut h = Histogram32::new(3, 10).unwrap();
    h.add(17, 40).unwrap();
    let before = h.total_count();
    h.increment(17).unwrap();
    h.add(600, 9).unwrap();
    assert_eq!(h.total_count(), before + 10);
    h.add(17, u32::MAX).unwrap();
    assert_eq!(h.total_count(), before + 10 - 1);
}
