use histogram::{
    AtomicHistogram, AtomicHistogram32, Config, CumulativeROHistogram, CumulativeROHistogram32,
    Error, Histogram, Histogram32, SparseHistogram, SparseHistogram32,
};

#[test]
fn widen_histogram() {
    let mut h32 = Histogram32::new(7, 32).unwrap();
    h32.add(1, 1234u32).unwrap();
    h32.add(1000, 5678u32).unwrap();
    let h64: Histogram = (&h32).into();
    assert_eq!(h64.config(), h32.config());
    for (a, b) in h64.as_slice().iter().zip(h32.as_slice().iter()) {
        assert_eq!(*a, *b as u64);
    }
}

#[test]
fn widen_sparse() {
    let config = Config::new(7, 32).unwrap();
    let s32 = SparseHistogram32::from_parts(config, vec![1, 3], vec![10u32, 20]).unwrap();
    let s64: SparseHistogram = (&s32).into();
    assert_eq!(s64.count(), &[10u64, 20]);
    assert_eq!(s64.index(), &[1u32, 3]);
}

#[test]
fn widen_cumulative() {
    let config = Config::new(7, 32).unwrap();
    let c32 = CumulativeROHistogram32::from_parts(config, vec![1, 3], vec![10u32, 30]).unwrap();
    let c64: CumulativeROHistogram = (&c32).into();
    assert_eq!(c64.count(), &[10u64, 30]);
}

#[test]
fn widen_atomic_histogram() {
    let h32 = AtomicHistogram32::new(7, 32).unwrap();
    h32.add(5, 100u32).unwrap();
    h32.add(50, 200u32).unwrap();
    let h64: AtomicHistogram = (&h32).into();
    let snap = h64.load();
    let total: u64 = snap.as_slice().iter().sum();
    assert_eq!(total, 300);
}

#[test]
fn narrow_histogram_success() {
    let mut h64 = Histogram::new(7, 32).unwrap();
    h64.add(1, 100u64).unwrap();
    h64.add(1000, 200u64).unwrap();
    let h32: Histogram32 = (&h64).try_into().unwrap();
    assert_eq!(h32.as_slice()[1], 100u32);
}

#[test]
fn narrow_histogram_overflow() {
    let mut h64 = Histogram::new(2, 4).unwrap();
    h64.add(1, (u32::MAX as u64) + 1).unwrap();
    let r: Result<Histogram32, _> = (&h64).try_into();
    assert_eq!(r, Err(Error::Overflow));
}

#[test]
fn narrow_sparse_overflow() {
    let config = Config::new(7, 32).unwrap();
    let s64 = SparseHistogram::from_parts(config, vec![1], vec![(u32::MAX as u64) + 1]).unwrap();
    let r: Result<SparseHistogram32, _> = (&s64).try_into();
    assert_eq!(r, Err(Error::Overflow));
}

#[test]
fn narrow_cumulative_checks_total_only() {
    let config = Config::new(7, 32).unwrap();
    let c64 = CumulativeROHistogram::from_parts(
        config,
        vec![1, 3],
        vec![100u64, (u32::MAX as u64) + 1],
    )
    .unwrap();
    let r: Result<CumulativeROHistogram32, _> = (&c64).try_into();
    assert_eq!(r, Err(Error::Overflow));

    let c64_ok = CumulativeROHistogram::from_parts(config, vec![1, 3], vec![100u64, 200]).unwrap();
    let c32: CumulativeROHistogram32 = (&c64_ok).try_into().unwrap();
    assert_eq!(c32.total_count(), 200);
}

#[test]
fn round_trip_widen_then_narrow() {
    let mut h32 = Histogram32::new(7, 32).unwrap();
    h32.add(5, 1234u32).unwrap();
    h32.add(50, 5678u32).unwrap();
    let h64: Histogram = (&h32).into();
    let h32_back: Histogram32 = (&h64).try_into().unwrap();
    assert_eq!(h32.as_slice(), h32_back.as_slice());
}

#[test]
fn narrow_sparse_success_keeps_parts() {
    let config = Config::new(7, 32).unwrap();
    let s64 = SparseHistogram::from_parts(config, vec![2, 9], vec![u32::MAX as u64, 3]).unwrap();
    let s32: SparseHistogram32 = (&s64).try_into().unwrap();
    assert_eq!(s32.index(), &[2, 9]);
    assert_eq!(s32.count(), &[u32::MAX, 3]);
    let back: SparseHistogram = (&s32).into();
    assert_eq!(back, s64);
}

#[test]
fn narrow_cumulative_truncates_wrapped_totals_and_revalidates() {
    // Totals that wrapped are not non-decreasing; after truncation they are
    // validated again and rejected.
    let config = Config::new(7, 32).unwrap();
    let mut h = Histogram::new(7, 32).unwrap();
    h.add(1, u64::MAX).unwrap();
    h.add(2, 2).unwrap();
    let c = CumulativeROHistogram::from(&h);
    assert_eq!(c.count(), &[u64::MAX, 1]);
    let r: Result<CumulativeROHistogram32, _> = (&c).try_into();
    assert_eq!(r, Err(Error::IncompatibleParameters));
    let empty = CumulativeROHistogram::from_parts(config, vec![], vec![]).unwrap();
    let e32: CumulativeROHistogram32 = (&empty).try_into().unwrap();
    assert!(e32.is_empty());
}
