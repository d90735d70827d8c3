use histogram::{AtomicHistogram, AtomicHistogram32, Config, Error};

#[test]
fn atomic_size() {
    assert_eq!(std::mem::size_of::<AtomicHistogram>(), 48);
}

#[test]
fn atomic_records_and_reports_out_of_range() {
    let h = AtomicHistogram::new(2, 4).unwrap();
    h.increment(0).unwrap();
    h.add(5, 3).unwrap();
    h.add(15, 2).unwrap();
    assert_eq!(h.increment(16), Err(Error::OutOfRange));
    assert_eq!(h.add(u64::MAX, 1), Err(Error::OutOfRange));
    let snap = h.load();
    assert_eq!(snap.config(), h.config());
    assert_eq!(snap.as_slice(), &[1, 0, 0, 0, 0, 3, 0, 0, 0, 0, 0, 2]);
}

#[test]
fn drain() {
    let h = AtomicHistogram::new(7, 64).unwrap();
    for i in 0..=100 {
        h.increment(i).unwrap();
    }
    let first = h.drain();
    assert_eq!(first.total_count(), 101);
    assert_eq!(first.rank_buckets(&[51])[0].as_ref().unwrap().range(), 50..=50);
    h.increment(1000).unwrap();
    let second = h.drain();
    assert_eq!(second.total_count(), 1);
    assert_eq!(second.rank_buckets(&[1])[0].as_ref().unwrap().range(), 1000..=1003);
    assert_eq!(h.load().total_count(), 0);
}

#[test]
fn atomic_new_reports_config_errors() {
    assert_eq!(AtomicHistogram32::new(4, 65).err(), Some(Error::MaxPowerTooHigh));
    assert_eq!(AtomicHistogram32::new(4, 4).err(), Some(Error::MaxPowerTooLow));
    let config = Config::new(3, 9).unwrap();
    let h = AtomicHistogram32::with_config(&config);
    assert_eq!(h.config(), config);
    assert_eq!(h.load().as_slice().len(), config.total_buckets());
}

#[test]
fn atomic_counter_wraps() {
    let h = AtomicHistogram32::new(2, 4).unwrap();
    h.add(3, u32::MAX).unwrap();
    h.add(3, 2).unwrap();
    assert_eq!(h.load().as_slice()[3], 1);
}
