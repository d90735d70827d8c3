use histogram::{Config, Error};

#[test]
fn every_parameter_pair_returns_a_valid_config_or_an_error_without_overflow() {
    for grouping_power in 0..=u8::MAX {
        for max_value_power in 0..=u8::MAX {
            let result = Config::new(grouping_power, max_value_power);
            if max_value_power > 64 {
                assert_eq!(result, Err(Error::MaxPowerTooHigh));
            } else if grouping_power >= max_value_power {
                assert_eq!(result, Err(Error::MaxPowerTooLow));
            } else {
                // The linear range has 2^(gp+1) buckets; every remaining
                // power contributes 2^gp. Calculate in u128 independently.
                let buckets =
                    (u128::from(max_value_power - grouping_power) + 1) * (1_u128 << grouping_power);
                if buckets > u128::from(u32::MAX) {
                    assert_eq!(result, Err(Error::Overflow));
                } else {
                    let config = result.unwrap();
                    assert_eq!(config.total_buckets() as u128, buckets);
                    assert_eq!(config.grouping_power(), grouping_power);
                    assert_eq!(config.max_value_power(), max_value_power);
                }
            }
        }
    }
}

#[test]
fn values_land_in_the_bucket_whose_range_holds_them() {
    for (gp, mvp) in [(0u8, 1u8), (2, 4), (7, 64), (4, 10), (10, 64)] {
        let config = Config::new(gp, mvp).unwrap();
        let max = if mvp == 64 { u64::MAX } else { (1u64 << mvp) - 1 };
        let mut values: Vec<u64> = (0..300u64).filter(|v| *v <= max).collect();
        values.extend([max, max / 2, max / 3 + 1, max - 1]);
        for v in values {
            let i = config.value_to_index(v).unwrap();
            assert!(i < config.total_buckets());
            assert!(config.index_to_lower_bound(i) <= v);
            assert!(v <= config.index_to_upper_bound(i));
        }
        if mvp < 64 {
            assert_eq!(config.value_to_index(max + 1), Err(Error::OutOfRange));
        }
    }
}

#[test]
fn bucket_ranges_tile_the_storable_values() {
    let config = Config::new(3, 12).unwrap();
    let n = config.total_buckets();
    assert_eq!(config.index_to_lower_bound(0), 0);
    assert_eq!(config.index_to_upper_bound(n - 1), (1u64 << 12) - 1);
    for i in 0..n {
        let lo = config.index_to_lower_bound(i);
        let hi = config.index_to_upper_bound(i);
        assert!(lo <= hi);
        assert_eq!(config.value_to_index(lo), Ok(i));
        assert_eq!(config.value_to_index(hi), Ok(i));
        if i + 1 < n {
            assert_eq!(config.index_to_lower_bound(i + 1), hi + 1);
        }
    }
}

#[test]
fn largest_layout_ends_at_u64_max() {
    let config = Config::new(7, 64).unwrap();
    let n = config.total_buckets();
    assert_eq!(n, 58 * 128);
    assert_eq!(config.index_to_upper_bound(n - 1), u64::MAX);
    assert_eq!(config.value_to_index(u64::MAX), Ok(n - 1));
    assert_eq!(config.index_to_lower_bound(256), 256);
    assert_eq!(config.index_to_upper_bound(256), 257);
}

#[test]
fn config_errors_name_their_cause() {
    assert_eq!(Config::new(0, 65), Err(Error::MaxPowerTooHigh));
    assert_eq!(Config::new(5, 5), Err(Error::MaxPowerTooLow));
    assert_eq!(Config::new(30, 64), Err(Error::Overflow));
    assert_eq!(Error::Overflow.as_str(), "an overflow occurred");
    assert_eq!(Error::InvalidSubset.as_str(), "the histogram is not a subset");
}

#[test]
fn buckets_bound_the_relative_error() {
    let config = Config::new(3, 12).unwrap();
    for i in 0..config.total_buckets() {
        let lo = config.index_to_lower_bound(i);
        let hi = config.index_to_upper_bound(i);
        if lo < 16 {
            assert_eq!(lo, hi);
        } else {
            assert!((hi - lo + 1) * 8 <= lo);
        }
    }
}

#[test]
fn stored_fields_rebuild_the_config() {
    let config = Config::new(4, 20).unwrap();
    assert_eq!(config.max(), (1 << 20) - 1);
    assert_eq!(config.cutoff_power(), 5);
    assert_eq!(config.cutoff_value(), 32);
    assert_eq!(config.lower_bin_count(), 32);
    assert_eq!(config.upper_bin_divisions(), 16);
    assert_eq!(config.upper_bin_count(), 16);
    let rebuilt = Config::from_fields(
        config.max(),
        config.grouping_power(),
        config.max_value_power(),
        config.cutoff_power(),
        config.cutoff_value(),
        config.lower_bin_count(),
        config.upper_bin_divisions(),
        config.upper_bin_count(),
    );
    assert_eq!(rebuilt, Ok(config));
    assert_eq!(
        Config::from_fields(config.max() - 1, 4, 20, 5, 32, 32, 16, 16),
        Err(Error::IncompatibleParameters)
    );
    assert_eq!(
        Config::from_fields(config.max(), 4, 20, 5, 32, 32, 16, 15),
        Err(Error::IncompatibleParameters)
    );
    assert_eq!(
        Config::from_fields(0, 4, 66, 0, 0, 0, 0, 0),
        Err(Error::MaxPowerTooHigh)
    );
    assert_eq!(
        Config::from_fields(0, 30, 64, 0, 0, 0, 0, 0),
        Err(Error::Overflow)
    );
}
