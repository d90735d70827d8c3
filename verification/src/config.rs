//! Bucket configuration: validated geometry and the value/index mapping.
use vstd::prelude::*;
use vstd::arithmetic::power2::{pow2, lemma_pow2_pos, lemma_pow2_adds, lemma_pow2_unfold, lemma2_to64};
use vstd::arithmetic::div_mod::lemma_fundamental_div_mod;
use vstd::arithmetic::mul::{lemma_mul_inequality, lemma_mul_is_commutative, lemma_mul_is_distributive_add};
use vstd::bits::{lemma_u64_shr_is_div, lemma_u64_shl_is_mul, lemma_u64_pow2_no_overflow};
use vstd::std_specs::bits::u64_leading_zeros;
use crate::errors::Error;
use crate::geometry::{
    bucket_lower,
    bucket_of,
    bucket_total,
    bucket_upper,
    floor_log2,
    lemma_bucket_of_brackets,
    lemma_bucket_of_in_range,
    lemma_bucket_of_lower,
    lemma_bucket_of_monotone,
    lemma_bucket_precision,
    lemma_lower_in_range,
    lemma_floor_log2_bounds,
    lemma_lower_at_total,
    lemma_lower_step,
    lemma_lower_strictly_increases,
    lemma_pow2_le,
    valid_geometry,
    value_limit,
};

verus! {

/// The configuration of a histogram which determines the bucketing strategy
/// and therefore the relative error and memory utilization.
///
/// A histogram is configured by a grouping power `gp` and a maximum value
/// power `mvp`. Values below `2^(gp + 1)` are counted exactly; above that, each
/// power of two is split into `2^gp` buckets, which bounds the relative error
/// by `2^-gp`. The largest value that can be recorded is `2^mvp - 1`.
#[derive(Clone, Copy, Debug, PartialEq, Eq, Structural, Hash)]
pub struct Config {
    max: u64,
    grouping_power: u8,
    max_value_power: u8,
    cutoff_power: u8,
    cutoff_value: u64,
    lower_bin_count: u32,
    upper_bin_divisions: u32,
    upper_bin_count: u32,
}

impl Config {
    /// The derived fields agree with the two powers, and the powers describe a
    /// usable layout.
    #[verifier::type_invariant]
    pub closed spec fn wf(self) -> bool {
        &&& valid_geometry(self.grouping_power as nat, self.max_value_power as nat)
        &&& self.max == value_limit(self.max_value_power as nat)
        &&& self.cutoff_power == self.grouping_power + 1
        &&& self.cutoff_value == pow2(self.grouping_power as nat + 1)
        &&& self.lower_bin_count == pow2(self.grouping_power as nat + 1)
        &&& self.upper_bin_divisions == pow2(self.grouping_power as nat)
        &&& self.upper_bin_count == self.max_value_power - self.grouping_power
    }

    /// The grouping power.
    pub closed spec fn spec_grouping_power(self) -> nat {
        self.grouping_power as nat
    }

    /// The maximum value power.
    pub closed spec fn spec_max_value_power(self) -> nat {
        self.max_value_power as nat
    }

    /// The number of buckets of this configuration.
    pub open spec fn spec_total_buckets(self) -> nat {
        bucket_total(self.spec_grouping_power(), self.spec_max_value_power())
    }

    /// The largest value that can be recorded.
    pub open spec fn spec_max(self) -> nat {
        value_limit(self.spec_max_value_power())
    }

    /// The bucket that holds value `v`.
    pub open spec fn spec_index_of(self, v: nat) -> nat {
        bucket_of(self.spec_grouping_power(), v)
    }

    /// The smallest value of bucket `i`.
    pub open spec fn spec_lower(self, i: nat) -> nat {
        bucket_lower(self.spec_grouping_power(), i)
    }

    /// The largest value of bucket `i`.
    pub open spec fn spec_upper(self, i: nat) -> nat {
        bucket_upper(self.spec_grouping_power(), i)
    }

    /// The geometry facts that every configuration satisfies.
    pub proof fn lemma_valid(self)
        requires
            self.wf(),
        ensures
            valid_geometry(self.spec_grouping_power(), self.spec_max_value_power()),
            self.spec_grouping_power() <= 30,
            self.spec_total_buckets() >= 2,
            pow2(self.spec_grouping_power() + 1) <= self.spec_max() + 1,
    {
        lemma_config_powers(self.spec_grouping_power(), self.spec_max_value_power());
    }

    /// The number of buckets of an existing configuration is between 2 and `u32::MAX`.
    pub proof fn lemma_total_bounds(self)
        requires
            self.wf(),
        ensures
            2 <= self.spec_total_buckets() <= u32::MAX,
            self.spec_grouping_power() < self.spec_max_value_power() <= 64,
    {
        self.lemma_valid();
    }

    /// A configuration is determined by its two powers.
    pub proof fn lemma_determined_by_powers(self, other: Config)
        requires
            self.wf(),
            other.wf(),
            self.spec_grouping_power() == other.spec_grouping_power(),
            self.spec_max_value_power() == other.spec_max_value_power(),
        ensures
            self == other,
    {
    }

    /// Every storable value lands in a bucket of the configuration whose
    /// range holds it.
    pub proof fn lemma_value_in_bucket(self, v: nat)
        requires
            self.wf(),
            v <= self.spec_max(),
        ensures
            self.spec_index_of(v) < self.spec_total_buckets(),
            self.spec_lower(self.spec_index_of(v)) <= v <= self.spec_upper(self.spec_index_of(v)),
    {
        self.lemma_valid();
        lemma_bucket_of_in_range(self.spec_grouping_power(), self.spec_max_value_power(), v);
    }

    /// Each bucket holds exactly the values of its range: both ends of the
    /// range of bucket `i` map back to `i`, and the next bucket starts right
    /// after it ends.
    pub proof fn lemma_bucket_range_roundtrip(self, i: nat)
        requires
            self.wf(),
            i < self.spec_total_buckets(),
        ensures
            self.spec_lower(i) <= self.spec_upper(i) <= self.spec_max(),
            self.spec_index_of(self.spec_lower(i)) == i,
            self.spec_index_of(self.spec_upper(i)) == i,
            self.spec_lower(i + 1) == self.spec_upper(i) + 1,
    {
        let gp = self.spec_grouping_power();
        self.lemma_valid();
        lemma_lower_in_range(gp, self.spec_max_value_power(), i);
        lemma_bucket_of_lower(gp, i);
        lemma_bucket_of_monotone(gp, self.spec_lower(i), self.spec_upper(i));
        let b = bucket_of(gp, self.spec_upper(i));
        lemma_bucket_of_brackets(gp, self.spec_upper(i));
        lemma_lower_strictly_increases(gp, i, i + 1);
        if b > i + 1 {
            lemma_lower_strictly_increases(gp, i + 1, b);
        }
    }

    /// Values below `2^(gp + 1)` are counted exactly, each in a bucket of its
    /// own; a wider bucket's width is at most its smallest value divided by
    /// `2^gp`, which bounds the relative error by `2^-gp`.
    pub proof fn lemma_relative_error(self, i: nat)
        requires
            self.wf(),
            i < self.spec_total_buckets(),
        ensures
            self.spec_lower(i) < pow2(self.spec_grouping_power() + 1) ==> self.spec_upper(i)
                == self.spec_lower(i),
            self.spec_upper(i) == self.spec_lower(i) || (self.spec_upper(i) - self.spec_lower(i)
                + 1) * pow2(self.spec_grouping_power()) <= self.spec_lower(i),
    {
        let gp = self.spec_grouping_power();
        lemma_lower_step(gp, i);
        lemma_bucket_precision(gp, i);
    }

    /// Larger values never land in earlier buckets.
    pub proof fn lemma_index_monotone(self, v1: nat, v2: nat)
        requires
            v1 <= v2,
        ensures
            self.spec_index_of(v1) <= self.spec_index_of(v2),
    {
        lemma_bucket_of_monotone(self.spec_grouping_power(), v1, v2);
    }

    /// The buckets cover the storable values from the first to the last:
    /// bucket zero starts at zero and the last bucket ends at the largest
    /// storable value.
    pub proof fn lemma_buckets_cover(self)
        requires
            self.wf(),
        ensures
            self.spec_lower(0) == 0,
            self.spec_upper((self.spec_total_buckets() - 1) as nat) == self.spec_max(),
    {
        let gp = self.spec_grouping_power();
        let mvp = self.spec_max_value_power();
        self.lemma_valid();
        lemma_pow2_pos(gp);
        vstd::arithmetic::div_mod::lemma_small_mod(0, pow2(gp));
        vstd::arithmetic::div_mod::lemma_basic_div(0, pow2(gp) as int);
        lemma_lower_at_total(gp, mvp);
        assert((self.spec_total_buckets() - 1) as nat + 1 == bucket_total(gp, mvp));
    }

    /// Create a new configuration from the grouping power and the maximum
    /// value power.
    ///
    /// Fails with `MaxPowerTooHigh` if `max_value_power > 64`, with
    /// `MaxPowerTooLow` if `grouping_power >= max_value_power`, and with
    /// `Overflow` if the layout would need more than `u32::MAX` buckets.
    pub fn new(grouping_power: u8, max_value_power: u8) -> (r: Result<Self, Error>)
        ensures
            max_value_power > 64 ==> r == Err::<Self, Error>(Error::MaxPowerTooHigh),
            max_value_power <= 64 && grouping_power >= max_value_power ==> r == Err::<
                Self,
                Error,
            >(Error::MaxPowerTooLow),
            max_value_power <= 64 && grouping_power < max_value_power && bucket_total(
                grouping_power as nat,
                max_value_power as nat,
            ) > u32::MAX ==> r == Err::<Self, Error>(Error::Overflow),
            valid_geometry(grouping_power as nat, max_value_power as nat) ==> (r matches Ok(c)
                && c.spec_grouping_power() == grouping_power && c.spec_max_value_power()
                == max_value_power),
    {
        if max_value_power > 64 {
            return Err(Error::MaxPowerTooHigh);
        }
        if grouping_power >= max_value_power {
            return Err(Error::MaxPowerTooLow);
        }
        let gp: u64 = grouping_power as u64;
        let mvp: u64 = max_value_power as u64;
        proof {
            lemma_u64_pow2_no_overflow(gp as nat);
            lemma_u64_shl_is_mul(1, gp);
        }
        let groups: u128 = (mvp - gp + 1) as u128;
        let divisions: u128 = (1u64 << gp) as u128;
        assert(groups * divisions <= 65 * 0x1_0000_0000_0000_0000) by (nonlinear_arith)
            requires
                groups <= 65,
                divisions < 0x1_0000_0000_0000_0000,
        ;
        let buckets: u128 = groups * divisions;
        if buckets > u32::MAX as u128 {
            return Err(Error::Overflow);
        }
        proof {
            lemma_config_powers(gp as nat, mvp as nat);
            lemma_u64_pow2_no_overflow(gp as nat + 1);
            lemma_u64_shl_is_mul(1, (gp + 1) as u64);
        }
        let cutoff_power: u8 = grouping_power + 1;
        let cutoff_value: u64 = 1u64 << (gp + 1);
        let upper_bin_divisions: u32 = (1u64 << gp) as u32;
        let lower_bin_count: u32 = cutoff_value as u32;
        let max: u64 = if mvp == 64 {
            proof {
                lemma2_to64_max();
            }
            u64::MAX
        } else {
            proof {
                lemma_u64_pow2_no_overflow(mvp as nat);
                lemma_u64_shl_is_mul(1, mvp);
            }
            (1u64 << mvp) - 1
        };
        let upper_bin_count: u32 = (max_value_power - grouping_power) as u32;
        Ok(Config {
            max,
            grouping_power,
            max_value_power,
            cutoff_power,
            cutoff_value,
            lower_bin_count,
            upper_bin_divisions,
            upper_bin_count,
        })
    }

    /// Returns the grouping power that was used to create this configuration.
    pub fn grouping_power(&self) -> (r: u8)
        ensures
            r == self.spec_grouping_power(),
    {
        self.grouping_power
    }

    /// Returns the max value power that was used to create this configuration.
    pub fn max_value_power(&self) -> (r: u8)
        ensures
            r == self.spec_max_value_power(),
    {
        self.max_value_power
    }

    /// Returns the largest value that can be recorded.
    pub fn max(&self) -> (r: u64)
        ensures
            r == self.spec_max(),
    {
        proof {
            use_type_invariant(self);
        }
        self.max
    }

    /// Returns the power of two below which every value has a bucket of its
    /// own: one more than the grouping power.
    pub fn cutoff_power(&self) -> (r: u8)
        ensures
            r == self.spec_grouping_power() + 1,
    {
        proof {
            use_type_invariant(self);
        }
        self.cutoff_power
    }

    /// Returns `2^cutoff_power`, the smallest value that shares its bucket.
    pub fn cutoff_value(&self) -> (r: u64)
        ensures
            r == pow2(self.spec_grouping_power() + 1),
    {
        proof {
            use_type_invariant(self);
        }
        self.cutoff_value
    }

    /// Returns the number of buckets that hold one value each.
    pub fn lower_bin_count(&self) -> (r: u32)
        ensures
            r == pow2(self.spec_grouping_power() + 1),
    {
        proof {
            use_type_invariant(self);
        }
        self.lower_bin_count
    }

    /// Returns the number of buckets each further power of two is split into.
    pub fn upper_bin_divisions(&self) -> (r: u32)
        ensures
            r == pow2(self.spec_grouping_power()),
    {
        proof {
            use_type_invariant(self);
        }
        self.upper_bin_divisions
    }

    /// Returns the number of powers of two above the cutoff, plus one.
    pub fn upper_bin_count(&self) -> (r: u32)
        ensures
            r == self.spec_max_value_power() - self.spec_grouping_power(),
    {
        proof {
            use_type_invariant(self);
        }
        self.upper_bin_count
    }

    /// Rebuilds a configuration from all of its stored fields, as a
    /// serialized configuration holds them. The two powers must make a valid
    /// configuration (failing as [`Config::new`] does), and every derived
    /// field must agree with them, else `IncompatibleParameters`.
    pub fn from_fields(
        max: u64,
        grouping_power: u8,
        max_value_power: u8,
        cutoff_power: u8,
        cutoff_value: u64,
        lower_bin_count: u32,
        upper_bin_divisions: u32,
        upper_bin_count: u32,
    ) -> (r: Result<Self, Error>)
        ensures
            max_value_power > 64 ==> r == Err::<Self, Error>(Error::MaxPowerTooHigh),
            max_value_power <= 64 && grouping_power >= max_value_power ==> r == Err::<
                Self,
                Error,
            >(Error::MaxPowerTooLow),
            max_value_power <= 64 && grouping_power < max_value_power && !valid_geometry(
                grouping_power as nat,
                max_value_power as nat,
            ) ==> r == Err::<Self, Error>(Error::Overflow),
            valid_geometry(grouping_power as nat, max_value_power as nat) ==> {
                let consistent = max == value_limit(max_value_power as nat)
                    && cutoff_power == grouping_power + 1
                    && cutoff_value == pow2(grouping_power as nat + 1)
                    && lower_bin_count == pow2(grouping_power as nat + 1)
                    && upper_bin_divisions == pow2(grouping_power as nat)
                    && upper_bin_count == max_value_power - grouping_power;
                &&& consistent ==> (r matches Ok(c) && c.spec_grouping_power() == grouping_power
                    && c.spec_max_value_power() == max_value_power)
                &&& !consistent ==> r == Err::<Self, Error>(Error::IncompatibleParameters)
            },
    {
        let config = match Config::new(grouping_power, max_value_power) {
            Ok(config) => config,
            Err(e) => {
                return Err(e);
            },
        };
        proof {
            use_type_invariant(&config);
        }
        if config.max == max && config.cutoff_power == cutoff_power && config.cutoff_value
            == cutoff_value && config.lower_bin_count == lower_bin_count
            && config.upper_bin_divisions == upper_bin_divisions && config.upper_bin_count
            == upper_bin_count {
            Ok(config)
        } else {
            Err(Error::IncompatibleParameters)
        }
    }

    /// Returns the total number of buckets for a histogram with this configuration.
    pub fn total_buckets(&self) -> (r: usize)
        ensures
            r == self.spec_total_buckets(),
            2 <= r <= u32::MAX,
    {
        proof {
            use_type_invariant(self);
            self.lemma_valid();
        }
        let lower = self.lower_bin_count as u64;
        let upper = (self.upper_bin_count - 1) as u64;
        let divisions = self.upper_bin_divisions as u64;
        proof {
            let gp = self.grouping_power as nat;
            lemma_pow2_unfold(gp + 1);
            assert(upper * divisions + lower == bucket_total(gp, self.max_value_power as nat))
                by (nonlinear_arith)
                requires
                    lower == 2 * divisions,
                    upper + 2 == self.max_value_power - gp + 1,
                    divisions == pow2(gp),
                    bucket_total(gp, self.max_value_power as nat) == (self.max_value_power + 1
                        - gp) * pow2(gp),
            ;
        }
        (lower + upper * divisions) as usize
    }

    /// Returns the index of the bucket that holds `value`, or `OutOfRange`
    /// when `value` is larger than the largest storable value.
    pub fn value_to_index(&self, value: u64) -> (r: Result<usize, Error>)
        ensures
            value <= self.spec_max() ==> r == Ok::<usize, Error>(
                self.spec_index_of(value as nat) as usize,
            ),
            value > self.spec_max() ==> r == Err::<usize, Error>(Error::OutOfRange),
            r matches Ok(i) ==> i < self.spec_total_buckets(),
            value <= self.spec_max() ==> self.spec_index_of(value as nat)
                < self.spec_total_buckets(),
            self.spec_total_buckets() <= u32::MAX,
    {
        proof {
            use_type_invariant(self);
            self.lemma_valid();
            if value <= self.spec_max() {
                lemma_bucket_of_in_range(
                    self.spec_grouping_power(),
                    self.spec_max_value_power(),
                    value as nat,
                );
            }
        }
        if value < self.cutoff_value {
            return Ok(value as usize);
        }
        if value > self.max {
            return Err(Error::OutOfRange);
        }
        let gp: u64 = self.grouping_power as u64;
        let lz: u32 = value.leading_zeros();
        proof {
            lemma_pow2_pos(gp as nat + 1);
            lemma_leading_zeros_log2(value);
        }
        let power: u64 = (63 - lz) as u64;
        proof {
            let p = power as nat;
            lemma_pow2_pos(gp as nat + 1);
            lemma_floor_log2_bounds(value as nat);
            if p < gp + 1 {
                lemma_pow2_le(p + 1, gp as nat + 1);
            }
            lemma_u64_pow2_no_overflow(p);
            lemma_u64_shl_is_mul(1, power);
            lemma_u64_shr_is_div((value - pow2(p)) as u64, (power - gp) as u64);
        }
        let log_bin: u64 = power - self.cutoff_power as u64;
        let offset: u64 = (value - (1u64 << power)) >> (power - gp);
        proof {
            let d = pow2(gp as nat);
            let p = power as nat;
            let s = (p - gp) as nat;
            lemma_pow2_unfold(gp as nat + 1);
            lemma_pow2_adds(gp as nat, s);
            assert(gp as nat + s == p);
            lemma_pow2_pos(s);
            let b = bucket_of(gp as nat, value as nat);
            assert(b == (p + 1 - gp) as nat * d + offset);
            assert(b < bucket_total(gp as nat, self.max_value_power as nat));
            assert(log_bin * d + 2 * d == (p + 1 - gp) as nat * d) by (nonlinear_arith)
                requires
                    log_bin + 2 == p + 1 - gp,
            ;
        }
        let divisions: u64 = self.upper_bin_divisions as u64;
        Ok((self.lower_bin_count as u64 + log_bin * divisions + offset) as usize)
    }

    /// Returns the smallest value held by bucket `index`.
    pub fn index_to_lower_bound(&self, index: usize) -> (r: u64)
        requires
            index < self.spec_total_buckets(),
        ensures
            r == self.spec_lower(index as nat),
    {
        proof {
            use_type_invariant(self);
            self.lemma_valid();
        }
        let gp: u64 = self.grouping_power as u64;
        let i: u64 = index as u64;
        proof {
            lemma_index_bounds(gp as nat, self.max_value_power as nat, i as nat);
        }
        let g: u64 = i >> gp;
        let divisions: u64 = 1u64 << gp;
        let h: u64 = i - g * divisions;
        if g < 1 {
            h
        } else {
            proof {
                lemma_u64_shl_is_mul(1, (gp + g - 1) as u64);
                lemma_u64_shl_is_mul(1, (g - 1) as u64);
            }
            (1u64 << (gp + g - 1)) + (1u64 << (g - 1)) * h
        }
    }

    /// Returns the largest value held by bucket `index`.
    pub fn index_to_upper_bound(&self, index: usize) -> (r: u64)
        requires
            index < self.spec_total_buckets(),
        ensures
            r == self.spec_upper(index as nat),
    {
        proof {
            use_type_invariant(self);
            self.lemma_valid();
            lemma_lower_at_total(self.spec_grouping_power(), self.spec_max_value_power());
            lemma_pow2_pos(self.spec_max_value_power());
        }
        if index == self.total_buckets() - 1 {
            return self.max;
        }
        let gp: u64 = self.grouping_power as u64;
        let i: u64 = index as u64;
        proof {
            lemma_index_bounds(gp as nat, self.max_value_power as nat, i as nat);
            lemma_lower_step(gp as nat, i as nat);
            lemma_lower_strictly_increases(gp as nat, i as nat + 1, self.spec_total_buckets());
        }
        let g: u64 = i >> gp;
        let divisions: u64 = 1u64 << gp;
        let h: u64 = i - g * divisions + 1;
        if g < 1 {
            h - 1
        } else {
            proof {
                lemma_u64_shl_is_mul(1, (gp + g - 1) as u64);
                lemma_u64_shl_is_mul(1, (g - 1) as u64);
                lemma_mul_is_distributive_add(pow2((g - 1) as nat) as int, (h - 1) as int, 1);
            }
            (1u64 << (gp + g - 1)) + (1u64 << (g - 1)) * h - 1
        }
    }
}

/// `2^64 - 1` is the largest `u64`.
proof fn lemma2_to64_max()
    ensures
        value_limit(64) == u64::MAX,
{
    lemma2_to64();
}

/// Bounds on the powers of a valid layout.
proof fn lemma_config_powers(gp: nat, mvp: nat)
    requires
        gp < mvp <= 64,
        bucket_total(gp, mvp) <= u32::MAX,
    ensures
        valid_geometry(gp, mvp),
        gp <= 30,
        bucket_total(gp, mvp) >= 2 * pow2(gp),
        pow2(gp + 1) == 2 * pow2(gp),
        pow2(gp + 1) <= value_limit(mvp) + 1,
        pow2(gp) >= 1,
{
    lemma_pow2_unfold(gp + 1);
    lemma_pow2_pos(gp);
    lemma_mul_inequality(2, (mvp + 1 - gp) as int, pow2(gp) as int);
    if gp > 30 {
        lemma_pow2_le(31, gp);
        lemma2_to64();
    }
    lemma_pow2_le(gp + 1, mvp);
}

/// The facts `index_to_lower_bound` and `index_to_upper_bound` need about
/// an in-range index.
proof fn lemma_index_bounds(gp: nat, mvp: nat, i: nat)
    requires
        valid_geometry(gp, mvp),
        i < bucket_total(gp, mvp),
    ensures
        gp <= 30,
        pow2(gp) < u64::MAX,
        1u64 << (gp as u64) == pow2(gp),
        (i as u64) >> (gp as u64) == i / pow2(gp),
        i / pow2(gp) <= mvp - gp,
        (i / pow2(gp)) * pow2(gp) <= i,
        i - (i / pow2(gp)) * pow2(gp) == i % pow2(gp),
        i / pow2(gp) >= 1 ==> pow2((gp + i / pow2(gp) - 1) as nat) < u64::MAX,
        i / pow2(gp) >= 1 ==> pow2((i / pow2(gp) - 1) as nat) < u64::MAX,
        i / pow2(gp) >= 1 ==> pow2((i / pow2(gp) - 1) as nat) * (i % pow2(gp) + 1) <= pow2(
            (gp + i / pow2(gp) - 1) as nat,
        ),
        bucket_lower(gp, i) < pow2(mvp),
{
    lemma_config_powers(gp, mvp);
    lemma_u64_pow2_no_overflow(gp);
    lemma_u64_shl_is_mul(1, gp as u64);
    lemma_u64_shr_is_div(i as u64, gp as u64);
    let d = pow2(gp);
    let g = i / d;
    lemma_fundamental_div_mod(i as int, d as int);
    lemma_mul_is_commutative(d as int, g as int);
    if g > mvp - gp {
        lemma_mul_inequality((mvp + 1 - gp) as int, g as int, d as int);
    }
    if g >= 1 {
        lemma_u64_pow2_no_overflow((gp + g - 1) as nat);
        lemma_u64_pow2_no_overflow((g - 1) as nat);
        lemma_mul_inequality((i % d + 1) as int, d as int, pow2((g - 1) as nat) as int);
        lemma_mul_is_commutative((i % d + 1) as int, pow2((g - 1) as nat) as int);
        lemma_mul_is_commutative(d as int, pow2((g - 1) as nat) as int);
        lemma_pow2_adds((g - 1) as nat, gp);
        assert((g - 1) as nat + gp == (gp + g - 1) as nat);
    }
    lemma_lower_at_total(gp, mvp);
    lemma_lower_strictly_increases(gp, i, bucket_total(gp, mvp));
}

/// `63 - leading_zeros(v)` is `floor(log2(v))` for a nonzero `v`.
proof fn lemma_leading_zeros_log2(v: u64)
    requires
        v > 0,
    ensures
        u64_leading_zeros(v) < 64,
        63 - u64_leading_zeros(v) == floor_log2(v as nat),
    decreases v,
{
    reveal(u64_leading_zeros);
    if v >= 2 {
        lemma_leading_zeros_log2(v / 2);
    } else {
        assert(u64_leading_zeros(0) == 64);
    }
}

} // verus!
