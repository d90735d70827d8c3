//! The dense histogram: one plain counter per bucket.
use vstd::prelude::*;
use crate::boxed::{copy_slice, into_boxed};
use crate::bucket::Bucket;
use crate::config::Config;
use crate::count::{Count, wrapped_sum, wrapped_difference};
use crate::errors::Error;
use crate::geometry::{
    bucket_lower,
    bucket_of,
    lemma_bucket_total_monotone,
    lemma_lower_in_range,
    valid_geometry,
};
use crate::sparse::{
    SparseHistogramOf,
    lemma_sparse_value_prefix_below,
    lemma_sparse_value_take,
    lemma_sparse_value_take_all,
    sparse_parts_valid,
    sparse_value,
};
use vstd::std_specs::vec::into_iter_elts;
use crate::sums::{
    count_sum,
    holds_rank,
    lemma_count_sum_zero,
    rank_position,
    rank_positions,
    sum_counts,
};

verus! {

/// A histogram that uses plain counters for each bucket.
///
/// [`Histogram`] counts with `u64` and [`Histogram32`] with `u32`.
#[derive(Debug, PartialEq, Eq)]
pub struct HistogramOf<C: Count> {
    pub(crate) config: Config,
    pub(crate) buckets: Box<[C]>,
}

/// A histogram with `u64` counters.
pub type Histogram = HistogramOf<u64>;

/// A histogram with `u32` counters.
pub type Histogram32 = HistogramOf<u32>;

/// The counts of `a` and `b` agree bucket by bucket.
pub open spec fn same_values<C: Count>(a: Seq<C>, b: Seq<C>) -> bool {
    &&& a.len() == b.len()
    &&& forall|i: int| 0 <= i < a.len() ==> #[trigger] a[i].spec_value() == b[i].spec_value()
}


/// Every pair of counts at the same position adds up without exceeding the limit.
pub open spec fn sums_fit<C: Count>(a: Seq<C>, b: Seq<C>) -> bool {
    forall|i: int| 0 <= i < a.len() ==> #[trigger] a[i].spec_value() + b[i].spec_value() <= C::spec_max()
}

/// No count of `b` exceeds the count of `a` at the same position.
pub open spec fn differences_fit<C: Count>(a: Seq<C>, b: Seq<C>) -> bool {
    forall|i: int| 0 <= i < a.len() ==> #[trigger] b[i].spec_value() <= a[i].spec_value()
}

/// `r` holds the position-wise sums of `a` and `b`.
pub open spec fn is_sum_of<C: Count>(r: Seq<C>, a: Seq<C>, b: Seq<C>) -> bool {
    &&& r.len() == a.len()
    &&& forall|i: int| 0 <= i < r.len() ==> #[trigger] r[i].spec_value() == a[i].spec_value() + b[i].spec_value()
}

/// `r` holds the position-wise differences of `a` and `b`.
pub open spec fn is_difference_of<C: Count>(r: Seq<C>, a: Seq<C>, b: Seq<C>) -> bool {
    &&& r.len() == a.len()
    &&& forall|i: int| 0 <= i < r.len() ==> #[trigger] r[i].spec_value() == a[i].spec_value() - b[i].spec_value()
}

/// `r` holds the position-wise sums of `a` and `b`, wrapped at the counter limit.
pub open spec fn is_wrapped_sum_of<C: Count>(r: Seq<C>, a: Seq<C>, b: Seq<C>) -> bool {
    &&& r.len() == a.len()
    &&& forall|i: int| 0 <= i < r.len() ==> #[trigger] r[i].spec_value() == wrapped_sum(a[i].spec_value(), b[i].spec_value(), C::spec_max())
}

/// `r` holds the position-wise differences of `a` and `b`, wrapped at zero.
pub open spec fn is_wrapped_difference_of<C: Count>(r: Seq<C>, a: Seq<C>, b: Seq<C>) -> bool {
    &&& r.len() == a.len()
    &&& forall|i: int| 0 <= i < r.len() ==> #[trigger] r[i].spec_value() == wrapped_difference(a[i].spec_value(), b[i].spec_value(), C::spec_max())
}


/// `b` is bucket `i` of a dense histogram with configuration `config` and counts `s`.
pub open spec fn is_dense_bucket<C: Count>(config: Config, s: Seq<C>, i: int, b: Bucket) -> bool {
    b.describes(s[i].spec_value(), config.spec_lower(i as nat), config.spec_upper(i as nat))
}

/// Bucket `i` is the first bucket with a nonzero count.
pub open spec fn first_nonzero<C: Count>(s: Seq<C>, i: int) -> bool {
    &&& 0 <= i < s.len()
    &&& s[i].spec_value() != 0
    &&& forall|j: int| 0 <= j < i ==> #[trigger] s[j].spec_value() == 0
}

/// Bucket `i` is the last bucket with a nonzero count.
pub open spec fn last_nonzero<C: Count>(s: Seq<C>, i: int) -> bool {
    &&& 0 <= i < s.len()
    &&& s[i].spec_value() != 0
    &&& forall|j: int| i < j < s.len() ==> #[trigger] s[j].spec_value() == 0
}

/// The total, modulo `modulus`, of the counts `s[i]` for `i < n` that move
/// to bucket `j` under `target`.
pub open spec fn grouped_sum<C: Count>(s: Seq<C>, target: spec_fn(int) -> nat, j: nat, n: int) -> nat
    decreases n,
{
    if n <= 0 {
        0
    } else {
        grouped_sum(s, target, j, n - 1) + if target(n - 1) == j {
            s[n - 1].spec_value()
        } else {
            0
        }
    }
}

/// The bucket that bucket `i` of grouping power `from` falls into at grouping power `to`.
pub open spec fn downsample_target(from: nat, to: nat) -> spec_fn(int) -> nat {
    |i: int| bucket_of(to, bucket_lower(from, i as nat))
}

/// Wrapping addition of `b` onto a sum kept modulo `m + 1` keeps it modulo `m + 1`.
pub proof fn lemma_wrapped_mod_step(a: nat, b: nat, m: nat)
    requires
        b <= m,
    ensures
        wrapped_sum(a % (m + 1), b, m) == (a + b) % (m + 1),
{
    let d = (m + 1) as int;
    let q = a as int / d;
    let r = a as int % d;
    vstd::arithmetic::div_mod::lemma_fundamental_div_mod(a as int, d);
    assert(a == q * d + r) by (nonlinear_arith)
        requires
            a == d * q + r,
    ;
    if r + b > m {
        assert(a + b == (q + 1) * d + (r + b - d)) by (nonlinear_arith)
            requires
                a == q * d + r,
        ;
        vstd::arithmetic::div_mod::lemma_fundamental_div_mod_converse(
            (a + b) as int,
            d,
            q + 1,
            r + b - d,
        );
    } else {
        vstd::arithmetic::div_mod::lemma_fundamental_div_mod_converse(
            (a + b) as int,
            d,
            q,
            r + b,
        );
    }
}

impl<C: Count> HistogramOf<C> {
    /// There is one counter per bucket of the configuration.
    pub open spec fn wf(self) -> bool {
        self.spec_counts().len() == self.spec_config().spec_total_buckets()
    }

    /// The bucket configuration.
    pub closed spec fn spec_config(self) -> Config {
        self.config
    }

    /// The bucket counters, in bucket order.
    pub closed spec fn spec_counts(self) -> Seq<C> {
        self.buckets@
    }

    /// Construct a new histogram from the provided parameters.
    ///
    /// Fails exactly as [`Config::new`] does; the new histogram is empty.
    pub fn new(grouping_power: u8, max_value_power: u8) -> (r: Result<Self, Error>)
        ensures
            max_value_power > 64 ==> r == Err::<Self, Error>(Error::MaxPowerTooHigh),
            max_value_power <= 64 && grouping_power >= max_value_power ==> r == Err::<
                Self,
                Error,
            >(Error::MaxPowerTooLow),
            max_value_power <= 64 && grouping_power < max_value_power && !valid_geometry(
                grouping_power as nat,
                max_value_power as nat,
            ) ==> r == Err::<Self, Error>(Error::Overflow),
            valid_geometry(grouping_power as nat, max_value_power as nat) ==> (r matches Ok(h)
                && h.spec_config().spec_grouping_power() == grouping_power
                && h.spec_config().spec_max_value_power() == max_value_power
                && h.wf() && h.spec_counts().len() == h.spec_config().spec_total_buckets() && forall|
                i: int,
            | 0 <= i < h.spec_counts().len() ==> #[trigger] h.spec_counts()[i].spec_value() == 0),
    {
        match Config::new(grouping_power, max_value_power) {
            Ok(config) => Ok(Self::with_config(&config)),
            Err(e) => Err(e),
        }
    }

    /// Creates a new, empty histogram using a provided [`Config`].
    pub fn with_config(config: &Config) -> (r: Self)
        ensures
            r.wf(),
            r.spec_config() == *config,
            r.spec_counts().len() == config.spec_total_buckets(),
            forall|i: int|
                0 <= i < r.spec_counts().len() ==> #[trigger] r.spec_counts()[i].spec_value() == 0,
    {
        proof {
            C::lemma_count_facts();
        }
        let n = config.total_buckets();
        let mut buckets: Vec<C> = Vec::with_capacity(n);
        let mut i: usize = 0;
        while i < n
            invariant
                i <= n,
                buckets@.len() == i,
                forall|j: int| 0 <= j < i ==> #[trigger] buckets@[j].spec_value() == 0,
            decreases n - i,
        {
            proof {
                C::lemma_count_facts();
            }
            buckets.push(C::ZERO);
            i = i + 1;
        }
        HistogramOf { config: *config, buckets: into_boxed(buckets) }
    }

    /// Creates a new histogram from its parameters and a vector of bucket counts.
    ///
    /// Fails as [`Config::new`] does, and with `IncompatibleParameters` when
    /// the vector's length is not the configuration's number of buckets.
    pub fn from_buckets(grouping_power: u8, max_value_power: u8, buckets: Vec<C>) -> (r: Result<
        Self,
        Error,
    >)
        ensures
            max_value_power > 64 ==> r == Err::<Self, Error>(Error::MaxPowerTooHigh),
            max_value_power <= 64 && grouping_power >= max_value_power ==> r == Err::<
                Self,
                Error,
            >(Error::MaxPowerTooLow),
            max_value_power <= 64 && grouping_power < max_value_power && !valid_geometry(
                grouping_power as nat,
                max_value_power as nat,
            ) ==> r == Err::<Self, Error>(Error::Overflow),
            valid_geometry(grouping_power as nat, max_value_power as nat) && buckets@.len()
                != crate::geometry::bucket_total(grouping_power as nat, max_value_power as nat)
                ==> r == Err::<Self, Error>(Error::IncompatibleParameters),
            valid_geometry(grouping_power as nat, max_value_power as nat) && buckets@.len()
                == crate::geometry::bucket_total(grouping_power as nat, max_value_power as nat)
                ==> (r matches Ok(h) && h.wf() && h.spec_config().spec_grouping_power()
                == grouping_power && h.spec_config().spec_max_value_power() == max_value_power
                && h.spec_counts() == buckets@),
    {
        let config = match Config::new(grouping_power, max_value_power) {
            Ok(config) => config,
            Err(e) => {
                return Err(e);
            },
        };
        if config.total_buckets() != buckets.len() {
            return Err(Error::IncompatibleParameters);
        }
        Ok(HistogramOf { config, buckets: into_boxed(buckets) })
    }

    /// Increment the counter for the bucket corresponding to `value` by one.
    /// Uses wrapping arithmetic on overflow.
    pub fn increment(&mut self, value: u64) -> (r: Result<(), Error>)
        requires
            old(self).wf(),
        ensures
            final(self).wf(),
            final(self).spec_config() == old(self).spec_config(),
            value > old(self).spec_config().spec_max() ==> r == Err::<(), Error>(
                Error::OutOfRange,
            ) && final(self).spec_counts() == old(self).spec_counts(),
            value <= old(self).spec_config().spec_max() ==> ({
                let i = old(self).spec_config().spec_index_of(value as nat) as int;
                &&& r is Ok
                &&& 0 <= i < old(self).spec_counts().len()
                &&& final(self).spec_counts() == old(self).spec_counts().update(
                    i,
                    final(self).spec_counts()[i],
                )
                &&& final(self).spec_counts()[i].spec_value() == wrapped_sum(
                    old(self).spec_counts()[i].spec_value(),
                    1,
                    C::spec_max(),
                )
            }),
    {
        proof {
            C::lemma_count_facts();
        }
        self.add(value, C::ONE)
    }

    /// Add `count` to the bucket containing `value`. Uses wrapping arithmetic
    /// on overflow. Fails with `OutOfRange`, changing nothing, when `value` is
    /// larger than the configuration's largest value.
    pub fn add(&mut self, value: u64, count: C) -> (r: Result<(), Error>)
        requires
            old(self).wf(),
        ensures
            final(self).wf(),
            final(self).spec_config() == old(self).spec_config(),
            value > old(self).spec_config().spec_max() ==> r == Err::<(), Error>(
                Error::OutOfRange,
            ) && final(self).spec_counts() == old(self).spec_counts(),
            value <= old(self).spec_config().spec_max() ==> ({
                let i = old(self).spec_config().spec_index_of(value as nat) as int;
                &&& r is Ok
                &&& 0 <= i < old(self).spec_counts().len()
                &&& final(self).spec_counts() == old(self).spec_counts().update(
                    i,
                    final(self).spec_counts()[i],
                )
                &&& final(self).spec_counts()[i].spec_value() == wrapped_sum(
                    old(self).spec_counts()[i].spec_value(),
                    count.spec_value(),
                    C::spec_max(),
                )
            }),
    {
        let index = match self.config.value_to_index(value) {
            Ok(index) => index,
            Err(e) => {
                return Err(e);
            },
        };
        let updated = self.buckets[index].wrapping_add(count);
        self.buckets[index] = updated;
        assert(self.buckets@ == old(self).buckets@.update(index as int, updated));
        Ok(())
    }

    /// Get a reference to the raw counters.
    pub fn as_slice(&self) -> (r: &[C])
        ensures
            r@ == self.spec_counts(),
    {
        &self.buckets
    }

    /// Get a mutable reference to the raw counters.
    pub fn as_mut_slice(&mut self) -> (r: &mut [C])
        ensures
            r@ == old(self).spec_counts(),
            final(self).spec_config() == old(self).spec_config(),
            final(self).spec_counts() == final(r)@,
            old(self).wf() ==> (final(self).wf() <==> final(r)@.len() == r@.len()),
    {
        &mut self.buckets
    }

    /// Adds the other histogram to this histogram and returns the result as a
    /// new histogram.
    ///
    /// Fails with `IncompatibleParameters` if the configurations differ and
    /// with `Overflow` if any bucket's sum exceeds the counter's limit.
    pub fn checked_add(&self, other: &Self) -> (r: Result<Self, Error>)
        requires
            self.wf(),
            other.wf(),
        ensures
            self.spec_config() != other.spec_config() ==> r == Err::<Self, Error>(
                Error::IncompatibleParameters,
            ),
            self.spec_config() == other.spec_config() ==> (r is Ok <==> sums_fit(
                self.spec_counts(),
                other.spec_counts(),
            )),
            self.spec_config() == other.spec_config() && r is Err ==> r == Err::<Self, Error>(
                Error::Overflow,
            ),
            r matches Ok(h) ==> h.wf() && h.spec_config() == self.spec_config() && is_sum_of(
                h.spec_counts(),
                self.spec_counts(),
                other.spec_counts(),
            ),
    {
        if self.config != other.config {
            return Err(Error::IncompatibleParameters);
        }
        let n = self.buckets.len();
        let mut out: Vec<C> = Vec::with_capacity(n);
        let mut i: usize = 0;
        while i < n
            invariant
                self.config == other.config,
                n == self.buckets@.len(),
                n == other.buckets@.len(),
                i <= n,
                out@.len() == i,
                forall|j: int| 0 <= j < i ==> #[trigger] out@[j].spec_value() == self.buckets@[j].spec_value() + other.buckets@[j].spec_value(),
                forall|j: int| 0 <= j < i ==> #[trigger] self.buckets@[j].spec_value() + other.buckets@[j].spec_value() <= C::spec_max(),
            decreases n - i,
        {
            match self.buckets[i].checked_add(other.buckets[i]) {
                Some(v) => out.push(v),
                None => {
                    return Err(Error::Overflow);
                },
            }
            i = i + 1;
        }
        Ok(HistogramOf { config: self.config, buckets: into_boxed(out) })
    }

    /// Adds the other histogram to this histogram and returns the result as a
    /// new histogram, wrapping each bucket at the counter's limit.
    ///
    /// Fails with `IncompatibleParameters` if the configurations differ.
    pub fn wrapping_add(&self, other: &Self) -> (r: Result<Self, Error>)
        requires
            self.wf(),
            other.wf(),
        ensures
            self.spec_config() != other.spec_config() ==> r == Err::<Self, Error>(
                Error::IncompatibleParameters,
            ),
            self.spec_config() == other.spec_config() ==> r is Ok,
            r matches Ok(h) ==> h.wf() && h.spec_config() == self.spec_config()
                && is_wrapped_sum_of(h.spec_counts(), self.spec_counts(), other.spec_counts()),
    {
        if self.config != other.config {
            return Err(Error::IncompatibleParameters);
        }
        let n = self.buckets.len();
        let mut out: Vec<C> = Vec::with_capacity(n);
        let mut i: usize = 0;
        while i < n
            invariant
                self.config == other.config,
                n == self.buckets@.len(),
                n == other.buckets@.len(),
                i <= n,
                out@.len() == i,
                forall|j: int| 0 <= j < i ==> #[trigger] out@[j].spec_value() == wrapped_sum(self.buckets@[j].spec_value(), other.buckets@[j].spec_value(), C::spec_max()),
            decreases n - i,
        {
            out.push(self.buckets[i].wrapping_add(other.buckets[i]));
            i = i + 1;
        }
        Ok(HistogramOf { config: self.config, buckets: into_boxed(out) })
    }

    /// Subtracts the other histogram from this histogram and returns the
    /// result as a new histogram.
    ///
    /// Fails with `IncompatibleParameters` if the configurations differ and
    /// with `Underflow` if any bucket of `other` exceeds the same bucket here.
    pub fn checked_sub(&self, other: &Self) -> (r: Result<Self, Error>)
        requires
            self.wf(),
            other.wf(),
        ensures
            self.spec_config() != other.spec_config() ==> r == Err::<Self, Error>(
                Error::IncompatibleParameters,
            ),
            self.spec_config() == other.spec_config() ==> (r is Ok <==> differences_fit(
                self.spec_counts(),
                other.spec_counts(),
            )),
            self.spec_config() == other.spec_config() && r is Err ==> r == Err::<Self, Error>(
                Error::Underflow,
            ),
            r matches Ok(h) ==> h.wf() && h.spec_config() == self.spec_config()
                && is_difference_of(h.spec_counts(), self.spec_counts(), other.spec_counts()),
    {
        if self.config != other.config {
            return Err(Error::IncompatibleParameters);
        }
        let n = self.buckets.len();
        let mut out: Vec<C> = Vec::with_capacity(n);
        let mut i: usize = 0;
        while i < n
            invariant
                self.config == other.config,
                n == self.buckets@.len(),
                n == other.buckets@.len(),
                i <= n,
                out@.len() == i,
                forall|j: int| 0 <= j < i ==> #[trigger] out@[j].spec_value() == self.buckets@[j].spec_value() - other.buckets@[j].spec_value(),
                forall|j: int| 0 <= j < i ==> #[trigger] other.buckets@[j].spec_value() <= self.buckets@[j].spec_value(),
            decreases n - i,
        {
            match self.buckets[i].checked_sub(other.buckets[i]) {
                Some(v) => out.push(v),
                None => {
                    return Err(Error::Underflow);
                },
            }
            i = i + 1;
        }
        Ok(HistogramOf { config: self.config, buckets: into_boxed(out) })
    }

    /// Subtracts the other histogram from this histogram and returns the
    /// result as a new histogram, wrapping each bucket at zero.
    ///
    /// Fails with `IncompatibleParameters` if the configurations differ.
    pub fn wrapping_sub(&self, other: &Self) -> (r: Result<Self, Error>)
        requires
            self.wf(),
            other.wf(),
        ensures
            self.spec_config() != other.spec_config() ==> r == Err::<Self, Error>(
                Error::IncompatibleParameters,
            ),
            self.spec_config() == other.spec_config() ==> r is Ok,
            r matches Ok(h) ==> h.wf() && h.spec_config() == self.spec_config()
                && is_wrapped_difference_of(h.spec_counts(), self.spec_counts(), other.spec_counts()),
    {
        if self.config != other.config {
            return Err(Error::IncompatibleParameters);
        }
        let n = self.buckets.len();
        let mut out: Vec<C> = Vec::with_capacity(n);
        let mut i: usize = 0;
        while i < n
            invariant
                self.config == other.config,
                n == self.buckets@.len(),
                n == other.buckets@.len(),
                i <= n,
                out@.len() == i,
                forall|j: int| 0 <= j < i ==> #[trigger] out@[j].spec_value() == wrapped_difference(self.buckets@[j].spec_value(), other.buckets@[j].spec_value(), C::spec_max()),
            decreases n - i,
        {
            out.push(self.buckets[i].wrapping_sub(other.buckets[i]));
            i = i + 1;
        }
        Ok(HistogramOf { config: self.config, buckets: into_boxed(out) })
    }

    /// Bucket `index`: its value range and its count.
    pub(crate) fn bucket_at(&self, index: usize) -> (r: Bucket)
        requires
            index < self.spec_counts().len(),
            index < self.spec_config().spec_total_buckets(),
        ensures
            is_dense_bucket(self.spec_config(), self.spec_counts(), index as int, r),
    {
        proof {
            C::lemma_count_facts();
            assert(self.buckets@[index as int].spec_value() <= C::spec_max());
        }
        let count = self.buckets[index].as_u128() as u64;
        Bucket::new(
            count,
            self.config.index_to_lower_bound(index),
            self.config.index_to_upper_bound(index),
        )
    }

    /// Returns the total number of observations, widened to `u128`.
    pub fn total_count(&self) -> (r: u128)
        requires
            self.wf(),
        ensures
            r == count_sum(self.spec_counts()),
    {
        proof {
            use_type_invariant(&self.config);
            self.config.lemma_total_bounds();
        }
        sum_counts(&self.buckets)
    }

    /// Returns the first bucket with a nonzero count (the minimum), or `None`
    /// when the histogram is empty.
    pub fn min_bucket(&self) -> (r: Option<Bucket>)
        requires
            self.wf(),
        ensures
            r is None <==> count_sum(self.spec_counts()) == 0,
            r matches Some(b) ==> exists|i: int|
                first_nonzero(self.spec_counts(), i) && is_dense_bucket(
                    self.spec_config(),
                    self.spec_counts(),
                    i,
                    b,
                ),
    {
        proof {
            lemma_count_sum_zero(self.buckets@);
        }
        let n = self.buckets.len();
        let mut i: usize = 0;
        while i < n
            invariant
                self.wf(),
                n == self.buckets@.len(),
                i <= n,
                forall|j: int| 0 <= j < i ==> #[trigger] self.buckets@[j].spec_value() == 0,
            decreases n - i,
        {
            if self.buckets[i].as_u128() != 0 {
                let b = self.bucket_at(i);
                assert(first_nonzero(self.buckets@, i as int));
                proof {
                    lemma_count_sum_zero(self.buckets@);
                }
                return Some(b);
            }
            i = i + 1;
        }
        None
    }

    /// Returns the last bucket with a nonzero count (the maximum), or `None`
    /// when the histogram is empty.
    pub fn max_bucket(&self) -> (r: Option<Bucket>)
        requires
            self.wf(),
        ensures
            r is None <==> count_sum(self.spec_counts()) == 0,
            r matches Some(b) ==> exists|i: int|
                last_nonzero(self.spec_counts(), i) && is_dense_bucket(
                    self.spec_config(),
                    self.spec_counts(),
                    i,
                    b,
                ),
    {
        proof {
            lemma_count_sum_zero(self.buckets@);
        }
        let n = self.buckets.len();
        let mut i: usize = n;
        while i > 0
            invariant
                self.wf(),
                n == self.buckets@.len(),
                i <= n,
                forall|j: int| i <= j < n ==> #[trigger] self.buckets@[j].spec_value() == 0,
            decreases i,
        {
            if self.buckets[i - 1].as_u128() != 0 {
                let b = self.bucket_at(i - 1);
                assert(last_nonzero(self.buckets@, i - 1));
                proof {
                    lemma_count_sum_zero(self.buckets@);
                }
                return Some(b);
            }
            i = i - 1;
        }
        None
    }

    /// For each requested rank `k` (counting observations from one), the
    /// bucket that holds the `k`-th smallest observation, or `None` when the
    /// histogram holds fewer than `k` observations.
    ///
    /// Ranks may come in any order; sorted ranks are answered in one pass.
    pub fn rank_buckets(&self, ranks: &[u128]) -> (r: Vec<Option<Bucket>>)
        requires
            self.wf(),
        ensures
            r@.len() == ranks@.len(),
            forall|k: int|
                0 <= k < ranks@.len() ==> (ranks@[k] <= count_sum(self.spec_counts()) <==> #[trigger] r@[k] is Some),
            forall|k: int|
                0 <= k < ranks@.len() && ranks@[k] <= count_sum(self.spec_counts()) ==> (#[trigger] r@[k] matches Some(b)
                    && is_dense_bucket(
                    self.spec_config(),
                    self.spec_counts(),
                    rank_position(self.spec_counts(), ranks@[k] as nat),
                    b,
                )),
    {
        proof {
            use_type_invariant(&self.config);
            self.config.lemma_total_bounds();
        }
        let positions = rank_positions(&self.buckets, ranks);
        let mut out: Vec<Option<Bucket>> = Vec::with_capacity(ranks.len());
        let mut k: usize = 0;
        while k < ranks.len()
            invariant
                self.wf(),
                positions@.len() == ranks@.len(),
                self.buckets@.len() > 0,
                forall|m: int|
                    0 <= m < ranks@.len() ==> (ranks@[m] <= count_sum(self.buckets@) <==> #[trigger] positions@[m] is Some),
                forall|m: int|
                    0 <= m < ranks@.len() && #[trigger] positions@[m] is Some ==> positions@[m]->0 == rank_position(
                        self.buckets@,
                        ranks@[m] as nat,
                    ) && holds_rank(self.buckets@, positions@[m]->0 as int, ranks@[m] as nat),
                k <= ranks@.len(),
                out@.len() == k,
                forall|m: int|
                    0 <= m < k ==> (ranks@[m] <= count_sum(self.buckets@) <==> #[trigger] out@[m] is Some),
                forall|m: int|
                    0 <= m < k && ranks@[m] <= count_sum(self.buckets@) ==> (#[trigger] out@[m] matches Some(b)
                        && is_dense_bucket(self.config, self.buckets@, rank_position(self.buckets@, ranks@[m] as nat), b)),
            decreases ranks@.len() - k,
        {
            let ghost before = out@;
            match positions[k] {
                Some(i) => {
                    out.push(Some(self.bucket_at(i)));
                },
                None => {
                    out.push(None);
                },
            }
            proof {
                assert forall|m: int| 0 <= m < k implies #[trigger] out@[m] == before[m] by {}
            }
            k = k + 1;
        }
        out
    }

    /// Every bucket of the histogram, in order, with its range and count.
    pub fn buckets(&self) -> (r: Vec<Bucket>)
        ensures
            self.wf() ==> r@.len() == self.spec_counts().len(),
            forall|i: int|
                0 <= i < r@.len() ==> is_dense_bucket(
                    self.spec_config(),
                    self.spec_counts(),
                    i,
                    #[trigger] r@[i],
                ),
    {
        proof {
            use_type_invariant(&self.config);
            self.config.lemma_total_bounds();
        }
        let total = self.config.total_buckets();
        let n = if self.buckets.len() < total {
            self.buckets.len()
        } else {
            total
        };
        let mut out: Vec<Bucket> = Vec::with_capacity(n);
        let mut i: usize = 0;
        while i < n
            invariant
                n <= self.buckets@.len(),
                n <= self.config.spec_total_buckets(),
                self.wf() ==> n == self.buckets@.len(),
                i <= n,
                out@.len() == i,
                forall|j: int|
                    0 <= j < i ==> is_dense_bucket(self.config, self.buckets@, j, #[trigger] out@[j]),
            decreases n - i,
        {
            out.push(self.bucket_at(i));
            i = i + 1;
        }
        out
    }

    /// Returns an iterator across the histogram's buckets, in order.
    pub fn iter(&self) -> (r: std::vec::IntoIter<Bucket>)
        ensures
            self.wf() ==> into_iter_elts(r).len() == self.spec_counts().len(),
            forall|i: int|
                0 <= i < into_iter_elts(r).len() ==> is_dense_bucket(
                    self.spec_config(),
                    self.spec_counts(),
                    i,
                    #[trigger] into_iter_elts(r)[i],
                ),
    {
        let v = self.buckets();
        proof {
            broadcast use vstd::std_specs::vec::axiom_spec_into_iter;
        }
        v.into_iter()
    }

    /// Returns a new histogram with a reduced grouping power.
    ///
    /// Fails with `IncompatibleParameters` unless `grouping_power` is less
    /// than the current grouping power. Every bucket's count moves into the
    /// bucket of the new layout that holds the old bucket's lower bound;
    /// counts meeting in one bucket add up, wrapping at the counter's limit.
    pub fn downsample(&self, grouping_power: u8) -> (r: Result<Self, Error>)
        requires
            self.wf(),
        ensures
            grouping_power >= self.spec_config().spec_grouping_power() ==> r == Err::<
                Self,
                Error,
            >(Error::IncompatibleParameters),
            grouping_power < self.spec_config().spec_grouping_power() ==> (r matches Ok(h)
                && h.wf() && h.spec_config().spec_grouping_power() == grouping_power
                && h.spec_config().spec_max_value_power()
                == self.spec_config().spec_max_value_power() && forall|j: int|
                0 <= j < h.spec_counts().len() ==> #[trigger] h.spec_counts()[j].spec_value()
                == grouped_sum(
                self.spec_counts(),
                downsample_target(self.spec_config().spec_grouping_power(), grouping_power as nat),
                j as nat,
                self.spec_counts().len() as int,
            ) % (C::spec_max() + 1)),
    {
        let old_gp = self.config.grouping_power();
        if grouping_power >= old_gp {
            return Err(Error::IncompatibleParameters);
        }
        let mvp = self.config.max_value_power();
        let ghost s = self.buckets@;
        let ghost target = downsample_target(old_gp as nat, grouping_power as nat);
        proof {
            use_type_invariant(&self.config);
            self.config.lemma_total_bounds();
            lemma_bucket_total_monotone(grouping_power as nat, old_gp as nat, mvp as nat);
            C::lemma_count_facts();
        }
        let mut histogram = match Self::new(grouping_power, mvp) {
            Ok(h) => h,
            Err(e) => {
                return Err(e);
            },
        };
        let n = self.buckets.len();
        let mut i: usize = 0;
        while i < n
            invariant
                self.wf(),
                histogram.wf(),
                s == self.buckets@,
                n == s.len(),
                n == self.config.spec_total_buckets(),
                old_gp == self.config.spec_grouping_power(),
                mvp == self.config.spec_max_value_power(),
                old_gp < mvp,
                grouping_power < old_gp,
                histogram.config.spec_grouping_power() == grouping_power,
                histogram.config.spec_max_value_power() == mvp,
                target == downsample_target(old_gp as nat, grouping_power as nat),
                i <= n,
                forall|j: int|
                    0 <= j < histogram.buckets@.len() ==> #[trigger] histogram.buckets@[j].spec_value()
                        == grouped_sum(s, target, j as nat, i as int) % (C::spec_max() + 1),
            decreases n - i,
        {
            let count = self.buckets[i];
            proof {
                C::lemma_count_facts();
                lemma_lower_in_range(old_gp as nat, mvp as nat, i as nat);
            }
            if count.as_u128() != 0 {
                let value = self.config.index_to_lower_bound(i);
                let ghost before = histogram.buckets@;
                let added = histogram.add(value, count);
                proof {
                    assert(added is Ok);
                    let t = target(i as int);
                    assert(t == histogram.config.spec_index_of(value as nat));
                    assert forall|j: int| 0 <= j < histogram.buckets@.len() implies #[trigger] histogram.buckets@[j].spec_value()
                        == grouped_sum(s, target, j as nat, i + 1) % (C::spec_max() + 1) by {
                        if j == t {
                            lemma_wrapped_mod_step(grouped_sum(s, target, j as nat, i as int), count.spec_value(), C::spec_max());
                        } else {
                            assert(histogram.buckets@[j] == before[j]);
                        }
                    }
                }
            } else {
                proof {
                    assert forall|j: int| 0 <= j < histogram.buckets@.len() implies #[trigger] histogram.buckets@[j].spec_value()
                        == grouped_sum(s, target, j as nat, i + 1) % (C::spec_max() + 1) by {
                    }
                }
            }
            i = i + 1;
        }
        Ok(histogram)
    }

    /// A vector holding the same counters as `s`.
    /// A histogram with the given configuration and counters.
    pub(crate) fn from_counts(config: Config, counts: Vec<C>) -> (r: Self)
        ensures
            r.spec_config() == config,
            r.spec_counts() == counts@,
    {
        HistogramOf { config, buckets: into_boxed(counts) }
    }

    /// Returns the bucket configuration of the histogram.
    pub fn config(&self) -> (r: Config)
        ensures
            r == self.spec_config(),
    {
        self.config
    }
}

impl<C: Count> Clone for HistogramOf<C> {
    /// A histogram with the same configuration and counters.
    fn clone(&self) -> (r: Self)
        ensures
            r.spec_config() == self.spec_config(),
            r.spec_counts() == self.spec_counts(),
            self.wf() ==> r.wf(),
    {
        let counts = copy_slice(&self.buckets);
        HistogramOf { config: self.config, buckets: into_boxed(counts) }
    }
}

impl<C: Count> From<&SparseHistogramOf<C>> for HistogramOf<C> {
    /// The dense histogram holding each stored bucket's count and zero elsewhere.
    fn from(other: &SparseHistogramOf<C>) -> (r: Self)
        ensures
            r.wf(),
            r.spec_config() == other.spec_config(),
            forall|b: int| 0 <= b < r.spec_counts().len() ==> #[trigger] r.spec_counts()[b].spec_value() == other.spec_value_of(b),
    {
        proof {
            use_type_invariant(other);
            C::lemma_count_facts();
        }
        let config = other.config();
        let index = other.index();
        let count = other.count();
        let ghost (si, sc) = (index@, count@);
        let n = config.total_buckets();
        let mut v: Vec<C> = Vec::with_capacity(n);
        let mut i: usize = 0;
        while i < n
            invariant
                i <= n,
                v@.len() == i,
                forall|j: int| 0 <= j < i ==> #[trigger] v@[j].spec_value() == 0,
            decreases n - i,
        {
            proof {
                C::lemma_count_facts();
            }
            v.push(C::ZERO);
            i = i + 1;
        }
        let mut k: usize = 0;
        while k < index.len()
            invariant
                sparse_parts_valid(config, si, sc),
                si == index@, sc == count@,
                n == config.spec_total_buckets(),
                v@.len() == n,
                k <= si.len(),
                forall|b: int| 0 <= b < n ==> #[trigger] v@[b].spec_value() == sparse_value(si.take(k as int), sc.take(k as int), b),
            decreases si.len() - k,
        {
            let ghost v0 = v@;
            let b = index[k] as usize;
            v.set(b, count[k]);
            proof {
                assert forall|b2: int| 0 <= b2 < n implies #[trigger] v@[b2].spec_value() == sparse_value(si.take(k + 1), sc.take(k + 1), b2) by {
                    lemma_sparse_value_take(si, sc, k as int, b2);
                    if b2 == b {
                        lemma_sparse_value_prefix_below(config, si, sc, k as int, b2);
                    } else {
                        assert(v@[b2] == v0[b2]);
                    }
                }
            }
            k = k + 1;
        }
        proof {
            assert forall|b: int| 0 <= b < n implies #[trigger] v@[b].spec_value() == sparse_value(si, sc, b) by {
                lemma_sparse_value_take_all(si, sc, b);
            }
        }
        HistogramOf { config, buckets: into_boxed(v) }
    }
}

/// What `from` returns is stated by its own `ensures`.
impl<C: Count> vstd::std_specs::convert::FromSpecImpl<&SparseHistogramOf<C>> for HistogramOf<C> {
    open spec fn obeys_from_spec() -> bool {
        false
    }

    open spec fn from_spec(v: &SparseHistogramOf<C>) -> Self {
        arbitrary()
    }
}

impl<'a, C: Count> IntoIterator for &'a HistogramOf<C> {
    type Item = Bucket;

    type IntoIter = std::vec::IntoIter<Bucket>;

    /// Every bucket of the histogram, in order.
    fn into_iter(self) -> (r: std::vec::IntoIter<Bucket>)
        ensures
            self.wf() ==> into_iter_elts(r).len() == self.spec_counts().len(),
            forall|i: int|
                0 <= i < into_iter_elts(r).len() ==> is_dense_bucket(
                    self.spec_config(),
                    self.spec_counts(),
                    i,
                    #[trigger] into_iter_elts(r)[i],
                ),
    {
        self.iter()
    }
}

} // verus!
