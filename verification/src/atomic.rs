//! The atomic histogram: counters that many threads may update at once.
use vstd::prelude::*;
use crate::boxed::into_boxed;
use crate::config::Config;
use crate::count::{AtomicCount, Count};
use crate::errors::Error;
use crate::geometry::valid_geometry;
use crate::standard::{Histogram, HistogramOf};

verus! {

/// A histogram whose counters are atomics, so that it can be updated through
/// a shared reference from many threads at once.
///
/// [`AtomicHistogram`] counts with `u64` and [`AtomicHistogram32`] with
/// `u32`. What the counters hold at any moment depends on the other threads,
/// so the operations here promise the shape of what they return and the
/// errors they report, not the counts they observe.
pub struct AtomicHistogramOf<C: Count> {
    config: Config,
    buckets: Box<[C::Atomic]>,
}

/// An atomic histogram with `u64` counters.
pub type AtomicHistogram = AtomicHistogramOf<u64>;

/// An atomic histogram with `u32` counters.
pub type AtomicHistogram32 = AtomicHistogramOf<u32>;

impl<C: Count> AtomicHistogramOf<C> {
    /// There is one counter per bucket of the configuration.
    #[verifier::type_invariant]
    pub open spec fn wf(self) -> bool {
        self.spec_len() == self.spec_config().spec_total_buckets()
    }

    /// The bucket configuration.
    pub closed spec fn spec_config(self) -> Config {
        self.config
    }

    /// The number of counters.
    pub closed spec fn spec_len(self) -> nat {
        self.buckets@.len()
    }

    /// Construct a new atomic histogram from the provided parameters.
    ///
    /// Fails exactly as [`Config::new`] does.
    pub fn new(grouping_power: u8, max_value_power: u8) -> (r: Result<Self, Error>)
        ensures
            max_value_power > 64 ==> r == Err::<Self, Error>(Error::MaxPowerTooHigh),
            max_value_power <= 64 && grouping_power >= max_value_power ==> r == Err::<
                Self,
                Error,
            >(Error::MaxPowerTooLow),
            max_value_power <= 64 && grouping_power < max_value_power && !valid_geometry(
                grouping_power as nat,
                max_value_power as nat,
            ) ==> r == Err::<Self, Error>(Error::Overflow),
            valid_geometry(grouping_power as nat, max_value_power as nat) ==> (r matches Ok(h)
                && h.spec_config().spec_grouping_power() == grouping_power
                && h.spec_config().spec_max_value_power() == max_value_power),
    {
        match Config::new(grouping_power, max_value_power) {
            Ok(config) => Ok(Self::with_config(&config)),
            Err(e) => Err(e),
        }
    }

    /// Creates a new atomic histogram, all counters zero, using a provided
    /// [`Config`].
    pub fn with_config(config: &Config) -> (r: Self)
        ensures
            r.spec_config() == *config,
    {
        proof {
            C::lemma_count_facts();
        }
        let n = config.total_buckets();
        let mut buckets: Vec<C::Atomic> = Vec::with_capacity(n);
        let mut i: usize = 0;
        while i < n
            invariant
                i <= n,
                buckets@.len() == i,
            decreases n - i,
        {
            buckets.push(<C::Atomic as AtomicCount>::new(C::ZERO));
            i = i + 1;
        }
        AtomicHistogramOf { config: *config, buckets: into_boxed(buckets) }
    }

    /// Increment the counter of the bucket that holds `value` by one.
    ///
    /// Fails with `OutOfRange` if `value` is larger than the configuration
    /// can store.
    pub fn increment(&self, value: u64) -> (r: Result<(), Error>)
        ensures
            value > self.spec_config().spec_max() ==> r == Err::<(), Error>(Error::OutOfRange),
            value <= self.spec_config().spec_max() ==> r is Ok,
    {
        self.add(value, C::ONE)
    }

    /// Add `count` to the counter of the bucket that holds `value`, wrapping
    /// around at the counter's limit.
    ///
    /// Fails with `OutOfRange` if `value` is larger than the configuration
    /// can store.
    pub fn add(&self, value: u64, count: C) -> (r: Result<(), Error>)
        ensures
            value > self.spec_config().spec_max() ==> r == Err::<(), Error>(Error::OutOfRange),
            value <= self.spec_config().spec_max() ==> r is Ok,
    {
        proof {
            use_type_invariant(self);
        }
        let index = match self.config.value_to_index(value) {
            Ok(index) => index,
            Err(e) => {
                return Err(e);
            },
        };
        self.buckets[index].fetch_add_relaxed(count);
        Ok(())
    }

    /// Adds `count` to counter `index`, wrapping around at the counter's limit.
    pub(crate) fn add_at(&self, index: usize, count: C)
        requires
            index < self.spec_len(),
    {
        self.buckets[index].fetch_add_relaxed(count);
    }

    /// Returns the bucket configuration.
    pub fn config(&self) -> (r: Config)
        ensures
            r == self.spec_config(),
    {
        self.config
    }

    /// Reads every counter into a plain histogram with the same
    /// configuration. Each counter is read on its own, so the result need not
    /// be one instant's state when other threads are recording.
    pub fn load(&self) -> (r: HistogramOf<C>)
        ensures
            r.wf(),
            r.spec_config() == self.spec_config(),
    {
        proof {
            use_type_invariant(self);
        }
        let n = self.buckets.len();
        let mut out: Vec<C> = Vec::with_capacity(n);
        let mut i: usize = 0;
        while i < n
            invariant
                n == self.buckets@.len(),
                i <= n,
                out@.len() == i,
            decreases n - i,
        {
            out.push(self.buckets[i].load_relaxed());
            i = i + 1;
        }
        HistogramOf::from_counts(self.config, out)
    }
}

impl AtomicHistogram {
    /// Reads and resets every counter to zero, returning what was read as a
    /// plain histogram with the same configuration. Each counter is swapped
    /// for zero in one atomic step, so an observation recorded meanwhile
    /// lands either in the result or in the counters left behind.
    pub fn drain(&self) -> (r: Histogram)
        ensures
            r.wf(),
            r.spec_config() == self.spec_config(),
    {
        proof {
            use_type_invariant(self);
        }
        let n = self.buckets.len();
        let mut out: Vec<u64> = Vec::with_capacity(n);
        let mut i: usize = 0;
        while i < n
            invariant
                n == self.buckets@.len(),
                i <= n,
                out@.len() == i,
            decreases n - i,
        {
            out.push(self.buckets[i].swap_relaxed(0));
            i = i + 1;
        }
        Histogram::from_counts(self.config, out)
    }
}

} // verus!
