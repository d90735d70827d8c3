//! The read-only cumulative histogram: sparse storage with running totals.
use vstd::prelude::*;
use crate::bucket::Bucket;
use crate::config::Config;
use crate::count::{Count, wrapped_difference};
use crate::errors::Error;
use crate::boxed::copy_slice;
use crate::sparse::{SparseHistogramOf, first_out_of_range, index_step_ok};
use crate::standard::{HistogramOf, lemma_wrapped_mod_step};
use crate::sums::{lemma_prefix_sum_step, prefix_sum};
use vstd::std_specs::vec::into_iter_elts;

verus! {

/// `index` and `count` have the same length and the indices are buckets of
/// `config` in strictly ascending order.
pub open spec fn cumulative_index_valid<C: Count>(config: Config, index: Seq<u32>, count: Seq<C>) -> bool {
    &&& index.len() == count.len()
    &&& forall|k: int| 0 <= k < index.len() ==> #[trigger] index[k] < config.spec_total_buckets()
    &&& forall|k: int, l: int| #![trigger index[k], index[l]] 0 <= k < l < index.len() ==> index[k] < index[l]
}

/// The running totals never decrease.
pub open spec fn cumulative_counts_sorted<C: Count>(count: Seq<C>) -> bool {
    forall|k: int, l: int| #![trigger count[k], count[l]] 0 <= k < l < count.len() ==> count[k].spec_value() <= count[l].spec_value()
}

/// The running totals are nonzero and never decrease.
pub open spec fn cumulative_counts_valid<C: Count>(count: Seq<C>) -> bool {
    &&& forall|k: int| 0 <= k < count.len() ==> #[trigger] count[k].spec_value() != 0
    &&& cumulative_counts_sorted(count)
}

/// The error, if any, that validating cumulative parts reports.
pub open spec fn cumulative_parts_error<C: Count>(config: Config, index: Seq<u32>, count: Seq<C>) -> Option<Error> {
    if index.len() != count.len() {
        Some(Error::IncompatibleParameters)
    } else if exists|k: int| first_out_of_range(config, index, k) {
        Some(Error::OutOfRange)
    } else if !cumulative_index_valid(config, index, count) || !cumulative_counts_valid(count) {
        Some(Error::IncompatibleParameters)
    } else {
        None
    }
}

/// The number of observations of stored entry `k` alone: the difference of
/// consecutive running totals, taken modulo the counter's range.
pub open spec fn individual_value<C: Count>(count: Seq<C>, k: int) -> nat {
    if k == 0 {
        count[0].spec_value()
    } else {
        wrapped_difference(count[k].spec_value(), count[k - 1].spec_value(), C::spec_max())
    }
}

/// `b` is stored entry `k`: the range of bucket `index[k]` and the entry's
/// own count.
pub open spec fn is_cumulative_bucket<C: Count>(
    config: Config,
    index: Seq<u32>,
    count: Seq<C>,
    k: int,
    b: Bucket,
) -> bool {
    b.describes(
        individual_value(count, k),
        config.spec_lower(index[k] as nat),
        config.spec_upper(index[k] as nat),
    )
}

/// Position `p` answers the search for `target` in the running totals: the
/// first total that reaches `target`, or the last position when none does.
pub open spec fn quantile_position<C: Count>(count: Seq<C>, target: int, p: int) -> bool {
    &&& 0 <= p < count.len()
    &&& (exists|i: int| 0 <= i < count.len() && #[trigger] count[i].spec_value() >= target) ==> (
        count[p].spec_value() >= target && forall|j: int| 0 <= j < p ==> #[trigger] count[j].spec_value() < target)
    &&& !(exists|i: int| 0 <= i < count.len() && #[trigger] count[i].spec_value() >= target) ==> p == count.len() - 1
}

/// The number of running totals that fit in one 64-byte cache line.
pub open spec fn cache_line_entries<C: Count>() -> nat {
    64nat / vstd::layout::size_of::<C>()
}

/// Scanning from position `i`: the first position whose total reaches
/// `target`, or the last position when none does.
pub open spec fn scan_position<C: Count>(count: Seq<C>, target: int, i: int) -> int
    decreases count.len() - i,
{
    if i >= count.len() - 1 {
        count.len() - 1
    } else if count[i].spec_value() >= target {
        i
    } else {
        scan_position(count, target, i + 1)
    }
}

/// Bisecting `lo..hi`: halve the range, keeping the upper half while the
/// middle total is below `target`, until it is empty.
pub open spec fn bisect_position<C: Count>(count: Seq<C>, target: int, lo: int, hi: int) -> int
    decreases hi - lo,
{
    if lo >= hi {
        lo
    } else {
        let mid = lo + (hi - lo) / 2;
        if count[mid].spec_value() < target {
            bisect_position(count, target, mid + 1, hi)
        } else {
            bisect_position(count, target, lo, mid)
        }
    }
}

/// The position the search for `target` answers: totals that fit in a cache
/// line are scanned in order, longer ones are bisected, and the last
/// position answers when the bisection runs past the end.
pub open spec fn search_position<C: Count>(count: Seq<C>, target: int) -> int {
    if count.len() <= cache_line_entries::<C>() {
        scan_position(count, target, 0)
    } else {
        let p = bisect_position(count, target, 0, count.len() as int);
        if p < count.len() - 1 {
            p
        } else {
            count.len() - 1
        }
    }
}

/// Scanning from `i` past totals below `target` finds the first total that
/// reaches it, or ends at the last position.
proof fn lemma_scan_finds_first<C: Count>(count: Seq<C>, target: int, i: int)
    requires
        0 <= i < count.len(),
        forall|j: int| 0 <= j < i ==> #[trigger] count[j].spec_value() < target,
    ensures
        quantile_position(count, target, scan_position(count, target, i)),
    decreases count.len() - i,
{
    if i < count.len() - 1 && count[i].spec_value() < target {
        lemma_scan_finds_first(count, target, i + 1);
    } else if i == count.len() - 1 && count[i].spec_value() < target {
        assert(!(exists|j: int| 0 <= j < count.len() && #[trigger] count[j].spec_value() >= target));
    }
}

/// Bisecting totals that never decrease keeps the totals below `target`
/// before the answer and the others from it on.
proof fn lemma_bisect_splits<C: Count>(count: Seq<C>, target: int, lo: int, hi: int)
    requires
        cumulative_counts_sorted(count),
        0 <= lo <= hi <= count.len(),
        forall|j: int| 0 <= j < lo ==> #[trigger] count[j].spec_value() < target,
        forall|j: int| hi <= j < count.len() ==> #[trigger] count[j].spec_value() >= target,
    ensures
        lo <= bisect_position(count, target, lo, hi) <= hi,
        forall|j: int| 0 <= j < bisect_position(count, target, lo, hi) ==> #[trigger] count[j].spec_value() < target,
        forall|j: int| bisect_position(count, target, lo, hi) <= j < count.len() ==> #[trigger] count[j].spec_value() >= target,
    decreases hi - lo,
{
    if lo < hi {
        let mid = lo + (hi - lo) / 2;
        if count[mid].spec_value() < target {
            assert forall|j: int| 0 <= j < mid + 1 implies #[trigger] count[j].spec_value() < target by {
                if j < mid {
                    assert(count[j].spec_value() <= count[mid].spec_value());
                }
            }
            lemma_bisect_splits(count, target, mid + 1, hi);
        } else {
            assert forall|j: int| mid <= j < count.len() implies #[trigger] count[j].spec_value() >= target by {
                if j > mid {
                    assert(count[mid].spec_value() <= count[j].spec_value());
                }
            }
            lemma_bisect_splits(count, target, lo, mid);
        }
    }
}

/// When the running totals never decrease, the search answers with the first
/// total that reaches `target`, or the last position when none does.
pub proof fn lemma_search_finds_first<C: Count>(count: Seq<C>, target: int)
    requires
        cumulative_counts_sorted(count),
        count.len() > 0,
    ensures
        quantile_position(count, target, search_position(count, target)),
{
    if count.len() <= cache_line_entries::<C>() {
        lemma_scan_finds_first(count, target, 0);
    } else {
        let n = count.len() as int;
        lemma_bisect_splits(count, target, 0, n);
        let p = bisect_position(count, target, 0, n);
        if p < n {
            assert(count[p].spec_value() >= target);
        } else {
            assert(!(exists|j: int| 0 <= j < count.len() && #[trigger] count[j].spec_value() >= target));
        }
    }
}

/// `b` answers the search for `rank`: it is the stored bucket at the
/// position that the search names.
pub open spec fn answers_rank<C: Count>(config: Config, index: Seq<u32>, count: Seq<C>, rank: int, b: Bucket) -> bool {
    is_cumulative_bucket(config, index, count, search_position(count, rank), b)
}

/// Cumulative parts are accepted exactly when they have one running total
/// per index, the indices are buckets of the configuration in strictly
/// ascending order, and the running totals are positive and never decrease.
pub proof fn lemma_parts_accepted_exactly_when_valid<C: Count>(config: Config, index: Seq<u32>, count: Seq<C>)
    ensures
        cumulative_parts_error(config, index, count) is None <==> {
            &&& index.len() == count.len()
            &&& forall|k: int| 0 <= k < index.len() ==> #[trigger] index[k] < config.spec_total_buckets()
            &&& forall|k: int, l: int| 0 <= k < l < index.len() ==> #[trigger] index[k] < #[trigger] index[l]
            &&& forall|k: int| 0 <= k < count.len() ==> #[trigger] count[k].spec_value() > 0
            &&& forall|k: int, l: int| 0 <= k < l < count.len() ==> #[trigger] count[k].spec_value()
                <= #[trigger] count[l].spec_value()
        },
{
    if cumulative_parts_error(config, index, count) is None {
        assert(cumulative_index_valid(config, index, count));
        assert(cumulative_counts_valid(count));
    }
    if index.len() == count.len() && (forall|k: int| 0 <= k < index.len() ==> #[trigger] index[k]
        < config.spec_total_buckets()) {
        assert forall|k: int| !first_out_of_range(config, index, k) by {
            if first_out_of_range(config, index, k) {
                assert(index[k] < config.spec_total_buckets());
            }
        }
    }
}

/// Validates cumulative parts: `IncompatibleParameters` for differing
/// lengths, `OutOfRange` at the first index that is not a bucket of `config`,
/// `IncompatibleParameters` for indices out of order, a zero count or a
/// decreasing count.
fn validate_cumulative_parts<C: Count>(config: &Config, index: &[u32], count: &[C]) -> (r: Result<(), Error>)
    ensures
        r is Ok <==> cumulative_parts_error(*config, index@, count@) is None,
        r is Err ==> r == Err::<(), Error>(cumulative_parts_error(*config, index@, count@)->0),
{
    if index.len() != count.len() {
        return Err(Error::IncompatibleParameters);
    }
    let total = config.total_buckets();
    let n = index.len();
    let mut i: usize = 0;
    while i < n
        invariant
            n == index@.len(),
            n == count@.len(),
            total == config.spec_total_buckets(),
            i <= n,
            forall|j: int| 0 <= j < i ==> #[trigger] index_step_ok(*config, index@, j),
            forall|k: int| 0 <= k < i ==> #[trigger] index@[k] < total,
            forall|k: int, l: int| #![trigger index@[k], index@[l]] 0 <= k < l < i ==> index@[k] < index@[l],
        decreases n - i,
    {
        if index[i] as usize >= total {
            proof {
                assert(first_out_of_range(*config, index@, i as int));
            }
            return Err(Error::OutOfRange);
        }
        if i > 0 && index[i] <= index[i - 1] {
            proof {
                if cumulative_index_valid(*config, index@, count@) {
                    assert(index@[i - 1] < index@[i as int]);
                    assert(false);
                }
                assert forall|k: int| !first_out_of_range(*config, index@, k) by {
                    if first_out_of_range(*config, index@, k) {
                        if k < i {
                        } else if k > i {
                            assert(index_step_ok(*config, index@, i as int));
                        }
                    }
                }
            }
            return Err(Error::IncompatibleParameters);
        }
        proof {
            assert(index_step_ok(*config, index@, i as int));
        }
        i = i + 1;
    }
    proof {
        assert forall|k: int| !first_out_of_range(*config, index@, k) by {
            if first_out_of_range(*config, index@, k) {
                assert(index@[k] < total);
            }
        }
    }
    let mut j: usize = 0;
    while j < n
        invariant
            n == count@.len(),
            n == index@.len(),
            j <= n,
            cumulative_index_valid(*config, index@, count@),
            forall|k: int| 0 <= k < j ==> #[trigger] count@[k].spec_value() != 0,
            forall|k: int, l: int| #![trigger count@[k], count@[l]] 0 <= k < l < j ==> count@[k].spec_value() <= count@[l].spec_value(),
            forall|k: int| !first_out_of_range(*config, index@, k),
        decreases n - j,
    {
        let c = count[j].as_u128();
        if c == 0 {
            return Err(Error::IncompatibleParameters);
        }
        if j > 0 && c < count[j - 1].as_u128() {
            proof {
                assert(!cumulative_counts_valid(count@)) by {
                    if cumulative_counts_valid(count@) {
                        assert(count@[j - 1].spec_value() <= count@[j as int].spec_value());
                    }
                }
            }
            return Err(Error::IncompatibleParameters);
        }
        proof {
            assert forall|k: int, l: int| #![trigger count@[k], count@[l]] 0 <= k < l < j + 1 implies count@[k].spec_value() <= count@[l].spec_value() by {
                if l == j && k < j - 1 {
                    assert(count@[k].spec_value() <= count@[j - 1].spec_value());
                }
            }
        }
        j = j + 1;
    }
    Ok(())
}

/// A read-only histogram with cumulative counts, for fast quantile queries.
///
/// Stores only nonzero buckets in columnar form, like the sparse histogram,
/// but `count[i]` is the running total of observations in stored buckets
/// `0..=i`; the last entry is the total count. [`CumulativeROHistogram`]
/// counts with `u64`, [`CumulativeROHistogram32`] with `u32`.
#[derive(Debug, PartialEq, Eq)]
pub struct CumulativeROHistogramOf<C: Count> {
    pub(crate) config: Config,
    pub(crate) index: Vec<u32>,
    pub(crate) count: Vec<C>,
}

/// A cumulative histogram with `u64` counters.
pub type CumulativeROHistogram = CumulativeROHistogramOf<u64>;

/// A cumulative histogram with `u32` counters.
pub type CumulativeROHistogram32 = CumulativeROHistogramOf<u32>;

impl<C: Count> CumulativeROHistogramOf<C> {
    /// The stored indices are buckets of the configuration, ascending, one
    /// per running total.
    #[verifier::type_invariant]
    pub open spec fn wf(self) -> bool {
        cumulative_index_valid(self.spec_config(), self.spec_index(), self.spec_count())
    }

    /// The bucket configuration.
    pub closed spec fn spec_config(self) -> Config {
        self.config
    }

    /// The stored bucket indices.
    pub closed spec fn spec_index(self) -> Seq<u32> {
        self.index@
    }

    /// The stored running totals.
    pub closed spec fn spec_count(self) -> Seq<C> {
        self.count@
    }

    /// Creates a cumulative histogram from its raw parts; `count` holds the
    /// running totals.
    ///
    /// Fails with `IncompatibleParameters` if the lengths differ, with
    /// `OutOfRange` at the first index that is not a bucket of the
    /// configuration, and with `IncompatibleParameters` if the indices are not
    /// strictly ascending or a count is zero or smaller than the one before.
    pub fn from_parts(config: Config, index: Vec<u32>, count: Vec<C>) -> (r: Result<Self, Error>)
        ensures
            r is Ok <==> cumulative_parts_error(config, index@, count@) is None,
            r is Err ==> r == Err::<Self, Error>(cumulative_parts_error(config, index@, count@)->0),
            r matches Ok(h) ==> h.spec_config() == config && h.spec_index() == index@
                && h.spec_count() == count@,
            r is Ok <==> {
                &&& index@.len() == count@.len()
                &&& forall|k: int| 0 <= k < index@.len() ==> #[trigger] index@[k] < config.spec_total_buckets()
                &&& forall|k: int, l: int| 0 <= k < l < index@.len() ==> #[trigger] index@[k] < #[trigger] index@[l]
                &&& forall|k: int| 0 <= k < count@.len() ==> #[trigger] count@[k].spec_value() > 0
                &&& forall|k: int, l: int| 0 <= k < l < count@.len() ==> #[trigger] count@[k].spec_value()
                    <= #[trigger] count@[l].spec_value()
            },
    {
        proof {
            lemma_parts_accepted_exactly_when_valid(config, index@, count@);
        }
        match validate_cumulative_parts(&config, index.as_slice(), count.as_slice()) {
            Ok(()) => Ok(CumulativeROHistogramOf { config, index, count }),
            Err(e) => Err(e),
        }
    }

    /// A histogram over an index already known to be valid.
    pub(crate) fn from_valid_parts(config: Config, index: Vec<u32>, count: Vec<C>) -> (r: Self)
        requires
            cumulative_index_valid(config, index@, count@),
        ensures
            r.spec_config() == config,
            r.spec_index() == index@,
            r.spec_count() == count@,
    {
        CumulativeROHistogramOf { config, index, count }
    }

    /// Consumes the histogram, returning the configuration, the indices and
    /// the running totals.
    pub fn into_parts(self) -> (r: (Config, Vec<u32>, Vec<C>))
        ensures
            r.0 == self.spec_config(),
            r.1@ == self.spec_index(),
            r.2@ == self.spec_count(),
    {
        (self.config, self.index, self.count)
    }

    /// Returns the bucket configuration.
    pub fn config(&self) -> (r: Config)
        ensures
            r == self.spec_config(),
    {
        self.config
    }

    /// Returns the indices of the nonzero buckets.
    pub fn index(&self) -> (r: &[u32])
        ensures
            r@ == self.spec_index(),
    {
        self.index.as_slice()
    }

    /// Returns the running totals.
    pub fn count(&self) -> (r: &[C])
        ensures
            r@ == self.spec_count(),
    {
        self.count.as_slice()
    }

    /// Returns the total number of observations: the last running total, or
    /// zero when nothing is stored.
    pub fn total_count(&self) -> (r: u64)
        ensures
            self.spec_count().len() == 0 ==> r == 0,
            self.spec_count().len() > 0 ==> r == self.spec_count().last().spec_value(),
    {
        proof {
            C::lemma_count_facts();
        }
        let n = self.count.len();
        if n == 0 {
            0
        } else {
            self.count[n - 1].as_u128() as u64
        }
    }

    /// Returns the number of stored (nonzero) buckets.
    pub fn len(&self) -> (r: usize)
        ensures
            r == self.spec_index().len(),
    {
        proof {
            use_type_invariant(self);
        }
        self.index.len()
    }

    /// Returns `true` if the histogram stores no buckets.
    pub fn is_empty(&self) -> (r: bool)
        ensures
            r <==> self.spec_index().len() == 0,
    {
        self.index.len() == 0
    }

    /// The number of observations of stored entry `position` alone.
    pub(crate) fn individual_count(&self, position: usize) -> (r: u64)
        requires
            position < self.spec_count().len(),
        ensures
            r == individual_value(self.spec_count(), position as int),
    {
        proof {
            C::lemma_count_facts();
        }
        if position == 0 {
            self.count[0].as_u128() as u64
        } else {
            let d = self.count[position].wrapping_sub(self.count[position - 1]);
            proof {
                assert(d.spec_value() <= C::spec_max());
            }
            d.as_u128() as u64
        }
    }

    /// Stored entry `k`: its bucket range and its own count.
    fn bucket_at(&self, k: usize) -> (r: Bucket)
        requires
            k < self.spec_index().len(),
        ensures
            is_cumulative_bucket(self.spec_config(), self.spec_index(), self.spec_count(), k as int, r),
    {
        proof {
            use_type_invariant(self);
        }
        let b = self.index[k] as usize;
        Bucket::new(
            self.individual_count(k),
            self.config.index_to_lower_bound(b),
            self.config.index_to_upper_bound(b),
        )
    }

    /// Finds the first position whose running total reaches `target`, or the
    /// last position when none does. Totals that fit in one cache line are
    /// scanned in order; longer ones are searched by bisection, which finds
    /// that position when the totals never decrease.
    pub(crate) fn find_quantile_position(&self, target: u128) -> (r: usize)
        requires
            self.spec_count().len() > 0,
        ensures
            r == search_position(self.spec_count(), target as int),
            r < self.spec_count().len(),
            cumulative_counts_sorted(self.spec_count()) ==> quantile_position(self.spec_count(), target as int, r as int),
    {
        proof {
            C::lemma_count_facts();
            if cumulative_counts_sorted(self.count@) {
                lemma_search_finds_first(self.count@, target as int);
            }
        }
        let ghost cs = self.count@;
        let line_entries: usize = 64 / core::mem::size_of::<C>();
        let n = self.count.len();
        proof {
            assert(line_entries == cache_line_entries::<C>());
        }
        if n <= line_entries {
            let mut i: usize = 0;
            while i < n
                invariant
                    n == cs.len(),
                    n > 0,
                    n <= cache_line_entries::<C>(),
                    cs == self.count@,
                    i <= n,
                    scan_position(cs, target as int, i as int) == scan_position(cs, target as int, 0),
                    cumulative_counts_sorted(cs) ==> quantile_position(cs, target as int, search_position(cs, target as int)),
                decreases n - i,
            {
                if self.count[i].as_u128() >= target {
                    proof {
                        assert(scan_position(cs, target as int, i as int) == i);
                    }
                    return i;
                }
                i = i + 1;
            }
            n - 1
        } else {
            let mut lo: usize = 0;
            let mut hi: usize = n;
            while lo < hi
                invariant
                    n == cs.len(),
                    cs == self.count@,
                    lo <= hi <= n,
                    bisect_position(cs, target as int, lo as int, hi as int) == bisect_position(cs, target as int, 0, n as int),
                decreases hi - lo,
            {
                let mid = lo + (hi - lo) / 2;
                if self.count[mid].as_u128() < target {
                    lo = mid + 1;
                } else {
                    hi = mid;
                }
            }
            if lo < n - 1 {
                lo
            } else {
                n - 1
            }
        }
    }

    /// The stored buckets, in ascending order, each with its own
    /// (non-cumulative) count.
    pub fn buckets(&self) -> (r: Vec<Bucket>)
        ensures
            r@.len() == self.spec_index().len(),
            forall|k: int|
                0 <= k < r@.len() ==> is_cumulative_bucket(
                    self.spec_config(),
                    self.spec_index(),
                    self.spec_count(),
                    k,
                    #[trigger] r@[k],
                ),
    {
        proof {
            use_type_invariant(self);
        }
        let n = self.index.len();
        let mut out: Vec<Bucket> = Vec::with_capacity(n);
        let mut k: usize = 0;
        while k < n
            invariant
                self.wf(),
                n == self.index@.len(),
                k <= n,
                out@.len() == k,
                forall|j: int|
                    0 <= j < k ==> is_cumulative_bucket(self.config, self.index@, self.count@, j, #[trigger] out@[j]),
            decreases n - k,
        {
            out.push(self.bucket_at(k));
            k = k + 1;
        }
        out
    }

    /// Returns an iterator across the stored buckets, each with its own
    /// (non-cumulative) count.
    pub fn iter(&self) -> (r: std::vec::IntoIter<Bucket>)
        ensures
            into_iter_elts(r).len() == self.spec_index().len(),
            forall|k: int|
                0 <= k < into_iter_elts(r).len() ==> is_cumulative_bucket(
                    self.spec_config(),
                    self.spec_index(),
                    self.spec_count(),
                    k,
                    #[trigger] into_iter_elts(r)[k],
                ),
    {
        let v = self.buckets();
        proof {
            broadcast use vstd::std_specs::vec::axiom_spec_into_iter;
        }
        v.into_iter()
    }

    /// The first stored bucket, or `None` when nothing is stored.
    pub fn min_bucket(&self) -> (r: Option<Bucket>)
        ensures
            self.spec_index().len() == 0 <==> r is None,
            r matches Some(b) ==> is_cumulative_bucket(self.spec_config(), self.spec_index(), self.spec_count(), 0, b),
    {
        proof {
            use_type_invariant(self);
        }
        if self.index.len() == 0 {
            None
        } else {
            Some(self.bucket_at(0))
        }
    }

    /// The last stored bucket, or `None` when nothing is stored.
    pub fn max_bucket(&self) -> (r: Option<Bucket>)
        ensures
            self.spec_index().len() == 0 <==> r is None,
            r matches Some(b) ==> is_cumulative_bucket(
                self.spec_config(),
                self.spec_index(),
                self.spec_count(),
                self.spec_index().len() - 1,
                b,
            ),
    {
        proof {
            use_type_invariant(self);
        }
        let n = self.index.len();
        if n == 0 {
            None
        } else {
            Some(self.bucket_at(n - 1))
        }
    }

    /// For each requested rank `k` (counting observations from one), the
    /// stored bucket whose running total first reaches `k`, the last bucket
    /// when none does, or `None` when nothing is stored.
    pub fn rank_buckets(&self, ranks: &[u128]) -> (r: Vec<Option<Bucket>>)
        ensures
            r@.len() == ranks@.len(),
            forall|k: int| 0 <= k < ranks@.len() ==> (self.spec_index().len() == 0 <==> #[trigger] r@[k] is None),
            forall|k: int|
                0 <= k < ranks@.len() && #[trigger] r@[k] is Some ==> answers_rank(
                    self.spec_config(),
                    self.spec_index(),
                    self.spec_count(),
                    ranks@[k] as int,
                    r@[k]->0,
                ),
    {
        proof {
            use_type_invariant(self);
        }
        let n = self.index.len();
        let mut out: Vec<Option<Bucket>> = Vec::with_capacity(ranks.len());
        let mut k: usize = 0;
        while k < ranks.len()
            invariant
                self.wf(),
                n == self.index@.len(),
                k <= ranks@.len(),
                out@.len() == k,
                forall|m: int| 0 <= m < k ==> (n == 0 <==> #[trigger] out@[m] is None),
                forall|m: int|
                    0 <= m < k && #[trigger] out@[m] is Some ==> answers_rank(
                        self.config,
                        self.index@,
                        self.count@,
                        ranks@[m] as int,
                        out@[m]->0,
                    ),
            decreases ranks@.len() - k,
        {
            let ghost before = out@;
            if n == 0 {
                out.push(None);
            } else {
                let p = self.find_quantile_position(ranks[k]);
                let b = self.bucket_at(p);
                out.push(Some(b));
                proof {
                    assert(answers_rank(self.config, self.index@, self.count@, ranks@[k as int] as int, b));
                }
            }
            proof {
                assert forall|m: int| 0 <= m < k implies #[trigger] out@[m] == before[m] by {}
            }
            k = k + 1;
        }
        out
    }
}

impl<C: Count> Clone for CumulativeROHistogramOf<C> {
    /// A histogram with the same configuration, indices and totals.
    fn clone(&self) -> (r: Self)
        ensures
            r.spec_config() == self.spec_config(),
            r.spec_index() == self.spec_index(),
            r.spec_count() == self.spec_count(),
    {
        proof {
            use_type_invariant(self);
        }
        let index = copy_slice(self.index.as_slice());
        let count = copy_slice(self.count.as_slice());
        CumulativeROHistogramOf { config: self.config, index, count }
    }
}

impl<C: Count> From<&SparseHistogramOf<C>> for CumulativeROHistogramOf<C> {
    /// The same buckets with running totals of the counts, wrapping at the
    /// counter's limit.
    fn from(histogram: &SparseHistogramOf<C>) -> (r: Self)
        ensures
            r.spec_config() == histogram.spec_config(),
            r.spec_index() == histogram.spec_index(),
            r.spec_count().len() == histogram.spec_count().len(),
            forall|k: int| 0 <= k < r.spec_count().len() ==> #[trigger] r.spec_count()[k].spec_value()
                == prefix_sum(histogram.spec_count(), k + 1) % (C::spec_max() + 1),
    {
        proof {
            use_type_invariant(histogram);
            C::lemma_count_facts();
        }
        let src = histogram.count();
        let ghost sc = src@;
        let ghost m = C::spec_max() + 1;
        let n = src.len();
        let mut running: C = C::ZERO;
        let mut count: Vec<C> = Vec::with_capacity(n);
        let mut k: usize = 0;
        proof {
            vstd::arithmetic::div_mod::lemma_small_mod(0, m);
        }
        while k < n
            invariant
                n == sc.len(),
                sc == src@,
                m == C::spec_max() + 1,
                k <= n,
                count@.len() == k,
                running.spec_value() == prefix_sum(sc, k as int) % m,
                forall|j: int| 0 <= j < k ==> #[trigger] count@[j].spec_value() == prefix_sum(sc, j + 1) % m,
            decreases n - k,
        {
            proof {
                C::lemma_count_facts();
                lemma_prefix_sum_step(sc, k as int);
                lemma_wrapped_mod_step(prefix_sum(sc, k as int), sc[k as int].spec_value(), C::spec_max());
            }
            running = running.wrapping_add(src[k]);
            count.push(running);
            k = k + 1;
        }
        let index = copy_slice(histogram.index());
        CumulativeROHistogramOf { config: histogram.config(), index, count }
    }
}

/// What `from` returns is stated by its own `ensures`.
impl<C: Count> vstd::std_specs::convert::FromSpecImpl<&SparseHistogramOf<C>> for CumulativeROHistogramOf<C> {
    open spec fn obeys_from_spec() -> bool {
        false
    }

    open spec fn from_spec(v: &SparseHistogramOf<C>) -> Self {
        arbitrary()
    }
}

impl<C: Count> From<&HistogramOf<C>> for CumulativeROHistogramOf<C> {
    /// The nonzero buckets of a dense histogram, in ascending order, with
    /// running totals of their counts, wrapping at the counter's limit.
    fn from(histogram: &HistogramOf<C>) -> (r: Self)
        ensures
            r.spec_config() == histogram.spec_config(),
            histogram.wf() ==> forall|k: int| 0 <= k < r.spec_index().len()
                ==> #[trigger] histogram.spec_counts()[r.spec_index()[k] as int].spec_value() != 0,
            histogram.wf() ==> forall|b: int| 0 <= b < histogram.spec_counts().len()
                && #[trigger] histogram.spec_counts()[b].spec_value() != 0 ==> exists|k: int|
                0 <= k < r.spec_index().len() && #[trigger] r.spec_index()[k] == b,
            histogram.wf() ==> forall|k: int| 0 <= k < r.spec_count().len() ==> #[trigger] r.spec_count()[k].spec_value()
                == prefix_sum(histogram.spec_counts(), r.spec_index()[k] + 1) % (C::spec_max() + 1),
    {
        proof {
            C::lemma_count_facts();
        }
        let counts = histogram.as_slice();
        let config = histogram.config();
        proof {
            use_type_invariant(&config);
            config.lemma_total_bounds();
        }
        let ghost cs = counts@;
        let ghost m = C::spec_max() + 1;
        let total = config.total_buckets();
        let n = if counts.len() < total {
            counts.len()
        } else {
            total
        };
        let mut index: Vec<u32> = Vec::new();
        let mut count: Vec<C> = Vec::new();
        let mut running: C = C::ZERO;
        let mut i: usize = 0;
        proof {
            vstd::arithmetic::div_mod::lemma_small_mod(0, m);
        }
        while i < n
            invariant
                n <= cs.len(),
                n <= total,
                cs == counts@,
                cs == histogram.spec_counts(),
                total == config.spec_total_buckets(),
                histogram.wf() ==> n == cs.len(),
                total <= u32::MAX,
                m == C::spec_max() + 1,
                i <= n,
                index@.len() == count@.len(),
                forall|k: int| 0 <= k < index@.len() ==> #[trigger] index@[k] < i,
                forall|k: int, l: int| #![trigger index@[k], index@[l]] 0 <= k < l < index@.len() ==> index@[k] < index@[l],
                forall|k: int| 0 <= k < index@.len() ==> #[trigger] cs[index@[k] as int].spec_value() != 0,
                forall|b: int| 0 <= b < i && #[trigger] cs[b].spec_value() != 0 ==> exists|k: int|
                    0 <= k < index@.len() && #[trigger] index@[k] == b,
                running.spec_value() == prefix_sum(cs, i as int) % m,
                forall|k: int| 0 <= k < count@.len() ==> #[trigger] count@[k].spec_value() == prefix_sum(cs, index@[k] + 1) % m,
            decreases n - i,
        {
            proof {
                C::lemma_count_facts();
                lemma_prefix_sum_step(cs, i as int);
            }
            if counts[i].as_u128() != 0 {
                proof {
                    lemma_wrapped_mod_step(prefix_sum(cs, i as int), cs[i as int].spec_value(), C::spec_max());
                }
                running = running.wrapping_add(counts[i]);
                let ghost i0 = index@;
                index.push(i as u32);
                count.push(running);
                proof {
                    assert(index@[i0.len() as int] == i);
                    assert forall|b: int| 0 <= b < i + 1 && #[trigger] cs[b].spec_value() != 0 implies exists|k: int|
                        0 <= k < index@.len() && #[trigger] index@[k] == b by {
                        if b < i {
                            let k = choose|k: int| 0 <= k < i0.len() && #[trigger] i0[k] == b;
                            assert(index@[k] == b);
                        } else {
                            assert(index@[i0.len() as int] == b);
                        }
                    }
                }
            } else {
                proof {
                    assert forall|b: int| 0 <= b < i + 1 && #[trigger] cs[b].spec_value() != 0 implies exists|k: int|
                        0 <= k < index@.len() && #[trigger] index@[k] == b by {
                        if b < i {
                        }
                    }
                }
            }
            i = i + 1;
        }
        CumulativeROHistogramOf { config, index, count }
    }
}

/// What `from` returns is stated by its own `ensures`.
impl<C: Count> vstd::std_specs::convert::FromSpecImpl<&HistogramOf<C>> for CumulativeROHistogramOf<C> {
    open spec fn obeys_from_spec() -> bool {
        false
    }

    open spec fn from_spec(v: &HistogramOf<C>) -> Self {
        arbitrary()
    }
}

impl<'a, C: Count> IntoIterator for &'a CumulativeROHistogramOf<C> {
    type Item = Bucket;

    type IntoIter = std::vec::IntoIter<Bucket>;

    /// The stored buckets, in ascending order, each with its own count.
    fn into_iter(self) -> (r: std::vec::IntoIter<Bucket>)
        ensures
            into_iter_elts(r).len() == self.spec_index().len(),
            forall|k: int|
                0 <= k < into_iter_elts(r).len() ==> is_cumulative_bucket(
                    self.spec_config(),
                    self.spec_index(),
                    self.spec_count(),
                    k,
                    #[trigger] into_iter_elts(r)[k],
                ),
    {
        self.iter()
    }
}

} // verus!
