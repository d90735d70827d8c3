//! The sparse, columnar histogram: only buckets with nonzero counts are stored.
use vstd::prelude::*;
use crate::boxed::copy_slice;
use crate::bucket::Bucket;
use crate::config::Config;
use crate::count::{Count, wrapped_sum, wrapped_difference};
use crate::errors::Error;
use crate::geometry::{
    bucket_lower,
    bucket_of,
    lemma_bucket_of_monotone,
    lemma_bucket_total_monotone,
    lemma_lower_in_range,
    lemma_lower_strictly_increases,
    valid_geometry,
};
use vstd::std_specs::vec::into_iter_elts;
use crate::standard::{HistogramOf, downsample_target, lemma_wrapped_mod_step};
use crate::sums::{count_sum, holds_rank, rank_position, rank_positions, sum_counts};

verus! {

/// `index` and `count` describe a sparse histogram for `config`: they have
/// the same length, the indices are buckets of the configuration in strictly
/// ascending order, and no count is zero.
pub open spec fn sparse_parts_valid<C: Count>(config: Config, index: Seq<u32>, count: Seq<C>) -> bool {
    &&& index.len() == count.len()
    &&& forall|k: int| 0 <= k < index.len() ==> #[trigger] index[k] < config.spec_total_buckets()
    &&& forall|k: int, l: int| #![trigger index[k], index[l]] 0 <= k < l < index.len() ==> index[k] < index[l]
    &&& forall|k: int| 0 <= k < count.len() ==> #[trigger] count[k].spec_value() != 0
}

/// Entry `k` of `index` is a bucket of `config` and lies above entry `k - 1`.
pub open spec fn index_step_ok(config: Config, index: Seq<u32>, k: int) -> bool {
    &&& index[k] < config.spec_total_buckets()
    &&& (k == 0 || index[k - 1] < index[k])
}

/// Entry `k` of `index` is the first that is not a bucket of `config`, and
/// every earlier entry is in order.
pub open spec fn first_out_of_range(config: Config, index: Seq<u32>, k: int) -> bool {
    &&& 0 <= k < index.len()
    &&& index[k] >= config.spec_total_buckets()
    &&& forall|j: int| 0 <= j < k ==> #[trigger] index_step_ok(config, index, j)
}

/// The error, if any, that validating sparse parts reports.
pub open spec fn sparse_parts_error<C: Count>(config: Config, index: Seq<u32>, count: Seq<C>) -> Option<Error> {
    if index.len() != count.len() {
        Some(Error::IncompatibleParameters)
    } else if exists|k: int| first_out_of_range(config, index, k) {
        Some(Error::OutOfRange)
    } else if !sparse_parts_valid(config, index, count) {
        Some(Error::IncompatibleParameters)
    } else {
        None
    }
}

/// The count that sparse parts hold for bucket `b` (zero if `b` is absent).
pub open spec fn sparse_value<C: Count>(index: Seq<u32>, count: Seq<C>, b: int) -> nat
    decreases index.len(),
{
    if index.len() == 0 || count.len() != index.len() {
        0
    } else {
        sparse_value(index.drop_last(), count.drop_last(), b) + if index.last() == b {
            count.last().spec_value()
        } else {
            0
        }
    }
}

/// `b` is entry `k` of sparse parts for `config`: its range is that of
/// bucket `index[k]` and its count is `count[k]`.
pub open spec fn is_sparse_bucket<C: Count>(
    config: Config,
    index: Seq<u32>,
    count: Seq<C>,
    k: int,
    b: Bucket,
) -> bool {
    b.describes(
        count[k].spec_value(),
        config.spec_lower(index[k] as nat),
        config.spec_upper(index[k] as nat),
    )
}

/// Appending an entry adds its count to its own bucket only.
pub proof fn lemma_sparse_value_push<C: Count>(index: Seq<u32>, count: Seq<C>, i: u32, c: C, b: int)
    requires
        index.len() == count.len(),
    ensures
        sparse_value(index.push(i), count.push(c), b) == sparse_value(index, count, b) + if i == b {
            c.spec_value()
        } else {
            0
        },
{
    assert(index.push(i).drop_last() =~= index);
    assert(count.push(c).drop_last() =~= count);
}

/// In valid parts the count of a stored bucket is its entry's count, and an
/// absent bucket counts zero.
pub proof fn lemma_sparse_value_lookup<C: Count>(index: Seq<u32>, count: Seq<C>, b: int)
    requires
        index.len() == count.len(),
        forall|k: int, l: int| #![trigger index[k], index[l]] 0 <= k < l < index.len() ==> index[k] < index[l],
    ensures
        forall|k: int| 0 <= k < index.len() && index[k] == b ==> sparse_value(index, count, b) == #[trigger] count[k].spec_value(),
        (forall|k: int| 0 <= k < index.len() ==> #[trigger] index[k] != b) ==> sparse_value(index, count, b) == 0,
    decreases index.len(),
{
    if index.len() > 0 {
        let n = index.len() - 1;
        let i2 = index.drop_last();
        let c2 = count.drop_last();
        assert forall|k: int, l: int| #![trigger i2[k], i2[l]] 0 <= k < l < i2.len() implies i2[k] < i2[l] by {
            assert(i2[k] == index[k] && i2[l] == index[l]);
        }
        lemma_sparse_value_lookup(i2, c2, b);
        assert forall|k: int| 0 <= k < index.len() && index[k] == b implies sparse_value(index, count, b) == #[trigger] count[k].spec_value() by {
            if k < n {
                assert(i2[k] == index[k]);
                assert(c2[k] == count[k]);
                assert(index[k] < index[n]);
            } else {
                assert forall|j: int| 0 <= j < i2.len() implies #[trigger] i2[j] != b by {
                    assert(i2[j] == index[j]);
                    assert(index[j] < index[n]);
                }
            }
        }
        if forall|k: int| 0 <= k < index.len() ==> #[trigger] index[k] != b {
            assert forall|j: int| 0 <= j < i2.len() implies #[trigger] i2[j] != b by {
                assert(i2[j] == index[j]);
            }
            assert(index[n] != b);
        }
    }
}

/// Strictly ascending bucket indices below `total` number at most `total`.
pub proof fn lemma_sorted_len_bound(index: Seq<u32>, total: nat)
    requires
        forall|k: int| 0 <= k < index.len() ==> #[trigger] index[k] < total,
        forall|k: int, l: int| #![trigger index[k], index[l]] 0 <= k < l < index.len() ==> index[k] < index[l],
    ensures
        index.len() <= total,
{
    if index.len() > 0 {
        let n = index.len() - 1;
        assert forall|k: int| 0 <= k < index.len() implies #[trigger] index[k] >= k by {
            lemma_sorted_at_least(index, k);
        }
        assert(index[n] >= n);
    }
}

/// In a strictly ascending sequence of naturals entry `k` is at least `k`.
proof fn lemma_sorted_at_least(index: Seq<u32>, k: int)
    requires
        0 <= k < index.len(),
        forall|a: int, b: int| #![trigger index[a], index[b]] 0 <= a < b < index.len() ==> index[a] < index[b],
    ensures
        index[k] >= k,
    decreases k,
{
    if k > 0 {
        lemma_sorted_at_least(index, k - 1);
        assert(index[k - 1] < index[k]);
    }
}

/// Taking one more entry adds that entry's count to its bucket.
pub proof fn lemma_sparse_value_take<C: Count>(index: Seq<u32>, count: Seq<C>, i: int, b: int)
    requires
        index.len() == count.len(),
        0 <= i < index.len(),
    ensures
        sparse_value(index.take(i + 1), count.take(i + 1), b) == sparse_value(index.take(i), count.take(i), b) + if index[i] == b {
            count[i].spec_value()
        } else {
            0
        },
{
    assert(index.take(i + 1).drop_last() =~= index.take(i));
    assert(count.take(i + 1).drop_last() =~= count.take(i));
}

/// Taking every entry gives the whole sequence.
pub proof fn lemma_sparse_value_take_all<C: Count>(index: Seq<u32>, count: Seq<C>, b: int)
    ensures
        sparse_value(index.take(index.len() as int), count.take(count.len() as int), b) == sparse_value(index, count, b),
{
    assert(index.take(index.len() as int) =~= index);
    assert(count.take(count.len() as int) =~= count);
}

/// In valid parts every bucket's count is within the counter's range, and it
/// is the stored count or zero.
pub proof fn lemma_sparse_value_valid<C: Count>(config: Config, index: Seq<u32>, count: Seq<C>, b: int)
    requires
        sparse_parts_valid(config, index, count),
    ensures
        sparse_value(index, count, b) <= C::spec_max(),
        forall|k: int| 0 <= k < index.len() && index[k] == b ==> sparse_value(index, count, b) == #[trigger] count[k].spec_value(),
        (forall|k: int| 0 <= k < index.len() ==> #[trigger] index[k] != b) ==> sparse_value(index, count, b) == 0,
{
    lemma_sparse_value_lookup(index, count, b);
    C::lemma_count_facts();
    if exists|k: int| 0 <= k < index.len() && index[k] == b {
        let k = choose|k: int| 0 <= k < index.len() && index[k] == b;
        assert(count[k].spec_value() <= C::spec_max());
    }
}

/// The buckets of a prefix of the entries all lie below entry `i`.
pub proof fn lemma_sparse_value_prefix_below<C: Count>(config: Config, index: Seq<u32>, count: Seq<C>, i: int, b: int)
    requires
        sparse_parts_valid(config, index, count),
        0 <= i <= index.len(),
        i < index.len() ==> b >= index[i],
    ensures
        sparse_value(index.take(i), count.take(i), b) == if i == index.len() { sparse_value(index, count, b) } else { 0 },
{
    if i == index.len() {
        lemma_sparse_value_take_all(index, count, b);
    } else {
        let it = index.take(i);
        let ct = count.take(i);
        assert forall|k: int, l: int| #![trigger it[k], it[l]] 0 <= k < l < it.len() implies it[k] < it[l] by {
            assert(it[k] == index[k] && it[l] == index[l]);
        }
        assert forall|k: int| 0 <= k < it.len() implies #[trigger] it[k] != b by {
            assert(it[k] == index[k]);
            assert(index[k] < index[i]);
        }
        lemma_sparse_value_lookup(it, ct, b);
    }
}

/// A prefix of the entries that does not name bucket `b` holds nothing for it.
pub proof fn lemma_sparse_value_take_absent<C: Count>(config: Config, index: Seq<u32>, count: Seq<C>, i: int, b: int)
    requires
        sparse_parts_valid(config, index, count),
        0 <= i <= index.len(),
        forall|k: int| 0 <= k < i ==> #[trigger] index[k] != b,
    ensures
        sparse_value(index.take(i), count.take(i), b) == 0,
{
    let it = index.take(i);
    let ct = count.take(i);
    assert forall|k: int, l: int| #![trigger it[k], it[l]] 0 <= k < l < it.len() implies it[k] < it[l] by {
        assert(it[k] == index[k] && it[l] == index[l]);
    }
    assert forall|k: int| 0 <= k < it.len() implies #[trigger] it[k] != b by {
        assert(it[k] == index[k]);
    }
    lemma_sparse_value_lookup(it, ct, b);
}

/// Bucket `b` is the first bucket at which `h` holds more than `a`.
pub open spec fn first_excess<C: Count>(a: SparseHistogramOf<C>, h: SparseHistogramOf<C>, b: int) -> bool {
    &&& h.spec_value_of(b) > a.spec_value_of(b)
    &&& forall|b2: int| b2 < b ==> #[trigger] h.spec_value_of(b2) <= a.spec_value_of(b2)
}

/// Every bucket stored in `h` is also stored in `a`.
pub open spec fn stored_subset<C: Count>(a: SparseHistogramOf<C>, h: SparseHistogramOf<C>) -> bool {
    forall|b: int| #[trigger] h.spec_value_of(b) != 0 ==> a.spec_value_of(b) != 0
}

/// The total of the counts of the first `n` entries whose bucket moves to
/// bucket `j` under `target`.
pub open spec fn sparse_grouped_sum<C: Count>(index: Seq<u32>, count: Seq<C>, target: spec_fn(int) -> nat, j: nat, n: int) -> nat
    decreases n,
{
    if n <= 0 {
        0
    } else {
        sparse_grouped_sum(index, count, target, j, n - 1) + if target(index[n - 1] as int) == j {
            count[n - 1].spec_value()
        } else {
            0
        }
    }
}

/// Validates sparse parts: `IncompatibleParameters` for differing lengths,
/// `OutOfRange` at the first index that is not a bucket of `config`,
/// `IncompatibleParameters` for indices out of order or a zero count.
pub(crate) fn validate_sparse_parts<C: Count>(config: &Config, index: &[u32], count: &[C]) -> (r: Result<(), Error>)
    ensures
        r is Ok <==> sparse_parts_valid(*config, index@, count@),
        r is Err ==> r == Err::<(), Error>(sparse_parts_error(*config, index@, count@)->0),
        r is Ok ==> sparse_parts_error(*config, index@, count@) is None,
{
    if index.len() != count.len() {
        return Err(Error::IncompatibleParameters);
    }
    let total = config.total_buckets();
    let n = index.len();
    let mut i: usize = 0;
    while i < n
        invariant
            n == index@.len(),
            n == count@.len(),
            total == config.spec_total_buckets(),
            i <= n,
            forall|j: int| 0 <= j < i ==> #[trigger] index_step_ok(*config, index@, j),
            forall|k: int| 0 <= k < i ==> #[trigger] index@[k] < total,
            forall|k: int, l: int| #![trigger index@[k], index@[l]] 0 <= k < l < i ==> index@[k] < index@[l],
        decreases n - i,
    {
        if index[i] as usize >= total {
            proof {
                assert(first_out_of_range(*config, index@, i as int));
            }
            return Err(Error::OutOfRange);
        }
        if i > 0 && index[i] <= index[i - 1] {
            proof {
                if sparse_parts_valid(*config, index@, count@) {
                    assert(index@[i - 1] < index@[i as int]);
                    assert(false);
                }
                assert forall|k: int| !first_out_of_range(*config, index@, k) by {
                    if first_out_of_range(*config, index@, k) {
                        if k < i {
                        } else if k > i {
                            assert(index_step_ok(*config, index@, i as int));
                        }
                    }
                }
            }
            return Err(Error::IncompatibleParameters);
        }
        proof {
            assert(index_step_ok(*config, index@, i as int));
        }
        i = i + 1;
    }
    proof {
        assert forall|k: int| !first_out_of_range(*config, index@, k) by {
            if first_out_of_range(*config, index@, k) {
                assert(index@[k] < total);
            }
        }
    }
    let mut j: usize = 0;
    while j < n
        invariant
            n == count@.len(),
            n == index@.len(),
            j <= n,
            forall|k: int| 0 <= k < j ==> #[trigger] count@[k].spec_value() != 0,
            forall|k: int| !first_out_of_range(*config, index@, k),
        decreases n - j,
    {
        if count[j].as_u128() == 0 {
            return Err(Error::IncompatibleParameters);
        }
        j = j + 1;
    }
    Ok(())
}

/// A sparse, columnar representation of a histogram.
///
/// Significantly smaller than the dense form when many buckets are zero.
/// Each nonzero bucket is stored as a pair `(index[i], count[i])` where
/// `index[i]` is the bucket index and `count[i]` is its count, in ascending
/// index order. [`SparseHistogram`] counts with `u64`, [`SparseHistogram32`]
/// with `u32`.
#[derive(Debug, PartialEq, Eq)]
pub struct SparseHistogramOf<C: Count> {
    pub(crate) config: Config,
    pub(crate) index: Vec<u32>,
    pub(crate) count: Vec<C>,
}

/// A sparse histogram with `u64` counters.
pub type SparseHistogram = SparseHistogramOf<u64>;

/// A sparse histogram with `u32` counters.
pub type SparseHistogram32 = SparseHistogramOf<u32>;

/// A borrowed view over sparse histogram storage.
///
/// Holds references to `index` and `count` slices together with the
/// [`Config`], mirroring the read-only API of the owned histogram. The type is
/// `Copy`, so passing it around is cheap.
#[derive(Copy, Debug, PartialEq, Eq)]
pub struct SparseHistogramRefOf<'a, C: Count> {
    config: Config,
    index: &'a [u32],
    count: &'a [C],
}

/// A borrowed sparse histogram with `u64` counters.
pub type SparseHistogramRef<'a> = SparseHistogramRefOf<'a, u64>;

/// A borrowed sparse histogram with `u32` counters.
pub type SparseHistogram32Ref<'a> = SparseHistogramRefOf<'a, u32>;

impl<'a, C: Count> SparseHistogramRefOf<'a, C> {
    /// The view holds valid sparse parts.
    #[verifier::type_invariant]
    pub open spec fn wf(self) -> bool {
        sparse_parts_valid(self.spec_config(), self.spec_index(), self.spec_count())
    }

    /// The bucket configuration.
    pub closed spec fn spec_config(self) -> Config {
        self.config
    }

    /// The stored bucket indices.
    pub closed spec fn spec_index(self) -> Seq<u32> {
        self.index@
    }

    /// The stored counts.
    pub closed spec fn spec_count(self) -> Seq<C> {
        self.count@
    }

    /// Creates a borrowed view, validating all invariants.
    ///
    /// Returns the same errors as the owned `from_parts`.
    pub fn from_parts(config: Config, index: &'a [u32], count: &'a [C]) -> (r: Result<Self, Error>)
        ensures
            r is Ok <==> sparse_parts_valid(config, index@, count@),
            r is Err ==> r == Err::<Self, Error>(sparse_parts_error(config, index@, count@)->0),
            r matches Ok(h) ==> h.wf() && h.spec_config() == config && h.spec_index() == index@
                && h.spec_count() == count@,
    {
        match validate_sparse_parts(&config, index, count) {
            Ok(()) => Ok(SparseHistogramRefOf { config, index, count }),
            Err(e) => Err(e),
        }
    }

    /// Creates a borrowed view without validating invariants; the caller
    /// must supply parts that `from_parts` would accept.
    pub fn from_parts_unchecked(config: Config, index: &'a [u32], count: &'a [C]) -> (r: Self)
        requires
            sparse_parts_valid(config, index@, count@),
        ensures
            r.wf(),
            r.spec_config() == config,
            r.spec_index() == index@,
            r.spec_count() == count@,
    {
        SparseHistogramRefOf { config, index, count }
    }

    /// Returns the bucket configuration.
    pub fn config(&self) -> (r: Config)
        ensures
            r == self.spec_config(),
    {
        self.config
    }

    /// Returns a slice of the nonzero bucket indices.
    pub fn index(&self) -> (r: &'a [u32])
        ensures
            r@ == self.spec_index(),
    {
        self.index
    }

    /// Returns a slice of the bucket counts.
    pub fn count(&self) -> (r: &'a [C])
        ensures
            r@ == self.spec_count(),
    {
        self.count
    }

    /// Returns the number of nonzero buckets.
    pub fn len(&self) -> (r: usize)
        ensures
            r == self.spec_index().len(),
    {
        self.index.len()
    }

    /// Returns `true` if the histogram contains no observations.
    pub fn is_empty(&self) -> (r: bool)
        ensures
            r == (self.spec_index().len() == 0),
    {
        self.index.len() == 0
    }

    /// The number of stored buckets fits the configuration.
    proof fn lemma_len(self)
        requires
            self.wf(),
            self.spec_config().spec_total_buckets() <= u32::MAX,
        ensures
            self.spec_index().len() <= u32::MAX,
    {
        lemma_sorted_len_bound(self.spec_index(), self.spec_config().spec_total_buckets());
    }

    /// Stored entry `k`: its bucket range and count.
    fn bucket_at(&self, k: usize) -> (r: Bucket)
        requires
            k < self.spec_index().len(),
        ensures
            is_sparse_bucket(self.spec_config(), self.spec_index(), self.spec_count(), k as int, r),
    {
        proof {
            use_type_invariant(self);
            C::lemma_count_facts();
            assert(self.count@[k as int].spec_value() <= C::spec_max());
        }
        let b = self.index[k] as usize;
        Bucket::new(
            self.count[k].as_u128() as u64,
            self.config.index_to_lower_bound(b),
            self.config.index_to_upper_bound(b),
        )
    }

    /// The nonzero buckets, in ascending order, with their ranges and counts.
    pub fn buckets(&self) -> (r: Vec<Bucket>)
        ensures
            r@.len() == self.spec_index().len(),
            forall|k: int|
                0 <= k < r@.len() ==> is_sparse_bucket(
                    self.spec_config(),
                    self.spec_index(),
                    self.spec_count(),
                    k,
                    #[trigger] r@[k],
                ),
    {
        proof {
            use_type_invariant(self);
        }
        let n = self.index.len();
        let mut out: Vec<Bucket> = Vec::with_capacity(n);
        let mut k: usize = 0;
        while k < n
            invariant
                self.wf(),
                n == self.index@.len(),
                k <= n,
                out@.len() == k,
                forall|j: int|
                    0 <= j < k ==> is_sparse_bucket(self.config, self.index@, self.count@, j, #[trigger] out@[j]),
            decreases n - k,
        {
            out.push(self.bucket_at(k));
            k = k + 1;
        }
        out
    }

    /// Returns an iterator across the nonzero buckets, in ascending order.
    pub fn iter(&self) -> (r: std::vec::IntoIter<Bucket>)
        ensures
            into_iter_elts(r).len() == self.spec_index().len(),
            forall|k: int|
                0 <= k < into_iter_elts(r).len() ==> is_sparse_bucket(
                    self.spec_config(),
                    self.spec_index(),
                    self.spec_count(),
                    k,
                    #[trigger] into_iter_elts(r)[k],
                ),
    {
        let v = self.buckets();
        proof {
            broadcast use vstd::std_specs::vec::axiom_spec_into_iter;
        }
        v.into_iter()
    }

    /// Returns the total number of observations, widened to `u128`.
    pub fn total_count(&self) -> (r: u128)
        ensures
            r == count_sum(self.spec_count()),
    {
        proof {
            use_type_invariant(self);
            use_type_invariant(&self.config);
            self.config.lemma_total_bounds();
            self.lemma_len();
        }
        sum_counts(self.count)
    }

    /// Returns the first stored bucket (the minimum), or `None` when empty.
    pub fn min_bucket(&self) -> (r: Option<Bucket>)
        ensures
            r is None <==> self.spec_index().len() == 0,
            r matches Some(b) ==> is_sparse_bucket(
                self.spec_config(),
                self.spec_index(),
                self.spec_count(),
                0,
                b,
            ),
    {
        proof {
            use_type_invariant(self);
        }
        if self.index.len() == 0 {
            None
        } else {
            Some(self.bucket_at(0))
        }
    }

    /// Returns the last stored bucket (the maximum), or `None` when empty.
    pub fn max_bucket(&self) -> (r: Option<Bucket>)
        ensures
            r is None <==> self.spec_index().len() == 0,
            r matches Some(b) ==> is_sparse_bucket(
                self.spec_config(),
                self.spec_index(),
                self.spec_count(),
                self.spec_index().len() - 1,
                b,
            ),
    {
        proof {
            use_type_invariant(self);
        }
        if self.index.len() == 0 {
            None
        } else {
            Some(self.bucket_at(self.index.len() - 1))
        }
    }

    /// For each requested rank `k` (counting observations from one), the
    /// bucket that holds the `k`-th smallest observation, or `None` when the
    /// histogram holds fewer than `k` observations (or none at all).
    pub fn rank_buckets(&self, ranks: &[u128]) -> (r: Vec<Option<Bucket>>)
        ensures
            r@.len() == ranks@.len(),
            forall|k: int|
                0 <= k < ranks@.len() ==> ((self.spec_index().len() > 0 && ranks@[k] <= count_sum(
                    self.spec_count(),
                )) <==> #[trigger] r@[k] is Some),
            forall|k: int|
                0 <= k < ranks@.len() && #[trigger] r@[k] is Some ==> is_sparse_bucket(
                    self.spec_config(),
                    self.spec_index(),
                    self.spec_count(),
                    rank_position(self.spec_count(), ranks@[k] as nat),
                    r@[k]->0,
                ),
    {
        proof {
            use_type_invariant(self);
            use_type_invariant(&self.config);
            self.config.lemma_total_bounds();
            self.lemma_len();
        }
        let positions = rank_positions(self.count, ranks);
        let mut out: Vec<Option<Bucket>> = Vec::with_capacity(ranks.len());
        let mut k: usize = 0;
        while k < ranks.len()
            invariant
                self.wf(),
                positions@.len() == ranks@.len(),
                forall|m: int|
                    0 <= m < ranks@.len() ==> ((self.count@.len() > 0 && ranks@[m] <= count_sum(self.count@)) <==> #[trigger] positions@[m] is Some),
                forall|m: int|
                    0 <= m < ranks@.len() && #[trigger] positions@[m] is Some ==> positions@[m]->0 == rank_position(
                        self.count@,
                        ranks@[m] as nat,
                    ) && holds_rank(self.count@, positions@[m]->0 as int, ranks@[m] as nat),
                k <= ranks@.len(),
                out@.len() == k,
                forall|m: int|
                    0 <= m < k ==> (positions@[m] is Some <==> #[trigger] out@[m] is Some),
                forall|m: int|
                    0 <= m < k && #[trigger] out@[m] is Some ==> is_sparse_bucket(
                        self.config,
                        self.index@,
                        self.count@,
                        rank_position(self.count@, ranks@[m] as nat),
                        out@[m]->0,
                    ),
            decreases ranks@.len() - k,
        {
            let ghost before = out@;
            match positions[k] {
                Some(i) => {
                    out.push(Some(self.bucket_at(i)));
                },
                None => {
                    out.push(None);
                },
            }
            proof {
                assert forall|m: int| 0 <= m < k implies #[trigger] out@[m] == before[m] by {}
            }
            k = k + 1;
        }
        out
    }
}

impl<C: Count> SparseHistogramOf<C> {
    /// The stored parts are valid for the configuration.
    #[verifier::type_invariant]
    pub open spec fn wf(self) -> bool {
        sparse_parts_valid(self.spec_config(), self.spec_index(), self.spec_count())
    }

    /// The bucket configuration.
    pub closed spec fn spec_config(self) -> Config {
        self.config
    }

    /// The stored bucket indices.
    pub closed spec fn spec_index(self) -> Seq<u32> {
        self.index@
    }

    /// The stored counts.
    pub closed spec fn spec_count(self) -> Seq<C> {
        self.count@
    }

    /// The count the histogram holds for bucket `b` (zero when not stored).
    pub open spec fn spec_value_of(self, b: int) -> nat {
        sparse_value(self.spec_index(), self.spec_count(), b)
    }

    /// Construct a new, empty histogram from the provided parameters.
    ///
    /// Fails exactly as [`Config::new`] does.
    pub fn new(grouping_power: u8, max_value_power: u8) -> (r: Result<Self, Error>)
        ensures
            max_value_power > 64 ==> r == Err::<Self, Error>(Error::MaxPowerTooHigh),
            max_value_power <= 64 && grouping_power >= max_value_power ==> r == Err::<
                Self,
                Error,
            >(Error::MaxPowerTooLow),
            max_value_power <= 64 && grouping_power < max_value_power && !valid_geometry(
                grouping_power as nat,
                max_value_power as nat,
            ) ==> r == Err::<Self, Error>(Error::Overflow),
            valid_geometry(grouping_power as nat, max_value_power as nat) ==> (r matches Ok(h)
                && h.wf() && h.spec_config().spec_grouping_power() == grouping_power
                && h.spec_config().spec_max_value_power() == max_value_power
                && h.spec_index().len() == 0),
    {
        match Config::new(grouping_power, max_value_power) {
            Ok(config) => Ok(Self::with_config(&config)),
            Err(e) => Err(e),
        }
    }

    /// Creates a new, empty histogram using a provided [`Config`].
    pub fn with_config(config: &Config) -> (r: Self)
        ensures
            r.wf(),
            r.spec_config() == *config,
            r.spec_index().len() == 0,
            r.spec_count().len() == 0,
    {
        SparseHistogramOf { config: *config, index: Vec::new(), count: Vec::new() }
    }

    /// Creates a sparse histogram from its raw parts.
    ///
    /// Fails with `IncompatibleParameters` if `index` and `count` have
    /// different lengths, with `OutOfRange` at the first index that is not a
    /// bucket of `config`, and with `IncompatibleParameters` if the indices are
    /// not strictly ascending or a count is zero.
    pub fn from_parts(config: Config, index: Vec<u32>, count: Vec<C>) -> (r: Result<Self, Error>)
        ensures
            r is Ok <==> sparse_parts_valid(config, index@, count@),
            r is Err ==> r == Err::<Self, Error>(sparse_parts_error(config, index@, count@)->0),
            r matches Ok(h) ==> h.wf() && h.spec_config() == config && h.spec_index() == index@
                && h.spec_count() == count@,
    {
        match validate_sparse_parts(&config, index.as_slice(), count.as_slice()) {
            Ok(()) => Ok(SparseHistogramOf { config, index, count }),
            Err(e) => Err(e),
        }
    }

    /// A histogram over parts already known to be valid.
    pub(crate) fn from_valid_parts(config: Config, index: Vec<u32>, count: Vec<C>) -> (r: Self)
        requires
            sparse_parts_valid(config, index@, count@),
        ensures
            r.spec_config() == config,
            r.spec_index() == index@,
            r.spec_count() == count@,
    {
        SparseHistogramOf { config, index, count }
    }

    /// Consumes the histogram, returning the config, index, and count vectors.
    pub fn into_parts(self) -> (r: (Config, Vec<u32>, Vec<C>))
        ensures
            r.0 == self.spec_config(),
            r.1@ == self.spec_index(),
            r.2@ == self.spec_count(),
    {
        (self.config, self.index, self.count)
    }

    /// Returns the bucket configuration.
    pub fn config(&self) -> (r: Config)
        ensures
            r == self.spec_config(),
    {
        self.config
    }

    /// Returns a slice of the nonzero bucket indices.
    pub fn index(&self) -> (r: &[u32])
        ensures
            r@ == self.spec_index(),
    {
        self.index.as_slice()
    }

    /// Returns a slice of the bucket counts.
    pub fn count(&self) -> (r: &[C])
        ensures
            r@ == self.spec_count(),
    {
        self.count.as_slice()
    }

    /// Returns the number of nonzero buckets.
    pub fn len(&self) -> (r: usize)
        ensures
            r == self.spec_index().len(),
    {
        self.index.len()
    }

    /// Returns `true` if the histogram contains no observations.
    pub fn is_empty(&self) -> (r: bool)
        ensures
            r == (self.spec_index().len() == 0),
    {
        self.index.len() == 0
    }

    /// Adds the other histogram to this histogram and returns the result as a
    /// new histogram.
    ///
    /// Fails with `IncompatibleParameters` if the configurations differ and
    /// with `Overflow` if the counts of some bucket add up beyond the
    /// counter's limit.
    pub fn checked_add(&self, h: &Self) -> (r: Result<Self, Error>)
        ensures
            self.spec_config() != h.spec_config() ==> r == Err::<Self, Error>(
                Error::IncompatibleParameters,
            ),
            self.spec_config() == h.spec_config() ==> (r is Ok <==> forall|b: int|
                #[trigger] self.spec_value_of(b) + h.spec_value_of(b) <= C::spec_max()),
            self.spec_config() == h.spec_config() && r is Err ==> r == Err::<Self, Error>(
                Error::Overflow,
            ),
            r matches Ok(out) ==> out.spec_config() == self.spec_config() && forall|b: int|
                #[trigger] out.spec_value_of(b) == self.spec_value_of(b) + h.spec_value_of(b),
    {
        proof {
            use_type_invariant(self);
            use_type_invariant(h);
        }
        if self.config != h.config {
            return Err(Error::IncompatibleParameters);
        }
        let ghost (ai, ac, bi, bc) = (self.index@, self.count@, h.index@, h.count@);
        let ghost total = self.config.spec_total_buckets();
        let la = self.index.len();
        let lb = h.index.len();
        let mut index: Vec<u32> = Vec::new();
        let mut count: Vec<C> = Vec::new();
        let mut i: usize = 0;
        let mut j: usize = 0;
        while i < la && j < lb
            invariant
                sparse_parts_valid(self.config, ai, ac),
                sparse_parts_valid(self.config, bi, bc),
                self.config == h.config,
                total == self.config.spec_total_buckets(),
                ai == self.index@, ac == self.count@, bi == h.index@, bc == h.count@,
                la == ai.len(), lb == bi.len(),
                i <= la, j <= lb,
                sparse_parts_valid(self.config, index@, count@),
                forall|k: int| 0 <= k < index@.len() ==> (i < la ==> #[trigger] index@[k] < ai[i as int]) && (j < lb ==> index@[k] < bi[j as int]),
                forall|b: int| #[trigger] sparse_value(index@, count@, b) == sparse_value(ai.take(i as int), ac.take(i as int), b) + sparse_value(bi.take(j as int), bc.take(j as int), b),
                forall|b: int| sparse_value(index@, count@, b) <= C::spec_max(),
            decreases la - i + lb - j,
        {
            let k1 = self.index[i];
            let k2 = h.index[j];
            let v1 = self.count[i];
            let v2 = h.count[j];
            let ghost (i0, c0) = (index@, count@);
            proof {
                lemma_sparse_value_valid(self.config, i0, c0, k1 as int);
                lemma_sparse_value_valid(self.config, i0, c0, k2 as int);
            }
            if k1 == k2 {
                let v = match v1.checked_add(v2) {
                    Some(v) => v,
                    None => {
                        proof {
                            lemma_sparse_value_valid(self.config, ai, ac, k1 as int);
                            lemma_sparse_value_valid(self.config, bi, bc, k1 as int);
                            assert(self.spec_value_of(k1 as int) + h.spec_value_of(k1 as int) > C::spec_max());
                        }
                        return Err(Error::Overflow);
                    },
                };
                index.push(k1);
                count.push(v);
                proof {
                    assert forall|b: int| #[trigger] sparse_value(index@, count@, b) == sparse_value(ai.take(i + 1), ac.take(i + 1), b) + sparse_value(bi.take(j + 1), bc.take(j + 1), b) by {
                        lemma_sparse_value_push(i0, c0, k1, v, b);
                        lemma_sparse_value_take(ai, ac, i as int, b);
                        lemma_sparse_value_take(bi, bc, j as int, b);
                    }
                    assert(sparse_value(index@, count@, k1 as int) == v.spec_value()) by {
                        lemma_sparse_value_push(i0, c0, k1, v, k1 as int);
                    }
                    assert forall|b: int| sparse_value(index@, count@, b) <= C::spec_max() by {
                        lemma_sparse_value_push(i0, c0, k1, v, b);
                        C::lemma_count_facts();
                    }
                }
                i = i + 1;
                j = j + 1;
            } else if k1 < k2 {
                index.push(k1);
                count.push(v1);
                proof {
                    assert forall|b: int| #[trigger] sparse_value(index@, count@, b) == sparse_value(ai.take(i + 1), ac.take(i + 1), b) + sparse_value(bi.take(j as int), bc.take(j as int), b) by {
                        lemma_sparse_value_push(i0, c0, k1, v1, b);
                        lemma_sparse_value_take(ai, ac, i as int, b);
                    }
                    assert forall|b: int| sparse_value(index@, count@, b) <= C::spec_max() by {
                        lemma_sparse_value_push(i0, c0, k1, v1, b);
                        C::lemma_count_facts();
                    }
                }
                i = i + 1;
            } else {
                index.push(k2);
                count.push(v2);
                proof {
                    assert forall|b: int| #[trigger] sparse_value(index@, count@, b) == sparse_value(ai.take(i as int), ac.take(i as int), b) + sparse_value(bi.take(j + 1), bc.take(j + 1), b) by {
                        lemma_sparse_value_push(i0, c0, k2, v2, b);
                        lemma_sparse_value_take(bi, bc, j as int, b);
                    }
                    assert forall|b: int| sparse_value(index@, count@, b) <= C::spec_max() by {
                        lemma_sparse_value_push(i0, c0, k2, v2, b);
                        C::lemma_count_facts();
                    }
                }
                j = j + 1;
            }
        }
        while i < la
            invariant
                sparse_parts_valid(self.config, ai, ac),
                sparse_parts_valid(self.config, bi, bc),
                self.config == h.config,
                ai == self.index@, ac == self.count@, bi == h.index@, bc == h.count@,
                la == ai.len(), lb == bi.len(),
                i <= la, j <= lb,
                i < la ==> j == lb,
                sparse_parts_valid(self.config, index@, count@),
                forall|k: int| 0 <= k < index@.len() ==> (i < la ==> #[trigger] index@[k] < ai[i as int]) && (j < lb ==> index@[k] < bi[j as int]),
                forall|b: int| #[trigger] sparse_value(index@, count@, b) == sparse_value(ai.take(i as int), ac.take(i as int), b) + sparse_value(bi.take(j as int), bc.take(j as int), b),
                forall|b: int| sparse_value(index@, count@, b) <= C::spec_max(),
            decreases la - i,
        {
            let k1 = self.index[i];
            let v1 = self.count[i];
            let ghost (i0, c0) = (index@, count@);
            index.push(k1);
            count.push(v1);
            proof {
                lemma_sparse_value_valid(self.config, ai, ac, k1 as int);
                lemma_sparse_value_valid(self.config, i0, c0, k1 as int);
                assert forall|b: int| #[trigger] sparse_value(index@, count@, b) == sparse_value(ai.take(i + 1), ac.take(i + 1), b) + sparse_value(bi.take(j as int), bc.take(j as int), b) by {
                    lemma_sparse_value_push(i0, c0, k1, v1, b);
                    lemma_sparse_value_take(ai, ac, i as int, b);
                }
                assert forall|b: int| sparse_value(index@, count@, b) <= C::spec_max() by {
                    lemma_sparse_value_push(i0, c0, k1, v1, b);
                    C::lemma_count_facts();
                }
            }
            i = i + 1;
        }
        while j < lb
            invariant
                sparse_parts_valid(self.config, ai, ac),
                sparse_parts_valid(self.config, bi, bc),
                self.config == h.config,
                ai == self.index@, ac == self.count@, bi == h.index@, bc == h.count@,
                la == ai.len(), lb == bi.len(),
                i == la, j <= lb,
                sparse_parts_valid(self.config, index@, count@),
                forall|k: int| 0 <= k < index@.len() ==> (j < lb ==> #[trigger] index@[k] < bi[j as int]),
                forall|b: int| #[trigger] sparse_value(index@, count@, b) == sparse_value(ai.take(i as int), ac.take(i as int), b) + sparse_value(bi.take(j as int), bc.take(j as int), b),
                forall|b: int| sparse_value(index@, count@, b) <= C::spec_max(),
            decreases lb - j,
        {
            let k2 = h.index[j];
            let v2 = h.count[j];
            let ghost (i0, c0) = (index@, count@);
            index.push(k2);
            count.push(v2);
            proof {
                lemma_sparse_value_valid(self.config, bi, bc, k2 as int);
                lemma_sparse_value_valid(self.config, i0, c0, k2 as int);
                assert forall|b: int| #[trigger] sparse_value(index@, count@, b) == sparse_value(ai.take(i as int), ac.take(i as int), b) + sparse_value(bi.take(j + 1), bc.take(j + 1), b) by {
                    lemma_sparse_value_push(i0, c0, k2, v2, b);
                    lemma_sparse_value_take(bi, bc, j as int, b);
                }
                assert forall|b: int| sparse_value(index@, count@, b) <= C::spec_max() by {
                    lemma_sparse_value_push(i0, c0, k2, v2, b);
                    C::lemma_count_facts();
                }
            }
            j = j + 1;
        }
        proof {
            assert forall|b: int| #[trigger] sparse_value(index@, count@, b) == self.spec_value_of(b) + h.spec_value_of(b) by {
                lemma_sparse_value_take_all(ai, ac, b);
                lemma_sparse_value_take_all(bi, bc, b);
            }
            assert forall|b: int| #[trigger] self.spec_value_of(b) + h.spec_value_of(b) <= C::spec_max() by {
                assert(sparse_value(index@, count@, b) == self.spec_value_of(b) + h.spec_value_of(b));
            }
        }
        Ok(SparseHistogramOf { config: self.config, index, count })
    }

    /// Adds the other histogram to this histogram and returns the result as a
    /// new histogram. Buckets present in both are allowed to wrap; a bucket
    /// that wraps to zero is dropped.
    ///
    /// Fails with `IncompatibleParameters` if the configurations differ.
    pub fn wrapping_add(&self, h: &Self) -> (r: Result<Self, Error>)
        ensures
            self.spec_config() != h.spec_config() ==> r == Err::<Self, Error>(
                Error::IncompatibleParameters,
            ),
            self.spec_config() == h.spec_config() ==> r is Ok,
            r matches Ok(out) ==> out.spec_config() == self.spec_config() && forall|b: int|
                #[trigger] out.spec_value_of(b) == wrapped_sum(self.spec_value_of(b), h.spec_value_of(b), C::spec_max()),
    {
        proof {
            use_type_invariant(self);
            use_type_invariant(h);
            C::lemma_count_facts();
        }
        if self.config != h.config {
            return Err(Error::IncompatibleParameters);
        }
        let ghost (ai, ac, bi, bc) = (self.index@, self.count@, h.index@, h.count@);
        let la = self.index.len();
        let lb = h.index.len();
        let mut index: Vec<u32> = Vec::new();
        let mut count: Vec<C> = Vec::new();
        let mut i: usize = 0;
        let mut j: usize = 0;
        while i < la && j < lb
            invariant
                sparse_parts_valid(self.config, ai, ac),
                sparse_parts_valid(self.config, bi, bc),
                self.config == h.config,
                ai == self.index@, ac == self.count@, bi == h.index@, bc == h.count@,
                la == ai.len(), lb == bi.len(),
                i <= la, j <= lb,
                sparse_parts_valid(self.config, index@, count@),
                forall|k: int| 0 <= k < index@.len() ==> (i < la ==> #[trigger] index@[k] < ai[i as int]) && (j < lb ==> index@[k] < bi[j as int]),
                forall|k: int| 0 <= k < j ==> (i < la ==> #[trigger] bi[k] < ai[i as int]),
                forall|k: int| 0 <= k < i ==> (j < lb ==> #[trigger] ai[k] < bi[j as int]),
                forall|b: int| #[trigger] sparse_value(index@, count@, b) == wrapped_sum(sparse_value(ai.take(i as int), ac.take(i as int), b), sparse_value(bi.take(j as int), bc.take(j as int), b), C::spec_max()),
            decreases la - i + lb - j,
        {
            let k1 = self.index[i];
            let k2 = h.index[j];
            let v1 = self.count[i];
            let v2 = h.count[j];
            let ghost (i0, c0) = (index@, count@);
            proof {
                C::lemma_count_facts();
                lemma_sparse_value_valid(self.config, i0, c0, k1 as int);
                lemma_sparse_value_valid(self.config, i0, c0, k2 as int);
                lemma_sparse_value_prefix_below(self.config, ai, ac, i as int, k1 as int);
                lemma_sparse_value_prefix_below(self.config, bi, bc, j as int, k2 as int);
            }
            if k1 == k2 {
                let v = v1.wrapping_add(v2);
                if v.as_u128() != 0 {
                    index.push(k1);
                    count.push(v);
                }
                proof {
                    assert forall|b: int| #[trigger] sparse_value(index@, count@, b) == wrapped_sum(sparse_value(ai.take(i + 1), ac.take(i + 1), b), sparse_value(bi.take(j + 1), bc.take(j + 1), b), C::spec_max()) by {
                        if v.spec_value() != 0 {
                            lemma_sparse_value_push(i0, c0, k1, v, b);
                        }
                        lemma_sparse_value_take(ai, ac, i as int, b);
                        lemma_sparse_value_take(bi, bc, j as int, b);
                    }
                }
                i = i + 1;
                j = j + 1;
            } else if k1 < k2 {
                index.push(k1);
                count.push(v1);
                proof {
                    assert forall|k: int| 0 <= k < j implies #[trigger] bi[k] != k1 by {}
                    lemma_sparse_value_take_absent(self.config, bi, bc, j as int, k1 as int);
                    assert forall|b: int| #[trigger] sparse_value(index@, count@, b) == wrapped_sum(sparse_value(ai.take(i + 1), ac.take(i + 1), b), sparse_value(bi.take(j as int), bc.take(j as int), b), C::spec_max()) by {
                        lemma_sparse_value_push(i0, c0, k1, v1, b);
                        lemma_sparse_value_take(ai, ac, i as int, b);
                    }
                }
                i = i + 1;
            } else {
                index.push(k2);
                count.push(v2);
                proof {
                    assert forall|k: int| 0 <= k < i implies #[trigger] ai[k] != k2 by {}
                    lemma_sparse_value_take_absent(self.config, ai, ac, i as int, k2 as int);
                    assert forall|b: int| #[trigger] sparse_value(index@, count@, b) == wrapped_sum(sparse_value(ai.take(i as int), ac.take(i as int), b), sparse_value(bi.take(j + 1), bc.take(j + 1), b), C::spec_max()) by {
                        lemma_sparse_value_push(i0, c0, k2, v2, b);
                        lemma_sparse_value_take(bi, bc, j as int, b);
                    }
                }
                j = j + 1;
            }
        }
        while i < la
            invariant
                sparse_parts_valid(self.config, ai, ac),
                sparse_parts_valid(self.config, bi, bc),
                self.config == h.config,
                ai == self.index@, ac == self.count@, bi == h.index@, bc == h.count@,
                la == ai.len(), lb == bi.len(),
                i <= la, j <= lb,
                i < la ==> j == lb,
                sparse_parts_valid(self.config, index@, count@),
                forall|k: int| 0 <= k < index@.len() ==> (i < la ==> #[trigger] index@[k] < ai[i as int]) && (j < lb ==> index@[k] < bi[j as int]),
                forall|k: int| 0 <= k < j ==> (i < la ==> #[trigger] bi[k] < ai[i as int]),
                forall|b: int| #[trigger] sparse_value(index@, count@, b) == wrapped_sum(sparse_value(ai.take(i as int), ac.take(i as int), b), sparse_value(bi.take(j as int), bc.take(j as int), b), C::spec_max()),
            decreases la - i,
        {
            let k1 = self.index[i];
            let v1 = self.count[i];
            let ghost (i0, c0) = (index@, count@);
            index.push(k1);
            count.push(v1);
            proof {
                C::lemma_count_facts();
                lemma_sparse_value_valid(self.config, i0, c0, k1 as int);
                lemma_sparse_value_prefix_below(self.config, ai, ac, i as int, k1 as int);
                assert forall|k: int| 0 <= k < j implies #[trigger] bi[k] != k1 by {}
                lemma_sparse_value_take_absent(self.config, bi, bc, j as int, k1 as int);
                assert forall|b: int| #[trigger] sparse_value(index@, count@, b) == wrapped_sum(sparse_value(ai.take(i + 1), ac.take(i + 1), b), sparse_value(bi.take(j as int), bc.take(j as int), b), C::spec_max()) by {
                    lemma_sparse_value_push(i0, c0, k1, v1, b);
                    lemma_sparse_value_take(ai, ac, i as int, b);
                }
            }
            i = i + 1;
        }
        while j < lb
            invariant
                sparse_parts_valid(self.config, ai, ac),
                sparse_parts_valid(self.config, bi, bc),
                self.config == h.config,
                ai == self.index@, ac == self.count@, bi == h.index@, bc == h.count@,
                la == ai.len(), lb == bi.len(),
                i == la, j <= lb,
                sparse_parts_valid(self.config, index@, count@),
                forall|k: int| 0 <= k < index@.len() ==> (j < lb ==> #[trigger] index@[k] < bi[j as int]),
                forall|k: int| 0 <= k < i ==> (j < lb ==> #[trigger] ai[k] < bi[j as int]),
                forall|b: int| #[trigger] sparse_value(index@, count@, b) == wrapped_sum(sparse_value(ai.take(i as int), ac.take(i as int), b), sparse_value(bi.take(j as int), bc.take(j as int), b), C::spec_max()),
            decreases lb - j,
        {
            let k2 = h.index[j];
            let v2 = h.count[j];
            let ghost (i0, c0) = (index@, count@);
            index.push(k2);
            count.push(v2);
            proof {
                C::lemma_count_facts();
                lemma_sparse_value_valid(self.config, i0, c0, k2 as int);
                lemma_sparse_value_prefix_below(self.config, bi, bc, j as int, k2 as int);
                assert forall|k: int| 0 <= k < i implies #[trigger] ai[k] != k2 by {}
                lemma_sparse_value_take_absent(self.config, ai, ac, i as int, k2 as int);
                assert forall|b: int| #[trigger] sparse_value(index@, count@, b) == wrapped_sum(sparse_value(ai.take(i as int), ac.take(i as int), b), sparse_value(bi.take(j + 1), bc.take(j + 1), b), C::spec_max()) by {
                    lemma_sparse_value_push(i0, c0, k2, v2, b);
                    lemma_sparse_value_take(bi, bc, j as int, b);
                }
            }
            j = j + 1;
        }
        proof {
            assert forall|b: int| #[trigger] sparse_value(index@, count@, b) == wrapped_sum(self.spec_value_of(b), h.spec_value_of(b), C::spec_max()) by {
                lemma_sparse_value_take_all(ai, ac, b);
                lemma_sparse_value_take_all(bi, bc, b);
            }
        }
        Ok(SparseHistogramOf { config: self.config, index, count })
    }

    /// Subtracts the other histogram from this histogram and returns the
    /// result as a new histogram; buckets that reach zero are dropped.
    ///
    /// Fails with `IncompatibleParameters` if the configurations differ.
    /// Otherwise, at the first bucket where `h` holds more than this
    /// histogram, fails with `InvalidSubset` if this histogram does not store
    /// that bucket and with `Underflow` if it does.
    pub fn checked_sub(&self, h: &Self) -> (r: Result<Self, Error>)
        ensures
            self.spec_config() != h.spec_config() ==> r == Err::<Self, Error>(
                Error::IncompatibleParameters,
            ),
            self.spec_config() == h.spec_config() ==> (r is Ok <==> forall|b: int|
                #[trigger] h.spec_value_of(b) <= self.spec_value_of(b)),
            self.spec_config() == h.spec_config() && r is Err ==> exists|b: int|
                first_excess(*self, *h, b) && r == Err::<Self, Error>(
                    if self.spec_value_of(b) == 0 {
                        Error::InvalidSubset
                    } else {
                        Error::Underflow
                    },
                ),
            r matches Ok(out) ==> out.spec_config() == self.spec_config() && forall|b: int|
                #[trigger] out.spec_value_of(b) == self.spec_value_of(b) - h.spec_value_of(b),
    {
        proof {
            use_type_invariant(self);
            use_type_invariant(h);
            C::lemma_count_facts();
        }
        if self.config != h.config {
            return Err(Error::IncompatibleParameters);
        }
        let ghost (ai, ac, bi, bc) = (self.index@, self.count@, h.index@, h.count@);
        let la = self.index.len();
        let lb = h.index.len();
        let mut index: Vec<u32> = Vec::new();
        let mut count: Vec<C> = Vec::new();
        let mut i: usize = 0;
        let mut j: usize = 0;
        proof {
            assert forall|b: int| (0 < la ==> b < ai[0]) && (0 < lb ==> b < bi[0]) implies #[trigger] sparse_value(bi, bc, b) <= sparse_value(ai, ac, b) by {
                assert forall|k: int| 0 <= k < lb implies #[trigger] bi[k] != b by {
                    if k > 0 {
                        assert(bi[0] < bi[k]);
                    }
                }
                lemma_sparse_value_valid(self.config, bi, bc, b);
            }
        }
        while i < la && j < lb
            invariant
                sparse_parts_valid(self.config, ai, ac),
                sparse_parts_valid(self.config, bi, bc),
                self.config == h.config,
                ai == self.index@, ac == self.count@, bi == h.index@, bc == h.count@,
                la == ai.len(), lb == bi.len(),
                i <= la, j <= lb,
                sparse_parts_valid(self.config, index@, count@),
                forall|k: int| 0 <= k < index@.len() ==> (i < la ==> #[trigger] index@[k] < ai[i as int]) && (j < lb ==> index@[k] < bi[j as int]),
                forall|k: int| 0 <= k < j ==> (i < la ==> #[trigger] bi[k] < ai[i as int]),
                forall|k: int| 0 <= k < i ==> (j < lb ==> #[trigger] ai[k] < bi[j as int]),
                forall|b: int| #[trigger] sparse_value(index@, count@, b) == sparse_value(ai.take(i as int), ac.take(i as int), b) - sparse_value(bi.take(j as int), bc.take(j as int), b),
                forall|b: int| (i < la ==> b < ai[i as int]) && (j < lb ==> b < bi[j as int]) ==> #[trigger] sparse_value(bi, bc, b) <= sparse_value(ai, ac, b),
            decreases la - i + lb - j,
        {
            let k1 = self.index[i];
            let k2 = h.index[j];
            let v1 = self.count[i];
            let v2 = h.count[j];
            let ghost (i0, c0) = (index@, count@);
            proof {
                C::lemma_count_facts();
                lemma_sparse_value_valid(self.config, i0, c0, k1 as int);
                lemma_sparse_value_valid(self.config, i0, c0, k2 as int);
                lemma_sparse_value_valid(self.config, ai, ac, k1 as int);
                lemma_sparse_value_valid(self.config, bi, bc, k2 as int);
                lemma_sparse_value_prefix_below(self.config, ai, ac, i as int, k1 as int);
                lemma_sparse_value_prefix_below(self.config, bi, bc, j as int, k2 as int);
            }
            if k1 == k2 {
                let v = match v1.checked_sub(v2) {
                    Some(v) => v,
                    None => {
                        proof {
                            assert(first_excess(*self, *h, k1 as int));
                        }
                        return Err(Error::Underflow);
                    },
                };
                if v.as_u128() != 0 {
                    index.push(k1);
                    count.push(v);
                }
                proof {
                    assert forall|b: int| #[trigger] sparse_value(index@, count@, b) == sparse_value(ai.take(i + 1), ac.take(i + 1), b) - sparse_value(bi.take(j + 1), bc.take(j + 1), b) by {
                        if v.spec_value() != 0 {
                            lemma_sparse_value_push(i0, c0, k1, v, b);
                        }
                        lemma_sparse_value_take(ai, ac, i as int, b);
                        lemma_sparse_value_take(bi, bc, j as int, b);
                    }
                    assert forall|b: int| (i + 1 < la ==> b < ai[i + 1]) && (j + 1 < lb ==> b < bi[j + 1]) implies #[trigger] sparse_value(bi, bc, b) <= sparse_value(ai, ac, b) by {
                        if b >= k1 && b != k1 {
                            assert forall|k: int| 0 <= k < lb implies #[trigger] bi[k] != b by {
                                if k < j {
                                } else if k > j {
                                    assert(bi[j + 1] <= bi[k]);
                                }
                            }
                            lemma_sparse_value_valid(self.config, bi, bc, b);
                        }
                    }
                }
                i = i + 1;
                j = j + 1;
            } else if k1 < k2 {
                index.push(k1);
                count.push(v1);
                proof {
                    assert forall|k: int| 0 <= k < j implies #[trigger] bi[k] != k1 by {}
                    lemma_sparse_value_take_absent(self.config, bi, bc, j as int, k1 as int);
                    assert forall|b: int| #[trigger] sparse_value(index@, count@, b) == sparse_value(ai.take(i + 1), ac.take(i + 1), b) - sparse_value(bi.take(j as int), bc.take(j as int), b) by {
                        lemma_sparse_value_push(i0, c0, k1, v1, b);
                        lemma_sparse_value_take(ai, ac, i as int, b);
                    }
                    assert forall|b: int| (i + 1 < la ==> b < ai[i + 1]) && (j < lb ==> b < bi[j as int]) implies #[trigger] sparse_value(bi, bc, b) <= sparse_value(ai, ac, b) by {
                        if b >= k1 {
                            assert forall|k: int| 0 <= k < lb implies #[trigger] bi[k] != b by {
                                if k > j {
                                    assert(bi[j as int] <= bi[k]);
                                }
                            }
                            lemma_sparse_value_valid(self.config, bi, bc, b);
                        }
                    }
                }
                i = i + 1;
            } else {
                proof {
                    assert forall|k: int| 0 <= k < la implies #[trigger] ai[k] != k2 by {
                        if k > i {
                            assert(ai[i as int] <= ai[k]);
                        }
                    }
                    lemma_sparse_value_valid(self.config, ai, ac, k2 as int);
                    lemma_sparse_value_valid(self.config, bi, bc, k2 as int);
                    assert(bc[j as int].spec_value() != 0);
                    assert forall|b2: int| b2 < k2 implies #[trigger] h.spec_value_of(b2) <= self.spec_value_of(b2) by {
                        assert(sparse_value(bi, bc, b2) <= sparse_value(ai, ac, b2));
                    }
                    assert(first_excess(*self, *h, k2 as int));
                }
                return Err(Error::InvalidSubset);
            }
        }
        if j < lb {
            proof {
                let k2 = bi[j as int];
                assert forall|k: int| 0 <= k < la implies #[trigger] ai[k] != k2 by {}
                lemma_sparse_value_valid(self.config, ai, ac, k2 as int);
                lemma_sparse_value_valid(self.config, bi, bc, k2 as int);
                assert(bc[j as int].spec_value() != 0);
                assert(first_excess(*self, *h, k2 as int));
            }
            return Err(Error::InvalidSubset);
        }
        while i < la
            invariant
                sparse_parts_valid(self.config, ai, ac),
                sparse_parts_valid(self.config, bi, bc),
                self.config == h.config,
                ai == self.index@, ac == self.count@, bi == h.index@, bc == h.count@,
                la == ai.len(), lb == bi.len(),
                i <= la, j == lb,
                sparse_parts_valid(self.config, index@, count@),
                forall|k: int| 0 <= k < index@.len() ==> (i < la ==> #[trigger] index@[k] < ai[i as int]),
                forall|k: int| 0 <= k < j ==> (i < la ==> #[trigger] bi[k] < ai[i as int]),
                forall|b: int| #[trigger] sparse_value(index@, count@, b) == sparse_value(ai.take(i as int), ac.take(i as int), b) - sparse_value(bi.take(j as int), bc.take(j as int), b),
                forall|b: int| (i < la ==> b < ai[i as int]) ==> #[trigger] sparse_value(bi, bc, b) <= sparse_value(ai, ac, b),
            decreases la - i,
        {
            let k1 = self.index[i];
            let v1 = self.count[i];
            let ghost (i0, c0) = (index@, count@);
            index.push(k1);
            count.push(v1);
            proof {
                C::lemma_count_facts();
                lemma_sparse_value_valid(self.config, i0, c0, k1 as int);
                lemma_sparse_value_prefix_below(self.config, ai, ac, i as int, k1 as int);
                assert forall|k: int| 0 <= k < j implies #[trigger] bi[k] != k1 by {}
                lemma_sparse_value_take_absent(self.config, bi, bc, j as int, k1 as int);
                assert forall|b: int| #[trigger] sparse_value(index@, count@, b) == sparse_value(ai.take(i + 1), ac.take(i + 1), b) - sparse_value(bi.take(j as int), bc.take(j as int), b) by {
                    lemma_sparse_value_push(i0, c0, k1, v1, b);
                    lemma_sparse_value_take(ai, ac, i as int, b);
                }
                assert forall|b: int| (i + 1 < la ==> b < ai[i + 1]) implies #[trigger] sparse_value(bi, bc, b) <= sparse_value(ai, ac, b) by {
                    if b >= k1 {
                        assert forall|k: int| 0 <= k < lb implies #[trigger] bi[k] != b by {}
                        lemma_sparse_value_valid(self.config, bi, bc, b);
                    }
                }
            }
            i = i + 1;
        }
        proof {
            assert forall|b: int| #[trigger] sparse_value(index@, count@, b) == self.spec_value_of(b) - h.spec_value_of(b) by {
                lemma_sparse_value_take_all(ai, ac, b);
                lemma_sparse_value_take_all(bi, bc, b);
            }
            assert forall|b: int| #[trigger] h.spec_value_of(b) <= self.spec_value_of(b) by {
                assert(sparse_value(bi, bc, b) <= sparse_value(ai, ac, b));
            }
        }
        Ok(SparseHistogramOf { config: self.config, index, count })
    }

    /// Subtracts the other histogram from this histogram and returns the
    /// result as a new histogram. Buckets are allowed to wrap on underflow; a
    /// bucket that reaches zero is dropped.
    ///
    /// Fails with `IncompatibleParameters` if the configurations differ, and
    /// with `InvalidSubset` if `h` stores a bucket that this histogram does not.
    pub fn wrapping_sub(&self, h: &Self) -> (r: Result<Self, Error>)
        ensures
            self.spec_config() != h.spec_config() ==> r == Err::<Self, Error>(
                Error::IncompatibleParameters,
            ),
            self.spec_config() == h.spec_config() ==> (r is Ok <==> stored_subset(*self, *h)),
            self.spec_config() == h.spec_config() && r is Err ==> r == Err::<Self, Error>(
                Error::InvalidSubset,
            ),
            r matches Ok(out) ==> out.spec_config() == self.spec_config() && forall|b: int|
                #[trigger] out.spec_value_of(b) == wrapped_difference(self.spec_value_of(b), h.spec_value_of(b), C::spec_max()),
    {
        proof {
            use_type_invariant(self);
            use_type_invariant(h);
            C::lemma_count_facts();
        }
        if self.config != h.config {
            return Err(Error::IncompatibleParameters);
        }
        let ghost (ai, ac, bi, bc) = (self.index@, self.count@, h.index@, h.count@);
        let la = self.index.len();
        let lb = h.index.len();
        let mut index: Vec<u32> = Vec::new();
        let mut count: Vec<C> = Vec::new();
        let mut i: usize = 0;
        let mut j: usize = 0;
        while i < la && j < lb
            invariant
                sparse_parts_valid(self.config, ai, ac),
                sparse_parts_valid(self.config, bi, bc),
                self.config == h.config,
                ai == self.index@, ac == self.count@, bi == h.index@, bc == h.count@,
                la == ai.len(), lb == bi.len(),
                i <= la, j <= lb,
                sparse_parts_valid(self.config, index@, count@),
                forall|k: int| 0 <= k < index@.len() ==> (i < la ==> #[trigger] index@[k] < ai[i as int]) && (j < lb ==> index@[k] < bi[j as int]),
                forall|k: int| 0 <= k < j ==> (i < la ==> #[trigger] bi[k] < ai[i as int]),
                forall|k: int| 0 <= k < i ==> (j < lb ==> #[trigger] ai[k] < bi[j as int]),
                forall|k: int| 0 <= k < j ==> #[trigger] sparse_value(ai, ac, bi[k] as int) != 0,
                forall|b: int| #[trigger] sparse_value(index@, count@, b) == wrapped_difference(sparse_value(ai.take(i as int), ac.take(i as int), b), sparse_value(bi.take(j as int), bc.take(j as int), b), C::spec_max()),
            decreases la - i + lb - j,
        {
            let k1 = self.index[i];
            let k2 = h.index[j];
            let v1 = self.count[i];
            let v2 = h.count[j];
            let ghost (i0, c0) = (index@, count@);
            proof {
                C::lemma_count_facts();
                lemma_sparse_value_valid(self.config, i0, c0, k1 as int);
                lemma_sparse_value_valid(self.config, i0, c0, k2 as int);
                lemma_sparse_value_valid(self.config, ai, ac, k1 as int);
                lemma_sparse_value_valid(self.config, bi, bc, k2 as int);
                lemma_sparse_value_prefix_below(self.config, ai, ac, i as int, k1 as int);
                lemma_sparse_value_prefix_below(self.config, bi, bc, j as int, k2 as int);
            }
            if k1 == k2 {
                let v = v1.wrapping_sub(v2);
                if v.as_u128() != 0 {
                    index.push(k1);
                    count.push(v);
                }
                proof {
                    assert forall|b: int| #[trigger] sparse_value(index@, count@, b) == wrapped_difference(sparse_value(ai.take(i + 1), ac.take(i + 1), b), sparse_value(bi.take(j + 1), bc.take(j + 1), b), C::spec_max()) by {
                        if v.spec_value() != 0 {
                            lemma_sparse_value_push(i0, c0, k1, v, b);
                        }
                        lemma_sparse_value_take(ai, ac, i as int, b);
                        lemma_sparse_value_take(bi, bc, j as int, b);
                    }
                }
                i = i + 1;
                j = j + 1;
            } else if k1 < k2 {
                index.push(k1);
                count.push(v1);
                proof {
                    assert forall|k: int| 0 <= k < j implies #[trigger] bi[k] != k1 by {}
                    lemma_sparse_value_take_absent(self.config, bi, bc, j as int, k1 as int);
                    assert forall|b: int| #[trigger] sparse_value(index@, count@, b) == wrapped_difference(sparse_value(ai.take(i + 1), ac.take(i + 1), b), sparse_value(bi.take(j as int), bc.take(j as int), b), C::spec_max()) by {
                        lemma_sparse_value_push(i0, c0, k1, v1, b);
                        lemma_sparse_value_take(ai, ac, i as int, b);
                    }
                }
                i = i + 1;
            } else {
                proof {
                    assert forall|k: int| 0 <= k < la implies #[trigger] ai[k] != k2 by {
                        if k > i {
                            assert(ai[i as int] <= ai[k]);
                        }
                    }
                    lemma_sparse_value_valid(self.config, ai, ac, k2 as int);
                    assert(h.spec_value_of(k2 as int) != 0 && self.spec_value_of(k2 as int) == 0);
                }
                return Err(Error::InvalidSubset);
            }
        }
        if j < lb {
            proof {
                let k2 = bi[j as int];
                assert forall|k: int| 0 <= k < la implies #[trigger] ai[k] != k2 by {}
                lemma_sparse_value_valid(self.config, ai, ac, k2 as int);
                lemma_sparse_value_valid(self.config, bi, bc, k2 as int);
                assert(bc[j as int].spec_value() != 0);
                assert(h.spec_value_of(k2 as int) != 0 && self.spec_value_of(k2 as int) == 0);
            }
            return Err(Error::InvalidSubset);
        }
        while i < la
            invariant
                sparse_parts_valid(self.config, ai, ac),
                sparse_parts_valid(self.config, bi, bc),
                self.config == h.config,
                ai == self.index@, ac == self.count@, bi == h.index@, bc == h.count@,
                la == ai.len(), lb == bi.len(),
                i <= la, j == lb,
                sparse_parts_valid(self.config, index@, count@),
                forall|k: int| 0 <= k < index@.len() ==> (i < la ==> #[trigger] index@[k] < ai[i as int]),
                forall|k: int| 0 <= k < j ==> (i < la ==> #[trigger] bi[k] < ai[i as int]),
                forall|k: int| 0 <= k < j ==> #[trigger] sparse_value(ai, ac, bi[k] as int) != 0,
                forall|b: int| #[trigger] sparse_value(index@, count@, b) == wrapped_difference(sparse_value(ai.take(i as int), ac.take(i as int), b), sparse_value(bi.take(j as int), bc.take(j as int), b), C::spec_max()),
            decreases la - i,
        {
            let k1 = self.index[i];
            let v1 = self.count[i];
            let ghost (i0, c0) = (index@, count@);
            index.push(k1);
            count.push(v1);
            proof {
                C::lemma_count_facts();
                lemma_sparse_value_valid(self.config, i0, c0, k1 as int);
                lemma_sparse_value_prefix_below(self.config, ai, ac, i as int, k1 as int);
                assert forall|k: int| 0 <= k < j implies #[trigger] bi[k] != k1 by {}
                lemma_sparse_value_take_absent(self.config, bi, bc, j as int, k1 as int);
                assert forall|b: int| #[trigger] sparse_value(index@, count@, b) == wrapped_difference(sparse_value(ai.take(i + 1), ac.take(i + 1), b), sparse_value(bi.take(j as int), bc.take(j as int), b), C::spec_max()) by {
                    lemma_sparse_value_push(i0, c0, k1, v1, b);
                    lemma_sparse_value_take(ai, ac, i as int, b);
                }
            }
            i = i + 1;
        }
        proof {
            assert forall|b: int| #[trigger] sparse_value(index@, count@, b) == wrapped_difference(self.spec_value_of(b), h.spec_value_of(b), C::spec_max()) by {
                lemma_sparse_value_take_all(ai, ac, b);
                lemma_sparse_value_take_all(bi, bc, b);
            }
            assert forall|b: int| #[trigger] h.spec_value_of(b) != 0 implies self.spec_value_of(b) != 0 by {
                lemma_sparse_value_lookup(bi, bc, b);
                if forall|k: int| 0 <= k < lb ==> #[trigger] bi[k] != b {
                } else {
                    let k = choose|k: int| 0 <= k < lb && bi[k] == b;
                    assert(sparse_value(ai, ac, bi[k] as int) != 0);
                }
            }
        }
        Ok(SparseHistogramOf { config: self.config, index, count })
    }

    /// Returns a new histogram with a reduced grouping power.
    ///
    /// Fails with `IncompatibleParameters` unless `grouping_power` is less
    /// than the current grouping power. Every stored bucket's count moves into
    /// the bucket of the new layout that holds the old bucket's lower bound;
    /// counts meeting in one bucket add up, wrapping at the counter's limit,
    /// and a bucket that wraps to zero is dropped.
    pub fn downsample(&self, grouping_power: u8) -> (r: Result<Self, Error>)
        ensures
            grouping_power >= self.spec_config().spec_grouping_power() ==> r == Err::<
                Self,
                Error,
            >(Error::IncompatibleParameters),
            grouping_power < self.spec_config().spec_grouping_power() ==> (r matches Ok(out)
                && out.spec_config().spec_grouping_power() == grouping_power
                && out.spec_config().spec_max_value_power()
                == self.spec_config().spec_max_value_power() && forall|j: int|
                0 <= j ==> #[trigger] out.spec_value_of(j) == sparse_grouped_sum(
                self.spec_index(),
                self.spec_count(),
                downsample_target(self.spec_config().spec_grouping_power(), grouping_power as nat),
                j as nat,
                self.spec_index().len() as int,
            ) % (C::spec_max() + 1)),
    {
        proof {
            use_type_invariant(self);
            C::lemma_count_facts();
        }
        let old_gp = self.config.grouping_power();
        if grouping_power >= old_gp {
            return Err(Error::IncompatibleParameters);
        }
        let mvp = self.config.max_value_power();
        proof {
            use_type_invariant(&self.config);
            self.config.lemma_total_bounds();
            lemma_bucket_total_monotone(grouping_power as nat, old_gp as nat, mvp as nat);
        }
        let config = match Config::new(grouping_power, mvp) {
            Ok(config) => config,
            Err(e) => {
                return Err(e);
            },
        };
        proof {
            use_type_invariant(&config);
            config.lemma_total_bounds();
        }
        let ghost (ai, ac) = (self.index@, self.count@);
        let ghost target = downsample_target(old_gp as nat, grouping_power as nat);
        let ghost m = C::spec_max() + 1;
        let n = self.index.len();
        let mut index: Vec<u32> = Vec::new();
        let mut count: Vec<C> = Vec::new();
        let mut agg_idx: u32 = 0;
        let mut agg_count: C = C::ZERO;
        let mut k: usize = 0;
        proof {
            C::lemma_count_facts();
            vstd::arithmetic::div_mod::lemma_small_mod(0, m);
        }
        while k < n
            invariant
                sparse_parts_valid(self.config, ai, ac),
                ai == self.index@, ac == self.count@,
                n == ai.len(),
                old_gp == self.config.spec_grouping_power(),
                mvp == self.config.spec_max_value_power(),
                old_gp < mvp,
                grouping_power < old_gp,
                config.spec_grouping_power() == grouping_power,
                config.spec_max_value_power() == mvp,
                target == downsample_target(old_gp as nat, grouping_power as nat),
                m == C::spec_max() + 1,
                k <= n,
                agg_idx < config.spec_total_buckets(),
                sparse_parts_valid(config, index@, count@),
                forall|l: int| 0 <= l < index@.len() ==> #[trigger] index@[l] < agg_idx,
                forall|l: int| 0 <= l < k ==> #[trigger] target(ai[l] as int) <= agg_idx,
                k > 0 ==> target(ai[k - 1] as int) == agg_idx,
                k == 0 ==> agg_idx == 0,
                agg_count.spec_value() == sparse_grouped_sum(ai, ac, target, agg_idx as nat, k as int) % m,
                forall|b: int| 0 <= b < agg_idx ==> #[trigger] sparse_value(index@, count@, b) == sparse_grouped_sum(ai, ac, target, b as nat, k as int) % m,
                forall|b: int| b >= agg_idx ==> #[trigger] sparse_value(index@, count@, b) == 0,
                forall|b: int| b > agg_idx ==> #[trigger] sparse_grouped_sum(ai, ac, target, b as nat, k as int) == 0,
            decreases n - k,
        {
            let old_index = self.index[k];
            let c = self.count[k];
            proof {
                C::lemma_count_facts();
                lemma_lower_in_range(old_gp as nat, mvp as nat, old_index as nat);
            }
            let lower = self.config.index_to_lower_bound(old_index as usize);
            let new_idx = match config.value_to_index(lower) {
                Ok(i) => i as u32,
                Err(e) => {
                    return Err(e);
                },
            };
            proof {
                assert(new_idx == target(old_index as int));
                if k > 0 {
                    // Indices ascend, so their targets never go back.
                    assert(ai[k - 1] < ai[k as int]);
                    lemma_lower_strictly_increases(old_gp as nat, ai[k - 1] as nat, old_index as nat);
                    lemma_bucket_of_monotone(grouping_power as nat, bucket_lower(old_gp as nat, ai[k - 1] as nat), lower as nat);
                    assert(target(ai[k - 1] as int) == bucket_of(grouping_power as nat, bucket_lower(old_gp as nat, ai[k - 1] as nat)));
                }
                assert(new_idx >= agg_idx);
                assert forall|b: nat| true implies #[trigger] sparse_grouped_sum(ai, ac, target, b, k + 1) == sparse_grouped_sum(ai, ac, target, b, k as int) + if new_idx == b { c.spec_value() } else { 0 } by {
                }
            }
            if new_idx == agg_idx {
                proof {
                    lemma_wrapped_mod_step(sparse_grouped_sum(ai, ac, target, agg_idx as nat, k as int), c.spec_value(), C::spec_max());
                }
                agg_count = agg_count.wrapping_add(c);
            } else {
                let ghost (i0, c0) = (index@, count@);
                if agg_count.as_u128() != 0 {
                    index.push(agg_idx);
                    count.push(agg_count);
                }
                proof {
                    assert forall|b: int| 0 <= b < new_idx implies #[trigger] sparse_value(index@, count@, b) == sparse_grouped_sum(ai, ac, target, b as nat, k + 1) % m by {
                        if agg_count.spec_value() != 0 {
                            lemma_sparse_value_push(i0, c0, agg_idx, agg_count, b);
                        }
                        if b > agg_idx {
                            vstd::arithmetic::div_mod::lemma_small_mod(0, m);
                        }
                    }
                    assert forall|b: int| b >= new_idx implies #[trigger] sparse_value(index@, count@, b) == 0 by {
                        if agg_count.spec_value() != 0 {
                            lemma_sparse_value_push(i0, c0, agg_idx, agg_count, b);
                        }
                    }
                    vstd::arithmetic::div_mod::lemma_small_mod(c.spec_value(), m);
                    let ghost ni: int = new_idx as int;
                    assert(ni > agg_idx);
                    assert(sparse_grouped_sum(ai, ac, target, ni as nat, k as int) == 0);
                    assert(sparse_grouped_sum(ai, ac, target, new_idx as nat, k + 1) == c.spec_value());
                }
                agg_idx = new_idx;
                agg_count = c;
            }
            k = k + 1;
        }
        let ghost (i0, c0) = (index@, count@);
        if agg_count.as_u128() != 0 {
            index.push(agg_idx);
            count.push(agg_count);
        }
        proof {
            assert forall|j: int| 0 <= j implies #[trigger] sparse_value(index@, count@, j) == sparse_grouped_sum(ai, ac, target, j as nat, n as int) % m by {
                if agg_count.spec_value() != 0 {
                    lemma_sparse_value_push(i0, c0, agg_idx, agg_count, j);
                }
                if j > agg_idx {
                    vstd::arithmetic::div_mod::lemma_small_mod(0, m);
                }
            }
        }
        Ok(SparseHistogramOf { config, index, count })
    }

    /// Returns a borrowed view over this histogram's storage.
    pub fn as_ref(&self) -> (r: SparseHistogramRefOf<'_, C>)
        ensures
            r.spec_config() == self.spec_config(),
            r.spec_index() == self.spec_index(),
            r.spec_count() == self.spec_count(),
            self.wf() ==> r.wf(),
    {
        proof {
            use_type_invariant(self);
        }
        SparseHistogramRefOf { config: self.config, index: self.index.as_slice(), count: self.count.as_slice() }
    }

    /// The nonzero buckets, in ascending order, with their ranges and counts.
    pub fn buckets(&self) -> (r: Vec<Bucket>)
        ensures
            r@.len() == self.spec_index().len(),
            forall|k: int|
                0 <= k < r@.len() ==> is_sparse_bucket(
                    self.spec_config(),
                    self.spec_index(),
                    self.spec_count(),
                    k,
                    #[trigger] r@[k],
                ),
    {
        proof {
            use_type_invariant(self);
        }
        self.as_ref().buckets()
    }

    /// Returns an iterator across the nonzero buckets, in ascending order.
    pub fn iter(&self) -> (r: std::vec::IntoIter<Bucket>)
        ensures
            into_iter_elts(r).len() == self.spec_index().len(),
            forall|k: int|
                0 <= k < into_iter_elts(r).len() ==> is_sparse_bucket(
                    self.spec_config(),
                    self.spec_index(),
                    self.spec_count(),
                    k,
                    #[trigger] into_iter_elts(r)[k],
                ),
    {
        let v = self.buckets();
        proof {
            broadcast use vstd::std_specs::vec::axiom_spec_into_iter;
        }
        v.into_iter()
    }
}

impl<'a, C: Count> Clone for SparseHistogramRefOf<'a, C> {
    /// The same view.
    fn clone(&self) -> (r: Self)
        ensures
            r == *self,
    {
        *self
    }
}

impl<C: Count> Clone for SparseHistogramOf<C> {
    /// A histogram with the same configuration and entries.
    fn clone(&self) -> (r: Self)
        ensures
            r.spec_config() == self.spec_config(),
            r.spec_index() == self.spec_index(),
            r.spec_count() == self.spec_count(),
    {
        proof {
            use_type_invariant(self);
        }
        let index = copy_slice(self.index.as_slice());
        let count = copy_slice(self.count.as_slice());
        SparseHistogramOf { config: self.config, index, count }
    }
}

impl<C: Count> From<&HistogramOf<C>> for SparseHistogramOf<C> {
    /// The nonzero buckets of a dense histogram, in ascending order.
    fn from(histogram: &HistogramOf<C>) -> (r: Self)
        ensures
            r.spec_config() == histogram.spec_config(),
            histogram.wf() ==> forall|b: int| 0 <= b < histogram.spec_counts().len() ==> #[trigger] r.spec_value_of(b) == histogram.spec_counts()[b].spec_value(),
    {
        let counts = histogram.as_slice();
        let config = histogram.config();
        proof {
            use_type_invariant(&config);
            config.lemma_total_bounds();
        }
        let total = config.total_buckets();
        let n = if counts.len() < total {
            counts.len()
        } else {
            total
        };
        let mut index: Vec<u32> = Vec::new();
        let mut count: Vec<C> = Vec::new();
        let mut i: usize = 0;
        while i < n
            invariant
                n <= counts@.len(),
                n <= total,
                counts@ == histogram.spec_counts(),
                total == config.spec_total_buckets(),
                histogram.wf() ==> n == counts@.len(),
                total <= u32::MAX,
                i <= n,
                index@.len() == count@.len(),
                forall|k: int| 0 <= k < index@.len() ==> #[trigger] index@[k] < i,
                forall|k: int, l: int| #![trigger index@[k], index@[l]] 0 <= k < l < index@.len() ==> index@[k] < index@[l],
                forall|k: int| 0 <= k < count@.len() ==> #[trigger] count@[k].spec_value() != 0,
                forall|b: int| 0 <= b < i ==> #[trigger] sparse_value(index@, count@, b) == counts@[b].spec_value(),
                forall|b: int| i <= b ==> #[trigger] sparse_value(index@, count@, b) == 0,
            decreases n - i,
        {
            if counts[i].as_u128() != 0 {
                let ghost (i0, c0) = (index@, count@);
                index.push(i as u32);
                count.push(counts[i]);
                proof {
                    assert forall|b: int| true implies #[trigger] sparse_value(index@, count@, b) == sparse_value(i0, c0, b) + if i == b { counts@[i as int].spec_value() } else { 0 } by {
                        lemma_sparse_value_push(i0, c0, i as u32, counts@[i as int], b);
                    }
                }
            } else {
                proof {
                    C::lemma_count_facts();
                }
            }
            i = i + 1;
        }
        SparseHistogramOf { config, index, count }
    }
}

/// What `from` returns is stated by its own `ensures`.
impl<C: Count> vstd::std_specs::convert::FromSpecImpl<&HistogramOf<C>> for SparseHistogramOf<C> {
    open spec fn obeys_from_spec() -> bool {
        false
    }

    open spec fn from_spec(v: &HistogramOf<C>) -> Self {
        vstd::pervasive::arbitrary()
    }
}

impl<'a, C: Count> From<&'a SparseHistogramOf<C>> for SparseHistogramRefOf<'a, C> {
    /// A borrowed view over the histogram's storage.
    fn from(h: &'a SparseHistogramOf<C>) -> (r: Self)
        ensures
            r.spec_config() == h.spec_config(),
            r.spec_index() == h.spec_index(),
            r.spec_count() == h.spec_count(),
    {
        proof {
            use_type_invariant(h);
        }
        SparseHistogramRefOf::from_parts_unchecked(h.config(), h.index(), h.count())
    }
}

/// What `from` returns is stated by its own `ensures`.
impl<'a, C: Count> vstd::std_specs::convert::FromSpecImpl<&'a SparseHistogramOf<C>> for SparseHistogramRefOf<'a, C> {
    open spec fn obeys_from_spec() -> bool {
        false
    }

    open spec fn from_spec(v: &'a SparseHistogramOf<C>) -> Self {
        arbitrary()
    }
}

impl<'a, C: Count> IntoIterator for SparseHistogramRefOf<'a, C> {
    type Item = Bucket;

    type IntoIter = std::vec::IntoIter<Bucket>;

    /// The stored buckets, in ascending order.
    fn into_iter(self) -> (r: std::vec::IntoIter<Bucket>)
        ensures
            into_iter_elts(r).len() == self.spec_index().len(),
            forall|k: int|
                0 <= k < into_iter_elts(r).len() ==> is_sparse_bucket(
                    self.spec_config(),
                    self.spec_index(),
                    self.spec_count(),
                    k,
                    #[trigger] into_iter_elts(r)[k],
                ),
    {
        self.iter()
    }
}

impl<'a, 'b, C: Count> IntoIterator for &'a SparseHistogramRefOf<'b, C> {
    type Item = Bucket;

    type IntoIter = std::vec::IntoIter<Bucket>;

    /// The stored buckets, in ascending order.
    fn into_iter(self) -> (r: std::vec::IntoIter<Bucket>)
        ensures
            into_iter_elts(r).len() == self.spec_index().len(),
            forall|k: int|
                0 <= k < into_iter_elts(r).len() ==> is_sparse_bucket(
                    self.spec_config(),
                    self.spec_index(),
                    self.spec_count(),
                    k,
                    #[trigger] into_iter_elts(r)[k],
                ),
    {
        self.iter()
    }
}

impl<'a, C: Count> IntoIterator for &'a SparseHistogramOf<C> {
    type Item = Bucket;

    type IntoIter = std::vec::IntoIter<Bucket>;

    /// The stored buckets, in ascending order.
    fn into_iter(self) -> (r: std::vec::IntoIter<Bucket>)
        ensures
            into_iter_elts(r).len() == self.spec_index().len(),
            forall|k: int|
                0 <= k < into_iter_elts(r).len() ==> is_sparse_bucket(
                    self.spec_config(),
                    self.spec_index(),
                    self.spec_count(),
                    k,
                    #[trigger] into_iter_elts(r)[k],
                ),
    {
        self.iter()
    }
}

} // verus!
