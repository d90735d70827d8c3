//! Laws that relate the operations of the histograms to one another, stated
//! over the same spec functions that the operations' contracts use.
use vstd::prelude::*;
use crate::config::Config;
use crate::conversions::truncated_counts;
use crate::count::{Count, wrapped_difference, wrapped_sum};
use crate::cumulative::{
    cumulative_counts_sorted,
    cumulative_counts_valid,
    individual_value,
    lemma_search_finds_first,
    quantile_position,
    search_position,
};
use crate::sparse::{
    SparseHistogramOf,
    lemma_sparse_value_valid,
    sparse_grouped_sum,
    sparse_parts_valid,
    sparse_value,
    stored_subset,
};
use crate::geometry::{
    bucket_lower,
    bucket_of,
    bucket_total,
    bucket_upper,
    lemma_bucket_not_split,
    lemma_bucket_of_in_range,
    lemma_bucket_of_monotone,
    lemma_lower_in_range,
    valid_geometry,
};
use crate::standard::{
    differences_fit,
    downsample_target,
    grouped_sum,
    is_difference_of,
    is_sum_of,
    is_wrapped_difference_of,
    is_wrapped_sum_of,
    lemma_wrapped_mod_step,
    same_values,
    sums_fit,
};
use crate::sums::{
    count_sum,
    holds_rank,
    lemma_count_sum_zero,
    lemma_prefix_sum_full,
    lemma_prefix_sum_monotone,
    lemma_prefix_sum_step,
    lemma_rank_position_unique,
    prefix_sum,
    rank_position,
};

verus! {

/// Wrapping subtraction undoes wrapping addition.
proof fn lemma_wrapped_sum_difference(x: nat, y: nat, max: nat)
    requires
        x <= max,
        y <= max,
    ensures
        wrapped_difference(wrapped_sum(x, y, max), y, max) == x,
        wrapped_sum(x, y, max) <= max,
{
}

/// Valid sparse parts hold nothing outside the buckets of their configuration.
proof fn lemma_value_outside_zero<C: Count>(config: Config, index: Seq<u32>, count: Seq<C>, b: int)
    requires
        sparse_parts_valid(config, index, count),
        b < 0 || b >= config.spec_total_buckets(),
    ensures
        sparse_value(index, count, b) == 0,
{
    assert forall|k: int| 0 <= k < index.len() implies #[trigger] index[k] != b by {
        assert(index[k] < config.spec_total_buckets());
    }
    lemma_sparse_value_valid(config, index, count, b);
}

/// Adding a histogram and then subtracting it again gives back the counts
/// that were there before: the subtraction cannot underflow, and it restores
/// every bucket.
pub proof fn lemma_add_then_sub<C: Count>(a: Seq<C>, b: Seq<C>, s: Seq<C>, d: Seq<C>)
    requires
        a.len() == b.len(),
        is_sum_of(s, a, b),
        is_difference_of(d, s, b),
    ensures
        differences_fit(s, b),
        same_values(d, a),
{
}

/// Wrapping subtraction undoes wrapping addition, bucket by bucket, whatever
/// the counts.
pub proof fn lemma_wrapping_add_then_sub<C: Count>(a: Seq<C>, b: Seq<C>, s: Seq<C>, d: Seq<C>)
    requires
        a.len() == b.len(),
        is_wrapped_sum_of(s, a, b),
        is_wrapped_difference_of(d, s, b),
    ensures
        same_values(d, a),
{
    C::lemma_count_facts();
    assert forall|i: int| 0 <= i < a.len() implies #[trigger] d[i].spec_value() == a[i].spec_value() by {
        lemma_wrapped_sum_difference(a[i].spec_value(), b[i].spec_value(), C::spec_max());
    }
}

/// Merging is commutative: `a + b` and `b + a` hold the same counts, and one
/// fits exactly when the other does.
pub proof fn lemma_add_commutes<C: Count>(a: Seq<C>, b: Seq<C>, s1: Seq<C>, s2: Seq<C>)
    requires
        a.len() == b.len(),
        is_sum_of(s1, a, b),
        is_sum_of(s2, b, a),
    ensures
        same_values(s1, s2),
        sums_fit(a, b) <==> sums_fit(b, a),
{
    assert(sums_fit(a, b) ==> sums_fit(b, a));
    assert(sums_fit(b, a) ==> sums_fit(a, b));
}

/// Wrapping merges are commutative too.
pub proof fn lemma_wrapping_add_commutes<C: Count>(a: Seq<C>, b: Seq<C>, s1: Seq<C>, s2: Seq<C>)
    requires
        a.len() == b.len(),
        is_wrapped_sum_of(s1, a, b),
        is_wrapped_sum_of(s2, b, a),
    ensures
        same_values(s1, s2),
{
}

/// Where the checked merge succeeds, the wrapping merge gives the same
/// counts.
pub proof fn lemma_checked_agrees_with_wrapping<C: Count>(a: Seq<C>, b: Seq<C>, s1: Seq<C>, s2: Seq<C>)
    requires
        a.len() == b.len(),
        sums_fit(a, b),
        is_sum_of(s1, a, b),
        is_wrapped_sum_of(s2, a, b),
    ensures
        same_values(s1, s2),
{
}

/// Sparse parts are canonical: two valid sparse representations that hold
/// the same count for every bucket store the same indices and counts.
pub proof fn lemma_sparse_canonical<C: Count>(
    config: Config,
    i1: Seq<u32>,
    c1: Seq<C>,
    i2: Seq<u32>,
    c2: Seq<C>,
)
    requires
        sparse_parts_valid(config, i1, c1),
        sparse_parts_valid(config, i2, c2),
        forall|b: int| #[trigger] sparse_value(i1, c1, b) == sparse_value(i2, c2, b),
    ensures
        i1 == i2,
        c1 == c2,
    decreases i1.len() + i2.len(),
{
    C::lemma_count_facts();
    if i1.len() == 0 && i2.len() == 0 {
        assert(i1 =~= i2);
        assert(c1 =~= c2);
    } else if i1.len() == 0 {
        let l = i2.last() as int;
        lemma_sparse_value_valid(config, i2, c2, l);
        assert(c2[i2.len() - 1].spec_value() != 0);
        assert(sparse_value(i1, c1, l) == 0);
        assert(sparse_value(i2, c2, l) != 0);
    } else if i2.len() == 0 {
        let l = i1.last() as int;
        lemma_sparse_value_valid(config, i1, c1, l);
        assert(c1[i1.len() - 1].spec_value() != 0);
        assert(sparse_value(i2, c2, l) == 0);
        assert(sparse_value(i1, c1, l) != 0);
    } else {
        let n1 = i1.len() - 1;
        let n2 = i2.len() - 1;
        let l1 = i1[n1] as int;
        let l2 = i2[n2] as int;
        lemma_sparse_value_valid(config, i1, c1, l1);
        lemma_sparse_value_valid(config, i2, c2, l2);
        lemma_sparse_value_valid(config, i1, c1, l2);
        lemma_sparse_value_valid(config, i2, c2, l1);
        if l1 < l2 {
            assert forall|k: int| 0 <= k < i1.len() implies #[trigger] i1[k] != l2 by {
                if k < n1 {
                    assert(i1[k] < i1[n1]);
                }
            }
            assert(c2[n2].spec_value() != 0);
            assert(sparse_value(i1, c1, l2) == sparse_value(i2, c2, l2));
            assert(false);
        } else if l2 < l1 {
            assert forall|k: int| 0 <= k < i2.len() implies #[trigger] i2[k] != l1 by {
                if k < n2 {
                    assert(i2[k] < i2[n2]);
                }
            }
            assert(c1[n1].spec_value() != 0);
            assert(sparse_value(i1, c1, l1) == sparse_value(i2, c2, l1));
            assert(false);
        }
        assert(sparse_value(i1, c1, l1) == sparse_value(i2, c2, l1));
        assert(c1[n1].spec_value() == c2[n2].spec_value());
        let (j1, d1, j2, d2) = (i1.drop_last(), c1.drop_last(), i2.drop_last(), c2.drop_last());
        assert forall|k: int| 0 <= k < j1.len() implies #[trigger] j1[k] < config.spec_total_buckets() by {
            assert(j1[k] == i1[k]);
        }
        assert forall|k: int, l: int| #![trigger j1[k], j1[l]] 0 <= k < l < j1.len() implies j1[k] < j1[l] by {
            assert(j1[k] == i1[k] && j1[l] == i1[l]);
        }
        assert forall|k: int| 0 <= k < d1.len() implies #[trigger] d1[k].spec_value() != 0 by {
            assert(d1[k] == c1[k]);
        }
        assert forall|k: int| 0 <= k < j2.len() implies #[trigger] j2[k] < config.spec_total_buckets() by {
            assert(j2[k] == i2[k]);
        }
        assert forall|k: int, l: int| #![trigger j2[k], j2[l]] 0 <= k < l < j2.len() implies j2[k] < j2[l] by {
            assert(j2[k] == i2[k] && j2[l] == i2[l]);
        }
        assert forall|k: int| 0 <= k < d2.len() implies #[trigger] d2[k].spec_value() != 0 by {
            assert(d2[k] == c2[k]);
        }
        assert forall|b: int| #[trigger] sparse_value(j1, d1, b) == sparse_value(j2, d2, b) by {
            assert(sparse_value(i1, c1, b) == sparse_value(i2, c2, b));
        }
        lemma_sparse_canonical(config, j1, d1, j2, d2);
        assert(c1[n1] == c2[n2]);
        assert(i1 =~= j1.push(i1[n1]));
        assert(i2 =~= j2.push(i2[n2]));
        assert(c1 =~= d1.push(c1[n1]));
        assert(c2 =~= d2.push(c2[n2]));
    }
}

/// Converting a sparse histogram to the dense form and back gives the same
/// sparse histogram.
pub proof fn lemma_sparse_dense_sparse<C: Count>(s: SparseHistogramOf<C>, d: Seq<C>, s2: SparseHistogramOf<C>)
    requires
        s.wf(),
        s2.wf(),
        s2.spec_config() == s.spec_config(),
        d.len() == s.spec_config().spec_total_buckets(),
        forall|b: int| 0 <= b < d.len() ==> #[trigger] d[b].spec_value() == s.spec_value_of(b),
        forall|b: int| 0 <= b < d.len() ==> #[trigger] s2.spec_value_of(b) == d[b].spec_value(),
    ensures
        s2.spec_index() == s.spec_index(),
        s2.spec_count() == s.spec_count(),
{
    let config = s.spec_config();
    assert forall|b: int| #[trigger] sparse_value(s.spec_index(), s.spec_count(), b) == sparse_value(
        s2.spec_index(),
        s2.spec_count(),
        b,
    ) by {
        if 0 <= b < d.len() {
            assert(d[b].spec_value() == s.spec_value_of(b));
            assert(s2.spec_value_of(b) == d[b].spec_value());
        } else {
            lemma_value_outside_zero(config, s.spec_index(), s.spec_count(), b);
            lemma_value_outside_zero(config, s2.spec_index(), s2.spec_count(), b);
        }
    }
    lemma_sparse_canonical(config, s.spec_index(), s.spec_count(), s2.spec_index(), s2.spec_count());
}

/// Converting a dense histogram to the sparse form and back gives the same
/// counts.
pub proof fn lemma_dense_sparse_dense<C: Count>(d: Seq<C>, s: SparseHistogramOf<C>, d2: Seq<C>)
    requires
        d2.len() == d.len(),
        forall|b: int| 0 <= b < d.len() ==> #[trigger] s.spec_value_of(b) == d[b].spec_value(),
        forall|b: int| 0 <= b < d2.len() ==> #[trigger] d2[b].spec_value() == s.spec_value_of(b),
    ensures
        same_values(d2, d),
{
    assert forall|b: int| 0 <= b < d2.len() implies #[trigger] d2[b].spec_value() == d[b].spec_value() by {
        assert(s.spec_value_of(b) == d[b].spec_value());
    }
}

/// Merging sparse histograms gives the sparse form of the merged dense
/// histograms: the sparse sum stores exactly what converting the dense sum
/// stores.
pub proof fn lemma_sparse_sum_matches_dense<C: Count>(
    a: SparseHistogramOf<C>,
    b: SparseHistogramOf<C>,
    sum: SparseHistogramOf<C>,
    da: Seq<C>,
    db: Seq<C>,
    dsum: Seq<C>,
    from_dense: SparseHistogramOf<C>,
)
    requires
        a.wf(),
        b.wf(),
        sum.wf(),
        from_dense.wf(),
        b.spec_config() == a.spec_config(),
        sum.spec_config() == a.spec_config(),
        from_dense.spec_config() == a.spec_config(),
        forall|k: int| #[trigger] sum.spec_value_of(k) == a.spec_value_of(k) + b.spec_value_of(k),
        da.len() == a.spec_config().spec_total_buckets(),
        db.len() == da.len(),
        forall|k: int| 0 <= k < da.len() ==> #[trigger] da[k].spec_value() == a.spec_value_of(k),
        forall|k: int| 0 <= k < db.len() ==> #[trigger] db[k].spec_value() == b.spec_value_of(k),
        is_sum_of(dsum, da, db),
        forall|k: int| 0 <= k < dsum.len() ==> #[trigger] from_dense.spec_value_of(k) == dsum[k].spec_value(),
    ensures
        from_dense.spec_index() == sum.spec_index(),
        from_dense.spec_count() == sum.spec_count(),
{
    let config = a.spec_config();
    assert forall|k: int| #[trigger] sparse_value(sum.spec_index(), sum.spec_count(), k) == sparse_value(
        from_dense.spec_index(),
        from_dense.spec_count(),
        k,
    ) by {
        if 0 <= k < da.len() {
            assert(dsum[k].spec_value() == da[k].spec_value() + db[k].spec_value());
            assert(from_dense.spec_value_of(k) == dsum[k].spec_value());
            assert(sum.spec_value_of(k) == a.spec_value_of(k) + b.spec_value_of(k));
        } else {
            lemma_value_outside_zero(config, sum.spec_index(), sum.spec_count(), k);
            lemma_value_outside_zero(config, from_dense.spec_index(), from_dense.spec_count(), k);
        }
    }
    lemma_sparse_canonical(config, sum.spec_index(), sum.spec_count(), from_dense.spec_index(), from_dense.spec_count());
}

/// `cc` holds the running totals of `sc`, wrapped at the counter's limit, as
/// a cumulative histogram built from a sparse one does.
pub open spec fn running_totals_of<C: Count>(cc: Seq<C>, sc: Seq<C>) -> bool {
    &&& cc.len() == sc.len()
    &&& forall|k: int| 0 <= k < cc.len() ==> #[trigger] cc[k].spec_value() == prefix_sum(sc, k + 1) % (C::spec_max() + 1)
}

/// The running totals give back each stored bucket's own count, wrapping or
/// not.
pub proof fn lemma_running_totals_individual<C: Count>(cc: Seq<C>, sc: Seq<C>)
    requires
        running_totals_of(cc, sc),
    ensures
        forall|k: int| 0 <= k < cc.len() ==> #[trigger] individual_value(cc, k) == sc[k].spec_value(),
{
    C::lemma_count_facts();
    let max = C::spec_max();
    let m = max + 1;
    assert forall|k: int| 0 <= k < cc.len() implies #[trigger] individual_value(cc, k) == sc[k].spec_value() by {
        let c = sc[k].spec_value();
        lemma_prefix_sum_step(sc, k);
        let p = prefix_sum(sc, k);
        lemma_wrapped_mod_step(p, c, max);
        if k == 0 {
            vstd::arithmetic::div_mod::lemma_small_mod(0, m);
            vstd::arithmetic::div_mod::lemma_small_mod(c, m);
        } else {
            assert(cc[k - 1].spec_value() == prefix_sum(sc, k) % m);
            let r = p % m;
            vstd::arithmetic::div_mod::lemma_mod_bound(p as int, m as int);
            assert(wrapped_sum(r, c, max) == wrapped_sum(c, r, max));
            lemma_wrapped_sum_difference(c, r, max);
        }
    }
}

/// The last running total is the total count, wrapped at the counter's
/// limit.
pub proof fn lemma_running_totals_last<C: Count>(cc: Seq<C>, sc: Seq<C>)
    requires
        running_totals_of(cc, sc),
        cc.len() > 0,
    ensures
        cc.last().spec_value() == count_sum(sc) % (C::spec_max() + 1),
{
    lemma_prefix_sum_full(sc);
}

/// When the total count fits the counter, no running total wraps, and the
/// totals of nonzero counts are what `from_parts` accepts.
pub proof fn lemma_running_totals_valid<C: Count>(cc: Seq<C>, sc: Seq<C>)
    requires
        running_totals_of(cc, sc),
        forall|k: int| 0 <= k < sc.len() ==> #[trigger] sc[k].spec_value() != 0,
        count_sum(sc) <= C::spec_max(),
    ensures
        forall|k: int| 0 <= k < cc.len() ==> #[trigger] cc[k].spec_value() == prefix_sum(sc, k + 1),
        cumulative_counts_valid(cc),
{
    C::lemma_count_facts();
    let m = C::spec_max() + 1;
    lemma_prefix_sum_full(sc);
    assert forall|k: int| 0 <= k < cc.len() implies #[trigger] cc[k].spec_value() == prefix_sum(sc, k + 1) by {
        lemma_prefix_sum_monotone(sc, k + 1, sc.len() as int);
        vstd::arithmetic::div_mod::lemma_small_mod(prefix_sum(sc, k + 1), m);
    }
    assert forall|k: int| 0 <= k < cc.len() implies #[trigger] cc[k].spec_value() != 0 by {
        lemma_prefix_sum_step(sc, k);
    }
    assert forall|k: int, l: int| #![trigger cc[k], cc[l]] 0 <= k < l < cc.len() implies cc[k].spec_value() <= cc[l].spec_value() by {
        lemma_prefix_sum_monotone(sc, k + 1, l + 1);
    }
}

/// Narrowing counts that were widened never overflows.
pub proof fn lemma_widened_fits(c32: Seq<u32>, c64: Seq<u64>)
    requires
        c64.len() == c32.len(),
        forall|i: int| 0 <= i < c64.len() ==> #[trigger] c64[i] == c32[i],
    ensures
        !(exists|i: int| 0 <= i < c64.len() && #[trigger] c64[i] > u32::MAX),
{
    assert forall|i: int| 0 <= i < c64.len() implies !(#[trigger] c64[i] > u32::MAX) by {
        assert(c64[i] == c32[i]);
    }
}

/// Running totals that never decrease and end within `u32::MAX` all fit, so
/// narrowing them keeps every total.
pub proof fn lemma_sorted_totals_fit(c: Seq<u64>)
    requires
        cumulative_counts_sorted(c),
        c.len() > 0 ==> c.last() <= u32::MAX,
    ensures
        truncated_counts(c).len() == c.len(),
        forall|i: int| 0 <= i < c.len() ==> #[trigger] truncated_counts(c)[i] == c[i],
{
    assert forall|i: int| 0 <= i < c.len() implies #[trigger] truncated_counts(c)[i] == c[i] by {
        let n = c.len() - 1;
        if i < n {
            assert(c[i].spec_value() <= c[n].spec_value());
        }
        assert(c[i] <= u32::MAX);
    }
}

/// Downsampling never splits a bucket: every value of bucket `i` of the
/// finer layout lies in the bucket of the coarser layout that downsampling
/// moves bucket `i` to.
pub proof fn lemma_downsample_keeps_buckets_whole(from: nat, to: nat, i: nat, v: nat)
    requires
        to < from,
        bucket_lower(from, i) <= v <= bucket_upper(from, i),
    ensures
        bucket_of(to, v) == downsample_target(from, to)(i as int),
{
    lemma_bucket_not_split(from, to, i);
    lemma_bucket_of_monotone(to, bucket_lower(from, i), v);
    lemma_bucket_of_monotone(to, v, bucket_upper(from, i));
}

/// The total of the grouped sums of the first `k` target buckets.
pub open spec fn grouped_total<C: Count>(s: Seq<C>, target: spec_fn(int) -> nat, n: int, k: nat) -> nat
    decreases k,
{
    if k == 0 {
        0
    } else {
        grouped_total(s, target, n, (k - 1) as nat) + grouped_sum(s, target, (k - 1) as nat, n)
    }
}

/// One more source bucket adds its count to the total of the target buckets
/// it can reach.
proof fn lemma_grouped_total_step<C: Count>(s: Seq<C>, target: spec_fn(int) -> nat, n: int, k: nat)
    requires
        n >= 0,
    ensures
        grouped_total(s, target, n + 1, k) == grouped_total(s, target, n, k) + if target(n) < k {
            s[n].spec_value()
        } else {
            0
        },
    decreases k,
{
    if k > 0 {
        lemma_grouped_total_step(s, target, n, (k - 1) as nat);
    }
}

/// When every source bucket moves below `k`, the targets below `k` hold the
/// whole total.
proof fn lemma_grouped_total_all<C: Count>(s: Seq<C>, target: spec_fn(int) -> nat, n: int, k: nat)
    requires
        0 <= n <= s.len(),
        forall|i: int| 0 <= i < n ==> #[trigger] target(i) < k,
    ensures
        grouped_total(s, target, n, k) == prefix_sum(s, n),
    decreases n,
{
    if n == 0 {
        lemma_grouped_total_zero(s, target, k);
    } else {
        lemma_grouped_total_all(s, target, n - 1, k);
        lemma_grouped_total_step(s, target, n - 1, k);
        lemma_prefix_sum_step(s, n - 1);
    }
}

/// Nothing has moved before the first source bucket.
proof fn lemma_grouped_total_zero<C: Count>(s: Seq<C>, target: spec_fn(int) -> nat, k: nat)
    ensures
        grouped_total(s, target, 0, k) == 0,
    decreases k,
{
    if k > 0 {
        lemma_grouped_total_zero(s, target, (k - 1) as nat);
    }
}

/// A single target's sum is part of the total over the targets.
proof fn lemma_grouped_sum_le_total<C: Count>(s: Seq<C>, target: spec_fn(int) -> nat, n: int, j: nat, k: nat)
    requires
        j < k,
    ensures
        grouped_sum(s, target, j, n) <= grouped_total(s, target, n, k),
    decreases k,
{
    if j < k - 1 {
        lemma_grouped_sum_le_total(s, target, n, j, (k - 1) as nat);
    }
}

/// Downsampling keeps every observation: when the total count fits the
/// counter, the downsampled counts add up to the total before downsampling.
pub proof fn lemma_downsample_keeps_total<C: Count>(from: nat, to: nat, mvp: nat, s: Seq<C>, out: Seq<C>)
    requires
        valid_geometry(from, mvp),
        to < from,
        s.len() == bucket_total(from, mvp),
        out.len() == bucket_total(to, mvp),
        forall|j: int| 0 <= j < out.len() ==> #[trigger] out[j].spec_value() == grouped_sum(
            s,
            downsample_target(from, to),
            j as nat,
            s.len() as int,
        ) % (C::spec_max() + 1),
        count_sum(s) <= C::spec_max(),
    ensures
        count_sum(out) == count_sum(s),
{
    let target = downsample_target(from, to);
    let n = s.len() as int;
    let big_n = out.len();
    let m = C::spec_max() + 1;
    assert forall|i: int| 0 <= i < n implies #[trigger] target(i) < big_n by {
        lemma_lower_in_range(from, mvp, i as nat);
        lemma_bucket_of_in_range(to, mvp, bucket_lower(from, i as nat));
    }
    lemma_grouped_total_all(s, target, n, big_n);
    lemma_prefix_sum_full(s);
    lemma_prefix_sum_full(out);
    lemma_out_prefix(s, target, out, big_n);
}

/// The first `k` downsampled counts add up to the grouped total of the first
/// `k` targets when nothing wraps.
proof fn lemma_out_prefix<C: Count>(s: Seq<C>, target: spec_fn(int) -> nat, out: Seq<C>, k: nat)
    requires
        k <= out.len(),
        grouped_total(s, target, s.len() as int, out.len()) <= C::spec_max(),
        forall|j: int| 0 <= j < out.len() ==> #[trigger] out[j].spec_value() == grouped_sum(
            s,
            target,
            j as nat,
            s.len() as int,
        ) % (C::spec_max() + 1),
    ensures
        prefix_sum(out, k as int) == grouped_total(s, target, s.len() as int, k),
    decreases k,
{
    if k > 0 {
        let j = (k - 1) as nat;
        lemma_out_prefix(s, target, out, j);
        lemma_prefix_sum_step(out, j as int);
        lemma_grouped_sum_le_total(s, target, s.len() as int, j, out.len());
        vstd::arithmetic::div_mod::lemma_small_mod(grouped_sum(s, target, j, s.len() as int), C::spec_max() + 1);
    }
}

/// Zeroing one source bucket removes its contribution from every grouped sum.
proof fn lemma_grouped_sum_update<C: Count>(h: Seq<C>, target: spec_fn(int) -> nat, j: nat, n: int, l: int)
    requires
        0 <= l < h.len(),
        0 <= n <= h.len(),
    ensures
        grouped_sum(h.update(l, C::ZERO), target, j, n) + if l < n && target(l) == j {
            h[l].spec_value()
        } else {
            0
        } == grouped_sum(h, target, j, n),
    decreases n,
{
    C::lemma_count_facts();
    if n > 0 {
        lemma_grouped_sum_update(h, target, j, n - 1, l);
        assert(h.update(l, C::ZERO)[n - 1] == if n - 1 == l { C::ZERO } else { h[n - 1] });
    }
}

/// Counts that are all zero group to zero.
proof fn lemma_grouped_sum_zero<C: Count>(h: Seq<C>, target: spec_fn(int) -> nat, j: nat, n: int)
    requires
        0 <= n <= h.len(),
        forall|b: int| 0 <= b < n ==> #[trigger] h[b].spec_value() == 0,
    ensures
        grouped_sum(h, target, j, n) == 0,
    decreases n,
{
    if n > 0 {
        lemma_grouped_sum_zero(h, target, j, n - 1);
    }
}

/// The grouped sum over the first `n` entries does not depend on later
/// entries.
proof fn lemma_sparse_grouped_sum_prefix<C: Count>(
    index: Seq<u32>,
    count: Seq<C>,
    target: spec_fn(int) -> nat,
    j: nat,
    n: int,
)
    requires
        0 <= n < index.len(),
        index.len() == count.len(),
    ensures
        sparse_grouped_sum(index, count, target, j, n) == sparse_grouped_sum(
            index.drop_last(),
            count.drop_last(),
            target,
            j,
            n,
        ),
    decreases n,
{
    if n > 0 {
        lemma_sparse_grouped_sum_prefix(index, count, target, j, n - 1);
    }
}

/// Grouping the stored entries of sparse parts gives what grouping the dense
/// counts they stand for gives, for any way of moving buckets.
pub proof fn lemma_sparse_grouping_matches_dense<C: Count>(
    config: Config,
    index: Seq<u32>,
    count: Seq<C>,
    h: Seq<C>,
    target: spec_fn(int) -> nat,
    j: nat,
)
    requires
        sparse_parts_valid(config, index, count),
        h.len() == config.spec_total_buckets(),
        forall|b: int| 0 <= b < h.len() ==> #[trigger] h[b].spec_value() == sparse_value(index, count, b),
    ensures
        sparse_grouped_sum(index, count, target, j, index.len() as int) == grouped_sum(
            h,
            target,
            j,
            h.len() as int,
        ),
    decreases index.len(),
{
    C::lemma_count_facts();
    let n = h.len() as int;
    if index.len() == 0 {
        lemma_grouped_sum_zero(h, target, j, n);
    } else {
        let k = index.len() - 1;
        let l = index[k] as int;
        let c = count[k];
        let (i2, c2) = (index.drop_last(), count.drop_last());
        let h2 = h.update(l, C::ZERO);
        assert forall|a: int| 0 <= a < i2.len() implies #[trigger] i2[a] < config.spec_total_buckets() by {
            assert(i2[a] == index[a]);
        }
        assert forall|a: int, b: int| #![trigger i2[a], i2[b]] 0 <= a < b < i2.len() implies i2[a] < i2[b] by {
            assert(i2[a] == index[a] && i2[b] == index[b]);
        }
        assert forall|a: int| 0 <= a < c2.len() implies #[trigger] c2[a].spec_value() != 0 by {
            assert(c2[a] == count[a]);
        }
        assert forall|b: int| 0 <= b < h2.len() implies #[trigger] h2[b].spec_value() == sparse_value(i2, c2, b) by {
            if b == l {
                assert forall|a: int| 0 <= a < i2.len() implies #[trigger] i2[a] != b by {
                    assert(index[a] < index[k]);
                }
                lemma_sparse_value_valid(config, i2, c2, b);
            } else {
                assert(h[b].spec_value() == sparse_value(index, count, b));
            }
        }
        lemma_sparse_grouping_matches_dense(config, i2, c2, h2, target, j);
        lemma_sparse_grouped_sum_prefix(index, count, target, j, k);
        lemma_sparse_value_valid(config, index, count, l);
        assert(h[l].spec_value() == c.spec_value());
        lemma_grouped_sum_update(h, target, j, n, l);
    }
}

/// Downsampling a sparse histogram gives the same counts as downsampling
/// the dense histogram it converts to.
pub proof fn lemma_sparse_downsample_matches_dense<C: Count>(
    s: SparseHistogramOf<C>,
    h: Seq<C>,
    to: nat,
    j: nat,
)
    requires
        s.wf(),
        h.len() == s.spec_config().spec_total_buckets(),
        forall|b: int| 0 <= b < h.len() ==> #[trigger] h[b].spec_value() == s.spec_value_of(b),
    ensures
        sparse_grouped_sum(
            s.spec_index(),
            s.spec_count(),
            downsample_target(s.spec_config().spec_grouping_power(), to),
            j,
            s.spec_index().len() as int,
        ) == grouped_sum(
            h,
            downsample_target(s.spec_config().spec_grouping_power(), to),
            j,
            h.len() as int,
        ),
{
    lemma_sparse_grouping_matches_dense(
        s.spec_config(),
        s.spec_index(),
        s.spec_count(),
        h,
        downsample_target(s.spec_config().spec_grouping_power(), to),
        j,
    );
}

/// When the first `n` counts reach rank `r >= 1`, some bucket among them
/// holds the `r`-th observation.
proof fn lemma_rank_reached<C: Count>(s: Seq<C>, r: nat, n: int)
    requires
        1 <= r,
        0 <= n <= s.len(),
        prefix_sum(s, n) >= r,
    ensures
        0 <= rank_position(s, r) < n,
        holds_rank(s, rank_position(s, r), r),
    decreases n,
{
    if n > 0 {
        lemma_prefix_sum_step(s, n - 1);
        if prefix_sum(s, n - 1) >= r {
            lemma_rank_reached(s, r, n - 1);
        } else {
            assert forall|j: int| 0 <= j < n - 1 implies #[trigger] prefix_sum(s, j + 1) < r by {
                lemma_prefix_sum_monotone(s, j + 1, n - 1);
            }
            assert(holds_rank(s, n - 1, r));
            lemma_rank_position_unique(s, n - 1, r);
        }
    }
}

/// Rank queries agree between a sparse histogram and the cumulative one
/// built from it: when the total fits the counter, the running totals first
/// reach rank `r` at the entry that holds the `r`-th observation, the search
/// answers with that entry and no other, and that entry's own count is the
/// sparse count.
pub proof fn lemma_cumulative_ranks_match_sparse<C: Count>(cc: Seq<C>, sc: Seq<C>, r: nat)
    requires
        running_totals_of(cc, sc),
        forall|k: int| 0 <= k < sc.len() ==> #[trigger] sc[k].spec_value() != 0,
        count_sum(sc) <= C::spec_max(),
        1 <= r <= count_sum(sc),
    ensures
        0 <= rank_position(sc, r) < sc.len(),
        quantile_position(cc, r as int, rank_position(sc, r)),
        forall|p: int| #[trigger] quantile_position(cc, r as int, p) ==> p == rank_position(sc, r),
        search_position(cc, r as int) == rank_position(sc, r),
        individual_value(cc, rank_position(sc, r)) == sc[rank_position(sc, r)].spec_value(),
{
    lemma_running_totals_valid(cc, sc);
    lemma_running_totals_individual(cc, sc);
    lemma_prefix_sum_full(sc);
    lemma_rank_reached(sc, r, sc.len() as int);
    let p = rank_position(sc, r);
    let n = cc.len() - 1;
    assert(cc[n].spec_value() >= r);
    assert(quantile_position(cc, r as int, p));
    assert forall|q: int| #[trigger] quantile_position(cc, r as int, q) implies q == p by {
        assert forall|j: int| 0 <= j < q implies #[trigger] prefix_sum(sc, j + 1) < r by {
            assert(cc[j].spec_value() < r);
        }
        assert(holds_rank(sc, q, r));
        lemma_rank_position_unique(sc, q, r);
    }
    lemma_search_finds_first(cc, r as int);
}

/// Zeroing one count removes it from every prefix that includes it.
proof fn lemma_prefix_sum_update<C: Count>(h: Seq<C>, l: int, n: int)
    requires
        0 <= l < h.len(),
        0 <= n <= h.len(),
    ensures
        prefix_sum(h.update(l, C::ZERO), n) + if l < n { h[l].spec_value() } else { 0 } == prefix_sum(h, n),
    decreases n,
{
    C::lemma_count_facts();
    if n > 0 {
        lemma_prefix_sum_update(h, l, n - 1);
        lemma_prefix_sum_step(h, n - 1);
        lemma_prefix_sum_step(h.update(l, C::ZERO), n - 1);
    }
}

/// Taking the first `m` entries does not look at the last entry when `m`
/// stops before it.
proof fn lemma_prefix_sum_drop_last<C: Count>(s: Seq<C>, m: int)
    requires
        0 <= m < s.len(),
    ensures
        prefix_sum(s.drop_last(), m) == prefix_sum(s, m),
{
    assert(s.drop_last().take(m) =~= s.take(m));
}

/// In ascending indices, the first entry at or above `n` exists once some
/// entry is: the entries before it lie below `n` and the rest do not.
proof fn lemma_split_point(index: Seq<u32>, n: int, p: int) -> (m: int)
    requires
        0 <= p < index.len(),
        index[p] >= n,
        forall|a: int, b: int| #![trigger index[a], index[b]] 0 <= a < b < index.len() ==> index[a] < index[b],
    ensures
        0 <= m <= p,
        forall|i: int| 0 <= i < m ==> #[trigger] index[i] < n,
        forall|i: int| m <= i < index.len() ==> #[trigger] index[i] >= n,
    decreases p,
{
    if p > 0 && index[p - 1] >= n {
        lemma_split_point(index, n, p - 1)
    } else {
        assert forall|i: int| 0 <= i < p implies #[trigger] index[i] < n by {
            if i < p - 1 {
                assert(index[i] < index[p - 1]);
            }
        }
        assert forall|i: int| p <= i < index.len() implies #[trigger] index[i] >= n by {
            if i > p {
                assert(index[p] < index[i]);
            }
        }
        p
    }
}

/// A prefix of the dense counts holds what the sparse entries below its end
/// hold.
proof fn lemma_dense_prefix_matches_sparse<C: Count>(
    config: Config,
    index: Seq<u32>,
    count: Seq<C>,
    h: Seq<C>,
    n: int,
    m: int,
)
    requires
        sparse_parts_valid(config, index, count),
        h.len() == config.spec_total_buckets(),
        forall|b: int| 0 <= b < h.len() ==> #[trigger] h[b].spec_value() == sparse_value(index, count, b),
        0 <= n <= h.len(),
        0 <= m <= index.len(),
        forall|i: int| 0 <= i < m ==> #[trigger] index[i] < n,
        forall|i: int| m <= i < index.len() ==> #[trigger] index[i] >= n,
    ensures
        prefix_sum(h, n) == prefix_sum(count, m),
    decreases index.len(),
{
    C::lemma_count_facts();
    if index.len() == 0 {
        assert forall|b: int| 0 <= b < h.take(n).len() implies #[trigger] h.take(n)[b].spec_value() == 0 by {
            assert(h.take(n)[b] == h[b]);
        }
        lemma_count_sum_zero(h.take(n));
    } else {
        let k = index.len() - 1;
        let l = index[k] as int;
        let (i2, c2) = (index.drop_last(), count.drop_last());
        let h2 = h.update(l, C::ZERO);
        assert forall|a: int| 0 <= a < i2.len() implies #[trigger] i2[a] < config.spec_total_buckets() by {
            assert(i2[a] == index[a]);
        }
        assert forall|a: int, b: int| #![trigger i2[a], i2[b]] 0 <= a < b < i2.len() implies i2[a] < i2[b] by {
            assert(i2[a] == index[a] && i2[b] == index[b]);
        }
        assert forall|a: int| 0 <= a < c2.len() implies #[trigger] c2[a].spec_value() != 0 by {
            assert(c2[a] == count[a]);
        }
        assert forall|b: int| 0 <= b < h2.len() implies #[trigger] h2[b].spec_value() == sparse_value(i2, c2, b) by {
            if b == l {
                assert forall|a: int| 0 <= a < i2.len() implies #[trigger] i2[a] != b by {
                    assert(index[a] < index[k]);
                }
                lemma_sparse_value_valid(config, i2, c2, b);
            } else {
                assert(h[b].spec_value() == sparse_value(index, count, b));
            }
        }
        lemma_sparse_value_valid(config, index, count, l);
        lemma_prefix_sum_update(h, l, n);
        if l < n {
            assert(m == index.len());
            assert forall|i: int| 0 <= i < k implies #[trigger] i2[i] < n by {
                assert(index[i] < index[k]);
            }
            lemma_dense_prefix_matches_sparse(config, i2, c2, h2, n, k);
            lemma_prefix_sum_drop_last(count, k);
            lemma_prefix_sum_step(count, k);
        } else {
            assert(m <= k);
            assert forall|i: int| 0 <= i < m implies #[trigger] i2[i] < n by {
                assert(i2[i] == index[i]);
            }
            assert forall|i: int| m <= i < i2.len() implies #[trigger] i2[i] >= n by {
                assert(i2[i] == index[i]);
            }
            lemma_dense_prefix_matches_sparse(config, i2, c2, h2, n, m);
            lemma_prefix_sum_drop_last(count, m);
        }
    }
}

/// Rank queries agree between a dense histogram and its sparse form: both
/// hold the same total, and the bucket that holds the `r`-th observation is
/// the one stored at the sparse position that holds it.
pub proof fn lemma_dense_ranks_match_sparse<C: Count>(
    config: Config,
    index: Seq<u32>,
    count: Seq<C>,
    h: Seq<C>,
    r: nat,
)
    requires
        sparse_parts_valid(config, index, count),
        h.len() == config.spec_total_buckets(),
        forall|b: int| 0 <= b < h.len() ==> #[trigger] h[b].spec_value() == sparse_value(index, count, b),
        1 <= r <= count_sum(count),
    ensures
        count_sum(h) == count_sum(count),
        0 <= rank_position(count, r) < index.len(),
        rank_position(h, r) == index[rank_position(count, r)],
{
    let big_k = index.len() as int;
    assert forall|i: int| 0 <= i < big_k implies #[trigger] index[i] < h.len() by {}
    lemma_dense_prefix_matches_sparse(config, index, count, h, h.len() as int, big_k);
    lemma_prefix_sum_full(h);
    lemma_prefix_sum_full(count);
    lemma_rank_reached(count, r, big_k);
    let p = rank_position(count, r);
    let q = index[p] as int;
    assert forall|i: int| 0 <= i < p + 1 implies #[trigger] index[i] < q + 1 by {
        if i < p {
            assert(index[i] < index[p]);
        }
    }
    assert forall|i: int| p + 1 <= i < big_k implies #[trigger] index[i] >= q + 1 by {
        assert(index[p] < index[i]);
    }
    lemma_dense_prefix_matches_sparse(config, index, count, h, q + 1, p + 1);
    assert forall|j: int| 0 <= j < q implies #[trigger] prefix_sum(h, j + 1) < r by {
        let m = lemma_split_point(index, j + 1, p);
        lemma_dense_prefix_matches_sparse(config, index, count, h, j + 1, m);
        if m > 0 {
            assert(prefix_sum(count, (m - 1) + 1) < r);
        }
    }
    assert(holds_rank(h, q, r));
    lemma_rank_position_unique(h, q, r);
}

/// For sparse histograms too, subtracting what was added gives back the same
/// histogram: the subtraction neither meets a bucket it cannot find nor
/// underflows, and it stores exactly the indices and counts that were there
/// before.
pub proof fn lemma_sparse_add_then_sub<C: Count>(
    a: SparseHistogramOf<C>,
    b: SparseHistogramOf<C>,
    sum: SparseHistogramOf<C>,
    diff: SparseHistogramOf<C>,
)
    requires
        a.wf(),
        sum.wf(),
        diff.wf(),
        sum.spec_config() == a.spec_config(),
        diff.spec_config() == a.spec_config(),
        forall|k: int| #[trigger] sum.spec_value_of(k) == a.spec_value_of(k) + b.spec_value_of(k),
        forall|k: int| #[trigger] diff.spec_value_of(k) == sum.spec_value_of(k) - b.spec_value_of(k),
    ensures
        stored_subset(sum, b),
        forall|k: int| #[trigger] b.spec_value_of(k) <= sum.spec_value_of(k),
        diff.spec_index() == a.spec_index(),
        diff.spec_count() == a.spec_count(),
{
    assert forall|k: int| #[trigger] b.spec_value_of(k) != 0 implies sum.spec_value_of(k) != 0 by {
        assert(sum.spec_value_of(k) == a.spec_value_of(k) + b.spec_value_of(k));
    }
    assert forall|k: int| #[trigger] sparse_value(a.spec_index(), a.spec_count(), k) == sparse_value(
        diff.spec_index(),
        diff.spec_count(),
        k,
    ) by {
        assert(diff.spec_value_of(k) == sum.spec_value_of(k) - b.spec_value_of(k));
        assert(sum.spec_value_of(k) == a.spec_value_of(k) + b.spec_value_of(k));
    }
    lemma_sparse_canonical(a.spec_config(), a.spec_index(), a.spec_count(), diff.spec_index(), diff.spec_count());
}

/// Wrapping subtraction undoes wrapping addition of sparse histograms,
/// except that a bucket whose sum wraps to exactly zero is no longer stored,
/// so subtracting from it is refused: the subtraction succeeds exactly when
/// no bucket of the added histogram wrapped to zero, and then gives back the
/// same histogram.
pub proof fn lemma_sparse_wrapping_add_then_sub<C: Count>(
    a: SparseHistogramOf<C>,
    b: SparseHistogramOf<C>,
    sum: SparseHistogramOf<C>,
    diff: SparseHistogramOf<C>,
)
    requires
        a.wf(),
        b.wf(),
        sum.wf(),
        diff.wf(),
        b.spec_config() == a.spec_config(),
        sum.spec_config() == a.spec_config(),
        diff.spec_config() == a.spec_config(),
        forall|k: int| #[trigger] sum.spec_value_of(k) == wrapped_sum(a.spec_value_of(k), b.spec_value_of(k), C::spec_max()),
        forall|k: int| #[trigger] diff.spec_value_of(k) == wrapped_difference(sum.spec_value_of(k), b.spec_value_of(k), C::spec_max()),
    ensures
        stored_subset(sum, b) <==> forall|k: int| #[trigger] b.spec_value_of(k) != 0 ==> wrapped_sum(
            a.spec_value_of(k),
            b.spec_value_of(k),
            C::spec_max(),
        ) != 0,
        diff.spec_index() == a.spec_index(),
        diff.spec_count() == a.spec_count(),
{
    let config = a.spec_config();
    assert forall|k: int| #[trigger] sparse_value(a.spec_index(), a.spec_count(), k) == sparse_value(
        diff.spec_index(),
        diff.spec_count(),
        k,
    ) by {
        lemma_sparse_value_valid(config, a.spec_index(), a.spec_count(), k);
        lemma_sparse_value_valid(config, b.spec_index(), b.spec_count(), k);
        assert(diff.spec_value_of(k) == wrapped_difference(sum.spec_value_of(k), b.spec_value_of(k), C::spec_max()));
        assert(sum.spec_value_of(k) == wrapped_sum(a.spec_value_of(k), b.spec_value_of(k), C::spec_max()));
        lemma_wrapped_sum_difference(a.spec_value_of(k), b.spec_value_of(k), C::spec_max());
    }
    if stored_subset(sum, b) {
        assert forall|k: int| #[trigger] b.spec_value_of(k) != 0 implies wrapped_sum(
            a.spec_value_of(k),
            b.spec_value_of(k),
            C::spec_max(),
        ) != 0 by {
            assert(sum.spec_value_of(k) != 0);
        }
    }
    if forall|k: int| #[trigger] b.spec_value_of(k) != 0 ==> wrapped_sum(
        a.spec_value_of(k),
        b.spec_value_of(k),
        C::spec_max(),
    ) != 0 {
        assert forall|k: int| #[trigger] b.spec_value_of(k) != 0 implies sum.spec_value_of(k) != 0 by {
            assert(sum.spec_value_of(k) == wrapped_sum(a.spec_value_of(k), b.spec_value_of(k), C::spec_max()));
        }
    }
    lemma_sparse_canonical(config, a.spec_index(), a.spec_count(), diff.spec_index(), diff.spec_count());
}

/// Downsampling commutes with the conversion to the sparse form: converting
/// the downsampled dense histogram stores exactly what downsampling the
/// sparse form stores.
pub proof fn lemma_sparse_downsample_commutes<C: Count>(
    s: SparseHistogramOf<C>,
    h: Seq<C>,
    to: nat,
    down_sparse: SparseHistogramOf<C>,
    down_dense: Seq<C>,
    converted: SparseHistogramOf<C>,
)
    requires
        s.wf(),
        h.len() == s.spec_config().spec_total_buckets(),
        forall|b: int| 0 <= b < h.len() ==> #[trigger] h[b].spec_value() == s.spec_value_of(b),
        down_sparse.wf(),
        forall|j: int| 0 <= j ==> #[trigger] down_sparse.spec_value_of(j) == sparse_grouped_sum(
            s.spec_index(),
            s.spec_count(),
            downsample_target(s.spec_config().spec_grouping_power(), to),
            j as nat,
            s.spec_index().len() as int,
        ) % (C::spec_max() + 1),
        down_dense.len() == down_sparse.spec_config().spec_total_buckets(),
        forall|j: int| 0 <= j < down_dense.len() ==> #[trigger] down_dense[j].spec_value() == grouped_sum(
            h,
            downsample_target(s.spec_config().spec_grouping_power(), to),
            j as nat,
            h.len() as int,
        ) % (C::spec_max() + 1),
        converted.wf(),
        converted.spec_config() == down_sparse.spec_config(),
        forall|b: int| 0 <= b < down_dense.len() ==> #[trigger] converted.spec_value_of(b) == down_dense[b].spec_value(),
    ensures
        converted.spec_index() == down_sparse.spec_index(),
        converted.spec_count() == down_sparse.spec_count(),
{
    let config = down_sparse.spec_config();
    let target = downsample_target(s.spec_config().spec_grouping_power(), to);
    assert forall|b: int| #[trigger] sparse_value(down_sparse.spec_index(), down_sparse.spec_count(), b) == sparse_value(
        converted.spec_index(),
        converted.spec_count(),
        b,
    ) by {
        if 0 <= b < down_dense.len() {
            lemma_sparse_downsample_matches_dense(s, h, to, b as nat);
            assert(down_dense[b].spec_value() == grouped_sum(h, target, b as nat, h.len() as int) % (C::spec_max() + 1));
            assert(converted.spec_value_of(b) == down_dense[b].spec_value());
            assert(down_sparse.spec_value_of(b) == sparse_grouped_sum(
                s.spec_index(),
                s.spec_count(),
                target,
                b as nat,
                s.spec_index().len() as int,
            ) % (C::spec_max() + 1));
        } else {
            lemma_value_outside_zero(config, down_sparse.spec_index(), down_sparse.spec_count(), b);
            lemma_value_outside_zero(config, converted.spec_index(), converted.spec_count(), b);
        }
    }
    lemma_sparse_canonical(config, down_sparse.spec_index(), down_sparse.spec_count(), converted.spec_index(), converted.spec_count());
}

/// Changing one count changes the total by the same amount.
proof fn lemma_count_sum_update<C: Count>(s: Seq<C>, i: int, c: C)
    requires
        0 <= i < s.len(),
    ensures
        count_sum(s.update(i, c)) + s[i].spec_value() == count_sum(s) + c.spec_value(),
    decreases s.len(),
{
    let t = s.update(i, c);
    if i < s.len() - 1 {
        assert(t.drop_last() =~= s.drop_last().update(i, c));
        lemma_count_sum_update(s.drop_last(), i, c);
    } else {
        assert(t.drop_last() =~= s.drop_last());
    }
}

/// Recording `n` observations in one bucket adds `n` to the total, when the
/// bucket's counter does not wrap.
pub proof fn lemma_recording_adds_to_total<C: Count>(before: Seq<C>, after: Seq<C>, i: int, n: nat)
    requires
        0 <= i < before.len(),
        after == before.update(i, after[i]),
        after[i].spec_value() == before[i].spec_value() + n,
    ensures
        count_sum(after) == count_sum(before) + n,
{
    lemma_count_sum_update(before, i, after[i]);
}

} // verus!
