//! Sums of bucket counts and the position of a given rank.
use vstd::prelude::*;
use crate::count::Count;

verus! {

/// The total of the counts in `s`.
pub open spec fn count_sum<C: Count>(s: Seq<C>) -> nat
    decreases s.len(),
{
    if s.len() == 0 {
        0
    } else {
        count_sum(s.drop_last()) + s.last().spec_value()
    }
}

/// The total of the first `n` counts in `s`.
pub open spec fn prefix_sum<C: Count>(s: Seq<C>, n: int) -> nat {
    count_sum(s.take(n))
}

/// Bucket `i` holds the `rank`-th observation (counting from one): the
/// observations in buckets `0..=i` reach `rank`, those before `i` do not.
pub open spec fn holds_rank<C: Count>(s: Seq<C>, i: int, rank: nat) -> bool {
    &&& 0 <= i < s.len()
    &&& prefix_sum(s, i + 1) >= rank
    &&& forall|j: int| 0 <= j < i ==> #[trigger] prefix_sum(s, j + 1) < rank
}

/// The bucket that holds the `rank`-th observation.
pub open spec fn rank_position<C: Count>(s: Seq<C>, rank: nat) -> int {
    choose|i: int| holds_rank(s, i, rank)
}

/// Extending a prefix by one bucket adds that bucket's count.
pub proof fn lemma_prefix_sum_step<C: Count>(s: Seq<C>, i: int)
    requires
        0 <= i < s.len(),
    ensures
        prefix_sum(s, i + 1) == prefix_sum(s, i) + s[i].spec_value(),
{
    assert(s.take(i + 1).drop_last() =~= s.take(i));
}

/// The prefix of the whole sequence is the whole sum.
pub proof fn lemma_prefix_sum_full<C: Count>(s: Seq<C>)
    ensures
        prefix_sum(s, s.len() as int) == count_sum(s),
{
    assert(s.take(s.len() as int) =~= s);
}

/// Prefix sums never decrease.
pub proof fn lemma_prefix_sum_monotone<C: Count>(s: Seq<C>, i: int, j: int)
    requires
        0 <= i <= j <= s.len(),
    ensures
        prefix_sum(s, i) <= prefix_sum(s, j),
    decreases j - i,
{
    if i < j {
        lemma_prefix_sum_step(s, j - 1);
        lemma_prefix_sum_monotone(s, i, j - 1);
    }
}

/// The sum of `n` counts is at most `n` times the counter limit.
pub proof fn lemma_count_sum_bound<C: Count>(s: Seq<C>)
    ensures
        count_sum(s) <= s.len() * C::spec_max(),
    decreases s.len(),
{
    C::lemma_count_facts();
    if s.len() > 0 {
        lemma_count_sum_bound(s.drop_last());
        assert(s.last().spec_value() <= C::spec_max());
        assert((s.len() - 1) * C::spec_max() + C::spec_max() == s.len() * C::spec_max())
            by (nonlinear_arith);
    }
}

/// Sequences with the same count values have the same sum.
pub proof fn lemma_count_sum_ext<C: Count>(a: Seq<C>, b: Seq<C>)
    requires
        a.len() == b.len(),
        forall|i: int| 0 <= i < a.len() ==> #[trigger] a[i].spec_value() == b[i].spec_value(),
    ensures
        count_sum(a) == count_sum(b),
    decreases a.len(),
{
    if a.len() > 0 {
        lemma_count_sum_ext(a.drop_last(), b.drop_last());
    }
}

/// A sum of zero means every count is zero, and the other way round.
pub proof fn lemma_count_sum_zero<C: Count>(s: Seq<C>)
    ensures
        count_sum(s) == 0 <==> forall|i: int| 0 <= i < s.len() ==> #[trigger] s[i].spec_value()
            == 0,
    decreases s.len(),
{
    if s.len() > 0 {
        lemma_count_sum_zero(s.drop_last());
        if count_sum(s) == 0 {
            assert forall|i: int| 0 <= i < s.len() implies #[trigger] s[i].spec_value() == 0 by {
                if i < s.len() - 1 {
                    assert(s[i] == s.drop_last()[i]);
                }
            }
        }
        if forall|i: int| 0 <= i < s.len() ==> #[trigger] s[i].spec_value() == 0 {
            assert forall|i: int| 0 <= i < s.drop_last().len() implies #[trigger] s.drop_last()[i].spec_value() == 0 by {
                assert(s.drop_last()[i] == s[i]);
            }
            assert(s.last().spec_value() == 0) by {
                assert(s.last() == s[s.len() - 1]);
            }
        }
    }
}

/// Only one bucket holds a given rank.
pub proof fn lemma_rank_position_unique<C: Count>(s: Seq<C>, i: int, rank: nat)
    requires
        holds_rank(s, i, rank),
    ensures
        rank_position(s, rank) == i,
{
    let k = rank_position(s, rank);
    assert(holds_rank(s, k, rank));
    if k < i {
        assert(prefix_sum(s, k + 1) < rank);
    }
    if k > i {
        assert(prefix_sum(s, i + 1) < rank);
    }
}

/// The total of the counts in `counts`, widened to `u128`.
pub fn sum_counts<C: Count>(counts: &[C]) -> (r: u128)
    requires
        counts@.len() <= u32::MAX,
    ensures
        r == count_sum(counts@),
{
    let n = counts.len();
    let mut total: u128 = 0;
    let mut i: usize = 0;
    while i < n
        invariant
            n == counts@.len(),
            n <= u32::MAX,
            i <= n,
            total == prefix_sum(counts@, i as int),
        decreases n - i,
    {
        proof {
            lemma_prefix_sum_step(counts@, i as int);
            lemma_count_sum_bound(counts@.take(i as int + 1));
            C::lemma_count_facts();
            assert((i + 1) * C::spec_max() <= 0x1_0000_0000 * 0x1_0000_0000_0000_0000)
                by (nonlinear_arith)
                requires
                    i + 1 <= 0x1_0000_0000,
                    C::spec_max() <= 0x1_0000_0000_0000_0000,
            ;
        }
        total = total + counts[i].as_u128();
        i = i + 1;
    }
    proof {
        lemma_prefix_sum_full(counts@);
    }
    total
}

/// For each requested rank `k`, the position in `counts` of the bucket that
/// holds the `k`-th observation, or `None` when there are fewer than `k`
/// observations (or no buckets at all).
///
/// Ranks may come in any order; sorted ranks are answered in one forward pass.
pub fn rank_positions<C: Count>(counts: &[C], ranks: &[u128]) -> (r: Vec<Option<usize>>)
    requires
        counts@.len() <= u32::MAX,
    ensures
        r@.len() == ranks@.len(),
        forall|k: int|
            0 <= k < ranks@.len() ==> ((counts@.len() > 0 && ranks@[k] <= count_sum(counts@))
                <==> #[trigger] r@[k] is Some),
        forall|k: int|
            0 <= k < ranks@.len() && #[trigger] r@[k] is Some ==> r@[k]->0 == rank_position(
                counts@,
                ranks@[k] as nat,
            ) && holds_rank(counts@, r@[k]->0 as int, ranks@[k] as nat),
{
    let ghost s = counts@;
    let n = counts.len();
    let mut out: Vec<Option<usize>> = Vec::with_capacity(ranks.len());
    if n == 0 {
        let mut k: usize = 0;
        while k < ranks.len()
            invariant
                n == 0,
                k <= ranks@.len(),
                out@.len() == k,
                forall|m: int| 0 <= m < k ==> #[trigger] out@[m] is None,
            decreases ranks@.len() - k,
        {
            out.push(None);
            k = k + 1;
        }
        return out;
    }
    proof {
        lemma_prefix_sum_full(s);
        lemma_prefix_sum_step(s, 0);
        assert(s.take(0) =~= Seq::<C>::empty());
    }
    let mut idx: usize = 0;
    let mut partial: u128 = counts[0].as_u128();
    let mut last_rank: u128 = 0;
    let mut k: usize = 0;
    while k < ranks.len()
        invariant
            s == counts@,
            n == s.len(),
            1 <= n <= u32::MAX,
            count_sum(s) == prefix_sum(s, n as int),
            idx < n,
            partial == prefix_sum(s, idx + 1),
            forall|j: int| 0 <= j < idx ==> #[trigger] prefix_sum(s, j + 1) < last_rank,
            k <= ranks@.len(),
            out@.len() == k,
            forall|m: int|
                0 <= m < k ==> (ranks@[m] <= count_sum(s) <==> #[trigger] out@[m] is Some),
            forall|m: int|
                0 <= m < k && #[trigger] out@[m] is Some ==> out@[m]->0 == rank_position(
                    s,
                    ranks@[m] as nat,
                ) && holds_rank(s, out@[m]->0 as int, ranks@[m] as nat),
        decreases ranks@.len() - k,
    {
        let rank = ranks[k];
        if rank < last_rank {
            idx = 0;
            partial = counts[0].as_u128();
            proof {
                lemma_prefix_sum_step(s, 0);
                assert(s.take(0) =~= Seq::<C>::empty());
            }
        }
        last_rank = rank;
        while partial < rank && idx + 1 < n
            invariant
                s == counts@,
                n == s.len(),
                n <= u32::MAX,
                count_sum(s) == prefix_sum(s, n as int),
                idx < n,
                partial == prefix_sum(s, idx + 1),
                forall|j: int| 0 <= j < idx ==> #[trigger] prefix_sum(s, j + 1) < rank,
            decreases n - idx,
        {
            proof {
                lemma_prefix_sum_step(s, idx + 1);
                lemma_prefix_sum_monotone(s, idx + 2, n as int);
                lemma_count_sum_bound(s);
                C::lemma_count_facts();
                assert(n * C::spec_max() <= 0x1_0000_0000 * 0x1_0000_0000_0000_0000)
                    by (nonlinear_arith)
                    requires
                        n <= 0x1_0000_0000,
                        C::spec_max() <= 0x1_0000_0000_0000_0000,
                ;
            }
            idx = idx + 1;
            partial = partial + counts[idx].as_u128();
        }
        let ghost before = out@;
        if partial >= rank {
            proof {
                assert(holds_rank(s, idx as int, rank as nat));
                lemma_rank_position_unique(s, idx as int, rank as nat);
                lemma_prefix_sum_monotone(s, idx + 1, n as int);
            }
            out.push(Some(idx));
        } else {
            out.push(None);
        }
        proof {
            assert forall|m: int| 0 <= m < k implies #[trigger] out@[m] == before[m] by {}
        }
        k = k + 1;
    }
    out
}

} // verus!
