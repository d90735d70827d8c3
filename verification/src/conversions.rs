//! Conversions between the `u32` and `u64` counter widths: widening always
//! succeeds, narrowing fails with `Overflow` when a count does not fit.
use vstd::prelude::*;
use crate::boxed::copy_slice;
use crate::atomic::{AtomicHistogram, AtomicHistogram32};
use crate::count::Count;
use crate::cumulative::{
    CumulativeROHistogram,
    CumulativeROHistogram32,
    cumulative_parts_error,
};
use crate::errors::Error;
use crate::sparse::{SparseHistogram, SparseHistogram32};
use crate::standard::{Histogram, Histogram32};

verus! {

/// Each count of `c`, truncated to 32 bits.
pub open spec fn truncated_counts(c: Seq<u64>) -> Seq<u32> {
    c.map_values(|v: u64| v as u32)
}

/// A vector of the same counts, widened to `u64`.
fn widen_counts(c: &[u32]) -> (r: Vec<u64>)
    ensures
        r@.len() == c@.len(),
        forall|i: int| 0 <= i < c@.len() ==> #[trigger] r@[i] == c@[i],
{
    let mut out: Vec<u64> = Vec::with_capacity(c.len());
    let mut i: usize = 0;
    while i < c.len()
        invariant
            i <= c@.len(),
            out@.len() == i,
            forall|j: int| 0 <= j < i ==> #[trigger] out@[j] == c@[j],
        decreases c@.len() - i,
    {
        out.push(c[i] as u64);
        i = i + 1;
    }
    out
}

/// The same counts narrowed to `u32`, or `None` when one exceeds `u32::MAX`.
fn narrow_counts(c: &[u64]) -> (r: Option<Vec<u32>>)
    ensures
        r is None <==> exists|i: int| 0 <= i < c@.len() && #[trigger] c@[i] > u32::MAX,
        r matches Some(v) ==> v@.len() == c@.len() && forall|i: int| 0 <= i < c@.len() ==> #[trigger] v@[i] == c@[i],
{
    let mut out: Vec<u32> = Vec::with_capacity(c.len());
    let mut i: usize = 0;
    while i < c.len()
        invariant
            i <= c@.len(),
            out@.len() == i,
            forall|j: int| 0 <= j < i ==> #[trigger] out@[j] == c@[j],
        decreases c@.len() - i,
    {
        match <u32 as Count>::try_from_u64(c[i]) {
            Some(v) => {
                out.push(v);
            },
            None => {
                proof {
                    assert(c@[i as int] > u32::MAX);
                }
                return None;
            },
        }
        i = i + 1;
    }
    proof {
        assert forall|j: int| 0 <= j < c@.len() implies #[trigger] c@[j] <= u32::MAX by {
            assert(out@[j] == c@[j]);
        }
    }
    Some(out)
}

impl From<&Histogram32> for Histogram {
    /// The same configuration and counts, widened to `u64`.
    fn from(h: &Histogram32) -> (r: Self)
        ensures
            r.spec_config() == h.spec_config(),
            r.spec_counts().len() == h.spec_counts().len(),
            forall|i: int| 0 <= i < r.spec_counts().len() ==> #[trigger] r.spec_counts()[i] == h.spec_counts()[i],
            h.wf() ==> r.wf(),
    {
        let widened = widen_counts(h.as_slice());
        Histogram::from_counts(h.config(), widened)
    }
}

/// What `from` returns is stated by its own `ensures`.
impl vstd::std_specs::convert::FromSpecImpl<&Histogram32> for Histogram {
    open spec fn obeys_from_spec() -> bool {
        false
    }

    open spec fn from_spec(v: &Histogram32) -> Self {
        arbitrary()
    }
}

impl From<&AtomicHistogram32> for AtomicHistogram {
    /// A new atomic histogram with the same configuration, holding a widened
    /// snapshot of the counters.
    fn from(h: &AtomicHistogram32) -> (r: Self)
        ensures
            r.spec_config() == h.spec_config(),
    {
        let snapshot = h.load();
        let widened = widen_counts(snapshot.as_slice());
        let out = AtomicHistogram::with_config(&h.config());
        proof {
            use_type_invariant(&out);
        }
        let mut i: usize = 0;
        while i < widened.len()
            invariant
                i <= widened@.len(),
                widened@.len() == out.spec_len(),
            decreases widened@.len() - i,
        {
            out.add_at(i, widened[i]);
            i = i + 1;
        }
        out
    }
}

/// What `from` returns is stated by its own `ensures`.
impl vstd::std_specs::convert::FromSpecImpl<&AtomicHistogram32> for AtomicHistogram {
    open spec fn obeys_from_spec() -> bool {
        false
    }

    open spec fn from_spec(v: &AtomicHistogram32) -> Self {
        arbitrary()
    }
}

impl From<&SparseHistogram32> for SparseHistogram {
    /// The same configuration, indices and counts, widened to `u64`.
    fn from(h: &SparseHistogram32) -> (r: Self)
        ensures
            r.spec_config() == h.spec_config(),
            r.spec_index() == h.spec_index(),
            r.spec_count().len() == h.spec_count().len(),
            forall|i: int| 0 <= i < r.spec_count().len() ==> #[trigger] r.spec_count()[i] == h.spec_count()[i],
    {
        proof {
            use_type_invariant(h);
        }
        let widened = widen_counts(h.count());
        let index = copy_slice(h.index());
        proof {
            let hc = h.spec_count();
            assert forall|k: int| 0 <= k < widened@.len() implies #[trigger] widened@[k].spec_value() != 0 by {
                assert(hc[k].spec_value() != 0);
            }
        }
        SparseHistogram::from_valid_parts(h.config(), index, widened)
    }
}

/// What `from` returns is stated by its own `ensures`.
impl vstd::std_specs::convert::FromSpecImpl<&SparseHistogram32> for SparseHistogram {
    open spec fn obeys_from_spec() -> bool {
        false
    }

    open spec fn from_spec(v: &SparseHistogram32) -> Self {
        arbitrary()
    }
}

impl From<&CumulativeROHistogram32> for CumulativeROHistogram {
    /// The same configuration, indices and running totals, widened to `u64`.
    fn from(h: &CumulativeROHistogram32) -> (r: Self)
        ensures
            r.spec_config() == h.spec_config(),
            r.spec_index() == h.spec_index(),
            r.spec_count().len() == h.spec_count().len(),
            forall|i: int| 0 <= i < r.spec_count().len() ==> #[trigger] r.spec_count()[i] == h.spec_count()[i],
    {
        proof {
            use_type_invariant(h);
        }
        let widened = widen_counts(h.count());
        let index = copy_slice(h.index());
        CumulativeROHistogram::from_valid_parts(h.config(), index, widened)
    }
}

/// What `from` returns is stated by its own `ensures`.
impl vstd::std_specs::convert::FromSpecImpl<&CumulativeROHistogram32> for CumulativeROHistogram {
    open spec fn obeys_from_spec() -> bool {
        false
    }

    open spec fn from_spec(v: &CumulativeROHistogram32) -> Self {
        arbitrary()
    }
}

impl TryFrom<&Histogram> for Histogram32 {
    type Error = Error;

    /// The same configuration and counts, narrowed to `u32`; fails with
    /// `Overflow` when a count exceeds `u32::MAX`.
    fn try_from(h: &Histogram) -> (r: Result<Self, Error>)
        ensures
            (exists|i: int| 0 <= i < h.spec_counts().len() && #[trigger] h.spec_counts()[i] > u32::MAX)
                ==> r == Err::<Self, Error>(Error::Overflow),
            h.wf() && !(exists|i: int| 0 <= i < h.spec_counts().len() && #[trigger] h.spec_counts()[i] > u32::MAX)
                ==> (r matches Ok(out) && out.wf() && out.spec_config() == h.spec_config()
                && out.spec_counts().len() == h.spec_counts().len()
                && forall|i: int| 0 <= i < out.spec_counts().len() ==> #[trigger] out.spec_counts()[i] == h.spec_counts()[i]),
    {
        let narrowed = match narrow_counts(h.as_slice()) {
            Some(v) => v,
            None => {
                return Err(Error::Overflow);
            },
        };
        let config = h.config();
        proof {
            use_type_invariant(&config);
            config.lemma_valid();
        }
        match Histogram32::from_buckets(config.grouping_power(), config.max_value_power(), narrowed) {
            Ok(out) => {
                let out_config = out.config();
                proof {
                    use_type_invariant(&out_config);
                    config.lemma_determined_by_powers(out_config);
                }
                Ok(out)
            },
            Err(e) => Err(e),
        }
    }
}

/// What `try_from` returns is stated by its own `ensures`.
impl vstd::std_specs::convert::TryFromSpecImpl<&Histogram> for Histogram32 {
    open spec fn obeys_try_from_spec() -> bool {
        false
    }

    open spec fn try_from_spec(v: &Histogram) -> Result<Self, Error> {
        arbitrary()
    }
}

impl TryFrom<&SparseHistogram> for SparseHistogram32 {
    type Error = Error;

    /// The same configuration, indices and counts, narrowed to `u32`; fails
    /// with `Overflow` when a count exceeds `u32::MAX`.
    fn try_from(h: &SparseHistogram) -> (r: Result<Self, Error>)
        ensures
            (exists|i: int| 0 <= i < h.spec_count().len() && #[trigger] h.spec_count()[i] > u32::MAX)
                <==> r == Err::<Self, Error>(Error::Overflow),
            r is Err ==> r == Err::<Self, Error>(Error::Overflow),
            r matches Ok(out) ==> out.spec_config() == h.spec_config() && out.spec_index() == h.spec_index()
                && out.spec_count().len() == h.spec_count().len()
                && forall|i: int| 0 <= i < out.spec_count().len() ==> #[trigger] out.spec_count()[i] == h.spec_count()[i],
    {
        proof {
            use_type_invariant(h);
        }
        let narrowed = match narrow_counts(h.count()) {
            Some(v) => v,
            None => {
                return Err(Error::Overflow);
            },
        };
        let index = copy_slice(h.index());
        proof {
            let hc = h.spec_count();
            assert forall|k: int| 0 <= k < narrowed@.len() implies #[trigger] narrowed@[k].spec_value() != 0 by {
                assert(hc[k].spec_value() != 0);
            }
        }
        SparseHistogram32::from_parts(h.config(), index, narrowed)
    }
}

/// What `try_from` returns is stated by its own `ensures`.
impl vstd::std_specs::convert::TryFromSpecImpl<&SparseHistogram> for SparseHistogram32 {
    open spec fn obeys_try_from_spec() -> bool {
        false
    }

    open spec fn try_from_spec(v: &SparseHistogram) -> Result<Self, Error> {
        arbitrary()
    }
}

impl TryFrom<&CumulativeROHistogram> for CumulativeROHistogram32 {
    type Error = Error;

    /// The same configuration and indices with the running totals narrowed
    /// to `u32`. Fails with `Overflow` when the last total (the total count)
    /// exceeds `u32::MAX`; the earlier totals are then truncated and the
    /// parts validated as `from_parts` does.
    fn try_from(h: &CumulativeROHistogram) -> (r: Result<Self, Error>)
        ensures
            h.spec_count().len() > 0 && h.spec_count().last() > u32::MAX ==> r == Err::<Self, Error>(
                Error::Overflow,
            ),
            !(h.spec_count().len() > 0 && h.spec_count().last() > u32::MAX) ==> {
                let e = cumulative_parts_error(h.spec_config(), h.spec_index(), truncated_counts(h.spec_count()));
                &&& r is Ok <==> e is None
                &&& r is Err ==> r == Err::<Self, Error>(e->0)
            },
            r matches Ok(out) ==> out.spec_config() == h.spec_config() && out.spec_index() == h.spec_index()
                && out.spec_count() == truncated_counts(h.spec_count()),
    {
        let count = h.count();
        let n = count.len();
        if n > 0 && count[n - 1] > u32::MAX as u64 {
            return Err(Error::Overflow);
        }
        let mut narrowed: Vec<u32> = Vec::with_capacity(n);
        let mut i: usize = 0;
        while i < n
            invariant
                n == count@.len(),
                i <= n,
                narrowed@ == truncated_counts(count@).take(i as int),
            decreases n - i,
        {
            narrowed.push(count[i] as u32);
            i = i + 1;
            proof {
                assert(narrowed@ =~= truncated_counts(count@).take(i as int));
            }
        }
        proof {
            assert(narrowed@ =~= truncated_counts(count@));
        }
        let index = copy_slice(h.index());
        CumulativeROHistogram32::from_parts(h.config(), index, narrowed)
    }
}

/// What `try_from` returns is stated by its own `ensures`.
impl vstd::std_specs::convert::TryFromSpecImpl<&CumulativeROHistogram> for CumulativeROHistogram32 {
    open spec fn obeys_try_from_spec() -> bool {
        false
    }

    open spec fn try_from_spec(v: &CumulativeROHistogram) -> Result<Self, Error> {
        arbitrary()
    }
}

} // verus!
