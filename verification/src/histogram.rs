//! Bucket counting: how many values fall between consecutive edges.
//!
//! A value belongs to bucket `i` when it is below `edges[i + 1]` (and not
//! below `edges[0]`); a value exactly on the last edge is counted into the
//! last bucket.  Values below the first edge, above the last, or on an
//! interior edge boundary scan past it, go uncounted only when no bucket
//! admits them.

use vstd::prelude::*;

verus! {

use crate::frac::{Frac, spec_lt, spec_eq_val, CMP_BOUND};
use crate::contour::all_bounded;

/// The bucket that `v` falls into, scanning from bucket `i` upward.
pub open spec fn spec_bucket_from(v: Frac, edges: Seq<Frac>, i: int) -> Option<int>
    decreases edges.len() - i,
{
    if i < 0 || i >= edges.len() - 1 {
        None
    } else if spec_lt(v, edges[i + 1]) || (spec_eq_val(v, edges[i + 1]) && i == edges.len()
        - 2) {
        Some(i)
    } else {
        spec_bucket_from(v, edges, i + 1)
    }
}

/// The bucket that `v` falls into, if any: values below the first edge are
/// not counted.
pub open spec fn spec_bucket(v: Frac, edges: Seq<Frac>) -> Option<int> {
    if spec_lt(v, edges[0]) {
        None
    } else {
        spec_bucket_from(v, edges, 0)
    }
}

/// The bucket counts after the first `k` values.
pub open spec fn spec_hist_prefix(values: Seq<Frac>, edges: Seq<Frac>, k: int) -> Seq<int>
    decreases k,
{
    if k <= 0 {
        Seq::new((edges.len() - 1) as nat, |t: int| 0)
    } else {
        let prev = spec_hist_prefix(values, edges, k - 1);
        match spec_bucket(values[k - 1], edges) {
            Some(b) => prev.update(b, prev[b] + 1),
            None => prev,
        }
    }
}

/// The bucket counts of all values.
pub open spec fn spec_histogram(values: Seq<Frac>, edges: Seq<Frac>) -> Seq<int> {
    spec_hist_prefix(values, edges, values.len() as int)
}

/// The counts as mathematical integers.
pub open spec fn counts_of(counts: Seq<u64>) -> Seq<int> {
    counts.map_values(|c: u64| c as int)
}

/// Count how many of `values` fall between each pair of consecutive
/// `edges`.  The result has one count per bucket, `edges.len() - 1` in all.
pub fn histogram(values: &Vec<Frac>, edges: &Vec<Frac>) -> (counts: Vec<u64>)
    requires
        edges@.len() >= 1,
        all_bounded(values@, CMP_BOUND as int, CMP_BOUND as int),
        all_bounded(edges@, CMP_BOUND as int, CMP_BOUND as int),
    ensures
        counts@.len() == edges@.len() - 1,
        counts_of(counts@) == spec_histogram(values@, edges@),
{
    let elen = edges.len();
    let vlen = values.len();
    let mut counts: Vec<u64> = Vec::new();
    let mut t: usize = 0;
    while t < elen - 1
        invariant
            elen == edges@.len(),
            elen >= 1,
            t <= elen - 1,
            counts@.len() == t,
            forall|idx: int| 0 <= idx < t ==> counts@[idx] == 0,
        decreases elen - 1 - t,
    {
        counts.push(0);
        t = t + 1;
    }
    proof {
        assert(counts_of(counts@) =~= spec_hist_prefix(values@, edges@, 0));
    }
    let mut k: usize = 0;
    while k < vlen
        invariant
            elen == edges@.len(),
            vlen == values@.len(),
            elen >= 1,
            all_bounded(values@, CMP_BOUND as int, CMP_BOUND as int),
            all_bounded(edges@, CMP_BOUND as int, CMP_BOUND as int),
            k <= vlen,
            counts@.len() == elen - 1,
            forall|idx: int| 0 <= idx < counts@.len() ==> #[trigger] counts@[idx] <= k,
            counts_of(counts@) == spec_hist_prefix(values@, edges@, k as int),
        decreases vlen - k,
    {
        let v = values[k];
        let ghost pre = counts@;
        if !v.lt(edges[0]) {
            let mut i: usize = 0;
            while i < elen - 1
                invariant_except_break
                    elen == edges@.len(),
                    elen >= 1,
                    all_bounded(edges@, CMP_BOUND as int, CMP_BOUND as int),
                    v.bounded(CMP_BOUND as int, CMP_BOUND as int),
                    i <= elen - 1,
                    k < vlen,
                    vlen == values@.len(),
                    counts@ == pre,
                    counts@.len() == elen - 1,
                    forall|idx: int| 0 <= idx < counts@.len() ==> #[trigger] counts@[idx]
                        <= k,
                    spec_bucket_from(v, edges@, 0) == spec_bucket_from(v, edges@, i as int),
                ensures
                    counts@.len() == elen - 1,
                    forall|idx: int| 0 <= idx < counts@.len() ==> #[trigger] counts@[idx]
                        <= k + 1,
                    counts_of(counts@) == (match spec_bucket_from(v, edges@, 0) {
                        Some(b) => counts_of(pre).update(b, counts_of(pre)[b] + 1),
                        None => counts_of(pre),
                    }),
                decreases elen - 1 - i,
            {
                if v.lt(edges[i + 1]) || (v.eq_val(edges[i + 1]) && i == elen - 2) {
                    proof {
                        assert(spec_bucket_from(v, edges@, i as int) == Some(i as int));
                    }
                    counts[i] = counts[i] + 1;
                    proof {
                        assert(counts_of(counts@) =~= counts_of(pre).update(i as int,
                            counts_of(pre)[i as int] + 1));
                    }
                    break;
                }
                i = i + 1;
            }
        }
        proof {
            if spec_lt(v, edges@[0]) {
                assert(spec_bucket(v, edges@) is None);
            }
            assert(counts_of(counts@) == spec_hist_prefix(values@, edges@, k as int + 1));
        }
        k = k + 1;
    }
    counts
}

} // verus!
