//! Integer side of the subdivision-count estimator.
//!
//! The estimate itself is numeric. What is fixed here is the range that a
//! count is forced into before it is used, and the grid on which the inverse
//! of the offset-arc integral is probed.

use vstd::prelude::*;

verus! {

/// Denominator of the probe grid: probe `i` stands for `i / 50`.
pub const PROBE_DENOMINATOR: u32 = 50;

/// Number of probes; the grid covers `[0, 2)`.
pub const PROBE_COUNT: u32 = 100;

/// A raw estimate forced into `[1, limit]`.
pub open spec fn clamped(raw: u64, limit: u32) -> u32 {
    if raw < 1 {
        1
    } else if raw > limit {
        limit
    } else {
        raw as u32
    }
}

/// Forces a raw chord count into `[1, limit]`: a curve is never cut into
/// fewer than one chord, and an estimate that runs away near a cusp is cut
/// off at `limit`.
pub fn clamp_subdivisions(raw: u64, limit: u32) -> (n: u32)
    requires
        limit >= 1,
    ensures
        n == clamped(raw, limit),
        1 <= n <= limit,
{
    if raw < 1 {
        1
    } else if raw > limit as u64 {
        limit
    } else {
        raw as u32
    }
}

/// `count` is what clamping makes of a raw count that `estimate` could
/// return for `segment`.
pub open spec fn counted<S, N: Fn(&S) -> u64>(estimate: N, segment: &S, limit: u32, count: u32) -> bool {
    exists|raw: u64| call_ensures(estimate, (segment,), raw) && count == clamped(raw, limit)
}

/// Counts the chords of every segment: asks `estimate` for the raw count of
/// each, in order, and forces it into `[1, limit]`.
pub fn segment_counts<S, N: Fn(&S) -> u64>(segments: &Vec<S>, limit: u32, estimate: N) -> (counts: Vec<u32>)
    requires
        limit >= 1,
        forall|i: int| 0 <= i < segments@.len() ==> call_requires(estimate, (&segments@[i],)),
    ensures
        counts@.len() == segments@.len(),
        forall|i: int| 0 <= i < counts@.len() ==> 1 <= #[trigger] counts@[i] <= limit,
        forall|i: int|
            0 <= i < counts@.len() ==> counted(estimate, &segments@[i], limit, #[trigger] counts@[i]),
{
    let mut counts: Vec<u32> = Vec::new();
    let mut i: usize = 0;
    while i < segments.len()
        invariant
            limit >= 1,
            i <= segments@.len(),
            counts@.len() == i,
            forall|k: int| 0 <= k < segments@.len() ==> call_requires(estimate, (&segments@[k],)),
            forall|k: int| 0 <= k < i ==> 1 <= #[trigger] counts@[k] <= limit,
            forall|k: int|
                0 <= k < i ==> counted(estimate, &segments@[k], limit, #[trigger] counts@[k]),
        decreases segments@.len() - i,
    {
        let raw = estimate(&segments[i]);
        let n = clamp_subdivisions(raw, limit);
        let ghost before = counts@;
        counts.push(n);
        proof {
            assert(forall|k: int| 0 <= k < i ==> counts@[k] == before[k]);
            assert(call_ensures(estimate, (&segments@[i as int],), raw) && n == clamped(raw, limit));
            assert(counted(estimate, &segments@[i as int], limit, counts@[i as int]));
        }
        i = i + 1;
    }
    counts
}

/// Clamping keeps the order of estimates: a larger raw estimate never gives
/// a smaller count.
pub proof fn lemma_clamped_monotone(a: u64, b: u64, limit: u32)
    requires
        a <= b,
        limit >= 1,
    ensures
        clamped(a, limit) <= clamped(b, limit),
{
}

/// The numerators, over [`PROBE_DENOMINATOR`], of the arguments at which the
/// inverse of the offset-arc integral is probed: `0, 1, ..., 99`.
pub fn main_invert_espc_int() -> (grid: Vec<u32>)
    ensures
        grid@.len() == PROBE_COUNT,
        forall|i: int| 0 <= i < PROBE_COUNT ==> #[trigger] grid@[i] == i,
{
    let mut grid: Vec<u32> = Vec::new();
    let mut i: u32 = 0;
    while i < PROBE_COUNT
        invariant
            i <= PROBE_COUNT,
            grid@.len() == i,
            forall|k: int| 0 <= k < i ==> #[trigger] grid@[k] == k,
        decreases PROBE_COUNT - i,
    {
        grid.push(i);
        i = i + 1;
    }
    grid
}

} // verus!
