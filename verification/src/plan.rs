//! The order in which an offset polyline samples its spiral segments.
//!
//! A segment cut into `n` chords is sampled at the parameters `i / n`. The
//! end of one segment is the start of the next, so every segment but the
//! first leaves out its parameter zero.

use vstd::prelude::*;

verus! {

/// One point of the polyline: parameter `index / count` on segment `segment`.
#[derive(Clone, Copy, Debug, PartialEq, Eq, Structural)]
pub struct Sample {
    pub segment: usize,
    pub index: u32,
    pub count: u32,
}

/// The samples `first / count, ..., count / count` of one segment.
pub open spec fn segment_samples(segment: int, count: u32, first: int) -> Seq<Sample> {
    Seq::new(
        (count + 1 - first) as nat,
        |k: int| Sample { segment: segment as usize, index: (first + k) as u32, count },
    )
}

/// First parameter index sampled on a segment: the very first segment starts
/// at zero, the others at one.
pub open spec fn first_index(segment: int) -> int {
    if segment == 0 {
        0
    } else {
        1
    }
}

/// All samples of a polyline over segments with the given chord counts.
pub open spec fn plan_of(counts: Seq<u32>) -> Seq<Sample>
    decreases counts.len(),
{
    if counts.len() == 0 {
        Seq::empty()
    } else {
        plan_of(counts.drop_last()) + segment_samples(
            counts.len() - 1,
            counts.last(),
            first_index(counts.len() - 1),
        )
    }
}

/// Sum of the chord counts.
pub open spec fn total_chords(counts: Seq<u32>) -> int
    decreases counts.len(),
{
    if counts.len() == 0 {
        0
    } else {
        total_chords(counts.drop_last()) + counts.last()
    }
}

/// Lists the samples of a polyline, segment by segment, each shared endpoint
/// once.
pub fn sample_plan(counts: &Vec<u32>) -> (plan: Vec<Sample>)
    requires
        forall|i: int| 0 <= i < counts@.len() ==> 1 <= #[trigger] counts@[i],
    ensures
        plan@ == plan_of(counts@),
{
    let mut plan: Vec<Sample> = Vec::new();
    let mut s: usize = 0;
    while s < counts.len()
        invariant
            s <= counts@.len(),
            forall|i: int| 0 <= i < counts@.len() ==> 1 <= #[trigger] counts@[i],
            plan@ == plan_of(counts@.take(s as int)),
        decreases counts@.len() - s,
    {
        let count: u32 = counts[s];
        let first: u32 = if s == 0 { 0 } else { 1 };
        let ghost before = plan@;
        let mut i: u32 = first;
        while i < count
            invariant
                first <= i <= count,
                first == first_index(s as int),
                plan@ == before + segment_samples(s as int, count, first as int).take(i - first),
            decreases count - i,
        {
            plan.push(Sample { segment: s, index: i, count });
            proof {
                let all = segment_samples(s as int, count, first as int);
                assert(all.take(i + 1 - first) =~= all.take(i - first).push(all[i - first]));
            }
            i = i + 1;
        }
        plan.push(Sample { segment: s, index: count, count });
        proof {
            let all = segment_samples(s as int, count, first as int);
            assert(all =~= all.take(count - first).push(all[count - first]));
            let upto = counts@.take(s + 1);
            assert(upto.drop_last() =~= counts@.take(s as int));
            assert(upto.last() == count);
            assert(plan@ =~= before + all);
        }
        s = s + 1;
    }
    proof {
        assert(counts@.take(s as int) =~= counts@);
    }
    plan
}

/// Builds the polyline: evaluates `eval` at every sample of the plan, in
/// order. `eval` maps a sample to the point of its segment's offset curve at
/// parameter `index / count`.
pub fn flatten_offset<P, E: Fn(Sample) -> P>(counts: &Vec<u32>, eval: E) -> (points: Vec<P>)
    requires
        forall|i: int| 0 <= i < counts@.len() ==> 1 <= #[trigger] counts@[i],
        forall|s: Sample| 1 <= s.count && s.index <= s.count ==> call_requires(eval, (s,)),
    ensures
        points@.len() == plan_of(counts@).len(),
        forall|i: int|
            0 <= i < points@.len() ==> call_ensures(
                eval,
                (plan_of(counts@)[i],),
                #[trigger] points@[i],
            ),
{
    let plan = sample_plan(counts);
    let segments = counts.len();
    let mut points: Vec<P> = Vec::new();
    let mut i: usize = 0;
    while i < plan.len()
        invariant
            i <= plan@.len(),
            segments == counts@.len(),
            plan@ == plan_of(counts@),
            forall|k: int| 0 <= k < counts@.len() ==> 1 <= #[trigger] counts@[k],
            forall|s: Sample| 1 <= s.count && s.index <= s.count ==> call_requires(eval, (s,)),
            points@.len() == i,
            forall|k: int| 0 <= k < i ==> call_ensures(eval, (plan@[k],), #[trigger] points@[k]),
        decreases plan@.len() - i,
    {
        let sample = plan[i];
        proof {
            lemma_plan_member(counts@, i as int);
            assert(1 <= counts@[sample.segment as int]);
        }
        let point = eval(sample);
        points.push(point);
        i = i + 1;
    }
    points
}

/// A polyline over at least one segment has one point more than it has
/// chords: the shared endpoints are not repeated.
pub proof fn lemma_plan_len(counts: Seq<u32>)
    requires
        forall|i: int| 0 <= i < counts.len() ==> 1 <= #[trigger] counts[i],
    ensures
        plan_of(counts).len() == (if counts.len() == 0 {
            0
        } else {
            total_chords(counts) + 1
        }),
    decreases counts.len(),
{
    if counts.len() > 0 {
        let t = counts.drop_last();
        assert(forall|i: int| 0 <= i < t.len() ==> t[i] == counts[i]);
        lemma_plan_len(t);
        assert(1 <= counts[counts.len() - 1]);
        let tail = segment_samples(counts.len() - 1, counts.last(), first_index(counts.len() - 1));
        assert(tail.len() == counts.last() + 1 - first_index(counts.len() - 1));
        assert(plan_of(counts) == plan_of(t) + tail);
        assert(total_chords(counts) == total_chords(t) + counts.last());
        if t.len() == 0 {
            assert(total_chords(t) == 0);
        }
    }
}

/// Every sample lies on one of the segments, at a parameter between zero and
/// one of that segment's own subdivision; only the first segment is sampled
/// at zero.
pub proof fn lemma_plan_member(counts: Seq<u32>, i: int)
    requires
        counts.len() <= usize::MAX,
        forall|k: int| 0 <= k < counts.len() ==> 1 <= #[trigger] counts[k],
        0 <= i < plan_of(counts).len(),
    ensures
        plan_of(counts)[i].segment < counts.len(),
        plan_of(counts)[i].count == counts[plan_of(counts)[i].segment as int],
        first_index(plan_of(counts)[i].segment as int) <= plan_of(counts)[i].index <= plan_of(counts)[i].count,
    decreases counts.len(),
{
    let t = counts.drop_last();
    assert(forall|k: int| 0 <= k < t.len() ==> t[k] == counts[k]);
    assert(1 <= counts[counts.len() - 1]);
    if i < plan_of(t).len() {
        lemma_plan_member(t, i);
    }
}

/// Samples come in order along the curve: a later sample lies on a later
/// segment, or on the same segment at a larger parameter. No point is
/// listed twice.
pub proof fn lemma_plan_ordered(counts: Seq<u32>, i: int, j: int)
    requires
        counts.len() <= usize::MAX,
        forall|k: int| 0 <= k < counts.len() ==> 1 <= #[trigger] counts[k],
        0 <= i < j < plan_of(counts).len(),
    ensures
        plan_of(counts)[i].segment < plan_of(counts)[j].segment || (plan_of(counts)[i].segment
            == plan_of(counts)[j].segment && plan_of(counts)[i].index < plan_of(counts)[j].index),
    decreases counts.len(),
{
    let t = counts.drop_last();
    assert(forall|k: int| 0 <= k < t.len() ==> t[k] == counts[k]);
    assert(1 <= counts[counts.len() - 1]);
    if j < plan_of(t).len() {
        lemma_plan_ordered(t, i, j);
    } else if i < plan_of(t).len() {
        lemma_plan_member(t, i);
    }
}

/// A polyline starts at parameter zero of its first segment and ends at
/// parameter one of its last.
pub proof fn lemma_plan_endpoints(counts: Seq<u32>)
    requires
        counts.len() > 0,
        forall|i: int| 0 <= i < counts.len() ==> 1 <= #[trigger] counts[i],
    ensures
        plan_of(counts).len() >= 2,
        plan_of(counts)[0] == (Sample { segment: 0, index: 0, count: counts[0] }),
        plan_of(counts).last() == (Sample {
            segment: (counts.len() - 1) as usize,
            index: counts.last(),
            count: counts.last(),
        }),
    decreases counts.len(),
{
    let t = counts.drop_last();
    assert(forall|i: int| 0 <= i < t.len() ==> t[i] == counts[i]);
    assert(1 <= counts[counts.len() - 1]);
    lemma_plan_len(counts);
    lemma_plan_len(t);
    if t.len() > 0 {
        lemma_plan_endpoints(t);
        assert(t[0] == counts[0]);
    } else {
        assert(plan_of(t) =~= Seq::<Sample>::empty());
    }
}

} // verus!
