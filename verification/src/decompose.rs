//! Bisection of the parameter range `[0, 1]` into accepted spans.
//!
//! Parameters are dyadic rationals: a span holds numerators over
//! `2^max_depth`, so every bisection is exact. The caller fits a spiral to
//! the span handed out by [`Decomposer::current`], reports how well it fits,
//! and [`Decomposer::advance`] either accepts the span or bisects it.

use vstd::prelude::*;
use vstd::arithmetic::div_mod::{lemma_fundamental_div_mod, lemma_mod_multiples_basic};
use vstd::arithmetic::power2::*;

verus! {

/// Deepest bisection that can be configured. Numerators over `2^52` convert
/// to double precision without rounding.
pub const DEPTH_LIMIT: u32 = 52;

/// Bisection depth to use when there is no reason to pick another; the
/// narrowest span is then `2^-20` wide.
pub const DEFAULT_MAX_DEPTH: u32 = 20;

/// A sub-interval `[lo, hi]` of the parameter range, in units of
/// `2^-max_depth`, reached after `depth` bisections.
#[derive(Clone, Copy, Debug, PartialEq, Eq, Structural)]
pub struct Span {
    pub lo: u64,
    pub hi: u64,
    pub depth: u32,
}

/// How the spiral fitted to a span compares with the curve it stands for.
#[derive(Clone, Copy, Debug, PartialEq, Eq, Structural)]
pub enum Fit {
    /// The estimated deviation is within tolerance.
    Within,
    /// The estimated deviation exceeds tolerance.
    Exceeds,
    /// The chord is shorter than the floor below which a span counts as straight.
    Degenerate,
}

/// What one call of [`Decomposer::advance`] did.
#[derive(Clone, Copy, Debug, PartialEq, Eq, Structural)]
pub enum Step {
    /// The span was accepted and appended to the output.
    Emitted(Span),
    /// The span was replaced by its two halves.
    Bisected,
    /// Nothing was pending.
    Finished,
}

impl Span {
    pub open spec fn width(self) -> int {
        self.hi - self.lo
    }

    /// The span is one of the `2^depth` equal parts at its depth.
    pub open spec fn wf(self, max_depth: nat) -> bool {
        &&& self.depth <= max_depth
        &&& self.hi <= pow2(max_depth)
        &&& self.lo < self.hi
        &&& self.hi - self.lo == pow2((max_depth - self.depth) as nat)
        &&& self.aligned()
    }

    /// The span starts at a multiple of its width.
    #[verifier::opaque]
    pub open spec fn aligned(self) -> bool {
        self.lo < self.hi ==> (self.lo as int) % (self.hi - self.lo) == 0
    }

    pub open spec fn midpoint(self) -> int {
        self.lo + (self.hi - self.lo) / 2
    }

    pub open spec fn lower_half(self) -> Span {
        Span { lo: self.lo, hi: self.midpoint() as u64, depth: (self.depth + 1) as u32 }
    }

    pub open spec fn upper_half(self) -> Span {
        Span { lo: self.midpoint() as u64, hi: self.hi, depth: (self.depth + 1) as u32 }
    }
}

/// `s` runs left to right from `from` to `to` without gap or overlap.
pub open spec fn ascending(s: Seq<Span>, from: int, to: int) -> bool {
    if s.len() == 0 {
        from == to
    } else {
        &&& s[0].lo == from
        &&& s.last().hi == to
        &&& forall|i: int| 0 <= i < s.len() - 1 ==> (#[trigger] s[i]).hi == s[i + 1].lo
    }
}

/// `s` is a stack whose top (its last element) starts at `from` and whose
/// bottom ends at `to`, each element ending where the one below it starts.
pub open spec fn descending(s: Seq<Span>, from: int, to: int) -> bool {
    if s.len() == 0 {
        from == to
    } else {
        &&& s.last().lo == from
        &&& s[0].hi == to
        &&& forall|i: int| 0 <= i < s.len() - 1 ==> (#[trigger] s[i]).lo == s[i + 1].hi
    }
}

/// Upper bound on the calls of `advance` that a stack of spans can still
/// take: a span of width `w` heads a bisection tree of at most `2w - 1` nodes.
pub open spec fn backlog(s: Seq<Span>) -> int
    decreases s.len(),
{
    if s.len() == 0 {
        0
    } else {
        backlog(s.drop_last()) + 2 * s.last().width() - 1
    }
}

/// Halving a well-formed span above the depth cap gives two well-formed
/// spans that meet at the midpoint.
pub proof fn lemma_halves(span: Span, max_depth: nat)
    requires
        span.wf(max_depth),
        span.depth < max_depth,
        max_depth <= DEPTH_LIMIT,
    ensures
        span.lower_half().wf(max_depth),
        span.upper_half().wf(max_depth),
        span.lower_half().lo == span.lo,
        span.lower_half().hi == span.upper_half().lo,
        span.upper_half().hi == span.hi,
        span.lower_half().width() + span.upper_half().width() == span.width(),
        span.lower_half().width() == span.upper_half().width(),
{
    let e = (max_depth - span.depth) as nat;
    lemma_pow2_unfold(e);
    lemma_pow2_pos((e - 1) as nat);
    assert((max_depth - (span.depth + 1)) as nat == (e - 1) as nat);
    let half = pow2((e - 1) as nat) as int;
    let lo = span.lo as int;
    reveal(Span::aligned);
    let q = lo / (2 * half);
    lemma_fundamental_div_mod(lo, 2 * half);
    assert(lo == (2 * q) * half && lo + half == (2 * q + 1) * half) by (nonlinear_arith)
        requires
            lo == (2 * half) * q,
    ;
    lemma_mod_multiples_basic(2 * q, half);
    lemma_mod_multiples_basic(2 * q + 1, half);
}

/// The work-list of a decomposition: the spans accepted so far, left to
/// right, and a stack of the spans still to be judged, leftmost on top.
pub struct Decomposer {
    max_depth: u32,
    pending: Vec<Span>,
    emitted: Vec<Span>,
}

impl Decomposer {
    pub closed spec fn max_depth(&self) -> nat {
        self.max_depth as nat
    }

    pub closed spec fn pending(&self) -> Seq<Span> {
        self.pending@
    }

    pub closed spec fn emitted(&self) -> Seq<Span> {
        self.emitted@
    }

    /// Numerator of the full parameter range.
    pub open spec fn full(&self) -> int {
        pow2(self.max_depth()) as int
    }

    /// Where the accepted spans end so far.
    pub open spec fn frontier(&self) -> int {
        if self.emitted().len() == 0 {
            0
        } else {
            self.emitted().last().hi as int
        }
    }

    pub open spec fn done(&self) -> bool {
        self.pending().len() == 0
    }

    pub open spec fn steps_left(&self) -> int {
        backlog(self.pending())
    }

    /// Accepted spans tile `[0, frontier]`, pending spans tile the rest, and
    /// the stack is never taller than `max_depth + 1`.
    pub open spec fn wf(&self) -> bool {
        &&& self.max_depth() <= DEPTH_LIMIT
        &&& forall|i: int| 0 <= i < self.emitted().len() ==> (#[trigger] self.emitted()[i]).wf(self.max_depth())
        &&& forall|i: int| 0 <= i < self.pending().len() ==> (#[trigger] self.pending()[i]).wf(self.max_depth())
        &&& forall|i: int| 0 <= i < self.pending().len() ==> (#[trigger] self.pending()[i]).depth >= i
        &&& ascending(self.emitted(), 0, self.frontier())
        &&& descending(self.pending(), self.frontier(), self.full())
    }

    /// Starts a decomposition with the whole range pending.
    pub fn new(max_depth: u32) -> (d: Decomposer)
        requires
            max_depth <= DEPTH_LIMIT,
        ensures
            d.wf(),
            d.max_depth() == max_depth,
            d.emitted() == Seq::<Span>::empty(),
            d.pending() == seq![Span { lo: 0, hi: pow2(max_depth as nat) as u64, depth: 0 }],
            d.steps_left() == 2 * pow2(max_depth as nat) - 1,
    {
        let mut full: u64 = 1;
        let mut i: u32 = 0;
        proof {
            lemma2_to64();
            lemma2_to64_rest();
        }
        while i < max_depth
            invariant
                i <= max_depth <= DEPTH_LIMIT,
                full == pow2(i as nat),
                full <= pow2(DEPTH_LIMIT as nat),
            decreases max_depth - i,
        {
            proof {
                lemma_pow2_unfold((i + 1) as nat);
                lemma2_to64_rest();
                if i + 1 < DEPTH_LIMIT {
                    lemma_pow2_strictly_increases((i + 1) as nat, DEPTH_LIMIT as nat);
                }
            }
            full = full * 2;
            i = i + 1;
        }
        let whole = Span { lo: 0, hi: full, depth: 0 };
        let mut pending: Vec<Span> = Vec::new();
        pending.push(whole);
        let d = Decomposer { max_depth, pending, emitted: Vec::new() };
        proof {
            lemma_pow2_pos(max_depth as nat);
            reveal(Span::aligned);
            let width = whole.width();
            assert(0int % width == 0) by (nonlinear_arith)
                requires
                    width > 0,
            ;
            assert(whole.aligned());
            assert(d.pending() =~= seq![whole]);
            assert(d.pending().drop_last() =~= Seq::<Span>::empty());
            assert(backlog(d.pending()) == backlog(d.pending().drop_last()) + 2 * whole.width() - 1);
        }
        d
    }

    /// True once every span has been accepted.
    pub fn is_finished(&self) -> (r: bool)
        ensures
            r == self.done(),
    {
        self.pending.len() == 0
    }

    /// The configured depth cap.
    pub fn depth_cap(&self) -> (r: u32)
        ensures
            r == self.max_depth(),
    {
        self.max_depth
    }

    /// The span to judge next: the leftmost pending one.
    pub fn current(&self) -> (r: Option<Span>)
        ensures
            r == (if self.done() {
                None
            } else {
                Some(self.pending().last())
            }),
    {
        let n = self.pending.len();
        if n == 0 {
            None
        } else {
            Some(self.pending[n - 1])
        }
    }

    /// The spans accepted so far, left to right.
    pub fn spans(&self) -> (r: &Vec<Span>)
        ensures
            r@ == self.emitted(),
    {
        &self.emitted
    }

    /// Gives up the work-list and hands out the accepted spans.
    pub fn into_spans(self) -> (r: Vec<Span>)
        ensures
            r@ == self.emitted(),
    {
        self.emitted
    }

    /// Number of spans waiting on the stack.
    pub fn pending_len(&self) -> (r: usize)
        ensures
            r == self.pending().len(),
    {
        self.pending.len()
    }

    /// Judges the current span. It is bisected when the fit exceeds
    /// tolerance and the depth cap is not reached; otherwise it is accepted,
    /// whatever the fit.
    pub fn advance(&mut self, fit: Fit) -> (step: Step)
        requires
            old(self).wf(),
        ensures
            final(self).wf(),
            final(self).max_depth() == old(self).max_depth(),
            old(self).done() ==> {
                &&& step == Step::Finished
                &&& final(self).pending() == old(self).pending()
                &&& final(self).emitted() == old(self).emitted()
            },
            !old(self).done() ==> {
                let top = old(self).pending().last();
                let rest = old(self).pending().drop_last();
                if fit == Fit::Exceeds && top.depth < old(self).max_depth() {
                    &&& step == Step::Bisected
                    &&& final(self).emitted() == old(self).emitted()
                    &&& final(self).pending() == rest.push(top.upper_half()).push(top.lower_half())
                } else {
                    &&& step == Step::Emitted(top)
                    &&& final(self).emitted() == old(self).emitted().push(top)
                    &&& final(self).pending() == rest
                }
            },
            !old(self).done() ==> 0 <= final(self).steps_left() < old(self).steps_left(),
    {
        let n = self.pending.len();
        if n == 0 {
            return Step::Finished;
        }
        let ghost before = self.pending@;
        let ghost out_before = self.emitted@;
        let top = self.pending[n - 1];
        self.pending.pop();
        let ghost rest = before.drop_last();
        proof {
            assert(self.pending@ =~= rest);
            assert(top.wf(self.max_depth as nat));
            lemma_backlog_nonneg(rest);
            assert(forall|i: int| 0 <= i < rest.len() ==> rest[i] == before[i]);
        }
        let split = match fit {
            Fit::Exceeds => top.depth < self.max_depth,
            _ => false,
        };
        if split {
            let mid = top.lo + (top.hi - top.lo) / 2;
            let upper = Span { lo: mid, hi: top.hi, depth: top.depth + 1 };
            let lower = Span { lo: top.lo, hi: mid, depth: top.depth + 1 };
            proof {
                lemma_halves(top, self.max_depth as nat);
                assert(upper == top.upper_half());
                assert(lower == top.lower_half());
            }
            self.pending.push(upper);
            self.pending.push(lower);
            proof {
                let after = self.pending@;
                assert(after =~= rest.push(upper).push(lower));
                assert(after.drop_last() =~= rest.push(upper));
                assert(rest.push(upper).drop_last() =~= rest);
                assert(backlog(after) == backlog(rest.push(upper)) + 2 * lower.width() - 1);
                assert(backlog(rest.push(upper)) == backlog(rest) + 2 * upper.width() - 1);
                assert(backlog(before) == backlog(rest) + 2 * top.width() - 1);
                assert forall|i: int| 0 <= i < after.len() implies (#[trigger] after[i]).wf(
                    self.max_depth as nat,
                ) && after[i].depth >= i by {
                    if i < rest.len() {
                        assert(after[i] == before[i]);
                    }
                }
                assert forall|i: int| 0 <= i < after.len() - 1 implies (#[trigger] after[i]).lo
                    == after[i + 1].hi by {
                    if i < rest.len() - 1 {
                        assert(after[i] == before[i]);
                        assert(after[i + 1] == before[i + 1]);
                    } else if i == rest.len() - 1 {
                        assert(after[i] == before[i]);
                        assert(after[i + 1] == upper);
                        assert(before[i].lo == before[i + 1].hi);
                    }
                }
            }
            Step::Bisected
        } else {
            self.emitted.push(top);
            proof {
                let out = self.emitted@;
                assert(out =~= out_before.push(top));
                assert forall|i: int| 0 <= i < out.len() implies (#[trigger] out[i]).wf(
                    self.max_depth as nat,
                ) by {
                    if i < out_before.len() {
                        assert(out[i] == out_before[i]);
                    }
                }
                assert forall|i: int| 0 <= i < out.len() - 1 implies (#[trigger] out[i]).hi
                    == out[i + 1].lo by {
                    if i < out_before.len() - 1 {
                        assert(out[i] == out_before[i]);
                        assert(out[i + 1] == out_before[i + 1]);
                    } else {
                        assert(out[i] == out_before.last());
                    }
                }
                assert(backlog(before) == backlog(rest) + 2 * top.width() - 1);
                if rest.len() > 0 {
                    assert(before[rest.len() - 1].lo == before[rest.len() - 1 + 1].hi);
                }
            }
            Step::Emitted(top)
        }
    }

    /// Pulls the next accepted span: judges and bisects until a span is
    /// accepted, and hands that span out. Gives `None` once the whole range
    /// has been handed out.
    pub fn pull<F: Fn(Span) -> Fit>(&mut self, judge: F) -> (r: Option<Span>)
        requires
            old(self).wf(),
            forall|span: Span| span.wf(old(self).max_depth()) ==> call_requires(judge, (span,)),
        ensures
            final(self).wf(),
            final(self).max_depth() == old(self).max_depth(),
            old(self).done() ==> {
                &&& r is None
                &&& final(self).emitted() == old(self).emitted()
                &&& final(self).pending() == old(self).pending()
            },
            !old(self).done() ==> {
                &&& r is Some
                &&& r->Some_0.lo == old(self).frontier()
                &&& final(self).emitted() == old(self).emitted().push(r->Some_0)
                &&& acceptable(judge, r->Some_0, old(self).max_depth())
                &&& final(self).steps_left() < old(self).steps_left()
            },
    {
        let ghost emitted = self.emitted();
        let ghost budget = self.steps_left();
        let ghost cap = self.max_depth();
        if self.is_finished() {
            return None;
        }
        loop
            invariant
                self.wf(),
                !self.done(),
                !old(self).done(),
                cap == old(self).max_depth(),
                emitted == old(self).emitted(),
                budget == old(self).steps_left(),
                self.max_depth() == cap,
                self.emitted() == emitted,
                self.steps_left() <= budget,
                forall|span: Span| span.wf(cap) ==> call_requires(judge, (span,)),
            decreases self.steps_left(),
        {
            let n = self.pending.len();
            let span = self.pending[n - 1];
            assert(span == self.pending().last());
            assert(span.wf(cap));
            let fit = judge(span);
            let step = self.advance(fit);
            match step {
                Step::Emitted(s) => {
                    proof {
                        if fit != Fit::Exceeds {
                            assert(call_ensures(judge, (span,), fit) && fit != Fit::Exceeds);
                        }
                    }
                    return Some(s);
                },
                _ => {},
            }
        }
    }
}

/// The span was accepted for a reason: it lies at the depth cap, or the
/// judge could return for it a verdict other than `Exceeds`.
pub open spec fn acceptable<F: Fn(Span) -> Fit>(judge: F, span: Span, max_depth: nat) -> bool {
    span.depth == max_depth || exists|fit: Fit|
        call_ensures(judge, (span,), fit) && fit != Fit::Exceeds
}

/// The span came about for a reason: it is the whole range, or a half of a
/// span for which the judge could return `Exceeds`.
pub open spec fn justified<F: Fn(Span) -> Fit>(judge: F, span: Span, max_depth: nat) -> bool {
    span.depth == 0 || exists|parent: Span|
        #![trigger parent.wf(max_depth)]
        {
            &&& parent.wf(max_depth)
            &&& parent.depth < max_depth
            &&& (span == parent.lower_half() || span == parent.upper_half())
            &&& call_ensures(judge, (parent,), Fit::Exceeds)
        }
}

/// Decomposes the parameter range into the spans that `judge` accepts, left
/// to right. `judge` is asked once for every span that comes up, the halves
/// of a span it rejects included; at depth `max_depth` a span is accepted
/// whatever the verdict.
pub fn decompose<F: Fn(Span) -> Fit>(max_depth: u32, judge: F) -> (spans: Vec<Span>)
    requires
        max_depth <= DEPTH_LIMIT,
        forall|span: Span| span.wf(max_depth as nat) ==> call_requires(judge, (span,)),
    ensures
        spans@.len() > 0,
        ascending(spans@, 0, pow2(max_depth as nat) as int),
        forall|i: int| 0 <= i < spans@.len() ==> (#[trigger] spans@[i]).wf(max_depth as nat),
        forall|i: int| 0 <= i < spans@.len() ==> acceptable(judge, #[trigger] spans@[i], max_depth as nat),
        forall|i: int| 0 <= i < spans@.len() ==> justified(judge, #[trigger] spans@[i], max_depth as nat),
{
    let mut work = Decomposer::new(max_depth);
    while !work.is_finished()
        invariant
            work.wf(),
            work.max_depth() == max_depth,
            forall|span: Span| span.wf(max_depth as nat) ==> call_requires(judge, (span,)),
            forall|i: int|
                0 <= i < work.emitted().len() ==> acceptable(
                    judge,
                    #[trigger] work.emitted()[i],
                    max_depth as nat,
                ),
            forall|i: int|
                0 <= i < work.emitted().len() ==> justified(
                    judge,
                    #[trigger] work.emitted()[i],
                    max_depth as nat,
                ),
            forall|i: int|
                0 <= i < work.pending().len() ==> justified(
                    judge,
                    #[trigger] work.pending()[i],
                    max_depth as nat,
                ),
        decreases work.steps_left(),
    {
        if let Some(span) = work.current() {
            let ghost before = work.emitted();
            let ghost stack = work.pending();
            assert(span.wf(max_depth as nat));
            assert(justified(judge, stack[stack.len() - 1], max_depth as nat));
            let fit = judge(span);
            work.advance(fit);
            proof {
                let after = work.emitted();
                assert forall|i: int| 0 <= i < after.len() implies justified(
                    judge,
                    #[trigger] after[i],
                    max_depth as nat,
                ) by {
                    if i < before.len() {
                        assert(after[i] == before[i]);
                    }
                }
                let left = work.pending();
                assert forall|i: int| 0 <= i < left.len() implies justified(
                    judge,
                    #[trigger] left[i],
                    max_depth as nat,
                ) by {
                    if i < stack.len() - 1 {
                        assert(left[i] == stack[i]);
                    } else {
                        assert(span.wf(max_depth as nat) && span.depth < max_depth);
                        assert(left[i] == span.lower_half() || left[i] == span.upper_half());
                    }
                }
                assert forall|i: int| 0 <= i < after.len() implies acceptable(
                    judge,
                    #[trigger] after[i],
                    max_depth as nat,
                ) by {
                    if i < before.len() {
                        assert(after[i] == before[i]);
                    } else {
                        assert(after[i] == span);
                        if fit != Fit::Exceeds {
                            assert(call_ensures(judge, (span,), fit) && fit != Fit::Exceeds);
                        }
                    }
                }
            }
        }
    }
    proof {
        lemma_finished_tiles(work);
    }
    work.into_spans()
}

/// Spans of an ascending run never overlap: an earlier one ends no later
/// than a later one starts.
pub proof fn lemma_ascending_ordered(s: Seq<Span>, from: int, to: int, i: int, j: int)
    requires
        ascending(s, from, to),
        forall|k: int| 0 <= k < s.len() ==> (#[trigger] s[k]).lo < s[k].hi,
        0 <= i < j < s.len(),
    ensures
        s[i].hi <= s[j].lo,
    decreases j - i,
{
    if i + 1 < j {
        lemma_ascending_ordered(s, from, to, i, j - 1);
        assert(s[j - 1].hi == s[j - 1 + 1].lo);
        assert(s[j - 1].lo < s[j - 1].hi);
    } else {
        assert(s[i].hi == s[i + 1].lo);
    }
}

/// Every point of the range that an ascending run spans lies in one of its
/// spans; the index of that span is returned.
pub proof fn lemma_ascending_covers(s: Seq<Span>, from: int, to: int, x: int) -> (i: int)
    requires
        ascending(s, from, to),
        from <= x < to,
    ensures
        0 <= i < s.len(),
        s[i].lo <= x < s[i].hi,
    decreases s.len(),
{
    if x >= s.last().lo {
        s.len() - 1
    } else {
        let t = s.drop_last();
        assert(s.len() >= 2) by {
            if s.len() == 1 {
                assert(s[0] == s.last());
            }
        }
        assert(s[s.len() - 2].hi == s[s.len() - 2 + 1].lo);
        assert(forall|k: int| 0 <= k < t.len() ==> t[k] == s[k]);
        assert(ascending(t, from, s.last().lo as int)) by {
            assert forall|k: int| 0 <= k < t.len() - 1 implies (#[trigger] t[k]).hi == t[k + 1].lo by {
                assert(s[k].hi == s[k + 1].lo);
            }
        }
        lemma_ascending_covers(t, from, s.last().lo as int, x)
    }
}

/// A finished decomposition tiles the whole parameter range: its first span
/// starts at zero, each span starts where the one before it ends, and the
/// last ends at the full range.
pub proof fn lemma_finished_tiles(d: Decomposer)
    requires
        d.wf(),
        d.done(),
    ensures
        d.emitted().len() > 0,
        ascending(d.emitted(), 0, d.full()),
        d.emitted()[0].lo == 0,
        d.emitted().last().hi == d.full(),
{
    lemma_pow2_pos(d.max_depth());
}

/// Two different spans of the output, finished or not, do not overlap.
pub proof fn lemma_output_disjoint(d: Decomposer, i: int, j: int)
    requires
        d.wf(),
        0 <= i < j < d.emitted().len(),
    ensures
        d.emitted()[i].hi <= d.emitted()[j].lo,
{
    lemma_ascending_ordered(d.emitted(), 0, d.frontier(), i, j);
}

/// Every parameter of a finished decomposition's range lies in one of its
/// spans; the index of that span is returned.
pub proof fn lemma_output_covers(d: Decomposer, x: int) -> (i: int)
    requires
        d.wf(),
        d.done(),
        0 <= x < d.full(),
    ensures
        0 <= i < d.emitted().len(),
        d.emitted()[i].lo <= x < d.emitted()[i].hi,
{
    lemma_finished_tiles(d);
    lemma_ascending_covers(d.emitted(), 0, d.full(), x)
}

/// No span, accepted or pending, lies deeper than the cap, and the stack
/// holds at most one span per level.
pub proof fn lemma_depth_bounded(d: Decomposer)
    requires
        d.wf(),
    ensures
        forall|i: int| 0 <= i < d.emitted().len() ==> (#[trigger] d.emitted()[i]).depth <= d.max_depth(),
        forall|i: int| 0 <= i < d.pending().len() ==> (#[trigger] d.pending()[i]).depth <= d.max_depth(),
        d.pending().len() <= d.max_depth() + 1,
{
    if d.pending().len() > 0 {
        let top = d.pending().last();
        assert(top.wf(d.max_depth()));
        assert(top.depth >= d.pending().len() - 1);
    }
}

/// The step budget is never negative, and it is used up exactly when nothing
/// is pending.
pub proof fn lemma_steps_left_zero_iff_done(d: Decomposer)
    requires
        d.wf(),
    ensures
        d.steps_left() >= 0,
        d.steps_left() == 0 <==> d.done(),
{
    let s = d.pending();
    lemma_backlog_nonneg(s);
    if s.len() > 0 {
        assert(forall|i: int| 0 <= i < s.drop_last().len() ==> s.drop_last()[i] == s[i]);
        lemma_backlog_nonneg(s.drop_last());
        assert(s.last().lo < s.last().hi);
    }
}

/// The step budget of a stack that covers `[from, to]` is twice the covered
/// width less the height of the stack.
pub proof fn lemma_backlog_of_stack(s: Seq<Span>, from: int, to: int)
    requires
        descending(s, from, to),
    ensures
        backlog(s) == 2 * (to - from) - s.len(),
    decreases s.len(),
{
    if s.len() > 0 {
        let t = s.drop_last();
        assert(forall|i: int| 0 <= i < t.len() ==> t[i] == s[i]);
        if t.len() > 0 {
            assert(s[s.len() - 2].lo == s[s.len() - 2 + 1].hi);
            assert forall|i: int| 0 <= i < t.len() - 1 implies (#[trigger] t[i]).lo == t[i + 1].hi by {
                assert(s[i].lo == s[i + 1].hi);
            }
        }
        lemma_backlog_of_stack(t, s.last().hi as int, to);
    }
}

/// At any moment at most `2 * (full - frontier) - pending` steps remain, so
/// a decomposition takes fewer than `2 * full` steps in all.
pub proof fn lemma_steps_left_bound(d: Decomposer)
    requires
        d.wf(),
    ensures
        d.steps_left() == 2 * (d.full() - d.frontier()) - d.pending().len(),
        d.steps_left() <= 2 * d.full() - 1,
{
    lemma_backlog_of_stack(d.pending(), d.frontier(), d.full());
    lemma_pow2_pos(d.max_depth());
    if d.emitted().len() > 0 {
        assert(d.emitted().last().wf(d.max_depth()));
    }
}

/// The step budget of a stack of proper spans is not negative.
pub proof fn lemma_backlog_nonneg(s: Seq<Span>)
    requires
        forall|i: int| 0 <= i < s.len() ==> (#[trigger] s[i]).lo < s[i].hi,
    ensures
        backlog(s) >= 0,
    decreases s.len(),
{
    if s.len() > 0 {
        assert(forall|i: int| 0 <= i < s.drop_last().len() ==> s.drop_last()[i] == s[i]);
        lemma_backlog_nonneg(s.drop_last());
    }
}

} // verus!
