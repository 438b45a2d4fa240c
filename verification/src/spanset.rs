//! Sets of instants, represented as sorted, non-overlapping closed spans.
//!
//! A `SpanSet` is the canonical form of a union of closed intervals
//! `[start, end]` over instants (seconds). Coverage is modelled at
//! half-instant resolution: sample point `2 * t` stands for the instant `t`
//! itself and `2 * t + 1` for the open space between `t` and `t + 1`, so two
//! spans that touch end-to-start share a point while spans one second apart
//! do not. A well-formed span sequence is uniquely determined by the sample
//! points it covers.

use vstd::prelude::*;

use crate::order::KeyOrder;

verus! {

/// Bound on the magnitude of every instant a span may hold; keeps all the
/// arithmetic on spans far away from `i64` overflow.
pub const MAX_INSTANT: i64 = 1_000_000_000_000_000_000;

/// A closed interval of instants: every `t` with `start <= t <= end` is in.
#[derive(Clone, Copy, PartialEq, Eq, Structural, Debug)]
pub struct TimeSpan {
    pub start: i64,
    pub end: i64,
}

impl TimeSpan {
    pub open spec fn wf(self) -> bool {
        -MAX_INSTANT <= self.start && self.start <= self.end && self.end <= MAX_INSTANT
    }

    pub fn new(start: i64, end: i64) -> (r: TimeSpan)
        ensures
            r.start == start,
            r.end == end,
    {
        TimeSpan { start, end }
    }
}

/// Whether the span covers sample point `p` (half-instant resolution).
pub open spec fn span_covers(s: TimeSpan, p: int) -> bool {
    2 * s.start <= p && p <= 2 * s.end
}

/// Whether any span of the sequence covers sample point `p`.
pub open spec fn seq_covers(s: Seq<TimeSpan>, p: int) -> bool {
    exists|i: int| 0 <= i < s.len() && span_covers(#[trigger] s[i], p)
}

/// Spans are well-formed, sorted, and pairwise separated by at least one
/// uncovered sample point.
pub open spec fn wf_seq(s: Seq<TimeSpan>) -> bool {
    &&& forall|i: int| 0 <= i < s.len() ==> (#[trigger] s[i]).wf()
    &&& forall|i: int, j: int| 0 <= i < j < s.len() ==> (#[trigger] s[i]).end < (#[trigger] s[j]).start
}

/// Spans sorted by start; they may still overlap.
pub open spec fn sorted_starts(s: Seq<TimeSpan>) -> bool {
    forall|i: int, j: int| 0 <= i < j < s.len() ==> (#[trigger] s[i]).start <= (#[trigger] s[j]).start
}

impl KeyOrder for TimeSpan {
    open spec fn le(self, other: Self) -> bool {
        if self.start == other.start {
            self.end <= other.end
        } else {
            self.start <= other.start
        }
    }

    proof fn reflexive(x: Self) {
    }

    proof fn transitive(x: Self, y: Self, z: Self) {
    }

    proof fn antisymmetric(x: Self, y: Self) {
    }

    proof fn total(x: Self, y: Self) {
    }

    fn compare(&self, other: &Self) -> (c: crate::order::Cmp) {
        if self.start == other.start {
            if self.end < other.end {
                crate::order::Cmp::Less
            } else if self.end == other.end {
                crate::order::Cmp::Equal
            } else {
                crate::order::Cmp::Greater
            }
        } else if self.start < other.start {
            crate::order::Cmp::Less
        } else {
            crate::order::Cmp::Greater
        }
    }
}

/// One step of the left-to-right merge scan: extend the last span when the
/// next one overlaps or touches it, otherwise append it.
pub open spec fn merge_step(acc: Seq<TimeSpan>, x: TimeSpan) -> Seq<TimeSpan> {
    if acc.len() > 0 && x.start <= acc.last().end {
        let l = acc.last();
        let e = if x.end > l.end {
            x.end
        } else {
            l.end
        };
        acc.update(acc.len() - 1, TimeSpan { start: l.start, end: e })
    } else {
        acc.push(x)
    }
}

/// Folding the merge scan over the remaining spans.
pub open spec fn merge_fold(acc: Seq<TimeSpan>, rest: Seq<TimeSpan>) -> Seq<TimeSpan>
    decreases rest.len(),
{
    if rest.len() == 0 {
        acc
    } else {
        merge_fold(merge_step(acc, rest[0]), rest.drop_first())
    }
}

/// Canonical form of a start-sorted span sequence.
pub open spec fn merged(s: Seq<TimeSpan>) -> Seq<TimeSpan> {
    merge_fold(Seq::empty(), s)
}

/// Invariant that the merge scan maintains about its accumulator relative to
/// the spans still to come.
spec fn merge_acc_ok(acc: Seq<TimeSpan>, rest: Seq<TimeSpan>) -> bool {
    &&& wf_seq(acc)
    &&& acc.len() > 0 ==> forall|i: int|
        0 <= i < rest.len() ==> acc.last().start <= (#[trigger] rest[i]).start
}

/// The merge fold of a start-sorted, well-formed-span tail yields a
/// well-formed sequence covering exactly the union of the points.
proof fn lemma_merge_fold(acc: Seq<TimeSpan>, rest: Seq<TimeSpan>)
    requires
        merge_acc_ok(acc, rest),
        sorted_starts(rest),
        forall|i: int| 0 <= i < rest.len() ==> (#[trigger] rest[i]).wf(),
    ensures
        wf_seq(merge_fold(acc, rest)),
        forall|p: int|
            #[trigger] seq_covers(merge_fold(acc, rest), p) <==> (seq_covers(acc, p) || seq_covers(
                rest,
                p,
            )),
    decreases rest.len(),
{
    if rest.len() == 0 {
        assert forall|p: int| #[trigger]
            seq_covers(merge_fold(acc, rest), p) <==> (seq_covers(acc, p) || seq_covers(
                rest,
                p,
            )) by {
            if seq_covers(rest, p) {
                let i = choose|i: int| 0 <= i < rest.len() && span_covers(rest[i], p);
                assert(false);
            }
        }
    } else {
        let x = rest[0];
        let acc2 = merge_step(acc, x);
        let rest2 = rest.drop_first();
        assert(forall|i: int|
            0 <= i < rest2.len() ==> #[trigger] rest2[i] == rest[i + 1]);
        // step keeps the accumulator well-formed and absorbs exactly x
        assert(wf_seq(acc2) && (acc2.len() > 0 && acc2.last().start <= x.start) && forall|p: int|
            #[trigger] seq_covers(acc2, p) <==> (seq_covers(acc, p) || span_covers(x, p))) by {
            lemma_merge_step(acc, x);
        }
        assert(merge_acc_ok(acc2, rest2));
        assert(sorted_starts(rest2));
        lemma_merge_fold(acc2, rest2);
        assert forall|p: int| #[trigger]
            seq_covers(merge_fold(acc, rest), p) <==> (seq_covers(acc, p) || seq_covers(
                rest,
                p,
            )) by {
            assert(merge_fold(acc, rest) == merge_fold(acc2, rest2));
            if seq_covers(rest, p) {
                let i = choose|i: int| 0 <= i < rest.len() && span_covers(#[trigger] rest[i], p);
                if i == 0 {
                    assert(span_covers(x, p));
                } else {
                    assert(rest2[i - 1] == rest[i]);
                    assert(seq_covers(rest2, p));
                }
            }
            if seq_covers(rest2, p) {
                let i = choose|i: int| 0 <= i < rest2.len() && span_covers(#[trigger] rest2[i], p);
                assert(rest[i + 1] == rest2[i]);
                assert(seq_covers(rest, p));
            }
            if span_covers(x, p) {
                assert(seq_covers(rest, p));
            }
        }
    }
}

/// One merge step: the accumulator stays well-formed, its last start never
/// moves right, and the covered points grow by exactly the new span's.
proof fn lemma_merge_step(acc: Seq<TimeSpan>, x: TimeSpan)
    requires
        wf_seq(acc),
        x.wf(),
        acc.len() > 0 ==> acc.last().start <= x.start,
    ensures
        wf_seq(merge_step(acc, x)),
        merge_step(acc, x).len() > 0,
        merge_step(acc, x).last().start <= x.start,
        forall|p: int|
            #[trigger] seq_covers(merge_step(acc, x), p) <==> (seq_covers(acc, p) || span_covers(
                x,
                p,
            )),
{
    let r = merge_step(acc, x);
    if acc.len() > 0 && x.start <= acc.last().end {
        let l = acc.last();
        let e = if x.end > l.end {
            x.end
        } else {
            l.end
        };
        let m = TimeSpan { start: l.start, end: e };
        assert(r == acc.update(acc.len() - 1, m));
        assert(r.last() == m);
        assert forall|p: int| #[trigger]
            seq_covers(r, p) <==> (seq_covers(acc, p) || span_covers(x, p)) by {
            if seq_covers(r, p) {
                let i = choose|i: int| 0 <= i < r.len() && span_covers(#[trigger] r[i], p);
                if i < acc.len() - 1 {
                    assert(r[i] == acc[i]);
                    assert(seq_covers(acc, p));
                } else {
                    // the merged span covers the union of l's and x's points
                    assert(span_covers(m, p));
                    if p <= 2 * l.end {
                        assert(span_covers(l, p));
                        assert(seq_covers(acc, p));
                    } else {
                        assert(span_covers(x, p));
                    }
                }
            }
            if seq_covers(acc, p) {
                let i = choose|i: int| 0 <= i < acc.len() && span_covers(#[trigger] acc[i], p);
                if i < acc.len() - 1 {
                    assert(r[i] == acc[i]);
                    assert(seq_covers(r, p));
                } else {
                    assert(span_covers(m, p));
                    assert(seq_covers(r, p));
                }
            }
            if span_covers(x, p) {
                assert(span_covers(m, p));
                assert(seq_covers(r, p));
            }
        }
    } else {
        assert(r == acc.push(x));
        assert forall|p: int| #[trigger]
            seq_covers(r, p) <==> (seq_covers(acc, p) || span_covers(x, p)) by {
            if seq_covers(r, p) {
                let i = choose|i: int| 0 <= i < r.len() && span_covers(#[trigger] r[i], p);
                if i < acc.len() {
                    assert(r[i] == acc[i]);
                    assert(seq_covers(acc, p));
                } else {
                    assert(span_covers(x, p));
                }
            }
            if seq_covers(acc, p) {
                let i = choose|i: int| 0 <= i < acc.len() && span_covers(#[trigger] acc[i], p);
                assert(r[i] == acc[i]);
                assert(seq_covers(r, p));
            }
            if span_covers(x, p) {
                assert(r[acc.len() as int] == x);
                assert(seq_covers(r, p));
            }
        }
    }
}

/// An ordered, non-overlapping, merged collection of spans standing for a
/// set of instants.
pub struct SpanSet {
    pub spans: Vec<TimeSpan>,
}

impl SpanSet {
    pub open spec fn wf(self) -> bool {
        wf_seq(self.spans@)
    }

    /// Whether the set covers sample point `p` (half-instant resolution; the
    /// instant `t` is the point `2 * t`).
    pub open spec fn covers(self, p: int) -> bool {
        seq_covers(self.spans@, p)
    }

    /// The set with no instants.
    pub fn empty() -> (r: SpanSet)
        ensures
            r.wf(),
            r.spans@ =~= Seq::<TimeSpan>::empty(),
            forall|p: int| !(#[trigger] r.covers(p)),
    {
        let r = SpanSet { spans: Vec::new() };
        proof {
            assert forall|p: int| !(#[trigger] r.covers(p)) by {
                if r.covers(p) {
                    let i = choose|i: int|
                        0 <= i < r.spans@.len() && span_covers(#[trigger] r.spans@[i], p);
                }
            }
        }
        r
    }

    pub fn is_empty(&self) -> (r: bool)
        requires
            self.wf(),
        ensures
            r == (self.spans@.len() == 0),
            r == !exists|p: int| #[trigger] self.covers(p),
    {
        let r = self.spans.len() == 0;
        proof {
            if r {
                assert forall|p: int| !(#[trigger] self.covers(p)) by {
                    if self.covers(p) {
                        let i = choose|i: int|
                            0 <= i < self.spans@.len() && span_covers(#[trigger] self.spans@[i], p);
                    }
                }
            } else {
                let s0 = self.spans@[0];
                assert(span_covers(s0, 2 * s0.start));
                assert(self.covers(2 * s0.start));
            }
        }
        r
    }

    /// Builds the canonical set from spans already sorted by start; adjacent
    /// and overlapping spans are merged.
    pub fn from_sorted(spans: Vec<TimeSpan>) -> (r: SpanSet)
        requires
            forall|i: int| 0 <= i < spans@.len() ==> (#[trigger] spans@[i]).wf(),
            sorted_starts(spans@),
        ensures
            r.wf(),
            r.spans@ == merged(spans@),
            forall|p: int| #[trigger] r.covers(p) <==> seq_covers(spans@, p),
    {
        let mut out: Vec<TimeSpan> = Vec::new();
        let mut i: usize = 0;
        proof {
            assert(spans@.skip(0) =~= spans@);
        }
        while i < spans.len()
            invariant
                0 <= i <= spans@.len(),
                forall|k: int| 0 <= k < spans@.len() ==> (#[trigger] spans@[k]).wf(),
                sorted_starts(spans@),
                merge_acc_ok(out@, spans@.skip(i as int)),
                merged(spans@) == merge_fold(out@, spans@.skip(i as int)),
            decreases spans@.len() - i,
        {
            let x = spans[i];
            let ghost rest = spans@.skip(i as int);
            let ghost prev = out@;
            proof {
                assert(rest[0] == spans@[i as int]);
                assert(forall|k: int| 0 <= k < rest.len() ==> #[trigger] rest[k] == spans@[i + k]);
                lemma_merge_step(prev, x);
            }
            if out.len() > 0 && x.start <= out[out.len() - 1].end {
                let l = out[out.len() - 1];
                let e = if x.end > l.end {
                    x.end
                } else {
                    l.end
                };
                let idx = out.len() - 1;
                out.set(idx, TimeSpan { start: l.start, end: e });
            } else {
                out.push(x);
            }
            proof {
                assert(out@ == merge_step(prev, x));
            }
            i = i + 1;
            proof {
                assert(rest.drop_first() =~= spans@.skip(i as int));
                assert(merge_fold(prev, rest) == merge_fold(out@, spans@.skip(i as int)));
                assert forall|k: int|
                    0 <= k < spans@.skip(i as int).len() implies out@.last().start <= (
                #[trigger] spans@.skip(i as int)[k]).start by {
                    assert(spans@.skip(i as int)[k] == spans@[i + k]);
                    assert(spans@[i - 1].start <= spans@[i + k].start);
                }
            }
        }
        proof {
            assert(spans@.skip(spans@.len() as int) =~= Seq::<TimeSpan>::empty());
            assert(merge_fold(out@, Seq::empty()) == out@);
            lemma_merge_fold(Seq::empty(), spans@);
            assert forall|p: int| !seq_covers(Seq::<TimeSpan>::empty(), p) by {
                if seq_covers(Seq::<TimeSpan>::empty(), p) {
                    let i = choose|i: int|
                        0 <= i < Seq::<TimeSpan>::empty().len() && span_covers(
                            #[trigger] Seq::<TimeSpan>::empty()[i],
                            p,
                        );
                }
            }
        }
        SpanSet { spans: out }
    }

    /// The set of instants two sets share.
    pub fn intersection(&self, other: &SpanSet) -> (r: SpanSet)
        requires
            self.wf(),
            other.wf(),
        ensures
            r.wf(),
            forall|p: int| #[trigger] r.covers(p) <==> self.covers(p) && other.covers(p),
    {
        let ghost a = self.spans@;
        let ghost b = other.spans@;
        let mut out: Vec<TimeSpan> = Vec::new();
        let mut i: usize = 0;
        let mut j: usize = 0;
        while i < self.spans.len() && j < other.spans.len()
            invariant
                0 <= i <= a.len(),
                0 <= j <= b.len(),
                a == self.spans@,
                b == other.spans@,
                wf_seq(a),
                wf_seq(b),
                wf_seq(out@),
                forall|p: int|
                    #[trigger] seq_covers(out@, p) <==> (seq_covers(a, p) && seq_covers(b, p) && p
                        < frontier(a, b, i as int, j as int)),
                forall|k: int|
                    0 <= k < out@.len() ==> 2 * (#[trigger] out@[k]).end < frontier(
                        a,
                        b,
                        i as int,
                        j as int,
                    ),
            decreases a.len() + b.len() - i - j,
        {
            let x = self.spans[i];
            let y = other.spans[j];
            let lo = if x.start > y.start {
                x.start
            } else {
                y.start
            };
            let hi = if x.end < y.end {
                x.end
            } else {
                y.end
            };
            let ghost f0 = frontier(a, b, i as int, j as int);
            let ghost prev = out@;
            if lo <= hi {
                out.push(TimeSpan { start: lo, end: hi });
            }
            let advance_i = x.end <= y.end;
            if advance_i {
                i = i + 1;
            } else {
                j = j + 1;
            }
            proof {
                let f1 = frontier(a, b, i as int, j as int);
                assert(2 * lo == f0);
                // the frontier never moves left
                assert(f0 <= f1) by {
                    if i < a.len() && j < b.len() {
                        if advance_i {
                            assert(a[i - 1].end < a[i as int].start);
                        } else {
                            assert(b[j - 1].end < b[j as int].start);
                        }
                    }
                }
                assert(2 * hi < f1) by {
                    if i < a.len() && j < b.len() {
                        if advance_i {
                            assert(a[i - 1].end < a[i as int].start);
                        } else {
                            assert(b[j - 1].end < b[j as int].start);
                        }
                    }
                }
                assert forall|p: int| #[trigger]
                    seq_covers(out@, p) <==> (seq_covers(a, p) && seq_covers(b, p) && p < f1) by {
                    if seq_covers(out@, p) {
                        let k = choose|k: int| 0 <= k < out@.len() && span_covers(
                            #[trigger] out@[k],
                            p,
                        );
                        if k < prev.len() {
                            assert(prev[k] == out@[k]);
                            assert(seq_covers(prev, p));
                        } else {
                            // the span pushed this round
                            assert(span_covers(x, p) && span_covers(y, p));
                            assert(seq_covers(a, p));
                            assert(seq_covers(b, p));
                        }
                    }
                    if seq_covers(a, p) && seq_covers(b, p) && p < f1 {
                        if p < f0 {
                            assert(seq_covers(prev, p));
                            let k = choose|k: int| 0 <= k < prev.len() && span_covers(
                                #[trigger] prev[k],
                                p,
                            );
                            assert(out@[k] == prev[k]);
                            assert(seq_covers(out@, p));
                        } else {
                            // p lies between the old and new frontier: only the
                            // current pair of spans can cover it
                            lemma_between_frontiers(
                                a,
                                b,
                                if advance_i {
                                    i - 1
                                } else {
                                    i as int
                                },
                                if advance_i {
                                    j as int
                                } else {
                                    j - 1
                                },
                                advance_i,
                                p,
                            );
                            assert(span_covers(x, p) && span_covers(y, p));
                            assert(2 * lo <= p && p <= 2 * hi);
                            assert(out@[prev.len() as int] == TimeSpan { start: lo, end: hi });
                            assert(seq_covers(out@, p));
                        }
                    }
                }
                assert forall|k: int|
                    0 <= k < out@.len() implies 2 * (#[trigger] out@[k]).end < f1 by {
                    if k < prev.len() {
                        assert(out@[k] == prev[k]);
                        assert(2 * prev[k].end < f0);
                    } else {
                        assert(out@[k].end == hi);
                    }
                }
            }
        }
        proof {
            let f = frontier(a, b, i as int, j as int);
            assert(f == frontier_top());
            assert forall|p: int| #[trigger]
                seq_covers(out@, p) <==> (seq_covers(a, p) && seq_covers(b, p)) by {
                if seq_covers(a, p) && seq_covers(b, p) {
                    let k = choose|k: int| 0 <= k < a.len() && span_covers(#[trigger] a[k], p);
                    assert(p <= 2 * a[k].end);
                    assert(p < f);
                }
            }
        }
        SpanSet { spans: out }
    }

    /// The set of instants in either set.
    pub fn union(&self, other: &SpanSet) -> (r: SpanSet)
        requires
            self.wf(),
            other.wf(),
        ensures
            r.wf(),
            forall|p: int| #[trigger] r.covers(p) <==> self.covers(p) || other.covers(p),
    {
        let mut all: Vec<TimeSpan> = Vec::new();
        let mut i: usize = 0;
        while i < self.spans.len()
            invariant
                0 <= i <= self.spans@.len(),
                all@ =~= self.spans@.take(i as int),
            decreases self.spans@.len() - i,
        {
            all.push(self.spans[i]);
            i = i + 1;
        }
        let mut j: usize = 0;
        while j < other.spans.len()
            invariant
                0 <= j <= other.spans@.len(),
                all@ =~= self.spans@ + other.spans@.take(j as int),
            decreases other.spans@.len() - j,
        {
            all.push(other.spans[j]);
            j = j + 1;
        }
        proof {
            assert(all@ =~= self.spans@ + other.spans@);
        }
        crate::order::sort_vec(&mut all);
        proof {
            let ghost combined = self.spans@ + other.spans@;
            lemma_le_sorted_starts(all@);
            assert forall|k: int| 0 <= k < all@.len() implies (#[trigger] all@[k]).wf() by {
                combined.to_multiset_ensures();
                all@.to_multiset_ensures();
                assert(all@.to_multiset().count(all@[k]) > 0);
                assert(combined.contains(all@[k]));
                let m = choose|m: int| 0 <= m < combined.len() && combined[m] == all@[k];
                if m < self.spans@.len() {
                    assert(combined[m] == self.spans@[m]);
                } else {
                    assert(combined[m] == other.spans@[m - self.spans@.len()]);
                }
            }
            assert forall|p: int| #[trigger]
                seq_covers(all@, p) <==> (seq_covers(self.spans@, p) || seq_covers(
                    other.spans@,
                    p,
                )) by {
                lemma_covers_multiset(all@, self.spans@ + other.spans@, p);
                lemma_covers_concat(self.spans@, other.spans@, p);
            }
        }
        SpanSet::from_sorted(all)
    }
}

/// One step of the gap-closing scan: fuse the next span into the last one
/// when the gap between them is below `g`.
pub open spec fn gaps_step(acc: Seq<TimeSpan>, x: TimeSpan, g: int) -> Seq<TimeSpan> {
    if acc.len() > 0 && x.start - acc.last().end < g {
        acc.update(acc.len() - 1, TimeSpan { start: acc.last().start, end: x.end })
    } else {
        acc.push(x)
    }
}

pub open spec fn gaps_fold(acc: Seq<TimeSpan>, rest: Seq<TimeSpan>, g: int) -> Seq<TimeSpan>
    decreases rest.len(),
{
    if rest.len() == 0 {
        acc
    } else {
        gaps_fold(gaps_step(acc, rest[0], g), rest.drop_first(), g)
    }
}

/// The well-formed sequence with every gap shorter than `g` closed.
pub open spec fn gaps_closed(s: Seq<TimeSpan>, g: int) -> Seq<TimeSpan> {
    gaps_fold(Seq::empty(), s, g)
}

/// Accumulator invariant of the gap-closing scan: well-formed, and the spans
/// still to come start past the accumulator's last end.
spec fn gaps_acc_ok(acc: Seq<TimeSpan>, rest: Seq<TimeSpan>) -> bool {
    &&& wf_seq(acc)
    &&& acc.len() > 0 ==> forall|i: int|
        0 <= i < rest.len() ==> acc.last().end < (#[trigger] rest[i]).start
}

/// The gap-closing fold keeps the sequence well-formed and never loses a
/// covered point.
proof fn lemma_gaps_fold(acc: Seq<TimeSpan>, rest: Seq<TimeSpan>, g: int)
    requires
        gaps_acc_ok(acc, rest),
        wf_seq(rest),
    ensures
        wf_seq(gaps_fold(acc, rest, g)),
        forall|p: int|
            seq_covers(acc, p) || seq_covers(rest, p) ==> #[trigger] seq_covers(
                gaps_fold(acc, rest, g),
                p,
            ),
    decreases rest.len(),
{
    if rest.len() == 0 {
        assert forall|p: int|
            seq_covers(acc, p) || seq_covers(rest, p) implies #[trigger] seq_covers(
            gaps_fold(acc, rest, g),
            p,
        ) by {
            if seq_covers(rest, p) {
                let i = choose|i: int| 0 <= i < rest.len() && span_covers(#[trigger] rest[i], p);
            }
        }
    } else {
        let x = rest[0];
        let acc2 = gaps_step(acc, x, g);
        let rest2 = rest.drop_first();
        assert(forall|i: int| 0 <= i < rest2.len() ==> #[trigger] rest2[i] == rest[i + 1]);
        assert(gaps_acc_ok(acc2, rest2) && forall|p: int|
            seq_covers(acc, p) || span_covers(x, p) ==> #[trigger] seq_covers(acc2, p)) by {
            lemma_gaps_step(acc, rest, g);
        }
        assert(wf_seq(rest2));
        lemma_gaps_fold(acc2, rest2, g);
        assert forall|p: int|
            seq_covers(acc, p) || seq_covers(rest, p) implies #[trigger] seq_covers(
            gaps_fold(acc, rest, g),
            p,
        ) by {
            assert(gaps_fold(acc, rest, g) == gaps_fold(acc2, rest2, g));
            if seq_covers(rest, p) {
                let i = choose|i: int| 0 <= i < rest.len() && span_covers(#[trigger] rest[i], p);
                if i == 0 {
                    assert(seq_covers(acc2, p));
                } else {
                    assert(rest2[i - 1] == rest[i]);
                    assert(seq_covers(rest2, p));
                }
            }
        }
    }
}

/// One gap-closing step preserves the accumulator invariant and the covered
/// points.
proof fn lemma_gaps_step(acc: Seq<TimeSpan>, rest: Seq<TimeSpan>, g: int)
    requires
        gaps_acc_ok(acc, rest),
        wf_seq(rest),
        rest.len() > 0,
    ensures
        gaps_acc_ok(gaps_step(acc, rest[0], g), rest.drop_first()),
        gaps_step(acc, rest[0], g).len() > 0,
        forall|p: int|
            seq_covers(acc, p) || span_covers(rest[0], p) ==> #[trigger] seq_covers(
                gaps_step(acc, rest[0], g),
                p,
            ),
{
    let x = rest[0];
    let r = gaps_step(acc, x, g);
    let rest2 = rest.drop_first();
    assert(forall|i: int| 0 <= i < rest2.len() ==> #[trigger] rest2[i] == rest[i + 1]);
    if acc.len() > 0 && x.start - acc.last().end < g {
        let l = acc.last();
        let m = TimeSpan { start: l.start, end: x.end };
        assert(r == acc.update(acc.len() - 1, m));
        assert(l.end < x.start);
        assert(m.wf());
        assert(r.last() == m);
        assert forall|i: int|
            0 <= i < rest2.len() implies r.last().end < (#[trigger] rest2[i]).start by {
            assert(rest2[i] == rest[i + 1]);
            assert(x.end < rest[i + 1].start);
        }
        assert forall|p: int|
            seq_covers(acc, p) || span_covers(x, p) implies #[trigger] seq_covers(r, p) by {
            if seq_covers(acc, p) {
                let i = choose|i: int| 0 <= i < acc.len() && span_covers(#[trigger] acc[i], p);
                if i < acc.len() - 1 {
                    assert(r[i] == acc[i]);
                } else {
                    assert(span_covers(m, p));
                }
                assert(seq_covers(r, p));
            } else {
                assert(span_covers(m, p));
                assert(seq_covers(r, p));
            }
        }
    } else {
        assert(r == acc.push(x));
        assert forall|p: int|
            seq_covers(acc, p) || span_covers(x, p) implies #[trigger] seq_covers(r, p) by {
            if seq_covers(acc, p) {
                let i = choose|i: int| 0 <= i < acc.len() && span_covers(#[trigger] acc[i], p);
                assert(r[i] == acc[i]);
            } else {
                assert(r[acc.len() as int] == x);
            }
            assert(seq_covers(r, p));
        }
        if acc.len() > 0 {
            assert(acc.last().end < x.start);
        }
    }
}

/// Sum of the spans' durations, in instants.
pub open spec fn dur_sum(s: Seq<TimeSpan>) -> int
    decreases s.len(),
{
    if s.len() == 0 {
        0
    } else {
        dur_sum(s.drop_last()) + (s.last().end - s.last().start)
    }
}

/// On a well-formed sequence the summed durations never exceed the overall
/// reach from first start to last end.
proof fn lemma_dur_sum_bound(s: Seq<TimeSpan>)
    requires
        wf_seq(s),
    ensures
        s.len() == 0 ==> dur_sum(s) == 0,
        s.len() > 0 ==> 0 <= dur_sum(s) <= s.last().end - s[0].start,
    decreases s.len(),
{
    if s.len() > 0 {
        assert(wf_seq(s.drop_last())) by {
            assert(forall|i: int|
                0 <= i < s.drop_last().len() ==> #[trigger] s.drop_last()[i] == s[i]);
        }
        lemma_dur_sum_bound(s.drop_last());
        if s.len() > 1 {
            assert(s.drop_last().last() == s[s.len() - 2]);
            assert(s[s.len() - 2].end < s.last().start);
        }
    }
}

impl SpanSet {
    /// Closes every gap shorter than `g`: two consecutive spans separated by
    /// a gap of duration below `g` become one span.
    pub fn close_gaps(&self, g: i64) -> (r: SpanSet)
        requires
            self.wf(),
        ensures
            r.wf(),
            r.spans@ == gaps_closed(self.spans@, g as int),
            forall|p: int| self.covers(p) ==> #[trigger] r.covers(p),
    {
        let s = &self.spans;
        let mut out: Vec<TimeSpan> = Vec::new();
        let mut i: usize = 0;
        proof {
            assert(s@.skip(0) =~= s@);
        }
        while i < s.len()
            invariant
                0 <= i <= s@.len(),
                wf_seq(s@),
                gaps_acc_ok(out@, s@.skip(i as int)),
                gaps_closed(s@, g as int) == gaps_fold(out@, s@.skip(i as int), g as int),
                wf_seq(s@.skip(i as int)),
            decreases s@.len() - i,
        {
            let x = s[i];
            let ghost rest = s@.skip(i as int);
            let ghost prev = out@;
            proof {
                assert(rest[0] == s@[i as int]);
                lemma_gaps_step(prev, rest, g as int);
            }
            if out.len() > 0 && x.start - out[out.len() - 1].end < g {
                let l = out[out.len() - 1];
                let idx = out.len() - 1;
                out.set(idx, TimeSpan { start: l.start, end: x.end });
            } else {
                out.push(x);
            }
            proof {
                assert(out@ == gaps_step(prev, x, g as int));
            }
            i = i + 1;
            proof {
                assert(rest.drop_first() =~= s@.skip(i as int));
            }
        }
        proof {
            assert(s@.skip(s@.len() as int) =~= Seq::<TimeSpan>::empty());
            lemma_gaps_fold(Seq::empty(), s@, g as int);
        }
        SpanSet { spans: out }
    }

    /// Keeps only the spans whose duration is at least `min_len`.
    pub fn drop_short(&self, min_len: i64) -> (r: SpanSet)
        requires
            self.wf(),
        ensures
            r.wf(),
            r.spans@ == self.spans@.filter(|s: TimeSpan| s.end - s.start >= min_len),
    {
        let ghost spec_pred = |s: TimeSpan| s.end - s.start >= min_len as int;
        let mut out: Vec<TimeSpan> = Vec::new();
        let mut i: usize = 0;
        proof {
            assert(self.spans@.take(0) =~= Seq::<TimeSpan>::empty());
            assert(Seq::<TimeSpan>::empty().filter(spec_pred) =~= Seq::<TimeSpan>::empty()) by {
                Seq::<TimeSpan>::empty().lemma_all_neg_filter_empty(spec_pred);
            }
        }
        while i < self.spans.len()
            invariant
                0 <= i <= self.spans@.len(),
                wf_seq(self.spans@),
                out@ == self.spans@.take(i as int).filter(spec_pred),
                wf_seq(out@),
                forall|m: int|
                    0 <= m < out@.len() ==> exists|k: int|
                        0 <= k < i && (#[trigger] out@[m]) == (#[trigger] self.spans@[k]),
                spec_pred == (|s: TimeSpan| s.end - s.start >= min_len as int),
            decreases self.spans@.len() - i,
        {
            let x = self.spans[i];
            let keep = x.end - x.start >= min_len;
            let ghost taken = self.spans@.take(i as int);
            proof {
                assert(self.spans@.take(i + 1) =~= taken + seq![x]);
                Seq::<TimeSpan>::filter_distributes_over_add(taken, seq![x], spec_pred);
                if spec_pred(x) {
                    assert(seq![x].filter(spec_pred) =~= seq![x]) by {
                        reveal_with_fuel(Seq::<TimeSpan>::filter, 2);
                        assert(seq![x].drop_last() =~= Seq::<TimeSpan>::empty());
                    }
                } else {
                    assert(seq![x].filter(spec_pred) =~= Seq::<TimeSpan>::empty()) by {
                        reveal_with_fuel(Seq::<TimeSpan>::filter, 2);
                        assert(seq![x].drop_last() =~= Seq::<TimeSpan>::empty());
                    }
                }
            }
            if keep {
                let ghost prev = out@;
                out.push(x);
                proof {
                    assert(out@ =~= prev + seq![x]);
                    assert(out@ == self.spans@.take(i + 1).filter(spec_pred));
                    assert forall|p: int, q: int|
                        0 <= p < q < out@.len() implies (#[trigger] out@[p]).end < (
                    #[trigger] out@[q]).start by {
                        if q < out@.len() - 1 {
                            assert(out@[p] == prev[p] && out@[q] == prev[q]);
                        } else {
                            let k = choose|k: int|
                                0 <= k < i && (#[trigger] prev[p]) == (#[trigger] self.spans@[k]);
                            assert(self.spans@[k].end < self.spans@[i as int].start);
                        }
                    }
                    assert forall|m: int|
                        0 <= m < out@.len() implies exists|k: int|
                        0 <= k < i + 1 && (#[trigger] out@[m]) == (#[trigger] self.spans@[k]) by {
                        if m < out@.len() - 1 {
                            let k = choose|k: int|
                                0 <= k < i && (#[trigger] prev[m]) == (#[trigger] self.spans@[k]);
                            assert(out@[m] == self.spans@[k]);
                        } else {
                            assert(out@[m] == self.spans@[i as int]);
                        }
                    }
                }
            } else {
                proof {
                    assert(out@ + Seq::<TimeSpan>::empty() =~= out@);
                    assert(out@ == self.spans@.take(i + 1).filter(spec_pred));
                }
            }
            i = i + 1;
        }
        proof {
            assert(self.spans@.take(self.spans@.len() as int) =~= self.spans@);
        }
        SpanSet { spans: out }
    }

    /// Total covered duration, in instants: the sum over the spans of
    /// `end - start`.
    pub fn total_seconds(&self) -> (r: i64)
        requires
            self.wf(),
        ensures
            r == dur_sum(self.spans@),
            r >= 0,
    {
        let mut sum: i64 = 0;
        let mut i: usize = 0;
        proof {
            assert(self.spans@.take(0) =~= Seq::<TimeSpan>::empty());
        }
        while i < self.spans.len()
            invariant
                0 <= i <= self.spans@.len(),
                wf_seq(self.spans@),
                sum == dur_sum(self.spans@.take(i as int)),
                sum >= 0,
                i > 0 ==> sum <= self.spans@[i - 1].end - self.spans@[0].start,
            decreases self.spans@.len() - i,
        {
            let x = self.spans[i];
            proof {
                let t1 = self.spans@.take(i + 1);
                assert(t1.drop_last() =~= self.spans@.take(i as int));
                assert(t1.last() == x);
                if i > 0 {
                    assert(self.spans@[i - 1].end < x.start);
                }
            }
            sum = sum + (x.end - x.start);
            i = i + 1;
        }
        proof {
            assert(self.spans@.take(self.spans@.len() as int) =~= self.spans@);
        }
        sum
    }
}

/// How many of the given sets cover sample point `p`.
pub open spec fn count_covering(ss: Seq<SpanSet>, p: int) -> int
    decreases ss.len(),
{
    if ss.len() == 0 {
        0
    } else {
        count_covering(ss.drop_last(), p) + if ss.last().covers(p) {
            1int
        } else {
            0int
        }
    }
}

/// The set of instants covered by at least `n` of the `sets` at once.
pub fn n_of_k(n: usize, sets: &Vec<SpanSet>) -> (r: SpanSet)
    requires
        n >= 1,
        forall|i: int| 0 <= i < sets@.len() ==> (#[trigger] sets@[i]).wf(),
    ensures
        r.wf(),
        forall|p: int| #[trigger] r.covers(p) <==> count_covering(sets@, p) >= n,
{
    // layers[j] covers the points covered by at least j + 1 of the sets
    // processed so far
    let mut layers: Vec<SpanSet> = Vec::new();
    let mut j: usize = 0;
    while j < n
        invariant
            0 <= j <= n,
            layers@.len() == j,
            forall|m: int| 0 <= m < j ==> (#[trigger] layers@[m]).wf(),
            forall|m: int, p: int| 0 <= m < j ==> !(#[trigger] layers@[m].covers(p)),
        decreases n - j,
    {
        layers.push(SpanSet::empty());
        j = j + 1;
    }
    proof {
        assert(sets@.take(0) =~= Seq::<SpanSet>::empty());
        assert forall|m: int, p: int|
            0 <= m < n implies ((#[trigger] layers@[m].covers(p)) <==> count_covering(
            sets@.take(0),
            p,
        ) >= m + 1) by {
            assert(count_covering(sets@.take(0), p) == 0);
        }
    }
    let mut i: usize = 0;
    while i < sets.len()
        invariant
            0 <= i <= sets@.len(),
            n >= 1,
            layers@.len() == n,
            forall|k: int| 0 <= k < sets@.len() ==> (#[trigger] sets@[k]).wf(),
            forall|m: int| 0 <= m < n ==> (#[trigger] layers@[m]).wf(),
            forall|m: int, p: int|
                0 <= m < n ==> ((#[trigger] layers@[m].covers(p)) <==> count_covering(
                    sets@.take(i as int),
                    p,
                ) >= m + 1),
        decreases sets@.len() - i,
    {
        let s = &sets[i];
        let ghost cnt_old = |p: int| count_covering(sets@.take(i as int), p);
        proof {
            let t1 = sets@.take(i + 1);
            assert(t1.drop_last() =~= sets@.take(i as int));
            assert(t1.last() == sets@[i as int]);
        }
        let mut j: usize = n - 1;
        while j >= 1
            invariant
                0 <= j <= n - 1,
                n >= 1,
                i < sets@.len(),
                layers@.len() == n,
                forall|k: int| 0 <= k < sets@.len() ==> (#[trigger] sets@[k]).wf(),
                s == &sets@[i as int],
                forall|m: int| 0 <= m < n ==> (#[trigger] layers@[m]).wf(),
                forall|m: int, p: int|
                    0 <= m <= j ==> ((#[trigger] layers@[m].covers(p)) <==> count_covering(
                        sets@.take(i as int),
                        p,
                    ) >= m + 1),
                forall|m: int, p: int|
                    j < m < n ==> ((#[trigger] layers@[m].covers(p)) <==> count_covering(
                        sets@.take(i + 1),
                        p,
                    ) >= m + 1),
            decreases j,
        {
            let lower_cap = layers[j - 1].intersection(s);
            let merged = layers[j].union(&lower_cap);
            let ghost prev = layers@;
            layers.set(j, merged);
            proof {
                let t1 = sets@.take(i + 1);
                assert(t1.drop_last() =~= sets@.take(i as int));
                assert(t1.last() == sets@[i as int]);
                assert forall|m: int, p: int|
                    j - 1 < m < n implies ((#[trigger] layers@[m].covers(p))
                        <==> count_covering(sets@.take(i + 1), p) >= m + 1) by {
                    if m > j {
                        assert(layers@[m] == prev[m]);
                    } else {
                        // m == j: the freshly written layer
                        assert(layers@[m] == merged);
                        assert(count_covering(t1, p) == count_covering(
                            sets@.take(i as int),
                            p,
                        ) + if sets@[i as int].covers(p) {
                            1int
                        } else {
                            0int
                        });
                        lemma_count_covering_nonneg(sets@.take(i as int), p);
                    }
                }
            }
            j = j - 1;
        }
        // j == 0: at least one of the processed sets covers p
        let merged0 = layers[0].union(s);
        let ghost prev = layers@;
        layers.set(0, merged0);
        proof {
            let t1 = sets@.take(i + 1);
            assert(t1.drop_last() =~= sets@.take(i as int));
            assert(t1.last() == sets@[i as int]);
            assert forall|m: int, p: int|
                0 <= m < n implies ((#[trigger] layers@[m].covers(p)) <==> count_covering(
                sets@.take(i + 1),
                p,
            ) >= m + 1) by {
                if m > 0 {
                    assert(layers@[m] == prev[m]);
                } else {
                    assert(layers@[0] == merged0);
                    assert(count_covering(t1, p) == count_covering(
                        sets@.take(i as int),
                        p,
                    ) + if sets@[i as int].covers(p) {
                        1int
                    } else {
                        0int
                    });
                    assert(count_covering(sets@.take(i as int), p) >= 0) by {
                        lemma_count_covering_nonneg(sets@.take(i as int), p);
                    }
                }
            }
        }
        i = i + 1;
    }
    proof {
        assert(sets@.take(sets@.len() as int) =~= sets@);
    }
    let r = layers.remove(n - 1);
    r
}

/// The coverage count is never negative.
proof fn lemma_count_covering_nonneg(ss: Seq<SpanSet>, p: int)
    ensures
        count_covering(ss, p) >= 0,
    decreases ss.len(),
{
    if ss.len() > 0 {
        lemma_count_covering_nonneg(ss.drop_last(), p);
    }
}

/// Two well-formed span sequences covering the same sample points are equal:
/// the canonical form is unique.
pub proof fn lemma_wf_unique(a: Seq<TimeSpan>, b: Seq<TimeSpan>)
    requires
        wf_seq(a),
        wf_seq(b),
        forall|p: int| #[trigger] seq_covers(a, p) == seq_covers(b, p),
    ensures
        a =~= b,
    decreases a.len(),
{
    if a.len() == 0 && b.len() == 0 {
    } else if a.len() == 0 {
        let p = 2 * b[0].start;
        assert(span_covers(b[0], p));
        assert(seq_covers(b, p));
        assert(seq_covers(a, p));
        let i = choose|i: int| 0 <= i < a.len() && span_covers(#[trigger] a[i], p);
        assert(false);
    } else if b.len() == 0 {
        let p = 2 * a[0].start;
        assert(span_covers(a[0], p));
        assert(seq_covers(a, p));
        assert(seq_covers(b, p));
        let i = choose|i: int| 0 <= i < b.len() && span_covers(#[trigger] b[i], p);
        assert(false);
    } else {
        let x = a[0];
        let y = b[0];
        assert(x.start == y.start) by {
            if y.start < x.start {
                let p = 2 * y.start;
                assert(span_covers(y, p));
                assert(seq_covers(b, p));
                assert(seq_covers(a, p));
                let k = choose|k: int| 0 <= k < a.len() && span_covers(#[trigger] a[k], p);
                if k > 0 {
                    assert(a[0].end < a[k].start);
                }
                assert(false);
            }
            if x.start < y.start {
                let p = 2 * x.start;
                assert(span_covers(x, p));
                assert(seq_covers(a, p));
                assert(seq_covers(b, p));
                let k = choose|k: int| 0 <= k < b.len() && span_covers(#[trigger] b[k], p);
                if k > 0 {
                    assert(b[0].end < b[k].start);
                }
                assert(false);
            }
        }
        assert(x.end == y.end) by {
            if x.end < y.end {
                let p = 2 * x.end + 1;
                assert(span_covers(y, p));
                assert(seq_covers(b, p));
                assert(seq_covers(a, p));
                let k = choose|k: int| 0 <= k < a.len() && span_covers(#[trigger] a[k], p);
                if k > 0 {
                    assert(a[0].end < a[k].start);
                }
                assert(false);
            }
            if y.end < x.end {
                let p = 2 * y.end + 1;
                assert(span_covers(x, p));
                assert(seq_covers(a, p));
                assert(seq_covers(b, p));
                let k = choose|k: int| 0 <= k < b.len() && span_covers(#[trigger] b[k], p);
                if k > 0 {
                    assert(b[0].end < b[k].start);
                }
                assert(false);
            }
        }
        let a2 = a.drop_first();
        let b2 = b.drop_first();
        assert(forall|i: int| 0 <= i < a2.len() ==> #[trigger] a2[i] == a[i + 1]);
        assert(forall|i: int| 0 <= i < b2.len() ==> #[trigger] b2[i] == b[i + 1]);
        assert(wf_seq(a2));
        assert(wf_seq(b2));
        assert forall|p: int| #[trigger] seq_covers(a2, p) == seq_covers(b2, p) by {
            if seq_covers(a2, p) {
                let k = choose|k: int| 0 <= k < a2.len() && span_covers(#[trigger] a2[k], p);
                assert(a2[k] == a[k + 1]);
                assert(p >= 2 * a[k + 1].start);
                assert(a[0].end < a[k + 1].start);
                assert(seq_covers(a, p));
                assert(seq_covers(b, p));
                let m = choose|m: int| 0 <= m < b.len() && span_covers(#[trigger] b[m], p);
                if m == 0 {
                    assert(p <= 2 * y.end);
                    assert(false);
                } else {
                    assert(b2[m - 1] == b[m]);
                    assert(seq_covers(b2, p));
                }
            }
            if seq_covers(b2, p) {
                let k = choose|k: int| 0 <= k < b2.len() && span_covers(#[trigger] b2[k], p);
                assert(b2[k] == b[k + 1]);
                assert(p >= 2 * b[k + 1].start);
                assert(b[0].end < b[k + 1].start);
                assert(seq_covers(b, p));
                assert(seq_covers(a, p));
                let m = choose|m: int| 0 <= m < a.len() && span_covers(#[trigger] a[m], p);
                if m == 0 {
                    assert(p <= 2 * x.end);
                    assert(false);
                } else {
                    assert(a2[m - 1] == a[m]);
                    assert(seq_covers(a2, p));
                }
            }
        }
        lemma_wf_unique(a2, b2);
        assert forall|i: int| 0 <= i < a.len() implies a[i] == b[i] by {
            if i > 0 {
                assert(a2[i - 1] == a[i]);
                assert(b2[i - 1] == b[i]);
            }
        }
    }
}

/// The frontier value once either side is exhausted: beyond every sample
/// point a well-formed span can cover.
pub open spec fn frontier_top() -> int {
    4 * (MAX_INSTANT as int)
}

/// Scaled position below which the two-pointer intersection scan has settled
/// every sample point.
pub open spec fn frontier(a: Seq<TimeSpan>, b: Seq<TimeSpan>, i: int, j: int) -> int {
    if i < a.len() && j < b.len() {
        if a[i].start > b[j].start {
            2 * a[i].start
        } else {
            2 * b[j].start
        }
    } else {
        frontier_top()
    }
}

/// A sample point at or past the frontier of the pair `(i, j)` but below the
/// frontier after one advance is covered, if at all, only by the pair itself.
proof fn lemma_between_frontiers(
    a: Seq<TimeSpan>,
    b: Seq<TimeSpan>,
    i: int,
    j: int,
    advance_i: bool,
    p: int,
)
    requires
        wf_seq(a),
        wf_seq(b),
        0 <= i < a.len(),
        0 <= j < b.len(),
        advance_i ==> a[i].end <= b[j].end,
        !advance_i ==> b[j].end <= a[i].end,
        frontier(a, b, i, j) <= p,
        p < frontier(a, b, if advance_i { i + 1 } else { i }, if advance_i { j } else { j + 1 }),
        seq_covers(a, p),
        seq_covers(b, p),
    ensures
        span_covers(a[i], p),
        span_covers(b[j], p),
{
    let ka = choose|k: int| 0 <= k < a.len() && span_covers(#[trigger] a[k], p);
    let kb = choose|k: int| 0 <= k < b.len() && span_covers(#[trigger] b[k], p);
    let f0 = frontier(a, b, i, j);
    // no span before i (resp. j) reaches p
    assert(ka >= i) by {
        if ka < i {
            assert(a[ka].end < a[i].start);
            assert(p <= 2 * a[ka].end);
        }
    }
    assert(kb >= j) by {
        if kb < j {
            assert(b[kb].end < b[j].start);
            assert(p <= 2 * b[kb].end);
        }
    }
    if advance_i {
        // p is below the next frontier, whose components are a[i+1].start
        // and b[j].start
        assert(ka == i) by {
            if ka > i {
                // a later a-span covers p, so p is at or past the next
                // frontier (or there is no later a-span at all)
                assert(p >= 2 * a[ka].start);
                if i + 1 < a.len() {
                    if ka > i + 1 {
                        assert(a[i + 1].end < a[ka].start);
                    }
                    assert(p >= 2 * a[i + 1].start);
                    assert(p >= 2 * b[j].start);
                } else {
                    assert(ka <= a.len() - 1);
                    assert(ka <= i);
                }
            }
        }
        assert(kb == j) by {
            if kb > j {
                assert(p >= 2 * b[kb].start);
                assert(b[j].end < b[kb].start);
                assert(p > 2 * b[j].end);
                // p in a[i] since ka == i
                assert(p <= 2 * a[i].end);
                assert(a[i].end <= b[j].end);
            }
        }
    } else {
        assert(kb == j) by {
            if kb > j {
                assert(p >= 2 * b[kb].start);
                if j + 1 < b.len() {
                    if kb > j + 1 {
                        assert(b[j + 1].end < b[kb].start);
                    }
                    assert(p >= 2 * b[j + 1].start);
                    assert(p >= 2 * a[i].start);
                } else {
                    assert(kb <= b.len() - 1);
                    assert(j == b.len() - 1);
                    assert(kb <= j);
                }
            }
        }
        assert(ka == i) by {
            if ka > i {
                assert(p >= 2 * a[ka].start);
                assert(a[i].end < a[ka].start);
                assert(p > 2 * a[i].end);
                assert(p <= 2 * b[j].end);
                assert(b[j].end <= a[i].end);
            }
        }
    }
}

/// Sorting by the span key order sorts by start.
pub proof fn lemma_le_sorted_starts(s: Seq<TimeSpan>)
    requires
        vstd::relations::sorted_by(s, crate::order::le_of::<TimeSpan>()),
    ensures
        sorted_starts(s),
{
    assert forall|i: int, j: int|
        0 <= i < j < s.len() implies (#[trigger] s[i]).start <= (#[trigger] s[j]).start by {
        assert(crate::order::le_of::<TimeSpan>()(s[i], s[j]));
    }
}

/// Coverage only depends on which spans a sequence holds, not their order.
pub proof fn lemma_covers_multiset(s: Seq<TimeSpan>, t: Seq<TimeSpan>, p: int)
    requires
        s.to_multiset() == t.to_multiset(),
    ensures
        seq_covers(s, p) == seq_covers(t, p),
{
    s.to_multiset_ensures();
    t.to_multiset_ensures();
    if seq_covers(s, p) {
        let i = choose|i: int| 0 <= i < s.len() && span_covers(#[trigger] s[i], p);
        assert(s.to_multiset().count(s[i]) > 0);
        assert(t.contains(s[i]));
        let k = choose|k: int| 0 <= k < t.len() && t[k] == s[i];
        assert(seq_covers(t, p));
    }
    if seq_covers(t, p) {
        let i = choose|i: int| 0 <= i < t.len() && span_covers(#[trigger] t[i], p);
        assert(t.to_multiset().count(t[i]) > 0);
        assert(s.contains(t[i]));
        let k = choose|k: int| 0 <= k < s.len() && s[k] == t[i];
        assert(seq_covers(s, p));
    }
}

/// Coverage of a concatenation is the disjunction of the parts'.
pub proof fn lemma_covers_concat(s: Seq<TimeSpan>, t: Seq<TimeSpan>, p: int)
    ensures
        seq_covers(s + t, p) == (seq_covers(s, p) || seq_covers(t, p)),
{
    if seq_covers(s + t, p) {
        let i = choose|i: int| 0 <= i < (s + t).len() && span_covers(#[trigger] (s + t)[i], p);
        if i < s.len() {
            assert((s + t)[i] == s[i]);
            assert(seq_covers(s, p));
        } else {
            assert((s + t)[i] == t[i - s.len()]);
            assert(seq_covers(t, p));
        }
    }
    if seq_covers(s, p) {
        let i = choose|i: int| 0 <= i < s.len() && span_covers(#[trigger] s[i], p);
        assert((s + t)[i] == s[i]);
        assert(seq_covers(s + t, p));
    }
    if seq_covers(t, p) {
        let i = choose|i: int| 0 <= i < t.len() && span_covers(#[trigger] t[i], p);
        assert((s + t)[s.len() + i] == t[i]);
        assert(seq_covers(s + t, p));
    }
}


/// The canonical (well-formed) span sequence covering exactly the sample
/// points that satisfy `cov` — meaningful whenever some well-formed sequence
/// does, and then unique.
pub open spec fn canonical_spans(cov: spec_fn(int) -> bool) -> Seq<TimeSpan> {
    choose|s: Seq<TimeSpan>| wf_seq(s) && forall|p: int| #[trigger] seq_covers(s, p) == cov(p)
}

/// A well-formed sequence covering exactly `cov` is `canonical_spans(cov)`.
pub proof fn lemma_canonical(s: Seq<TimeSpan>, cov: spec_fn(int) -> bool)
    requires
        wf_seq(s),
        forall|p: int| #[trigger] seq_covers(s, p) == cov(p),
    ensures
        s == canonical_spans(cov),
{
    assert(wf_seq(s) && forall|p: int| #[trigger] seq_covers(s, p) == cov(p));
    let c = canonical_spans(cov);
    assert(wf_seq(c) && forall|p: int| #[trigger] seq_covers(c, p) == cov(p));
    lemma_wf_unique(s, c);
}

} // verus!
