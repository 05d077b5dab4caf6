use vstd::prelude::*;

verus! {

/// Discrete time unit used throughout the scheduler.
pub type Time = u32;

/// A half-open interval of time `[start, end)` together with its length.
#[derive(Copy, Clone, Debug)]
pub struct Span {
    pub start: Time,
    pub end: Time,
    pub duration: Time,
}

/// Two half-open intervals intersect.
pub open spec fn spans_overlap(a: Span, b: Span) -> bool {
    a.start < b.end && b.start < a.end
}

impl Span {
    /// A span is consistent when its end is its start plus its duration.
    pub open spec fn wf(self) -> bool {
        self.end == self.start + self.duration
    }

    pub fn new(start: Time, duration: Time) -> (span: Self)
        requires
            start + duration <= Time::MAX,
        ensures
            span.start == start,
            span.duration == duration,
            span.end == start + duration,
            span.wf(),
    {
        Self { start: start, end: start + duration, duration: duration }
    }

    pub fn overlaps(&self, other: &Span) -> (r: bool)
        ensures
            r == spans_overlap(*self, *other),
    {
        self.start < other.end && other.start < self.end
    }
}

/// Overlap of spans does not depend on the order in which they are compared.
pub proof fn lemma_overlap_symmetric(a: Span, b: Span)
    ensures
        spans_overlap(a, b) == spans_overlap(b, a),
{
}

} // verus!
