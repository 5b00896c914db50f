//! Half-open ranges of time.

use vstd::prelude::*;

verus! {

/// A quantity of hours, kept exactly as a count of seconds.
#[derive(Clone, Copy, Debug, PartialEq, Eq, Structural)]
pub struct Hours {
    /// 3600 of these make one hour.
    pub seconds: u128,
}

/// The half-open range `[start, end)` between two instants, each counted in
/// seconds since the Unix epoch.
#[derive(Clone, Copy, Debug, PartialEq, Eq, Hash, Structural)]
pub struct Interval {
    pub start: i64,
    pub end: i64,
}

impl Interval {
    /// An interval is well formed when it does not end before it starts.
    pub open spec fn wf(&self) -> bool {
        self.start <= self.end
    }

    /// The length in seconds.
    pub open spec fn spec_span(&self) -> int {
        self.end - self.start
    }

    /// The open overlap test: touching ends do not count.
    pub open spec fn spec_intercepts(&self, other: &Interval) -> bool {
        self.start < other.end && other.start < self.end
    }

    /// `other` lies within `self`, ends included.
    pub open spec fn spec_contains(&self, other: &Interval) -> bool {
        self.start <= other.start && other.end <= self.end
    }

    /// The two overlap and neither lies within the other.
    pub open spec fn spec_partially_intercepts(&self, other: &Interval) -> bool {
        self.spec_intercepts(other) && !self.spec_contains(other) && !other.spec_contains(self)
    }

    /// `self` comes before `other` in the order by start, then by end.
    pub open spec fn spec_precedes(&self, other: &Interval) -> bool {
        self.start < other.start || (self.start == other.start && self.end < other.end)
    }

    pub fn new(start: i64, end: i64) -> (r: Self)
        ensures
            r.start == start,
            r.end == end,
    {
        Interval { start, end }
    }

    /// The interval of `span` seconds that begins at `start`.
    pub fn from_span(start: i64, span: i64) -> (r: Self)
        requires
            i64::MIN <= start + span <= i64::MAX,
        ensures
            r.start == start,
            r.end == start + span,
    {
        Interval { start, end: start + span }
    }

    /// Shifts the interval so that it begins at `start` and keeps its length.
    pub fn move_to(&mut self, start: i64)
        requires
            i64::MIN <= start + old(self).spec_span() <= i64::MAX,
        ensures
            final(self).start == start,
            final(self).end == start + old(self).spec_span(),
    {
        let shifted: i128 = start as i128 + (self.end as i128 - self.start as i128);
        self.end = shifted as i64;
        self.start = start;
    }

    /// The length in seconds; negative where the interval is not well formed.
    pub fn span(&self) -> (r: i64)
        requires
            i64::MIN <= self.spec_span() <= i64::MAX,
        ensures
            r == self.spec_span(),
    {
        let length: i128 = self.end as i128 - self.start as i128;
        length as i64
    }

    /// The length in hours.
    pub fn hours(&self) -> (r: Hours)
        requires
            self.wf(),
        ensures
            r.seconds == self.spec_span(),
    {
        let length: i128 = self.end as i128 - self.start as i128;
        Hours { seconds: length as u128 }
    }

    /// Keeps the start and makes the interval `span` seconds long.
    pub fn set_span(&mut self, span: i64)
        requires
            i64::MIN <= old(self).start + span <= i64::MAX,
        ensures
            final(self).start == old(self).start,
            final(self).end == old(self).start + span,
    {
        self.end = self.start + span;
    }

    #[verifier::when_used_as_spec(spec_intercepts)]
    pub fn intercepts(&self, other: &Self) -> (r: bool)
        ensures
            r == self.spec_intercepts(other),
    {
        self.start < other.end && other.start < self.end
    }

    #[verifier::when_used_as_spec(spec_contains)]
    pub fn contains(&self, other: &Self) -> (r: bool)
        ensures
            r == self.spec_contains(other),
    {
        self.start <= other.start && other.end <= self.end
    }

    #[verifier::when_used_as_spec(spec_partially_intercepts)]
    pub fn partially_intercepts(&self, other: &Self) -> (r: bool)
        ensures
            r == self.spec_partially_intercepts(other),
    {
        self.intercepts(other) && !self.contains(other) && !other.contains(self)
    }

    #[verifier::when_used_as_spec(spec_precedes)]
    pub fn precedes(&self, other: &Self) -> (r: bool)
        ensures
            r == self.spec_precedes(other),
    {
        self.start < other.start || (self.start == other.start && self.end < other.end)
    }
}

} // verus!
