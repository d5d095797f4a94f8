//! Instants on the UTC time line, as the engine compares them.

use vstd::prelude::*;

verus! {

/// An instant on the UTC time line: whole seconds since the Unix epoch and the
/// nanoseconds that have passed within that second.
///
/// Instants are ordered by `secs` first and by `nanos` second.
#[derive(Clone, Copy, Debug, PartialEq, Eq, Structural, PartialOrd, Ord, Hash)]
pub struct Timestamp {
    pub secs: i64,
    pub nanos: u32,
}

impl Timestamp {
    /// `self` lies strictly earlier than `other`.
    pub open spec fn before(self, other: Timestamp) -> bool {
        self.secs < other.secs || (self.secs == other.secs && self.nanos < other.nanos)
    }

    /// The instant `nanos` nanoseconds after the second `secs`.
    pub fn new(secs: i64, nanos: u32) -> (t: Timestamp)
        ensures
            t == (Timestamp { secs, nanos }),
    {
        Timestamp { secs, nanos }
    }

    /// Whether this instant lies strictly earlier than `other`.
    pub fn is_before(&self, other: &Timestamp) -> (b: bool)
        ensures
            b == self.before(*other),
    {
        self.secs < other.secs || (self.secs == other.secs && self.nanos < other.nanos)
    }

    /// Whether this instant lies strictly later than `other`.
    pub fn is_after(&self, other: &Timestamp) -> (b: bool)
        ensures
            b == other.before(*self),
    {
        other.is_before(self)
    }
}

/// Of two different instants exactly one lies before the other.
pub proof fn lemma_timestamp_total(a: Timestamp, b: Timestamp)
    ensures
        a == b || a.before(b) || b.before(a),
        !(a.before(b) && b.before(a)),
        !a.before(a),
{
}

} // verus!
