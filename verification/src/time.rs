//! Instants and the whole-hour distance between them.

use vstd::prelude::*;

verus! {

/// Nanoseconds in one hour.
pub const NANOS_PER_HOUR: i64 = 3_600_000_000_000;

/// An instant, counted in nanoseconds since the Unix epoch.
#[derive(Clone, Copy, Debug, PartialEq, Eq, Structural)]
pub struct Timestamp {
    pub nanos: i64,
}

/// Whole hours that have passed from `from` to `to`: the distance rounded
/// down to the hour, and zero when `to` does not lie after `from`.
pub open spec fn elapsed_hours(from: Timestamp, to: Timestamp) -> int {
    if to.nanos <= from.nanos {
        0
    } else {
        (to.nanos - from.nanos) / (NANOS_PER_HOUR as int)
    }
}

impl Timestamp {
    /// The instant that lies `nanos` nanoseconds after the epoch.
    pub fn from_nanos(nanos: i64) -> (t: Timestamp)
        ensures
            t.nanos == nanos,
    {
        Timestamp { nanos }
    }

    /// Nanoseconds from the epoch to this instant.
    pub fn as_nanos(&self) -> (n: i64)
        ensures
            n == self.nanos,
    {
        self.nanos
    }

    /// Whole hours from `earlier` up to `self`; a clock that ran backwards
    /// counts as no time at all.
    pub fn hours_since(&self, earlier: Timestamp) -> (h: i64)
        ensures
            h == elapsed_hours(earlier, *self),
            0 <= h <= 5_124_095,
    {
        if self.nanos <= earlier.nanos {
            0
        } else {
            let span: i128 = self.nanos as i128 - earlier.nanos as i128;
            let hours: i128 = span / (NANOS_PER_HOUR as i128);
            hours as i64
        }
    }
}

/// No refill is counted twice: the hours over two adjoining stretches never
/// add up to more than the hours over the whole.
pub proof fn lemma_elapsed_hours_split(a: Timestamp, b: Timestamp, c: Timestamp)
    requires
        a.nanos <= b.nanos <= c.nanos,
    ensures
        elapsed_hours(a, b) + elapsed_hours(b, c) <= elapsed_hours(a, c),
{
    let h = NANOS_PER_HOUR as int;
    let x = b.nanos - a.nanos;
    let y = c.nanos - b.nanos;
    assert(x / h + y / h <= (x + y) / h) by (nonlinear_arith)
        requires
            x >= 0,
            y >= 0,
            h == 3_600_000_000_000,
    ;
}

/// A later reading of the clock never sees fewer whole hours.
pub proof fn lemma_elapsed_hours_monotone(a: Timestamp, b: Timestamp, c: Timestamp)
    requires
        b.nanos <= c.nanos,
    ensures
        elapsed_hours(a, b) <= elapsed_hours(a, c),
{
    let h = NANOS_PER_HOUR as int;
    if a.nanos < b.nanos {
        let x = b.nanos - a.nanos;
        let y = c.nanos - a.nanos;
        assert(x / h <= y / h) by (nonlinear_arith)
            requires
                0 <= x <= y,
                h == 3_600_000_000_000,
        ;
    } else if a.nanos < c.nanos {
        let y = c.nanos - a.nanos;
        assert(0 <= y / h) by (nonlinear_arith)
            requires
                0 <= y,
                h == 3_600_000_000_000,
        ;
    }
}

} // verus!
