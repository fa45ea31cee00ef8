//! Counters of what the rate limiter does.

use vstd::prelude::*;

verus! {

/// A 64-bit counter after some more; it starts over once the word is used up.
pub open spec fn advanced(counter: u64, by: nat) -> u64 {
    ((counter + by) % 0x1_0000_0000_0000_0000) as u64
}

/// The values of all counters at one moment.
#[derive(Debug, Clone, Copy, PartialEq, Eq, Structural)]
pub struct MetricsSnapshot {
    /// Number of events that were allowed.
    pub events_allowed: u64,
    /// Number of events that were suppressed.
    pub events_suppressed: u64,
    /// Number of signatures that were evicted.
    pub signatures_evicted: u64,
}

impl MetricsSnapshot {
    /// Number of events that were decided about.
    pub fn total_events(&self) -> (r: u64)
        ensures
            r == advanced(self.events_allowed, self.events_suppressed as nat),
    {
        self.events_allowed.wrapping_add(self.events_suppressed)
    }
}

/// Counts allowed and suppressed events and evicted signatures.
#[derive(Debug, Clone)]
pub struct Metrics {
    events_allowed: u64,
    events_suppressed: u64,
    signatures_evicted: u64,
}

impl Metrics {
    /// The values of all counters.
    pub closed spec fn view(&self) -> MetricsSnapshot {
        MetricsSnapshot {
            events_allowed: self.events_allowed,
            events_suppressed: self.events_suppressed,
            signatures_evicted: self.signatures_evicted,
        }
    }

    /// Counters that start at zero.
    pub fn new() -> (r: Metrics)
        ensures
            r@ == (MetricsSnapshot {
                events_allowed: 0,
                events_suppressed: 0,
                signatures_evicted: 0,
            }),
    {
        Metrics { events_allowed: 0, events_suppressed: 0, signatures_evicted: 0 }
    }

    /// Counts one more allowed event.
    pub fn record_allowed(&mut self)
        ensures
            final(self)@ == (MetricsSnapshot {
                events_allowed: advanced(old(self)@.events_allowed, 1),
                ..old(self)@
            }),
    {
        self.events_allowed = self.events_allowed.wrapping_add(1);
    }

    /// Counts one more suppressed event.
    pub fn record_suppressed(&mut self)
        ensures
            final(self)@ == (MetricsSnapshot {
                events_suppressed: advanced(old(self)@.events_suppressed, 1),
                ..old(self)@
            }),
    {
        self.events_suppressed = self.events_suppressed.wrapping_add(1);
    }

    /// The same counters but for the evicted signatures, of which so many more are
    /// counted.
    pub fn with_evicted(&self, more: u64) -> (r: Metrics)
        ensures
            r@ == (MetricsSnapshot {
                signatures_evicted: advanced(self@.signatures_evicted, more as nat),
                ..self@
            }),
    {
        Metrics {
            events_allowed: self.events_allowed,
            events_suppressed: self.events_suppressed,
            signatures_evicted: self.signatures_evicted.wrapping_add(more),
        }
    }

    /// Number of events that were allowed.
    pub fn events_allowed(&self) -> (r: u64)
        ensures
            r == self@.events_allowed,
    {
        self.events_allowed
    }

    /// Number of events that were suppressed.
    pub fn events_suppressed(&self) -> (r: u64)
        ensures
            r == self@.events_suppressed,
    {
        self.events_suppressed
    }

    /// Number of signatures that were evicted.
    pub fn signatures_evicted(&self) -> (r: u64)
        ensures
            r == self@.signatures_evicted,
    {
        self.signatures_evicted
    }

    /// The values of all counters at this moment.
    pub fn snapshot(&self) -> (r: MetricsSnapshot)
        ensures
            r == self@,
    {
        MetricsSnapshot {
            events_allowed: self.events_allowed,
            events_suppressed: self.events_suppressed,
            signatures_evicted: self.signatures_evicted,
        }
    }
}

impl Default for Metrics {
    fn default() -> (r: Metrics)
        ensures
            r@ == (MetricsSnapshot {
                events_allowed: 0,
                events_suppressed: 0,
                signatures_evicted: 0,
            }),
    {
        Metrics::new()
    }
}

/// Counting adds, until the 64 bits of a counter are used up and it starts over.
pub proof fn lemma_counting_adds(counter: u64, by: nat)
    ensures
        counter + by <= u64::MAX ==> advanced(counter, by) == counter + by,
        u64::MAX < counter + by <= 2 * u64::MAX + 1 ==> advanced(counter, by) == counter + by
            - 0x1_0000_0000_0000_0000,
{
}

} // verus!
