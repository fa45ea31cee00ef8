//! Points in time and spans between them, counted in nanoseconds.
//!
//! An [`Instant`] counts from an origin that lies before every event of the
//! process. A [`Duration`] covers the range of whole seconds that fit in 64
//! bits, with a nanosecond part below one second. Both are plain values, so
//! that what the rest of the library computes from them is exact.

use vstd::prelude::*;

verus! {

/// Nanoseconds in one second.
pub const NANOS_PER_SEC: u128 = 1_000_000_000;

/// Nanoseconds in one millisecond.
pub const NANOS_PER_MILLI: u128 = 1_000_000;

/// The longest representable span: `u64::MAX` seconds and 999 999 999 nanoseconds.
pub const MAX_NANOS: u128 = 18_446_744_073_709_551_615_999_999_999;

/// The mathematical difference of two counts, or zero where it would be negative.
pub open spec fn elapsed(later: nat, earlier: nat) -> nat {
    if later >= earlier {
        (later - earlier) as nat
    } else {
        0
    }
}

/// A count of nanoseconds as a 64-bit value, cut off at the largest one.
pub open spec fn clamp_u64(nanos: nat) -> nat {
    if nanos <= u64::MAX {
        nanos
    } else {
        u64::MAX as nat
    }
}

/// A span of time. Its view is its length in nanoseconds.
#[derive(Debug, Clone, Copy, PartialEq, Eq, PartialOrd, Ord, Hash, Structural)]
pub struct Duration {
    nanos: u128,
}

impl Duration {
    #[verifier::type_invariant]
    closed spec fn in_range(self) -> bool {
        self.nanos <= MAX_NANOS
    }

    /// Length in nanoseconds.
    pub closed spec fn view(&self) -> nat {
        self.nanos as nat
    }

    /// The span of zero length.
    pub fn zero() -> (r: Duration)
        ensures
            r@ == 0,
    {
        Duration { nanos: 0 }
    }

    /// A span of so many nanoseconds.
    pub fn from_nanos(nanos: u64) -> (r: Duration)
        ensures
            r@ == nanos,
    {
        Duration { nanos: nanos as u128 }
    }

    /// A span of so many milliseconds.
    pub fn from_millis(millis: u64) -> (r: Duration)
        ensures
            r@ == millis * NANOS_PER_MILLI,
    {
        Duration { nanos: (millis as u128) * NANOS_PER_MILLI }
    }

    /// A span of so many seconds.
    pub fn from_secs(secs: u64) -> (r: Duration)
        ensures
            r@ == secs * NANOS_PER_SEC,
    {
        Duration { nanos: (secs as u128) * NANOS_PER_SEC }
    }

    /// A span of whole seconds and a part below one second.
    pub fn from_parts(secs: u64, subsec_nanos: u32) -> (r: Duration)
        requires
            subsec_nanos < NANOS_PER_SEC,
        ensures
            r@ == secs * NANOS_PER_SEC + subsec_nanos,
    {
        Duration { nanos: (secs as u128) * NANOS_PER_SEC + subsec_nanos as u128 }
    }

    /// Length in nanoseconds.
    pub fn as_nanos(&self) -> (r: u128)
        ensures
            r == self@,
            r <= MAX_NANOS,
    {
        proof {
            use_type_invariant(self);
        }
        self.nanos
    }

    /// Whole seconds in the span.
    pub fn as_secs(&self) -> (r: u64)
        ensures
            r == self@ / NANOS_PER_SEC as nat,
    {
        proof {
            use_type_invariant(self);
        }
        (self.nanos / NANOS_PER_SEC) as u64
    }

    /// What is left of the span beyond its whole seconds, in nanoseconds.
    pub fn subsec_nanos(&self) -> (r: u32)
        ensures
            r == self@ % NANOS_PER_SEC as nat,
            r < NANOS_PER_SEC,
    {
        (self.nanos % NANOS_PER_SEC) as u32
    }

    /// Whether the span has zero length.
    pub fn is_zero(&self) -> (r: bool)
        ensures
            r == (self@ == 0),
    {
        self.nanos == 0
    }

    /// Whether this span is longer than another.
    pub fn exceeds(&self, other: Duration) -> (r: bool)
        ensures
            r == (self@ > other@),
    {
        self.nanos > other.nanos
    }
}

/// A point in time. Its view is its distance from the origin in nanoseconds.
#[derive(Debug, Clone, Copy, PartialEq, Eq, PartialOrd, Ord, Hash, Structural)]
pub struct Instant {
    nanos: u128,
}

impl Instant {
    #[verifier::type_invariant]
    closed spec fn in_range(self) -> bool {
        self.nanos <= MAX_NANOS
    }

    /// Distance from the origin in nanoseconds.
    pub closed spec fn view(&self) -> nat {
        self.nanos as nat
    }

    /// The origin from which all points in time are counted.
    pub fn origin() -> (r: Instant)
        ensures
            r@ == 0,
    {
        Instant { nanos: 0 }
    }

    /// The point that lies the given span after the origin.
    pub fn after_origin(distance: Duration) -> (r: Instant)
        ensures
            r@ == distance@,
    {
        Instant { nanos: distance.as_nanos() }
    }

    /// The span from the origin to this point.
    pub fn since_origin(&self) -> (r: Duration)
        ensures
            r@ == self@,
    {
        proof {
            use_type_invariant(self);
        }
        Duration { nanos: self.nanos }
    }

    /// The span from an earlier point to this one, zero if that point is later.
    pub fn saturating_duration_since(&self, earlier: Instant) -> (r: Duration)
        ensures
            r@ == elapsed(self@, earlier@),
    {
        proof {
            use_type_invariant(self);
        }
        if self.nanos >= earlier.nanos {
            Duration { nanos: self.nanos - earlier.nanos }
        } else {
            Duration { nanos: 0 }
        }
    }

    /// The span from an earlier point to this one, zero if that point is later.
    pub fn duration_since(&self, earlier: Instant) -> (r: Duration)
        ensures
            r@ == elapsed(self@, earlier@),
    {
        self.saturating_duration_since(earlier)
    }

    /// The point that lies the given span after this one, if there is one.
    pub fn checked_add(&self, span: Duration) -> (r: Option<Instant>)
        ensures
            r is Some <==> self@ + span@ <= MAX_NANOS,
            r matches Some(point) ==> point@ == self@ + span@,
    {
        proof {
            use_type_invariant(self);
            use_type_invariant(&span);
        }
        let nanos: u128 = self.nanos + span.nanos;
        if nanos <= MAX_NANOS {
            Some(Instant { nanos })
        } else {
            None
        }
    }

    /// Whether this point lies before another.
    pub fn is_before(&self, other: Instant) -> (r: bool)
        ensures
            r == (self@ < other@),
    {
        self.nanos < other.nanos
    }
}

impl vstd::std_specs::ops::AddSpecImpl<Duration> for Instant {
    open spec fn obeys_add_spec() -> bool {
        true
    }

    open spec fn add_req(self, rhs: Duration) -> bool {
        self@ + rhs@ <= MAX_NANOS
    }

    closed spec fn add_spec(self, rhs: Duration) -> Instant {
        Instant { nanos: (self.nanos + rhs.nanos) as u128 }
    }
}

impl core::ops::Add<Duration> for Instant {
    type Output = Instant;

    /// The point that lies the given span after this one.
    fn add(self, rhs: Duration) -> (r: Instant)
        ensures
            r@ == self@ + rhs@,
    {
        Instant { nanos: self.nanos + rhs.nanos }
    }
}

/// Two spans of the same length are the same span.
pub proof fn lemma_duration_determined_by_view(a: Duration, b: Duration)
    requires
        a@ == b@,
    ensures
        a == b,
{
}

/// What has elapsed since an earlier point brings one to the later point; nothing has
/// elapsed since a later point.
pub proof fn lemma_elapsed_is_the_difference(later: nat, earlier: nat)
    ensures
        earlier <= later ==> earlier + elapsed(later, earlier) == later,
        later <= earlier ==> elapsed(later, earlier) == 0,
{
}

/// Counts that fit 64 bits are kept, and all others become the largest that fits.
pub proof fn lemma_clamping_keeps_what_fits(nanos: nat)
    ensures
        nanos < 0x1_0000_0000_0000_0000 ==> clamp_u64(nanos) == nanos,
        nanos >= 0x1_0000_0000_0000_0000 ==> clamp_u64(nanos) == 0xffff_ffff_ffff_ffff,
{
}

} // verus!
