//! Allows a number of events within a sliding window of time.

use std::collections::VecDeque;

use vstd::prelude::*;

use crate::domain::policy::{FieldError, PolicyDecision, PolicyError, RateLimitPolicy};
use crate::domain::time;
use crate::domain::time::{Duration, Instant};

verus! {

/// The state of a [`TimeWindowPolicy`].
#[verifier::ext_equal]
pub struct WindowModel {
    /// Most events to allow within the window.
    pub max_events: nat,
    /// Length of the window.
    pub window: nat,
    /// When the remembered events were allowed, in the order of their arrival.
    pub stamps: Seq<nat>,
}

/// The points in time of a list as numbers.
pub open spec fn instants(list: Seq<Instant>) -> Seq<nat> {
    Seq::new(list.len(), |i: int| list[i]@)
}

/// What is left of remembered events once those that have left the window are
/// dropped from the front.
pub open spec fn live(stamps: Seq<nat>, window: nat, now: nat) -> Seq<nat>
    decreases stamps.len(),
{
    if stamps.len() > 0 && time::elapsed(now, stamps[0]) > window {
        live(stamps.drop_first(), window, now)
    } else {
        stamps
    }
}

/// Allows up to a number of events within a sliding window of time.
#[derive(Debug, Clone, PartialEq)]
pub struct TimeWindowPolicy {
    max_events: usize,
    window_duration: Duration,
    event_timestamps: VecDeque<Instant>,
}

impl TimeWindowPolicy {
    /// A policy that has allowed no event.
    ///
    /// Fails with `ZeroMaxEvents` if `max_events` is zero, else with
    /// `ZeroWindowDuration` if the window has zero length.
    pub fn new(max_events: usize, window_duration: Duration) -> (r: Result<
        TimeWindowPolicy,
        PolicyError,
    >)
        ensures
            r == Err::<TimeWindowPolicy, _>(PolicyError::ZeroMaxEvents) <==> max_events == 0,
            r == Err::<TimeWindowPolicy, _>(PolicyError::ZeroWindowDuration) <==> max_events != 0
                && window_duration@ == 0,
            r is Ok <==> max_events != 0 && window_duration@ != 0,
            r matches Ok(p) ==> p.model() == (WindowModel {
                max_events: max_events as nat,
                window: window_duration@,
                stamps: Seq::empty(),
            }),
    {
        if max_events == 0 {
            return Err(PolicyError::ZeroMaxEvents);
        }
        if window_duration.is_zero() {
            return Err(PolicyError::ZeroWindowDuration);
        }
        let policy = TimeWindowPolicy {
            max_events,
            window_duration,
            event_timestamps: VecDeque::new(),
        };
        assert(policy.model().stamps =~= Seq::empty());
        Ok(policy)
    }

    /// Drops the events that have left the window.
    fn expire_old_events(&mut self, current_time: Instant)
        ensures
            final(self).model() == (WindowModel {
                stamps: live(old(self).model().stamps, old(self).model().window, current_time@),
                ..old(self).model()
            }),
    {
        let ghost before = self.model();
        while self.event_timestamps.len() > 0
            invariant
                self.model().max_events == before.max_events,
                self.model().window == before.window,
                live(self.model().stamps, before.window, current_time@) == live(
                    before.stamps,
                    before.window,
                    current_time@,
                ),
            ensures
                self.model() == (WindowModel {
                    stamps: live(before.stamps, before.window, current_time@),
                    ..before
                }),
            decreases self.event_timestamps.len(),
        {
            let oldest = self.event_timestamps[0];
            let ghost stamps = self.model().stamps;
            if !current_time.saturating_duration_since(oldest).exceeds(self.window_duration) {
                break;
            }
            let _ = self.event_timestamps.pop_front();
            assert(self.model().stamps =~= stamps.drop_first());
        }
    }

    /// What is decided in a state about an event.
    pub open spec fn decision_in(m: WindowModel, at: nat) -> PolicyDecision {
        if live(m.stamps, m.window, at).len() < m.max_events {
            PolicyDecision::Allow
        } else {
            PolicyDecision::Suppress
        }
    }

    /// The state after an event.
    pub open spec fn state_after(m: WindowModel, at: nat) -> WindowModel {
        let kept = live(m.stamps, m.window, at);
        WindowModel {
            stamps: if kept.len() < m.max_events {
                kept.push(at)
            } else {
                kept
            },
            ..m
        }
    }
}

impl RateLimitPolicy for TimeWindowPolicy {
    type Model = WindowModel;

    closed spec fn model(&self) -> WindowModel {
        WindowModel {
            max_events: self.max_events as nat,
            window: self.window_duration@,
            stamps: instants(self.event_timestamps@),
        }
    }

    open spec fn has_room_in(m: WindowModel) -> bool {
        true
    }

    open spec fn steps(
        before: WindowModel,
        at: nat,
        decision: PolicyDecision,
        after: WindowModel,
    ) -> bool {
        decision == Self::decision_in(before, at) && after == Self::state_after(before, at)
    }

    open spec fn state_cleared(m: WindowModel) -> WindowModel {
        WindowModel { stamps: Seq::empty(), ..m }
    }

    open spec fn allow_ends_episode_in(m: WindowModel) -> bool {
        true
    }

    fn has_room(&self) -> (r: bool) {
        true
    }

    fn register_event(&mut self, timestamp: Instant) -> (r: PolicyDecision) {
        self.expire_old_events(timestamp);
        let ghost kept = self.model().stamps;
        if self.event_timestamps.len() < self.max_events {
            self.event_timestamps.push_back(timestamp);
            assert(self.model().stamps =~= kept.push(timestamp@));
            PolicyDecision::Allow
        } else {
            PolicyDecision::Suppress
        }
    }

    fn reset(&mut self) {
        self.event_timestamps.clear();
        assert(self.model().stamps =~= Seq::empty());
    }

    fn allow_ends_episode(&self) -> (r: bool) {
        true
    }

    fn duplicate(&self) -> (r: TimeWindowPolicy) {
        let mut event_timestamps: VecDeque<Instant> = VecDeque::new();
        let mut i: usize = 0;
        while i < self.event_timestamps.len()
            invariant
                i <= self.event_timestamps.len(),
                event_timestamps@ == self.event_timestamps@.take(i as int),
            decreases self.event_timestamps.len() - i,
        {
            event_timestamps.push_back(self.event_timestamps[i]);
            i = i + 1;
        }
        assert(event_timestamps@ == self.event_timestamps@);
        TimeWindowPolicy {
            max_events: self.max_events,
            window_duration: self.window_duration,
            event_timestamps,
        }
    }
}

/// The values by which a policy is stored.
#[derive(Debug, Clone, PartialEq)]
pub struct WindowParts {
    /// Most events to allow within the window.
    pub max_events: usize,
    /// Length of the window.
    pub window_duration_nanos: u128,
    /// Distance of each remembered event from the first.
    pub timestamps_nanos: Vec<u64>,
    /// Zero if there is a first event.
    pub base_timestamp_nanos: Option<u64>,
}

/// The distance of each remembered event from the first.
pub open spec fn window_offsets(stamps: Seq<nat>) -> Seq<u64> {
    Seq::new(stamps.len(), |i: int| time::clamp_u64(time::elapsed(stamps[i], stamps[0])) as u64)
}

/// The point at a distance from another, or that other point itself where there
/// is none so far away.
pub open spec fn point_after(now: nat, distance: u64) -> nat {
    if now + distance <= time::MAX_NANOS {
        (now + distance) as nat
    } else {
        now
    }
}

/// A policy that is read back at some time. Of the window, so many nanoseconds
/// count as fit 64 bits.
pub open spec fn window_restored(
    max_events: usize,
    window_duration_nanos: u128,
    offsets: Seq<u64>,
    now: nat,
) -> WindowModel {
    WindowModel {
        max_events: max_events as nat,
        window: (window_duration_nanos % 0x1_0000_0000_0000_0000) as nat,
        stamps: Seq::new(offsets.len(), |i: int| point_after(now, offsets[i])),
    }
}

impl TimeWindowPolicy {
    /// The values by which a policy is stored.
    ///
    /// The remembered events are stored by their distance from the first.
    pub fn to_parts(&self) -> (r: WindowParts)
        ensures
            r.max_events == self.model().max_events,
            r.window_duration_nanos == self.model().window,
            r.timestamps_nanos@ == window_offsets(self.model().stamps),
            r.base_timestamp_nanos == if self.model().stamps.len() > 0 {
                Some(0u64)
            } else {
                None
            },
    {
        let mut timestamps_nanos: Vec<u64> = Vec::new();
        let count: usize = self.event_timestamps.len();
        if count > 0 {
            let base = self.event_timestamps[0];
            let mut i: usize = 0;
            while i < count
                invariant
                    i <= count,
                    count == self.event_timestamps@.len(),
                    count > 0,
                    base == self.event_timestamps@[0],
                    timestamps_nanos@ == window_offsets(self.model().stamps).take(i as int),
                decreases count - i,
            {
                let distance: u128 = self.event_timestamps[i].saturating_duration_since(
                    base,
                ).as_nanos();
                let clamped: u64 = if distance <= u64::MAX as u128 {
                    distance as u64
                } else {
                    u64::MAX
                };
                timestamps_nanos.push(clamped);
                i = i + 1;
            }
        }
        assert(timestamps_nanos@ =~= window_offsets(self.model().stamps));
        WindowParts {
            max_events: self.max_events,
            window_duration_nanos: self.window_duration.as_nanos(),
            timestamps_nanos,
            base_timestamp_nanos: if count > 0 {
                Some(0)
            } else {
                None
            },
        }
    }

    /// A policy that is read back now. Its events lie at the stored distances
    /// after now.
    fn restore(
        max_events: usize,
        window_duration_nanos: u128,
        timestamps_nanos: Vec<u64>,
        now: Instant,
    ) -> (r: TimeWindowPolicy)
        ensures
            r.model() == window_restored(
                max_events,
                window_duration_nanos,
                timestamps_nanos@,
                now@,
            ),
    {
        let mut event_timestamps: VecDeque<Instant> = VecDeque::new();
        let ghost stamps = window_restored(
            max_events,
            window_duration_nanos,
            timestamps_nanos@,
            now@,
        ).stamps;
        let mut i: usize = 0;
        while i < timestamps_nanos.len()
            invariant
                i <= timestamps_nanos.len(),
                stamps.len() == timestamps_nanos.len(),
                forall|j: int|
                    0 <= j < stamps.len() ==> stamps[j] == point_after(
                        now@,
                        #[trigger] timestamps_nanos@[j],
                    ),
                instants(event_timestamps@) == stamps.take(i as int),
            decreases timestamps_nanos.len() - i,
        {
            let point = match now.checked_add(Duration::from_nanos(timestamps_nanos[i])) {
                Some(point) => point,
                None => now,
            };
            let ghost before = event_timestamps@;
            event_timestamps.push_back(point);
            assert(instants(event_timestamps@) =~= instants(before).push(point@));
            i = i + 1;
            assert(stamps.take(i as int) =~= stamps.take(i - 1).push(stamps[i - 1]));
        }
        assert((window_duration_nanos as u64) as u128 == window_duration_nanos
            % 0x1_0000_0000_0000_0000) by (bit_vector);
        assert(stamps.take(i as int) =~= stamps);
        TimeWindowPolicy {
            max_events,
            window_duration: Duration::from_nanos(
                #[verifier::truncate]
                (window_duration_nanos as u64),
            ),
            event_timestamps,
        }
    }
}

/// The fields of a stored policy.
#[derive(Debug, Clone, Copy, PartialEq, Eq, Structural)]
pub enum WindowField {
    /// Most events to allow within the window.
    MaxEvents,
    /// Length of the window.
    WindowDurationNanos,
    /// Distance of each remembered event from the first.
    TimestampsNanos,
    /// Zero if there is a first event.
    BaseTimestampNanos,
}

impl WindowField {
    /// The name under which the field is stored.
    pub fn name(&self) -> (r: &'static str)
        ensures
            r@ == match *self {
                WindowField::MaxEvents => "max_events"@,
                WindowField::WindowDurationNanos => "window_duration_nanos"@,
                WindowField::TimestampsNanos => "timestamps_nanos"@,
                WindowField::BaseTimestampNanos => "base_timestamp_nanos"@,
            },
    {
        match self {
            WindowField::MaxEvents => "max_events",
            WindowField::WindowDurationNanos => "window_duration_nanos",
            WindowField::TimestampsNanos => "timestamps_nanos",
            WindowField::BaseTimestampNanos => "base_timestamp_nanos",
        }
    }
}

/// A field of a stored policy with its value.
#[derive(Debug, Clone, PartialEq)]
pub enum WindowValue {
    /// Most events to allow within the window.
    MaxEvents(usize),
    /// Length of the window.
    WindowDurationNanos(u128),
    /// Distance of each remembered event from the first.
    TimestampsNanos(Vec<u64>),
    /// Zero if there is a first event.
    BaseTimestampNanos(Option<u64>),
}

/// A stored policy of which some fields have been read.
#[derive(Debug, Clone, PartialEq)]
pub struct WindowAssembly {
    /// Most events to allow within the window.
    pub max_events: Option<usize>,
    /// Length of the window.
    pub window_duration_nanos: Option<u128>,
    /// Distance of each remembered event from the first.
    pub timestamps_nanos: Option<Vec<u64>>,
    /// Zero if there is a first event.
    pub base_timestamp_nanos: Option<Option<u64>>,
}

/// An assembly without any field.
pub open spec fn window_unread() -> WindowAssembly {
    WindowAssembly {
        max_events: None,
        window_duration_nanos: None,
        timestamps_nanos: None,
        base_timestamp_nanos: None,
    }
}

/// An assembly once one more value has been read.
pub open spec fn window_with(a: WindowAssembly, v: WindowValue) -> WindowAssembly {
    match v {
        WindowValue::MaxEvents(x) => WindowAssembly { max_events: Some(x), ..a },
        WindowValue::WindowDurationNanos(x) => WindowAssembly {
            window_duration_nanos: Some(x),
            ..a
        },
        WindowValue::TimestampsNanos(x) => WindowAssembly { timestamps_nanos: Some(x), ..a },
        WindowValue::BaseTimestampNanos(x) => WindowAssembly {
            base_timestamp_nanos: Some(x),
            ..a
        },
    }
}

/// The policy that an assembly amounts to, or the first field that it lacks.
pub open spec fn window_finished(a: WindowAssembly, now: nat) -> Result<
    WindowModel,
    FieldError<WindowField>,
> {
    match (a.max_events, a.window_duration_nanos, a.timestamps_nanos) {
        (None, _, _) => Err(FieldError::Missing(WindowField::MaxEvents)),
        (_, None, _) => Err(FieldError::Missing(WindowField::WindowDurationNanos)),
        (_, _, None) => Err(FieldError::Missing(WindowField::TimestampsNanos)),
        (Some(max_events), Some(window), Some(offsets)) => Ok(
            window_restored(max_events, window, offsets@, now),
        ),
    }
}

impl WindowAssembly {
    /// An assembly without any field.
    pub fn new() -> (r: WindowAssembly)
        ensures
            r == window_unread(),
    {
        WindowAssembly {
            max_events: None,
            window_duration_nanos: None,
            timestamps_nanos: None,
            base_timestamp_nanos: None,
        }
    }

    /// Whether a field may come next.
    ///
    /// Fails with `Duplicate` if it has been read before, except for
    /// `BaseTimestampNanos`, of which the last value counts.
    pub fn expect(&self, field: WindowField) -> (r: Result<(), FieldError<WindowField>>)
        ensures
            r is Err <==> match field {
                WindowField::MaxEvents => self.max_events is Some,
                WindowField::WindowDurationNanos => self.window_duration_nanos is Some,
                WindowField::TimestampsNanos => self.timestamps_nanos is Some,
                WindowField::BaseTimestampNanos => false,
            },
            r matches Err(e) ==> e == FieldError::Duplicate(field),
    {
        let seen = match field {
            WindowField::MaxEvents => self.max_events.is_some(),
            WindowField::WindowDurationNanos => self.window_duration_nanos.is_some(),
            WindowField::TimestampsNanos => self.timestamps_nanos.is_some(),
            WindowField::BaseTimestampNanos => false,
        };
        if seen {
            Err(FieldError::Duplicate(field))
        } else {
            Ok(())
        }
    }

    /// Adds a value that has been read.
    pub fn put(&mut self, value: WindowValue)
        ensures
            *final(self) == window_with(*old(self), value),
    {
        match value {
            WindowValue::MaxEvents(x) => {
                self.max_events = Some(x);
            },
            WindowValue::WindowDurationNanos(x) => {
                self.window_duration_nanos = Some(x);
            },
            WindowValue::TimestampsNanos(x) => {
                self.timestamps_nanos = Some(x);
            },
            WindowValue::BaseTimestampNanos(x) => {
                self.base_timestamp_nanos = Some(x);
            },
        }
    }

    /// The policy that was stored, with its events at the stored distances after
    /// now.
    ///
    /// Fails with `Missing` and the first of maximum, window and events that has
    /// not been read. The base makes no difference.
    pub fn finish(self, now: Instant) -> (r: Result<TimeWindowPolicy, FieldError<WindowField>>)
        ensures
            r matches Ok(p) ==> window_finished(self, now@) == Ok::<_, FieldError<WindowField>>(
                p.model(),
            ),
            r matches Err(e) ==> window_finished(self, now@) == Err::<WindowModel, _>(e),
    {
        let max_events: usize = match self.max_events {
            Some(x) => x,
            None => {
                return Err(FieldError::Missing(WindowField::MaxEvents));
            },
        };
        let window_duration_nanos: u128 = match self.window_duration_nanos {
            Some(x) => x,
            None => {
                return Err(FieldError::Missing(WindowField::WindowDurationNanos));
            },
        };
        match self.timestamps_nanos {
            Some(timestamps_nanos) => Ok(
                TimeWindowPolicy::restore(max_events, window_duration_nanos, timestamps_nanos, now),
            ),
            None => Err(FieldError::Missing(WindowField::TimestampsNanos)),
        }
    }
}

/// A policy that is stored and read back allows as many events in a window of the
/// same length, and the events that it remembers are as far apart as they were.
///
/// The window and the span of the events must fit 64 bits of nanoseconds, and the
/// span must not run past the last representable point in time.
pub proof fn lemma_stored_window_keeps_spacing(p: WindowParts, m: WindowModel, now: nat)
    requires
        in_order(m.stamps),
        p.max_events == m.max_events,
        p.window_duration_nanos == m.window,
        p.timestamps_nanos@ == window_offsets(m.stamps),
        m.window <= u64::MAX,
        m.stamps.len() > 0 ==> m.stamps.last() - m.stamps[0] <= u64::MAX && now + (m.stamps.last()
            - m.stamps[0]) <= time::MAX_NANOS,
    ensures
        ({
            let a = window_with(
                window_with(
                    window_with(
                        window_with(window_unread(), WindowValue::MaxEvents(p.max_events)),
                        WindowValue::WindowDurationNanos(p.window_duration_nanos),
                    ),
                    WindowValue::TimestampsNanos(p.timestamps_nanos),
                ),
                WindowValue::BaseTimestampNanos(p.base_timestamp_nanos),
            );
            &&& window_finished(a, now) matches Ok(back)
            &&& back.max_events == m.max_events
            &&& back.window == m.window
            &&& back.stamps.len() == m.stamps.len()
            &&& forall|i: int|
                0 <= i < m.stamps.len() ==> #[trigger] back.stamps[i] == now + (m.stamps[i]
                    - m.stamps[0])
        }),
{
    let offsets = p.timestamps_nanos@;
    assert forall|i: int| 0 <= i < m.stamps.len() implies #[trigger] point_after(now, offsets[i])
        == now + (m.stamps[i] - m.stamps[0]) by {
        assert(m.stamps[0] <= m.stamps[i] <= m.stamps.last());
    }
}

/// Whether points in time follow one another.
pub open spec fn in_order(times: Seq<nat>) -> bool {
    forall|i: int, j: int| 0 <= i <= j < times.len() ==> times[i] <= times[j]
}

/// A policy after events at the given points in time.
pub open spec fn window_after(m: WindowModel, times: Seq<nat>) -> WindowModel
    decreases times.len(),
{
    if times.len() == 0 {
        m
    } else {
        TimeWindowPolicy::state_after(window_after(m, times.drop_last()), times.last())
    }
}

/// Those of the given events that a policy allows.
pub open spec fn window_allowed(m: WindowModel, times: Seq<nat>) -> Seq<nat>
    decreases times.len(),
{
    if times.len() == 0 {
        Seq::empty()
    } else {
        let before = window_allowed(m, times.drop_last());
        if TimeWindowPolicy::decision_in(window_after(m, times.drop_last()), times.last())
            is Allow {
            before.push(times.last())
        } else {
            before
        }
    }
}

/// How many of the given points lie within the window that ends now.
pub open spec fn recent(times: Seq<nat>, window: nat, now: nat) -> nat
    decreases times.len(),
{
    if times.len() == 0 {
        0
    } else {
        recent(times.drop_first(), window, now) + if time::elapsed(now, times[0]) <= window {
            1nat
        } else {
            0nat
        }
    }
}

/// Dropping at an earlier time makes no difference to what is dropped later.
proof fn lemma_live_again(stamps: Seq<nat>, window: nat, earlier: nat, now: nat)
    requires
        earlier <= now,
    ensures
        live(live(stamps, window, earlier), window, now) == live(stamps, window, now),
    decreases stamps.len(),
{
    if stamps.len() > 0 && time::elapsed(earlier, stamps[0]) > window {
        lemma_live_again(stamps.drop_first(), window, earlier, now);
    }
}

/// What is left of a list with one more event.
proof fn lemma_live_push(stamps: Seq<nat>, x: nat, window: nat, now: nat)
    ensures
        live(stamps.push(x), window, now) == if live(stamps, window, now).len() > 0 {
            live(stamps, window, now).push(x)
        } else {
            live(seq![x], window, now)
        },
    decreases stamps.len(),
{
    if stamps.len() == 0 {
        assert(stamps.push(x) =~= seq![x]);
    } else if time::elapsed(now, stamps[0]) > window {
        assert(stamps.push(x).drop_first() =~= stamps.drop_first().push(x));
        lemma_live_push(stamps.drop_first(), x, window, now);
    }
}

/// Forgetting what has left the window makes no difference later.
proof fn lemma_window_forgets_nothing_live(m: WindowModel, times: Seq<nat>, now: nat)
    requires
        in_order(times),
        times.len() > 0 ==> times.last() <= now,
    ensures
        live(
            window_after(TimeWindowPolicy::state_cleared(m), times).stamps,
            m.window,
            now,
        ) == live(window_allowed(TimeWindowPolicy::state_cleared(m), times), m.window, now),
        window_after(TimeWindowPolicy::state_cleared(m), times).window == m.window,
        window_after(TimeWindowPolicy::state_cleared(m), times).max_events == m.max_events,
    decreases times.len(),
{
    let fresh = TimeWindowPolicy::state_cleared(m);
    if times.len() > 0 {
        let at = times.last();
        let before = window_after(fresh, times.drop_last());
        let allowed = window_allowed(fresh, times.drop_last());
        lemma_window_forgets_nothing_live(m, times.drop_last(), now);
        lemma_live_again(before.stamps, m.window, at, now);
        let kept = live(before.stamps, m.window, at);
        lemma_live_push(kept, at, m.window, now);
        lemma_live_push(allowed, at, m.window, now);
    }
}

/// Allowed events keep the order in which they came.
proof fn lemma_allowed_in_order(m: WindowModel, times: Seq<nat>)
    requires
        in_order(times),
    ensures
        in_order(window_allowed(m, times)),
        window_allowed(m, times).len() <= times.len(),
        window_allowed(m, times).len() > 0 ==> window_allowed(m, times).last() <= times.last(),
    decreases times.len(),
{
    if times.len() > 0 {
        lemma_allowed_in_order(m, times.drop_last());
    }
}

/// From the first event that lies within the window on, all do.
proof fn lemma_recent_from(times: Seq<nat>, window: nat, now: nat, i: int)
    requires
        in_order(times),
        0 <= i < times.len(),
        time::elapsed(now, times[i]) <= window,
    ensures
        recent(times, window, now) >= times.len() - i,
    decreases times.len(),
{
    if i > 0 {
        lemma_recent_from(times.drop_first(), window, now, i - 1);
    } else if times.len() > 1 {
        assert(times[0] <= times[1]);
        lemma_recent_from(times.drop_first(), window, now, 0);
    }
}

/// Dropping from the front leaves what lies within the window.
proof fn lemma_live_is_recent(times: Seq<nat>, window: nat, now: nat)
    requires
        in_order(times),
    ensures
        live(times, window, now).len() == recent(times, window, now),
    decreases times.len(),
{
    lemma_recent_bound(times, window, now);
    if times.len() > 0 {
        if time::elapsed(now, times[0]) > window {
            lemma_live_is_recent(times.drop_first(), window, now);
        } else {
            lemma_recent_from(times, window, now, 0);
        }
    }
}

proof fn lemma_recent_bound(times: Seq<nat>, window: nat, now: nat)
    ensures
        recent(times, window, now) <= times.len(),
    decreases times.len(),
{
    if times.len() > 0 {
        lemma_recent_bound(times.drop_first(), window, now);
    }
}

/// While time does not go backwards, a policy that was made or cleared allows an
/// event if and only if fewer than `max_events` of the events that it allowed
/// before lie within the window that ends with this one.
pub proof fn lemma_window_counts_recent_events(m: WindowModel, times: Seq<nat>, at: nat)
    requires
        in_order(times),
        times.len() > 0 ==> times.last() <= at,
    ensures
        TimeWindowPolicy::decision_in(
            window_after(TimeWindowPolicy::state_cleared(m), times),
            at,
        ) is Allow <==> recent(
            window_allowed(TimeWindowPolicy::state_cleared(m), times),
            m.window,
            at,
        ) < m.max_events,
{
    let fresh = TimeWindowPolicy::state_cleared(m);
    lemma_window_forgets_nothing_live(m, times, at);
    lemma_allowed_in_order(fresh, times);
    lemma_live_is_recent(window_allowed(fresh, times), m.window, at);
}

/// While time does not go backwards, no window holds more than `max_events`
/// allowed events: of any `max_events + 1` in a row, the last comes more than the
/// window after the first.
pub proof fn lemma_no_window_holds_more(m: WindowModel, times: Seq<nat>, i: int)
    requires
        in_order(times),
        0 <= i,
        i + m.max_events < window_allowed(TimeWindowPolicy::state_cleared(m), times).len(),
    ensures
        window_allowed(TimeWindowPolicy::state_cleared(m), times)[i + m.max_events]
            - window_allowed(TimeWindowPolicy::state_cleared(m), times)[i] > m.window,
    decreases times.len(),
{
    let fresh = TimeWindowPolicy::state_cleared(m);
    let earlier = times.drop_last();
    let before = window_allowed(fresh, earlier);
    lemma_allowed_in_order(fresh, earlier);
    lemma_allowed_in_order(fresh, times);
    if i + m.max_events < before.len() {
        lemma_no_window_holds_more(m, earlier, i);
    } else {
        lemma_window_counts_recent_events(m, earlier, times.last());
        lemma_recent_bound(before, m.window, times.last());
        if time::elapsed(times.last(), before[i]) <= m.window {
            lemma_recent_from(before, m.window, times.last(), i);
        }
    }
}

/// A policy never remembers more than `max_events` events.
pub proof fn lemma_window_is_bounded(m: WindowModel, at: nat)
    requires
        m.stamps.len() <= m.max_events,
    ensures
        TimeWindowPolicy::state_after(m, at).stamps.len() <= m.max_events,
    decreases m.stamps.len(),
{
    if m.stamps.len() > 0 {
        lemma_window_is_bounded(WindowModel { stamps: m.stamps.drop_first(), ..m }, at);
    }
}

/// An event first drops remembered events from the front for as long as they lie more
/// than the window before it. It passes if fewer than `max_events` are left, and is then
/// remembered after them.
pub proof fn lemma_window_event_in_full(
    before: WindowModel,
    at: nat,
    decision: PolicyDecision,
    after: WindowModel,
) -> (dropped: int)
    requires
        TimeWindowPolicy::steps(before, at, decision, after),
    ensures
        0 <= dropped <= before.stamps.len(),
        forall|k: int| 0 <= k < dropped ==> at - #[trigger] before.stamps[k] > before.window,
        dropped < before.stamps.len() ==> at - before.stamps[dropped] <= before.window,
        decision is Allow <==> before.stamps.len() - dropped < before.max_events,
        after.stamps == if decision is Allow {
            before.stamps.skip(dropped).push(at)
        } else {
            before.stamps.skip(dropped)
        },
        after.max_events == before.max_events,
        after.window == before.window,
{
    lemma_live_skips(before.stamps, before.window, at)
}

proof fn lemma_live_skips(stamps: Seq<nat>, window: nat, now: nat) -> (dropped: int)
    ensures
        0 <= dropped <= stamps.len(),
        live(stamps, window, now) == stamps.skip(dropped),
        forall|k: int| 0 <= k < dropped ==> now - #[trigger] stamps[k] > window,
        dropped < stamps.len() ==> now - stamps[dropped] <= window,
    decreases stamps.len(),
{
    if stamps.len() > 0 && time::elapsed(now, stamps[0]) > window {
        let n = lemma_live_skips(stamps.drop_first(), window, now);
        assert(stamps.drop_first().skip(n) =~= stamps.skip(n + 1));
        assert forall|k: int| 0 <= k < n + 1 implies now - #[trigger] stamps[k] > window by {
            if k > 0 {
                assert(stamps[k] == stamps.drop_first()[k - 1]);
            }
        }
        n + 1
    } else {
        assert(stamps.skip(0) =~= stamps);
        0
    }
}

/// Whether a policy goes through these states with events at these times and these
/// decisions.
pub open spec fn window_runs(
    states: Seq<WindowModel>,
    times: Seq<nat>,
    decisions: Seq<PolicyDecision>,
) -> bool {
    &&& states.len() == times.len() + 1
    &&& decisions.len() == times.len()
    &&& forall|i: int|
        0 <= i < times.len() ==> TimeWindowPolicy::steps(
            states[i],
            #[trigger] times[i],
            decisions[i],
            states[i + 1],
        )
}

/// One more point in time is within the window or not.
proof fn lemma_recent_push(times: Seq<nat>, x: nat, window: nat, now: nat)
    ensures
        recent(times.push(x), window, now) == recent(times, window, now) + if time::elapsed(now, x)
            <= window {
            1nat
        } else {
            0nat
        },
    decreases times.len(),
{
    let more = times.push(x);
    if times.len() == 0 {
        reveal_with_fuel(recent, 2);
        assert(more.drop_first() =~= times);
    } else {
        assert(more.drop_first() =~= times.drop_first().push(x));
        lemma_recent_push(times.drop_first(), x, window, now);
    }
}

/// The events among the first `n` that passed and lie within the window that ends at
/// some time.
pub open spec fn passed_within(
    times: Seq<nat>,
    decisions: Seq<PolicyDecision>,
    n: int,
    window: nat,
    now: nat,
) -> Set<int> {
    Set::new(
        |j: int| 0 <= j < n && decisions[j] is Allow && now - times[j] <= window,
    )
}

proof fn lemma_window_run(
    m: WindowModel,
    states: Seq<WindowModel>,
    times: Seq<nat>,
    decisions: Seq<PolicyDecision>,
    n: int,
    now: nat,
)
    requires
        window_runs(states, times, decisions),
        states[0] == TimeWindowPolicy::state_cleared(m),
        0 <= n <= times.len(),
        forall|k: int| 0 <= k < n ==> #[trigger] times[k] <= now,
    ensures
        states[n] == window_after(states[0], times.take(n)),
        passed_within(times, decisions, n, m.window, now).finite(),
        recent(window_allowed(states[0], times.take(n)), m.window, now) == passed_within(
            times,
            decisions,
            n,
            m.window,
            now,
        ).len(),
    decreases n,
{
    if n == 0 {
        assert(times.take(0) =~= Seq::empty());
        assert(passed_within(times, decisions, 0, m.window, now) =~= Set::empty());
    } else {
        lemma_window_run(m, states, times, decisions, n - 1, now);
        let at = times[n - 1];
        assert(TimeWindowPolicy::steps(states[n - 1], at, decisions[n - 1], states[n - 1 + 1]));
        assert(times.take(n).drop_last() =~= times.take(n - 1));
        assert(times.take(n).last() == at);
        let earlier = passed_within(times, decisions, n - 1, m.window, now);
        let passed = passed_within(times, decisions, n, m.window, now);
        lemma_recent_push(
            window_allowed(states[0], times.take(n - 1)),
            at,
            m.window,
            now,
        );
        if decisions[n - 1] is Allow && now - at <= m.window {
            assert(passed =~= earlier.insert(n - 1));
        } else {
            assert(passed =~= earlier);
        }
    }
}

/// While time does not go backwards, an event of a policy that was made or cleared passes
/// if and only if fewer than `max_events` of the events that passed before it lie no more
/// than the window before it.
pub proof fn lemma_window_decides_by_what_passed(
    m: WindowModel,
    states: Seq<WindowModel>,
    times: Seq<nat>,
    decisions: Seq<PolicyDecision>,
    i: int,
)
    requires
        window_runs(states, times, decisions),
        states[0] == (WindowModel { stamps: Seq::empty(), ..m }),
        forall|j: int, k: int| 0 <= j <= k < times.len() ==> times[j] <= times[k],
        0 <= i < times.len(),
    ensures
        Set::new(
            |j: int| 0 <= j < i && decisions[j] is Allow && times[i] - times[j] <= m.window,
        ).finite(),
        decisions[i] is Allow <==> Set::new(
            |j: int| 0 <= j < i && decisions[j] is Allow && times[i] - times[j] <= m.window,
        ).len() < m.max_events,
{
    lemma_window_run(m, states, times, decisions, i, times[i]);
    assert(TimeWindowPolicy::steps(states[i], times[i], decisions[i], states[i + 1]));
    let earlier = times.take(i);
    assert forall|j: int, k: int| 0 <= j <= k < earlier.len() implies earlier[j] <= earlier[k] by {
        assert(times[j] <= times[k]);
    }
    lemma_window_counts_recent_events(m, earlier, times[i]);
    assert(passed_within(times, decisions, i, m.window, times[i]) =~= Set::new(
        |j: int| 0 <= j < i && decisions[j] is Allow && times[i] - times[j] <= m.window,
    ));
}

/// What is stored of remembered events is how far each lies after the first.
pub proof fn lemma_stored_events_are_distances(stamps: Seq<nat>, i: int)
    requires
        0 <= i < stamps.len(),
    ensures
        window_offsets(stamps).len() == stamps.len(),
        stamps[i] < stamps[0] ==> window_offsets(stamps)[i] == 0,
        0 <= stamps[i] - stamps[0] <= u64::MAX ==> window_offsets(stamps)[i] == stamps[i]
            - stamps[0],
        stamps[i] - stamps[0] > u64::MAX ==> window_offsets(stamps)[i] == u64::MAX,
{
}

/// A policy that is read back remembers an event for every stored distance, at that
/// distance after now where there is such a point in time, else now.
pub proof fn lemma_restored_events_lie_after_now(a: WindowAssembly, now: nat, i: int)
    requires
        a.max_events is Some,
        a.window_duration_nanos is Some,
        a.timestamps_nanos is Some,
        0 <= i < a.timestamps_nanos->0@.len(),
    ensures
        window_finished(a, now) matches Ok(back) && {
            &&& back.max_events == a.max_events->0
            &&& a.window_duration_nanos->0 <= u64::MAX ==> back.window
                == a.window_duration_nanos->0
            &&& back.stamps.len() == a.timestamps_nanos->0@.len()
            &&& now + a.timestamps_nanos->0@[i] <= time::MAX_NANOS ==> back.stamps[i] == now
                + a.timestamps_nanos->0@[i]
            &&& now + a.timestamps_nanos->0@[i] > time::MAX_NANOS ==> back.stamps[i] == now
        },
{
}

/// A policy cannot be read back without its maximum, its window and its events; the first
/// of these that is missing is told.
pub proof fn lemma_missing_window_field_is_told(a: WindowAssembly, now: nat)
    ensures
        a.max_events is None ==> window_finished(a, now) == Err::<WindowModel, _>(
            FieldError::Missing(WindowField::MaxEvents),
        ),
        a.max_events is Some && a.window_duration_nanos is None ==> window_finished(a, now)
            == Err::<WindowModel, _>(FieldError::Missing(WindowField::WindowDurationNanos)),
        a.max_events is Some && a.window_duration_nanos is Some && a.timestamps_nanos is None
            ==> window_finished(a, now) == Err::<WindowModel, _>(
            FieldError::Missing(WindowField::TimestampsNanos),
        ),
{
}

/// Reading a value sets its own field and no other.
pub proof fn lemma_window_value_sets_its_field(a: WindowAssembly, v: WindowValue)
    ensures
        window_with(a, v).max_events == if let WindowValue::MaxEvents(x) = v {
            Some(x)
        } else {
            a.max_events
        },
        window_with(a, v).window_duration_nanos == if let WindowValue::WindowDurationNanos(x) = v {
            Some(x)
        } else {
            a.window_duration_nanos
        },
        window_with(a, v).timestamps_nanos == if let WindowValue::TimestampsNanos(x) = v {
            Some(x)
        } else {
            a.timestamps_nanos
        },
{
}

} // verus!
