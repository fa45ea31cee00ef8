//! Rate limiting policies.
//!
//! A policy decides for each event, from what it has seen before, whether the
//! event is emitted or suppressed.

use vstd::prelude::*;

use crate::domain::time::{Duration, Instant};

pub mod count_based;
pub mod exponential_backoff;
pub mod time_window;
pub mod token_bucket;

pub use count_based::CountBasedPolicy;
pub use exponential_backoff::ExponentialBackoffPolicy;
pub use time_window::TimeWindowPolicy;
pub use token_bucket::{TokenAmount, TokenBucketPolicy};

use count_based::CountModel;
use exponential_backoff::BackoffModel;
use time_window::WindowModel;
use token_bucket::BucketModel;

verus! {

/// Why a policy cannot be made.
#[derive(Debug, Clone, Copy, PartialEq, Eq, Structural)]
pub enum PolicyError {
    /// The maximum count is zero.
    ZeroMaxCount,
    /// The maximum number of events is zero.
    ZeroMaxEvents,
    /// The time window has zero length.
    ZeroWindowDuration,
    /// The bucket capacity is zero or negative.
    ZeroCapacity,
    /// The refill rate is zero or negative.
    ZeroRefillRate,
}

/// The text of a policy error.
pub open spec fn policy_error_text(e: PolicyError) -> Seq<char> {
    match e {
        PolicyError::ZeroMaxCount => "max_count must be greater than 0"@,
        PolicyError::ZeroMaxEvents => "max_events must be greater than 0"@,
        PolicyError::ZeroWindowDuration => "window duration must be greater than 0"@,
        PolicyError::ZeroCapacity => "capacity must be greater than 0"@,
        PolicyError::ZeroRefillRate => "refill_rate must be greater than 0"@,
    }
}

impl PolicyError {
    /// The error as text.
    pub fn to_string(&self) -> (r: String)
        ensures
            r@ == policy_error_text(*self),
    {
        match self {
            PolicyError::ZeroMaxCount => "max_count must be greater than 0".to_owned(),
            PolicyError::ZeroMaxEvents => "max_events must be greater than 0".to_owned(),
            PolicyError::ZeroWindowDuration => "window duration must be greater than 0".to_owned(),
            PolicyError::ZeroCapacity => "capacity must be greater than 0".to_owned(),
            PolicyError::ZeroRefillRate => "refill_rate must be greater than 0".to_owned(),
        }
    }
}

/// Why stored fields do not make a policy.
#[derive(Debug, Clone, Copy, PartialEq, Eq, Structural)]
pub enum FieldError<F> {
    /// A field occurs twice.
    Duplicate(F),
    /// A field does not occur.
    Missing(F),
}

/// What a policy decides about an event.
#[derive(Debug, Clone, Copy, PartialEq, Eq, Structural)]
pub enum PolicyDecision {
    /// The event is emitted.
    Allow,
    /// The event is not emitted.
    Suppress,
}

impl PolicyDecision {
    /// Whether the event is emitted.
    pub fn is_allow(&self) -> (r: bool)
        ensures
            r == (*self is Allow),
    {
        matches!(self, PolicyDecision::Allow)
    }

    /// Whether the event is suppressed.
    pub fn is_suppress(&self) -> (r: bool)
        ensures
            r == (*self is Suppress),
    {
        matches!(self, PolicyDecision::Suppress)
    }
}

/// A rule that decides which events are emitted.
///
/// `Model` is the state on which decisions depend.
pub trait RateLimitPolicy: Sized {
    /// The state on which decisions depend.
    type Model;

    /// The state of this policy.
    spec fn model(&self) -> Self::Model;

    /// Whether the counters of a state have room for one more event.
    spec fn has_room_in(m: Self::Model) -> bool;

    /// Whether an event at a point in time can be decided so, and what state it
    /// leaves.
    spec fn steps(
        before: Self::Model,
        at: nat,
        decision: PolicyDecision,
        after: Self::Model,
    ) -> bool;

    /// The state after clearing the history.
    spec fn state_cleared(m: Self::Model) -> Self::Model;

    /// Whether an `Allow` ends a run of suppressions.
    spec fn allow_ends_episode_in(m: Self::Model) -> bool;

    /// Whether the counters have room for one more event.
    fn has_room(&self) -> (r: bool)
        ensures
            r == Self::has_room_in(self.model()),
    ;

    /// Registers an event and decides about it.
    fn register_event(&mut self, timestamp: Instant) -> (r: PolicyDecision)
        requires
            Self::has_room_in(old(self).model()),
        ensures
            Self::steps(old(self).model(), timestamp@, r, final(self).model()),
    ;

    /// Clears the history.
    fn reset(&mut self)
        ensures
            final(self).model() == Self::state_cleared(old(self).model()),
    ;

    /// Whether an `Allow` ends a run of suppressions.
    ///
    /// Where suppression comes in episodes, as with time windows or exponential
    /// backoff, an allowed event closes the run of suppressions before it. Where
    /// allowed and suppressed events mix under steady load, as with a token
    /// bucket, it carries no such meaning.
    fn allow_ends_episode(&self) -> (r: bool)
        ensures
            r == Self::allow_ends_episode_in(self.model()),
    ;

    /// A policy in the same state.
    fn duplicate(&self) -> (r: Self)
        ensures
            r.model() == self.model(),
    ;
}

/// One of the built-in policies.
#[derive(Debug, Clone)]
pub enum Policy<A> {
    /// Allows a fixed number of events.
    CountBased(CountBasedPolicy),
    /// Allows a number of events within a sliding window.
    TimeWindow(TimeWindowPolicy),
    /// Allows events at doubling intervals.
    ExponentialBackoff(ExponentialBackoffPolicy),
    /// Allows bursts and a sustained rate.
    TokenBucket(TokenBucketPolicy<A>),
}

/// The state of a [`Policy`].
pub enum PolicyModel<A> {
    /// Of a count-based policy.
    Count(CountModel),
    /// Of a time-window policy.
    Window(WindowModel),
    /// Of an exponential backoff policy.
    Backoff(BackoffModel),
    /// Of a token bucket policy.
    Bucket(BucketModel<A>),
}

impl<A: TokenAmount> Policy<A> {
    /// A policy that allows `max_count` events.
    ///
    /// Fails with `ZeroMaxCount` if `max_count` is zero.
    pub fn count_based(max_count: usize) -> (r: Result<Policy<A>, PolicyError>)
        ensures
            max_count == 0 <==> r is Err,
            r matches Err(e) ==> e == PolicyError::ZeroMaxCount,
            r matches Ok(p) ==> p.model() == PolicyModel::<A>::Count(
                CountModel { max_count: max_count as nat, current_count: 0 },
            ),
    {
        match CountBasedPolicy::new(max_count) {
            Ok(p) => Ok(Policy::CountBased(p)),
            Err(e) => Err(e),
        }
    }

    /// A policy that allows `max_events` events within a window.
    ///
    /// Fails with `ZeroMaxEvents` if `max_events` is zero, else with
    /// `ZeroWindowDuration` if the window has zero length.
    pub fn time_window(max_events: usize, window: Duration) -> (r: Result<Policy<A>, PolicyError>)
        ensures
            r == Err::<Policy<A>, _>(PolicyError::ZeroMaxEvents) <==> max_events == 0,
            r == Err::<Policy<A>, _>(PolicyError::ZeroWindowDuration) <==> max_events != 0
                && window@ == 0,
            r is Ok <==> max_events != 0 && window@ != 0,
            r matches Ok(p) ==> p.model() == PolicyModel::<A>::Window(
                WindowModel {
                    max_events: max_events as nat,
                    window: window@,
                    stamps: Seq::empty(),
                },
            ),
    {
        match TimeWindowPolicy::new(max_events, window) {
            Ok(p) => Ok(Policy::TimeWindow(p)),
            Err(e) => Err(e),
        }
    }

    /// A policy that allows events at doubling intervals.
    pub fn exponential_backoff() -> (r: Policy<A>)
        ensures
            r.model() == PolicyModel::<A>::Backoff(
                BackoffModel { event_count: 0, next_allowed: 1 },
            ),
    {
        Policy::ExponentialBackoff(ExponentialBackoffPolicy::new())
    }

    /// A policy that allows bursts of `capacity` events and a sustained rate.
    ///
    /// Fails with `ZeroCapacity` if the capacity is unusable, else with
    /// `ZeroRefillRate` if the rate is.
    pub fn token_bucket(capacity: A, refill_rate: A) -> (r: Result<Policy<A>, PolicyError>)
        ensures
            r matches Err(PolicyError::ZeroCapacity) ==> call_ensures(
                A::is_unusable,
                (capacity,),
                true,
            ),
            r matches Err(PolicyError::ZeroRefillRate) ==> call_ensures(
                A::is_unusable,
                (capacity,),
                false,
            ) && call_ensures(A::is_unusable, (refill_rate,), true),
            r matches Err(e) ==> e == PolicyError::ZeroCapacity || e == PolicyError::ZeroRefillRate,
            r matches Ok(p) ==> call_ensures(A::is_unusable, (capacity,), false) && call_ensures(
                A::is_unusable,
                (refill_rate,),
                false,
            ) && p.model() == PolicyModel::<A>::Bucket(
                BucketModel { capacity, refill_rate, tokens: capacity, last_refill: None },
            ),
    {
        match TokenBucketPolicy::new(capacity, refill_rate) {
            Ok(p) => Ok(Policy::TokenBucket(p)),
            Err(e) => Err(e),
        }
    }
}

impl<A: TokenAmount> RateLimitPolicy for Policy<A> {
    type Model = PolicyModel<A>;

    open spec fn model(&self) -> PolicyModel<A> {
        match *self {
            Policy::CountBased(p) => PolicyModel::Count(p.model()),
            Policy::TimeWindow(p) => PolicyModel::Window(p.model()),
            Policy::ExponentialBackoff(p) => PolicyModel::Backoff(p.model()),
            Policy::TokenBucket(p) => PolicyModel::Bucket(p.model()),
        }
    }

    open spec fn has_room_in(m: PolicyModel<A>) -> bool {
        match m {
            PolicyModel::Count(m) => CountBasedPolicy::has_room_in(m),
            PolicyModel::Window(m) => TimeWindowPolicy::has_room_in(m),
            PolicyModel::Backoff(m) => ExponentialBackoffPolicy::has_room_in(m),
            PolicyModel::Bucket(m) => TokenBucketPolicy::<A>::has_room_in(m),
        }
    }

    open spec fn steps(
        before: PolicyModel<A>,
        at: nat,
        decision: PolicyDecision,
        after: PolicyModel<A>,
    ) -> bool {
        match (before, after) {
            (PolicyModel::Count(b), PolicyModel::Count(a)) => CountBasedPolicy::steps(
                b,
                at,
                decision,
                a,
            ),
            (PolicyModel::Window(b), PolicyModel::Window(a)) => TimeWindowPolicy::steps(
                b,
                at,
                decision,
                a,
            ),
            (PolicyModel::Backoff(b), PolicyModel::Backoff(a)) => ExponentialBackoffPolicy::steps(
                b,
                at,
                decision,
                a,
            ),
            (PolicyModel::Bucket(b), PolicyModel::Bucket(a)) => TokenBucketPolicy::<A>::steps(
                b,
                at,
                decision,
                a,
            ),
            _ => false,
        }
    }

    open spec fn state_cleared(m: PolicyModel<A>) -> PolicyModel<A> {
        match m {
            PolicyModel::Count(m) => PolicyModel::Count(CountBasedPolicy::state_cleared(m)),
            PolicyModel::Window(m) => PolicyModel::Window(TimeWindowPolicy::state_cleared(m)),
            PolicyModel::Backoff(m) => PolicyModel::Backoff(
                ExponentialBackoffPolicy::state_cleared(m),
            ),
            PolicyModel::Bucket(m) => PolicyModel::Bucket(TokenBucketPolicy::<A>::state_cleared(m)),
        }
    }

    open spec fn allow_ends_episode_in(m: PolicyModel<A>) -> bool {
        match m {
            PolicyModel::Count(m) => CountBasedPolicy::allow_ends_episode_in(m),
            PolicyModel::Window(m) => TimeWindowPolicy::allow_ends_episode_in(m),
            PolicyModel::Backoff(m) => ExponentialBackoffPolicy::allow_ends_episode_in(m),
            PolicyModel::Bucket(m) => TokenBucketPolicy::<A>::allow_ends_episode_in(m),
        }
    }

    fn has_room(&self) -> (r: bool) {
        match self {
            Policy::CountBased(p) => p.has_room(),
            Policy::TimeWindow(p) => p.has_room(),
            Policy::ExponentialBackoff(p) => p.has_room(),
            Policy::TokenBucket(p) => p.has_room(),
        }
    }

    fn register_event(&mut self, timestamp: Instant) -> (r: PolicyDecision) {
        match self {
            Policy::CountBased(p) => p.register_event(timestamp),
            Policy::TimeWindow(p) => p.register_event(timestamp),
            Policy::ExponentialBackoff(p) => p.register_event(timestamp),
            Policy::TokenBucket(p) => p.register_event(timestamp),
        }
    }

    fn reset(&mut self) {
        match self {
            Policy::CountBased(p) => p.reset(),
            Policy::TimeWindow(p) => p.reset(),
            Policy::ExponentialBackoff(p) => p.reset(),
            Policy::TokenBucket(p) => p.reset(),
        }
    }

    fn allow_ends_episode(&self) -> (r: bool) {
        match self {
            Policy::CountBased(p) => p.allow_ends_episode(),
            Policy::TimeWindow(p) => p.allow_ends_episode(),
            Policy::ExponentialBackoff(p) => p.allow_ends_episode(),
            Policy::TokenBucket(p) => p.allow_ends_episode(),
        }
    }

    fn duplicate(&self) -> (r: Policy<A>) {
        match self {
            Policy::CountBased(p) => Policy::CountBased(p.duplicate()),
            Policy::TimeWindow(p) => Policy::TimeWindow(p.duplicate()),
            Policy::ExponentialBackoff(p) => Policy::ExponentialBackoff(p.duplicate()),
            Policy::TokenBucket(p) => Policy::TokenBucket(p.duplicate()),
        }
    }
}

/// Clearing the history forgets all events of it: however long a policy has run,
/// it is then as it was when it was made, and clearing it again changes nothing.
pub proof fn lemma_cleared_policy_has_no_history<A: TokenAmount>(
    before: PolicyModel<A>,
    at: nat,
    decision: PolicyDecision,
    after: PolicyModel<A>,
)
    requires
        Policy::<A>::steps(before, at, decision, after),
    ensures
        Policy::<A>::state_cleared(after) == Policy::<A>::state_cleared(before),
        Policy::<A>::state_cleared(Policy::<A>::state_cleared(before))
            == Policy::<A>::state_cleared(before),
        Policy::<A>::allow_ends_episode_in(after) == Policy::<A>::allow_ends_episode_in(before),
{
}

/// An event has one outcome: decision and state follow from the state before and the
/// time. Of a token bucket this holds where arithmetic on tokens gives the same results
/// every time.
pub proof fn lemma_steps_are_determined<A: TokenAmount>(
    before: PolicyModel<A>,
    at: nat,
    d1: PolicyDecision,
    after1: PolicyModel<A>,
    d2: PolicyDecision,
    after2: PolicyModel<A>,
)
    requires
        before is Bucket ==> token_bucket::token_arithmetic_is_determined::<A>(),
        Policy::<A>::steps(before, at, d1, after1),
        Policy::<A>::steps(before, at, d2, after2),
    ensures
        d1 == d2,
        after1 == after2,
{
    match (before, after1, after2) {
        (PolicyModel::Bucket(b), PolicyModel::Bucket(x), PolicyModel::Bucket(y)) => {
            token_bucket::lemma_bucket_steps_are_determined(b, at, d1, x, d2, y);
        },
        _ => {},
    }
}

/// A policy that is cleared keeps its limits and forgets the rest: a count starts at
/// zero, a window remembers nothing, backoff waits for the first event, and a bucket is
/// full.
pub proof fn lemma_cleared_policy_starts_over<A: TokenAmount>(m: PolicyModel<A>)
    ensures
        match (m, Policy::<A>::state_cleared(m)) {
            (PolicyModel::Count(m), PolicyModel::Count(c)) => c.max_count == m.max_count
                && c.current_count == 0,
            (PolicyModel::Window(m), PolicyModel::Window(c)) => c.max_events == m.max_events
                && c.window == m.window && c.stamps.len() == 0,
            (PolicyModel::Backoff(m), PolicyModel::Backoff(c)) => c.event_count == 0
                && c.next_allowed == 1,
            (PolicyModel::Bucket(m), PolicyModel::Bucket(c)) => c.capacity == m.capacity
                && c.refill_rate == m.refill_rate && c.tokens == m.capacity
                && c.last_refill is None,
            _ => false,
        },
{
}

/// An event that passes ends a run of suppressions where these come in episodes: under a
/// time window and under backoff, but not under a count or a token bucket.
pub proof fn lemma_episodes_end_under_windows_and_backoff<A: TokenAmount>(m: PolicyModel<A>)
    ensures
        Policy::<A>::allow_ends_episode_in(m) <==> m is Window || m is Backoff,
{
}

/// The kind of a policy never changes, and its events are those of that kind.
pub proof fn lemma_policy_steps_as_its_kind<A: TokenAmount>(
    before: PolicyModel<A>,
    at: nat,
    decision: PolicyDecision,
    after: PolicyModel<A>,
)
    ensures
        Policy::<A>::steps(before, at, decision, after) <==> match (before, after) {
            (PolicyModel::Count(b), PolicyModel::Count(a)) => CountBasedPolicy::steps(
                b,
                at,
                decision,
                a,
            ),
            (PolicyModel::Window(b), PolicyModel::Window(a)) => TimeWindowPolicy::steps(
                b,
                at,
                decision,
                a,
            ),
            (PolicyModel::Backoff(b), PolicyModel::Backoff(a)) => ExponentialBackoffPolicy::steps(
                b,
                at,
                decision,
                a,
            ),
            (PolicyModel::Bucket(b), PolicyModel::Bucket(a)) => TokenBucketPolicy::<A>::steps(
                b,
                at,
                decision,
                a,
            ),
            _ => false,
        },
{
}

} // verus!
