//! Stops rate limiting for a while when it keeps failing.

use vstd::prelude::*;

use crate::application::ports::SharedClock;
use crate::domain::time;
use crate::domain::time::{Duration, Instant};

verus! {

/// State of a [`CircuitBreaker`].
#[derive(Debug, Clone, Copy, PartialEq, Eq, Structural)]
pub enum CircuitState {
    /// Operations are attempted.
    Closed,
    /// Operations have kept failing and are not attempted.
    Open,
    /// Operations are attempted again to see whether they succeed.
    HalfOpen,
}

/// When a circuit breaker opens and when it tries again.
#[derive(Debug, Clone, Copy)]
pub struct CircuitBreakerConfig {
    /// Number of failures in a row after which operations stop.
    pub failure_threshold: u32,
    /// Time after the last failure until operations are tried again.
    pub recovery_timeout: Duration,
}

impl Default for CircuitBreakerConfig {
    /// Five failures, thirty seconds.
    fn default() -> (r: CircuitBreakerConfig)
        ensures
            r.failure_threshold == 5,
            r.recovery_timeout@ == 30 * time::NANOS_PER_SEC,
    {
        CircuitBreakerConfig { failure_threshold: 5, recovery_timeout: Duration::from_secs(30) }
    }
}

/// What a [`CircuitBreaker`] remembers.
pub struct BreakerModel {
    /// Number of failures in a row after which operations stop.
    pub threshold: nat,
    /// Time after the last failure until operations are tried again.
    pub timeout: nat,
    /// Whether operations are attempted.
    pub state: CircuitState,
    /// Number of failures in a row.
    pub failures: nat,
    /// When the last failure happened.
    pub last_failure: nat,
}

/// A breaker that has seen no operation.
pub open spec fn breaker_from(threshold: nat, timeout: nat) -> BreakerModel {
    BreakerModel {
        threshold,
        timeout,
        state: CircuitState::Closed,
        failures: 0,
        last_failure: 0,
    }
}

/// Whether an operation is attempted.
pub open spec fn breaker_admits(b: BreakerModel, now: nat) -> bool {
    b.state is Open ==> time::elapsed(now, b.last_failure) >= b.timeout
}

/// A breaker once it was asked about an operation.
pub open spec fn breaker_after_request(b: BreakerModel, now: nat) -> BreakerModel {
    if b.state is Open && breaker_admits(b, now) {
        BreakerModel { state: CircuitState::HalfOpen, ..b }
    } else {
        b
    }
}

/// A breaker after a success.
pub open spec fn breaker_after_success(b: BreakerModel) -> BreakerModel {
    BreakerModel {
        failures: 0,
        state: if b.state is HalfOpen {
            CircuitState::Closed
        } else {
            b.state
        },
        ..b
    }
}

/// A breaker after a failure.
pub open spec fn breaker_after_failure(b: BreakerModel, now: nat) -> BreakerModel {
    let failures = if b.failures < u32::MAX {
        b.failures + 1
    } else {
        b.failures
    };
    BreakerModel {
        failures,
        last_failure: now,
        state: if b.state is HalfOpen || failures >= b.threshold {
            CircuitState::Open
        } else {
            b.state
        },
        ..b
    }
}

/// Stops operations after a number of failures in a row, and tries them again
/// after a while.
///
/// It goes by a clock of its own, which need not show the times at which the events
/// happen that are decided about.
pub struct CircuitBreaker {
    config: CircuitBreakerConfig,
    clock: SharedClock,
    state: CircuitState,
    consecutive_failures: u32,
    last_failure: Instant,
}

impl CircuitBreaker {
    /// What the breaker remembers.
    pub closed spec fn view(&self) -> BreakerModel {
        BreakerModel {
            threshold: self.config.failure_threshold as nat,
            timeout: self.config.recovery_timeout@,
            state: self.state,
            failures: self.consecutive_failures as nat,
            last_failure: self.last_failure@,
        }
    }

    /// The clock that the breaker goes by.
    pub closed spec fn clock(&self) -> SharedClock {
        self.clock
    }

    /// A breaker that opens after five failures and tries again after thirty
    /// seconds.
    pub fn new(clock: SharedClock) -> (r: CircuitBreaker)
        ensures
            r@ == breaker_from(5, (30 * time::NANOS_PER_SEC) as nat),
            r.clock() == clock,
    {
        CircuitBreaker::with_config(CircuitBreakerConfig::default(), clock)
    }

    /// A breaker that opens and tries again as configured.
    pub fn with_config(config: CircuitBreakerConfig, clock: SharedClock) -> (r: CircuitBreaker)
        ensures
            r@ == breaker_from(config.failure_threshold as nat, config.recovery_timeout@),
            r.clock() == clock,
    {
        CircuitBreaker {
            config,
            clock,
            state: CircuitState::Closed,
            consecutive_failures: 0,
            last_failure: Instant::origin(),
        }
    }

    /// The current time, as the clock of the breaker shows it.
    pub fn now(&self) -> (r: Instant)
        ensures
            self.clock().shows(r),
    {
        self.clock.now()
    }

    /// Whether an operation may be attempted now.
    pub fn allow_request(&mut self) -> (r: bool)
        ensures
            final(self).clock() == old(self).clock(),
            exists|now: Instant|
                {
                    &&& #[trigger] old(self).clock().shows(now)
                    &&& r == breaker_admits(old(self)@, now@)
                    &&& final(self)@ == breaker_after_request(old(self)@, now@)
                },
    {
        let now = self.now();
        self.allow_request_at(now)
    }

    /// Whether an operation may be attempted at a given time.
    pub fn allow_request_at(&mut self, now: Instant) -> (r: bool)
        ensures
            r == breaker_admits(old(self)@, now@),
            final(self)@ == breaker_after_request(old(self)@, now@),
            final(self).clock() == old(self).clock(),
    {
        match self.state {
            CircuitState::Closed | CircuitState::HalfOpen => true,
            CircuitState::Open => {
                let waited = now.saturating_duration_since(self.last_failure);
                if self.config.recovery_timeout.exceeds(waited) {
                    false
                } else {
                    self.state = CircuitState::HalfOpen;
                    true
                }
            },
        }
    }

    /// Notes that an operation succeeded.
    pub fn record_success(&mut self)
        ensures
            final(self)@ == breaker_after_success(old(self)@),
            final(self).clock() == old(self).clock(),
    {
        self.consecutive_failures = 0;
        if matches!(self.state, CircuitState::HalfOpen) {
            self.state = CircuitState::Closed;
        }
    }

    /// Notes that an operation has failed now.
    pub fn record_failure(&mut self)
        ensures
            final(self).clock() == old(self).clock(),
            exists|now: Instant|
                {
                    &&& #[trigger] old(self).clock().shows(now)
                    &&& final(self)@ == breaker_after_failure(old(self)@, now@)
                },
    {
        let now = self.now();
        self.record_failure_at(now);
    }

    /// Notes that an operation failed at a given time.
    pub fn record_failure_at(&mut self, now: Instant)
        ensures
            final(self)@ == breaker_after_failure(old(self)@, now@),
            final(self).clock() == old(self).clock(),
    {
        self.consecutive_failures = self.consecutive_failures.saturating_add(1);
        self.last_failure = now;
        if matches!(self.state, CircuitState::HalfOpen) || self.consecutive_failures
            >= self.config.failure_threshold {
            self.state = CircuitState::Open;
        }
    }

    /// Whether operations are attempted.
    pub fn state(&self) -> (r: CircuitState)
        ensures
            r == self@.state,
    {
        self.state
    }

    /// Number of failures in a row.
    pub fn consecutive_failures(&self) -> (r: u32)
        ensures
            r == self@.failures,
    {
        self.consecutive_failures
    }
}

/// A breaker after a number of failures in a row, at the given points in time.
pub open spec fn breaker_after_failures(b: BreakerModel, times: Seq<nat>) -> BreakerModel
    decreases times.len(),
{
    if times.len() == 0 {
        b
    } else {
        breaker_after_failure(breaker_after_failures(b, times.drop_last()), times.last())
    }
}

/// As many failures in a row as the threshold open a breaker. It then turns
/// operations away until the timeout has passed since the last failure, tries
/// one, and is closed with no failures if that one succeeds.
pub proof fn lemma_breaker_opens_and_recovers(
    threshold: nat,
    timeout: nat,
    times: Seq<nat>,
    now: nat,
)
    requires
        0 < threshold <= times.len() <= u32::MAX,
    ensures
        ({
            let open = breaker_after_failures(breaker_from(threshold, timeout), times);
            &&& open.state is Open
            &&& breaker_admits(open, now) <==> time::elapsed(now, times.last()) >= timeout
            &&& breaker_admits(open, now) ==> breaker_after_success(
                breaker_after_request(open, now),
            ).state is Closed
            &&& breaker_after_success(breaker_after_request(open, now)).failures == 0
        }),
{
    lemma_failures_are_counted(threshold, timeout, times);
}

/// Failures in a row are counted, and the threshold decides.
proof fn lemma_failures_are_counted(threshold: nat, timeout: nat, times: Seq<nat>)
    requires
        times.len() <= u32::MAX,
        0 < threshold,
    ensures
        ({
            let b = breaker_after_failures(breaker_from(threshold, timeout), times);
            &&& b.failures == times.len()
            &&& b.threshold == threshold
            &&& b.timeout == timeout
            &&& b.state is Open <==> times.len() >= threshold
            &&& !(b.state is HalfOpen)
            &&& times.len() > 0 ==> b.last_failure == times.last()
        }),
    decreases times.len(),
{
    if times.len() > 0 {
        lemma_failures_are_counted(threshold, timeout, times.drop_last());
    }
}

/// A breaker turns operations away only while it is open and the timeout has not passed
/// since the last failure. Asked after that, it is open only for a trial.
pub proof fn lemma_breaker_turns_away_until_timeout(b: BreakerModel, now: nat)
    ensures
        breaker_admits(b, now) <==> !(b.state is Open) || (b.last_failure <= now && now
            - b.last_failure >= b.timeout) || b.timeout == 0,
        breaker_after_request(b, now).threshold == b.threshold,
        breaker_after_request(b, now).timeout == b.timeout,
        breaker_after_request(b, now).failures == b.failures,
        breaker_after_request(b, now).last_failure == b.last_failure,
        breaker_after_request(b, now).state == if b.state is Open && breaker_admits(b, now) {
            CircuitState::HalfOpen
        } else {
            b.state
        },
{
}

/// A failure is counted, its time is kept, and it opens a breaker if it is as many in a
/// row as the threshold, or if it fails a trial. A success leaves no failures, and closes
/// a breaker that is open for a trial.
pub proof fn lemma_breaker_reacts_to_outcomes(b: BreakerModel, now: nat)
    requires
        b.failures < u32::MAX,
    ensures
        ({
            let f = breaker_after_failure(b, now);
            &&& f.failures == b.failures + 1
            &&& f.last_failure == now
            &&& f.threshold == b.threshold
            &&& f.timeout == b.timeout
            &&& b.state is HalfOpen || b.failures + 1 >= b.threshold ==> f.state is Open
            &&& b.state is Closed && b.failures + 1 < b.threshold ==> f.state is Closed
            &&& b.state is Open ==> f.state is Open
        }),
        ({
            let s = breaker_after_success(b);
            &&& s.failures == 0
            &&& s.last_failure == b.last_failure
            &&& s.threshold == b.threshold
            &&& s.timeout == b.timeout
            &&& b.state is HalfOpen ==> s.state is Closed
            &&& !(b.state is HalfOpen) ==> s.state == b.state
        }),
{
}

/// A new breaker is closed, has seen no failure, and keeps its threshold and timeout.
pub proof fn lemma_new_breaker_is_closed(threshold: nat, timeout: nat)
    ensures
        breaker_from(threshold, timeout).state is Closed,
        breaker_from(threshold, timeout).failures == 0,
        breaker_from(threshold, timeout).threshold == threshold,
        breaker_from(threshold, timeout).timeout == timeout,
{
}

/// A count of failures that cannot grow stays, and the failure still counts as the last.
pub proof fn lemma_full_failure_count_stays(b: BreakerModel, now: nat)
    requires
        b.failures == u32::MAX,
        b.threshold <= u32::MAX,
    ensures
        breaker_after_failure(b, now).failures == u32::MAX,
        breaker_after_failure(b, now).last_failure == now,
        breaker_after_failure(b, now).state is Open,
{
}

} // verus!
