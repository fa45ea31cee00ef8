//! Tests of registry, limiter and emitter.

use std::sync::{Arc, Mutex};

use tracing_throttle::application::circuit_breaker::{
    CircuitBreaker, CircuitBreakerConfig, CircuitState,
};
use tracing_throttle::application::emitter::{
    react, shutdown_result, EmitterConfig, EmitterConfigError, EmitterEvent, ShutdownError,
    SummaryEmitter, TaskEnd,
};
use tracing_throttle::application::limiter::{decide, CheckTimes, LimitDecision, RateLimiter};
use tracing_throttle::application::metrics::Metrics;
use tracing_throttle::application::ports::{Clock, SharedClock, Storage};
use tracing_throttle::application::registry::{EventState, SuppressionRegistry};
use tracing_throttle::domain::fields::FieldMap;
use tracing_throttle::domain::metadata::EventMetadata;
use tracing_throttle::domain::policy::{
    CountBasedPolicy, ExponentialBackoffPolicy, RateLimitPolicy, TokenAmount,
};
use tracing_throttle::domain::signature::EventSignature;
use tracing_throttle::domain::time::{Duration, Instant};
use tracing_throttle::infrastructure::eviction::{EvictionStrategy, PriorityFn};
use tracing_throttle::infrastructure::storage::ShardedStorage;

/// Tokens counted in floating point.
#[derive(Debug, Clone, Copy, PartialEq)]
struct Tokens(f64);

impl TokenAmount for Tokens {
    fn is_unusable(self) -> bool {
        !(self.0 > 0.0)
    }

    fn credited(self, elapsed: Duration, refill_rate: Tokens, capacity: Tokens) -> Tokens {
        let seconds =
            std::time::Duration::new(elapsed.as_secs(), elapsed.subsec_nanos()).as_secs_f64();
        Tokens((self.0 + seconds * refill_rate.0).min(capacity.0))
    }

    fn spent(self) -> Option<Tokens> {
        if self.0 >= 1.0 {
            Some(Tokens(self.0 - 1.0))
        } else {
            None
        }
    }
}

/// A clock that is set by hand.
struct MockClock {
    now: Mutex<Instant>,
}

impl MockClock {
    fn new(now: Instant) -> MockClock {
        MockClock { now: Mutex::new(now) }
    }

    fn advance(&self, by: Duration) {
        let mut now = self.now.lock().unwrap();
        *now = *now + by;
    }
}

impl Clock for MockClock {
    fn now(&self) -> Instant {
        *self.now.lock().unwrap()
    }
}

type Policy = tracing_throttle::domain::policy::Policy<Tokens>;
type State = EventState<Tokens>;

/// Priorities by the level of an event.
struct LevelPriority;

impl PriorityFn<State> for LevelPriority {
    fn priority(&self, _signature: &EventSignature, state: &State) -> u32 {
        match state.metadata.as_ref().map(|m| m.level.as_str()) {
            Some("ERROR") => 100,
            Some("WARN") => 50,
            Some("INFO") => 10,
            _ => 5,
        }
    }
}

type MemoryStorage = ShardedStorage<State, LevelPriority>;

fn start_time() -> Instant {
    Instant::origin() + Duration::from_secs(1_000)
}

fn fixed_clock() -> SharedClock {
    SharedClock { inner: Arc::new(MockClock::new(start_time())) }
}

fn registry_with(policy: Policy) -> SuppressionRegistry<Tokens, MemoryStorage> {
    SuppressionRegistry::new(ShardedStorage::new(), fixed_clock(), policy)
}

fn limiter_with(policy: Policy) -> RateLimiter<Tokens, MemoryStorage> {
    RateLimiter::new(registry_with(policy), Metrics::new(), CircuitBreaker::new(fixed_clock()))
}

fn details(level: &str) -> EventMetadata {
    EventMetadata::new(
        level.to_string(),
        "message".to_string(),
        "app".to_string(),
        FieldMap::new(),
    )
}

#[test]
fn test_registry_creation() {
    let policy = Policy::count_based(100).unwrap();
    let registry = registry_with(policy);

    assert_eq!(registry.len(), 0);
    assert!(registry.is_empty());
}

#[test]
fn test_with_event_state() {
    let policy = Policy::count_based(100).unwrap();
    let mut registry = registry_with(policy);
    let sig = EventSignature::simple("INFO", "Test message");

    // First access creates state
    registry.with_event_state(sig, |state, _now| {
        assert_eq!(state.counter.count(), 0);
    });

    assert_eq!(registry.len(), 1);
    assert!(!registry.is_empty());

    // Second access retrieves existing state
    registry.with_event_state(sig, |state, now| {
        state.counter.record_suppression(now);
    });

    assert_eq!(registry.len(), 1);
}

#[test]
fn test_clear() {
    let policy = Policy::count_based(100).unwrap();
    let mut registry = registry_with(policy);

    for i in 0..10 {
        let sig = EventSignature::simple("INFO", &format!("Message {}", i));
        registry.with_event_state(sig, |_state, _now| {
            // State is created
        });
    }

    assert_eq!(registry.len(), 10);

    registry.clear();
    assert_eq!(registry.len(), 0);
    assert!(registry.is_empty());
}

#[test]
fn test_rate_limiter_basic() {
    let policy = Policy::count_based(2).unwrap();
    let mut limiter = limiter_with(policy);

    let sig = EventSignature::simple("INFO", "Test message");

    // First two events allowed
    assert_eq!(limiter.check_event(sig), LimitDecision::Allow);
    assert_eq!(limiter.check_event(sig), LimitDecision::Allow);

    // Third and beyond suppressed
    assert_eq!(limiter.check_event(sig), LimitDecision::Suppress);
    assert_eq!(limiter.check_event(sig), LimitDecision::Suppress);
}

#[test]
fn test_rate_limiter_with_mock_clock() {
    let mock_clock = Arc::new(MockClock::new(start_time()));
    let policy = Policy::time_window(2, Duration::from_secs(60)).unwrap();
    let clock = SharedClock { inner: mock_clock.clone() };
    let storage: MemoryStorage = ShardedStorage::new();
    let registry = SuppressionRegistry::new(storage, clock, policy);
    let mut limiter = RateLimiter::new(registry, Metrics::new(), CircuitBreaker::new(fixed_clock()));

    let sig = EventSignature::simple("INFO", "Test");

    // First 2 allowed
    assert_eq!(limiter.check_event(sig), LimitDecision::Allow);
    assert_eq!(limiter.check_event(sig), LimitDecision::Allow);

    // 3rd suppressed
    assert_eq!(limiter.check_event(sig), LimitDecision::Suppress);

    // Advance time by 61 seconds
    mock_clock.advance(Duration::from_secs(61));

    // Should allow again
    assert_eq!(limiter.check_event(sig), LimitDecision::Allow);
}

#[test]
fn test_rate_limiter_different_signatures() {
    let policy = Policy::count_based(1).unwrap();
    let mut limiter = limiter_with(policy);

    let sig1 = EventSignature::simple("INFO", "Message 1");
    let sig2 = EventSignature::simple("INFO", "Message 2");

    // Each signature has independent limits
    assert_eq!(limiter.check_event(sig1), LimitDecision::Allow);
    assert_eq!(limiter.check_event(sig2), LimitDecision::Allow);

    assert_eq!(limiter.check_event(sig1), LimitDecision::Suppress);
    assert_eq!(limiter.check_event(sig2), LimitDecision::Suppress);
}

#[test]
fn test_rate_limiter_suppression_counting() {
    let policy = Policy::count_based(1).unwrap();
    let mut limiter = limiter_with(policy);

    let sig = EventSignature::simple("INFO", "Test");

    // Allow first
    assert_eq!(limiter.check_event(sig), LimitDecision::Allow);

    // Suppress next 3
    assert_eq!(limiter.check_event(sig), LimitDecision::Suppress);
    assert_eq!(limiter.check_event(sig), LimitDecision::Suppress);
    assert_eq!(limiter.check_event(sig), LimitDecision::Suppress);

    // Check counter - 3 suppressions recorded
    limiter.registry_mut().with_event_state(sig, |state, _now| {
        assert_eq!(state.counter.count(), 3);
    });
}

fn open_breaker(limiter: &mut RateLimiter<Tokens, MemoryStorage>) {
    for _ in 0..10 {
        limiter.circuit_breaker_mut().record_failure();
    }
}

#[test]
fn test_fail_open_when_circuit_breaker_open() {
    let policy = Policy::count_based(1).unwrap(); // Very restrictive
    let mut limiter = limiter_with(policy);

    let sig = EventSignature::simple("ERROR", "Critical failure");

    // First event allowed
    assert_eq!(limiter.check_event(sig), LimitDecision::Allow);

    // Open circuit breaker by recording many failures
    for _ in 0..10 {
        limiter.circuit_breaker_mut().record_failure();
    }
    assert!(
        !limiter.circuit_breaker_mut().allow_request(),
        "Circuit breaker should be open"
    );

    // Even though policy would suppress (count exceeded),
    // circuit breaker being open causes fail-open behavior
    let decision = limiter.check_event(sig);
    assert_eq!(
        decision,
        LimitDecision::Allow,
        "Should fail open when circuit breaker is open"
    );

    // Verify metrics recorded as allowed
    assert_eq!(limiter.metrics().events_allowed(), 2);
}

#[test]
fn test_fail_open_updates_metrics() {
    let policy = Policy::count_based(1).unwrap();
    let mut limiter = limiter_with(policy);

    let sig = EventSignature::simple("ERROR", "Test");

    // Open the circuit breaker
    for _ in 0..10 {
        limiter.circuit_breaker_mut().record_failure();
    }

    // Process multiple events while circuit is open
    for _ in 0..5 {
        limiter.check_event(sig);
    }

    // All should be recorded as allowed (fail-open)
    assert_eq!(limiter.metrics().events_allowed(), 5);
    assert_eq!(limiter.metrics().events_suppressed(), 0);
}

#[test]
fn test_circuit_breaker_half_open_allows_some_requests() {
    let mock_clock = Arc::new(MockClock::new(start_time()));
    let policy = Policy::count_based(1).unwrap();
    let registry = registry_with(policy);
    let cb = CircuitBreaker::with_config(
        CircuitBreakerConfig {
            failure_threshold: 5,
            recovery_timeout: Duration::from_millis(10),
        },
        SharedClock { inner: mock_clock.clone() },
    );
    let mut limiter = RateLimiter::new(registry, Metrics::new(), cb);

    let sig = EventSignature::simple("ERROR", "Test");

    // Open circuit breaker
    for _ in 0..10 {
        limiter.circuit_breaker_mut().record_failure();
    }

    // Wait for recovery timeout
    mock_clock.advance(Duration::from_millis(20));

    // Circuit should now be half-open
    // First request should be allowed through for testing
    let decision = limiter.check_event(sig);
    assert_eq!(decision, LimitDecision::Allow);

    // Since the operation succeeded, circuit breaker records success
    assert_eq!(limiter.circuit_breaker().consecutive_failures(), 0);
}

#[test]
fn test_normal_operation_after_circuit_breaker_closes() {
    let mock_clock = Arc::new(MockClock::new(start_time()));
    let policy = Policy::count_based(2).unwrap();
    let registry = registry_with(policy);
    let cb = CircuitBreaker::with_config(
        CircuitBreakerConfig {
            failure_threshold: 5,
            recovery_timeout: Duration::from_millis(10),
        },
        SharedClock { inner: mock_clock.clone() },
    );
    let mut limiter = RateLimiter::new(registry, Metrics::new(), cb);

    let sig = EventSignature::simple("INFO", "Test");

    // Open circuit breaker
    for _ in 0..10 {
        limiter.circuit_breaker_mut().record_failure();
    }

    // Wait for recovery
    mock_clock.advance(Duration::from_millis(20));

    // Process events - should allow and record success
    assert_eq!(limiter.check_event(sig), LimitDecision::Allow);

    // Circuit breaker should be closed now
    assert_eq!(limiter.circuit_breaker().consecutive_failures(), 0);

    // Normal rate limiting should work again
    assert_eq!(limiter.check_event(sig), LimitDecision::Allow);
    assert_eq!(limiter.check_event(sig), LimitDecision::Suppress);
}

#[test]
fn test_successful_operations_record_success_to_circuit_breaker() {
    let policy = Policy::count_based(10).unwrap();
    let mut limiter = limiter_with(policy);

    let sig = EventSignature::simple("INFO", "Test");

    // Process events successfully
    for _ in 0..5 {
        limiter.check_event(sig);
    }

    // Circuit breaker should have no failures recorded
    assert_eq!(limiter.circuit_breaker().consecutive_failures(), 0);
}

#[test]
fn test_metrics_consistency_during_fail_open() {
    let policy = Policy::count_based(2).unwrap();
    let mut limiter = limiter_with(policy);

    let sig = EventSignature::simple("INFO", "Test");

    // Normal operation
    assert_eq!(limiter.check_event(sig), LimitDecision::Allow); // 1 allowed
    assert_eq!(limiter.check_event(sig), LimitDecision::Allow); // 2 allowed
    assert_eq!(limiter.check_event(sig), LimitDecision::Suppress); // 1 suppressed

    // Open circuit breaker
    for _ in 0..10 {
        limiter.circuit_breaker_mut().record_failure();
    }

    // Fail-open events
    assert_eq!(limiter.check_event(sig), LimitDecision::Allow); // 3 allowed

    // Verify metrics are consistent
    let snapshot = limiter.metrics().snapshot();
    assert_eq!(snapshot.events_allowed, 3);
    assert_eq!(snapshot.events_suppressed, 1);
    assert_eq!(snapshot.total_events(), 4);
}

#[test]
fn test_registry_state_unaffected_by_circuit_breaker() {
    let policy = Policy::count_based(1).unwrap();
    let mut limiter = limiter_with(policy);

    let sig = EventSignature::simple("INFO", "Test");

    // Allow first event, establish state
    assert_eq!(limiter.check_event(sig), LimitDecision::Allow);

    // Verify state exists
    let initial_count =
        limiter.registry_mut().with_event_state(sig, |state, _| state.counter.count());
    assert_eq!(initial_count, 0);

    // Open circuit breaker
    for _ in 0..10 {
        limiter.circuit_breaker_mut().record_failure();
    }

    // Process events while circuit is open (fail-open)
    for _ in 0..5 {
        limiter.check_event(sig);
    }

    // Registry state should NOT be modified during fail-open
    // (circuit breaker short-circuits before registry access)
    let final_count =
        limiter.registry_mut().with_event_state(sig, |state, _| state.counter.count());
    assert_eq!(
        final_count, initial_count,
        "Registry state should not change during fail-open"
    );
}

#[test]
fn test_collect_summaries_empty() {
    let policy = Policy::count_based(100).unwrap();
    let registry = registry_with(policy);
    let config = EmitterConfig::default();
    let emitter = SummaryEmitter::new(registry, config);

    let summaries = emitter.collect_summaries();
    assert!(summaries.is_empty());
}

#[test]
fn test_collect_summaries_with_suppressions() {
    let policy = Policy::count_based(100).unwrap();
    let mut registry = registry_with(policy);
    let config = EmitterConfig::default();

    // Add some suppressed events
    for i in 0..3 {
        let sig = EventSignature::simple("INFO", &format!("Message {}", i));
        registry.with_event_state(sig, |state, now| {
            // Simulate some suppressions
            for _ in 0..(i + 1) * 5 {
                state.counter.record_suppression(now);
            }
        });
    }

    let emitter = SummaryEmitter::new(registry, config);
    let summaries = emitter.collect_summaries();

    assert_eq!(summaries.len(), 3);

    // Verify counts
    let counts: Vec<usize> = summaries.iter().map(|s| s.count).collect();
    assert!(counts.contains(&5));
    assert!(counts.contains(&10));
    assert!(counts.contains(&15));
}

#[test]
fn test_min_count_filtering() {
    let policy = Policy::count_based(100).unwrap();
    let mut registry = registry_with(policy);
    let config = EmitterConfig::default().with_min_count(10);

    // Add event with low count (below threshold)
    let sig1 = EventSignature::simple("INFO", "Low count");
    registry.with_event_state(sig1, |state, now| {
        for _ in 0..4 {
            state.counter.record_suppression(now);
        }
    });

    // Add event with high count (above threshold)
    let sig2 = EventSignature::simple("INFO", "High count");
    registry.with_event_state(sig2, |state, now| {
        for _ in 0..14 {
            state.counter.record_suppression(now);
        }
    });

    let emitter = SummaryEmitter::new(registry, config);
    let summaries = emitter.collect_summaries();

    // Only the high-count event should be included
    assert_eq!(summaries.len(), 1);
    assert_eq!(summaries[0].count, 14);
}

#[test]
fn test_emitter_config_zero_interval() {
    let result = EmitterConfig::new(Duration::from_secs(0));
    assert!(matches!(
        result,
        Err(EmitterConfigError::ZeroSummaryInterval)
    ));
}

#[test]
fn test_emitter_config_valid_interval() {
    let config = EmitterConfig::new(Duration::from_secs(30)).unwrap();
    assert_eq!(config.interval, Duration::from_secs(30));
    assert_eq!(config.min_count, 1);
}

#[test]
fn first_details_stay_with_an_event() {
    let mut limiter = limiter_with(Policy::count_based(5).unwrap());
    let sig = EventSignature::simple("INFO", "Test");
    limiter.check_event_with_metadata(sig, details("INFO"));
    limiter.check_event_with_metadata(sig, details("ERROR"));
    let level = limiter.registry_mut().with_event_state(sig, |state, _| {
        state.metadata.as_ref().map(|m| m.level.clone())
    });
    assert_eq!(level, Some("INFO".to_string()));
}

#[test]
fn summary_comes_with_the_event_that_ends_an_episode() {
    let mut limiter = limiter_with(Policy::exponential_backoff());
    let sig = EventSignature::simple("INFO", "Test");
    for expected in [None, None, None, Some(1), None, None, None, Some(3)] {
        let (_, episode) =
            limiter.check_event_with_metadata_and_summary(sig, details("WARN"));
        assert_eq!(episode.as_ref().map(|s| s.count), expected);
        if let Some(summary) = episode {
            assert_eq!(summary.signature, sig);
            assert_eq!(summary.metadata.as_ref().map(|m| m.level.as_str()), Some("WARN"));
        }
    }
    // Without asking for summaries nothing is claimed.
    let mut plain = limiter_with(Policy::exponential_backoff());
    for _ in 0..4 {
        plain.check_event(sig);
    }
    let reported = plain.registry_mut().with_event_state(sig, |state, _| state.counter.reported());
    assert_eq!(reported, 0);
}

#[test]
fn signatures_that_take_turns_are_throttled_as_if_alone() {
    let one = EventSignature::simple("INFO", "one");
    let two = EventSignature::simple("INFO", "two");

    let mut counted = limiter_with(Policy::count_based(2).unwrap());
    let mut backoff = limiter_with(Policy::exponential_backoff());
    for i in 1..=16u32 {
        for sig in [one, two] {
            assert_eq!(counted.check_event(sig) == LimitDecision::Allow, i <= 2);
            assert_eq!(
                backoff.check_event(sig) == LimitDecision::Allow,
                i.is_power_of_two()
            );
        }
        // More events of one signature make no difference to the other.
        counted.check_event(EventSignature::simple("INFO", "three"));
    }

    let mut window = limiter_with(Policy::time_window(1, Duration::from_secs(10)).unwrap());
    for (seconds, allowed) in [(0, true), (5, false), (10, false), (11, true), (21, false)] {
        for sig in [one, two] {
            let times = CheckTimes {
                asked: start_time(),
                event: start_time() + Duration::from_secs(seconds),
                concluded: start_time(),
            };
            let (decision, _) = window.check_event_at(sig, None, false, times);
            assert_eq!(decision == LimitDecision::Allow, allowed);
        }
    }
}

#[test]
fn suppressions_and_summaries_add_up() {
    let mut limiter = limiter_with(Policy::exponential_backoff());
    let sig = EventSignature::simple("INFO", "Test");
    let mut suppressed = 0;
    let mut told = 0;
    for _ in 0..100 {
        let (decision, episode) = limiter.check_event_with_summary(sig);
        if decision == LimitDecision::Suppress {
            suppressed += 1;
        }
        told += episode.map_or(0, |s| s.count);
    }
    let (count, reported) = limiter
        .registry_mut()
        .with_event_state(sig, |state, _| (state.counter.count(), state.counter.reported()));
    assert_eq!(count, suppressed);
    assert_eq!(reported, told);
    assert_eq!(suppressed, 93);
    assert_eq!(told, 57);
}

#[test]
fn failed_attempts_let_events_pass_and_open_the_breaker() {
    let mut limiter = limiter_with(Policy::ExponentialBackoff(
        ExponentialBackoffPolicy::resumed(u64::MAX, u64::MAX),
    ));
    let sig = EventSignature::simple("INFO", "Test");
    for failures in 1..=5 {
        assert_eq!(limiter.check_event(sig), LimitDecision::Allow);
        assert_eq!(limiter.circuit_breaker().consecutive_failures(), failures);
    }
    assert_eq!(limiter.circuit_breaker().state(), CircuitState::Open);
    assert_eq!(limiter.check_event(sig), LimitDecision::Allow);
    assert_eq!(limiter.metrics().events_allowed(), 6);
}

#[test]
fn a_full_count_suppresses() {
    let mut limiter = limiter_with(Policy::CountBased(CountBasedPolicy::resumed(1, usize::MAX)));
    let sig = EventSignature::simple("INFO", "Test");
    for suppressed in 1..=3 {
        assert_eq!(limiter.check_event(sig), LimitDecision::Suppress);
        assert_eq!(limiter.metrics().events_suppressed(), suppressed);
    }
    assert_eq!(limiter.circuit_breaker().consecutive_failures(), 0);
    assert_eq!(limiter.metrics().events_allowed(), 0);
}

#[test]
fn breaker_goes_by_its_own_clock() {
    let events = Arc::new(MockClock::new(start_time()));
    let system = Arc::new(MockClock::new(start_time()));
    let storage: MemoryStorage = ShardedStorage::new();
    let registry = SuppressionRegistry::new(
        storage,
        SharedClock { inner: events.clone() },
        Policy::count_based(1).unwrap(),
    );
    let breaker = CircuitBreaker::new(SharedClock { inner: system.clone() });
    let mut limiter = RateLimiter::new(registry, Metrics::new(), breaker);
    let sig = EventSignature::simple("INFO", "Test");
    assert_eq!(limiter.check_event(sig), LimitDecision::Allow);
    open_breaker(&mut limiter);

    // The clock of the events does not bring the recovery nearer.
    events.advance(Duration::from_secs(3_600));
    assert_eq!(limiter.check_event(sig), LimitDecision::Allow);
    assert_eq!(limiter.circuit_breaker().state(), CircuitState::Open);

    // That of the breaker does.
    system.advance(Duration::from_secs(30));
    assert_eq!(limiter.check_event(sig), LimitDecision::Suppress);
    assert_eq!(limiter.circuit_breaker().state(), CircuitState::Closed);
    assert_eq!(limiter.circuit_breaker().now(), start_time() + Duration::from_secs(30));
}

#[test]
fn details_change_nothing_about_decisions() {
    let policies = || {
        vec![
            Policy::count_based(2).unwrap(),
            Policy::exponential_backoff(),
            Policy::token_bucket(Tokens(2.0), Tokens(1.0)).unwrap(),
        ]
    };
    let sig = EventSignature::simple("INFO", "Test");
    for (one, two) in policies().into_iter().zip(policies()) {
        let mut plain = limiter_with(one);
        let mut detailed = limiter_with(two);
        for i in 0..6 {
            let level = if i == 0 { "INFO" } else { "WARN" };
            assert_eq!(
                plain.check_event(sig),
                detailed.check_event_with_metadata(sig, details(level))
            );
        }
        assert_eq!(plain.metrics().snapshot(), detailed.metrics().snapshot());
        let look = |limiter: &mut RateLimiter<Tokens, MemoryStorage>| {
            limiter.registry_mut().with_event_state(sig, |state, _| {
                (state.counter.count(), state.metadata.as_ref().map(|m| m.level.clone()))
            })
        };
        let (plain_count, plain_level) = look(&mut plain);
        let (detailed_count, detailed_level) = look(&mut detailed);
        assert_eq!(plain_count, detailed_count);
        assert_eq!(plain_level, None);
        assert_eq!(detailed_level, Some("INFO".to_string()));
    }

    // While the breaker is open, no details are kept.
    let mut limiter = limiter_with(Policy::count_based(1).unwrap());
    open_breaker(&mut limiter);
    limiter.check_event_with_metadata(sig, details("INFO"));
    assert!(limiter.registry().is_empty());
}

#[test]
fn evictions_are_counted_where_asked_for() {
    let limited = || {
        let storage: MemoryStorage =
            ShardedStorage::new().with_eviction_strategy(EvictionStrategy::Lru { max_entries: 1 });
        let registry =
            SuppressionRegistry::new(storage, fixed_clock(), Policy::count_based(1).unwrap());
        RateLimiter::new(registry, Metrics::new(), CircuitBreaker::new(fixed_clock()))
    };
    let sig = |i: u32| EventSignature::simple("INFO", &format!("{}", i));

    let mut silent = limited();
    for i in 0..4 {
        silent.check_event(sig(i));
    }
    assert_eq!(silent.registry().evicted_count(), 3);
    assert_eq!(silent.metrics().signatures_evicted(), 0);

    // Those that were evicted before do not count.
    let mut counting = silent.counting_evictions();
    assert_eq!(counting.metrics().signatures_evicted(), 0);
    counting.check_event(sig(4));
    counting.registry_mut().with_event_state(sig(5), |_, _| ());
    assert_eq!(counting.metrics().signatures_evicted(), 2);
    assert_eq!(counting.metrics().events_allowed(), 5);
    counting.record_allowed();
    assert_eq!(counting.metrics().events_allowed(), 6);
}

#[test]
fn limiter_forgets_the_least_recently_used() {
    let storage: MemoryStorage =
        ShardedStorage::new().with_eviction_strategy(EvictionStrategy::Lru { max_entries: 2 });
    let registry =
        SuppressionRegistry::new(storage, fixed_clock(), Policy::count_based(1).unwrap());
    let mut limiter =
        RateLimiter::new(registry, Metrics::new(), CircuitBreaker::new(fixed_clock()));
    let sig = |name: &str| EventSignature::simple("INFO", name);
    for name in ["a", "b", "a", "c"] {
        limiter.check_event(sig(name));
    }
    let storage = limiter.registry().storage();
    assert!(storage.get(sig("a")).is_some());
    assert!(storage.get(sig("b")).is_none());
    assert!(storage.get(sig("c")).is_some());

    // After a clean-up the limit still holds.
    limiter.registry_mut().clear();
    for name in ["a", "b", "c"] {
        limiter.check_event(sig(name));
    }
    assert_eq!(limiter.registry().len(), 2);
}

#[test]
fn attempts_can_be_concluded_by_hand() {
    let mut limiter = limiter_with(Policy::count_based(1).unwrap());
    let sig = EventSignature::simple("INFO", "Test");
    let now = start_time();
    assert!(limiter.request(now));
    let outcome = limiter.attempt(sig, None, false, now);
    assert_eq!(outcome.map(|(decision, _)| decision), Some(LimitDecision::Allow));
    assert_eq!(limiter.conclude(Some(LimitDecision::Suppress), now), LimitDecision::Suppress);
    assert_eq!(limiter.conclude(None, now), LimitDecision::Allow);
    assert_eq!(limiter.circuit_breaker().consecutive_failures(), 1);
    assert_eq!(limiter.metrics().events_allowed(), 1);
    assert_eq!(limiter.metrics().events_suppressed(), 1);
}

#[test]
fn deciding_updates_the_state() {
    let mut state: State = EventState::new(Policy::count_based(1).unwrap(), start_time());
    let sig = EventSignature::simple("INFO", "Test");
    let (decision, episode) =
        decide(&mut state, sig, Some(details("INFO")), true, start_time()).unwrap();
    assert_eq!(decision, LimitDecision::Allow);
    assert!(episode.is_none());
    let (decision, _) = decide(&mut state, sig, None, true, start_time()).unwrap();
    assert_eq!(decision, LimitDecision::Suppress);
    assert_eq!(state.counter.count(), 1);
    assert!(state.metadata.is_some());
}

#[test]
fn breaker_reopens_when_a_trial_fails() {
    let mut breaker = CircuitBreaker::with_config(
        CircuitBreakerConfig {
            failure_threshold: 2,
            recovery_timeout: Duration::from_secs(1),
        },
        fixed_clock(),
    );
    let now = start_time();
    breaker.record_failure_at(now);
    assert_eq!(breaker.state(), CircuitState::Closed);
    breaker.record_failure_at(now);
    assert_eq!(breaker.state(), CircuitState::Open);
    assert!(!breaker.allow_request_at(now + Duration::from_millis(999)));
    assert!(breaker.allow_request_at(now + Duration::from_secs(1)));
    assert_eq!(breaker.state(), CircuitState::HalfOpen);
    breaker.record_failure_at(now + Duration::from_secs(1));
    assert_eq!(breaker.state(), CircuitState::Open);
    assert!(breaker.allow_request_at(now + Duration::from_secs(2)));
    breaker.record_success();
    assert_eq!(breaker.state(), CircuitState::Closed);
    assert_eq!(breaker.consecutive_failures(), 0);
}

#[test]
fn breaker_defaults_are_five_failures_and_thirty_seconds() {
    let mut limiter = limiter_with(Policy::count_based(1).unwrap());
    open_breaker(&mut limiter);
    let breaker = limiter.circuit_breaker_mut();
    assert!(!breaker.allow_request_at(start_time() + Duration::from_secs(29)));
    assert!(breaker.allow_request_at(start_time() + Duration::from_secs(30)));
    assert_eq!(CircuitBreakerConfig::default().failure_threshold, 5);
}

#[test]
fn registry_visits_and_cleans_up_states() {
    let mut registry = registry_with(Policy::count_based(1).unwrap());
    for i in 0..6 {
        let sig = EventSignature::simple("INFO", &format!("Entry {}", i));
        registry.with_event_state(sig, |state, now| {
            for _ in 0..i {
                state.counter.record_suppression(now);
            }
        });
    }
    let mut total = 0;
    registry.for_each(|_, state| total += state.counter.count());
    assert_eq!(total, 15);
    registry.cleanup(|_, state| {
        state.counter.record_suppression(start_time());
        state.counter.count() > 3
    });
    assert_eq!(registry.len(), 3);
    let mut counts = Vec::new();
    registry.for_each(|_, state| counts.push(state.counter.count()));
    counts.sort();
    assert_eq!(counts, vec![4, 5, 6]);
    assert!(registry.default_policy().has_room());
    assert!(registry.clone_default_policy().register_event(start_time()).is_allow());
}

#[test]
fn state_continues_from_a_snapshot() {
    let mut state: State = EventState::from_snapshot(
        Policy::count_based(1).unwrap(),
        4,
        start_time(),
        start_time() + Duration::from_secs(2),
    );
    assert_eq!(state.counter.count(), 4);
    assert_eq!(state.counter.reported(), 0);
    assert!(state.metadata.is_none());
    state.set_metadata(details("INFO"));
    state.set_metadata(details("WARN"));
    assert_eq!(state.duplicate().metadata.unwrap().level, "INFO");
    let copy = state.clone();
    assert_eq!(copy.counter.count(), 4);
    assert_eq!(copy.metadata.unwrap().level, "INFO");
    let fresh: State =
        EventState::new_with_metadata(Policy::exponential_backoff(), start_time(), details("WARN"));
    assert_eq!(fresh.counter.count(), 0);
    assert_eq!(fresh.metadata.unwrap().level, "WARN");
}

#[test]
fn storage_evicts_the_least_recently_used() {
    let mut storage: MemoryStorage =
        ShardedStorage::new().with_eviction_strategy(EvictionStrategy::Lru { max_entries: 2 });
    let fresh = || EventState::new(Policy::count_based(1).unwrap(), start_time());
    let sig = |name: &str| EventSignature::simple("INFO", name);
    storage.with_entry_mut(sig("a"), fresh, |_| ());
    storage.with_entry_mut(sig("b"), fresh, |_| ());
    storage.with_entry_mut(sig("a"), fresh, |_| ());
    storage.with_entry_mut(sig("c"), fresh, |_| ());
    assert_eq!(storage.len(), 2);
    assert_eq!(storage.evicted_count(), 1);
    assert!(storage.get(sig("a")).is_some());
    assert!(storage.get(sig("b")).is_none());
    assert!(storage.get(sig("c")).is_some());
    assert_eq!(storage.signatures().len(), 2);
    storage.clear();
    assert!(storage.is_empty());
    assert_eq!(storage.evicted_count(), 1);
}

#[test]
fn storage_evicts_the_lowest_priority() {
    let mut storage: MemoryStorage =
        ShardedStorage::new().with_eviction_strategy(EvictionStrategy::Priority {
            max_entries: 2,
            priority_fn: LevelPriority,
        });
    let level = |level: &str| {
        EventState::new_with_metadata(
            Policy::count_based(1).unwrap(),
            start_time(),
            details(level),
        )
    };
    let sig = |name: &str| EventSignature::simple("INFO", name);
    storage.with_entry_mut(sig("a"), || level("ERROR"), |_| ());
    storage.with_entry_mut(sig("b"), || level("INFO"), |_| ());
    storage.with_entry_mut(sig("a"), || level("ERROR"), |_| ());
    storage.with_entry_mut(sig("c"), || level("DEBUG"), |_| ());
    assert!(storage.get(sig("a")).is_some());
    assert!(storage.get(sig("b")).is_none());
    // The newest entry stays although its priority is the lowest.
    assert!(storage.get(sig("c")).is_some());
    storage.with_entry_mut(sig("d"), || level("WARN"), |_| ());
    assert!(storage.get(sig("c")).is_none());
}

#[test]
fn storage_limits_estimated_memory() {
    let mut storage: MemoryStorage =
        ShardedStorage::new().with_eviction_strategy(EvictionStrategy::Memory { max_bytes: 599 });
    for i in 0..5 {
        storage.with_entry_mut(
            EventSignature::simple("INFO", &format!("{}", i)),
            || EventState::new(Policy::count_based(1).unwrap(), start_time()),
            |_| (),
        );
    }
    assert_eq!(storage.len(), 2);
    assert_eq!(storage.evicted_count(), 3);
}

#[test]
fn strategies_describe_themselves() {
    let lru: EvictionStrategy<LevelPriority> = EvictionStrategy::Lru { max_entries: 7 };
    assert!(!lru.tracks_memory());
    assert_eq!(lru.memory_limit(), None);
    assert!(!lru.uses_priority());
    assert_eq!(lru.debug_text(), "Lru { max_entries: 7 }");

    let priority = EvictionStrategy::Priority { max_entries: 7, priority_fn: LevelPriority };
    assert!(priority.uses_priority());
    assert_eq!(priority.debug_text(), "Priority { max_entries: 7, priority_fn: \"<fn>\" }");

    let memory: EvictionStrategy<LevelPriority> = EvictionStrategy::Memory { max_bytes: 400 };
    assert!(memory.tracks_memory());
    assert_eq!(memory.memory_limit(), Some(400));
    assert_eq!(memory.debug_text(), "Memory { max_bytes: 400 }");
    assert!(memory.permits(2));
    assert!(!memory.permits(3));

    let both = EvictionStrategy::PriorityWithMemory {
        max_entries: 7,
        priority_fn: LevelPriority,
        max_bytes: 400,
    };
    assert!(both.tracks_memory());
    assert!(both.uses_priority());
    assert_eq!(both.memory_limit(), Some(400));
    assert_eq!(
        both.debug_text(),
        "PriorityWithMemory { max_entries: 7, priority_fn: \"<fn>\", max_bytes: 400 }"
    );
}

#[test]
fn emitter_reports_at_ticks_and_before_it_ends() {
    let mut registry = registry_with(Policy::count_based(1).unwrap());
    let config = EmitterConfig::default();
    let idle = react(&registry, &config, EmitterEvent::Tick, true);
    assert!(idle.emission.is_none());
    assert!(!idle.stop);

    registry.with_event_state(EventSignature::simple("INFO", "Test"), |state, now| {
        state.counter.record_suppression(now);
    });
    let tick = react(&registry, &config, EmitterEvent::Tick, false);
    assert_eq!(tick.emission.map(|s| s.len()), Some(1));
    assert!(!tick.stop);
    let again = react(&registry, &config, EmitterEvent::Signal { shutdown: false }, true);
    assert!(again.emission.is_none());
    assert!(!again.stop);
    let last = react(&registry, &config, EmitterEvent::Signal { shutdown: true }, true);
    assert_eq!(last.emission.map(|s| s.len()), Some(1));
    assert!(last.stop);
    let quiet = react(&registry, &config, EmitterEvent::Signal { shutdown: true }, false);
    assert!(quiet.emission.is_none());
    assert!(quiet.stop);
}

#[test]
fn shutdown_reports_how_the_task_ended() {
    assert_eq!(shutdown_result(TaskEnd::Completed), Ok(()));
    assert_eq!(shutdown_result(TaskEnd::AlreadyJoined), Ok(()));
    assert_eq!(shutdown_result(TaskEnd::Unreachable), Err(ShutdownError::SignalFailed));
    assert_eq!(shutdown_result(TaskEnd::Panicked), Err(ShutdownError::TaskPanicked));
    assert_eq!(shutdown_result(TaskEnd::Failed), Err(ShutdownError::TaskPanicked));
    assert_eq!(shutdown_result(TaskEnd::Cancelled), Err(ShutdownError::TaskCancelled));
    assert_eq!(shutdown_result(TaskEnd::Overdue), Err(ShutdownError::Timeout));
}

#[test]
fn emitter_errors_have_texts() {
    assert_eq!(
        EmitterConfigError::ZeroSummaryInterval.to_string(),
        "summary interval must be greater than 0"
    );
    assert_eq!(
        ShutdownError::TaskPanicked.to_string(),
        "emitter task panicked during shutdown"
    );
    assert_eq!(ShutdownError::TaskCancelled.to_string(), "emitter task was cancelled");
    assert_eq!(ShutdownError::Timeout.to_string(), "shutdown exceeded timeout");
    assert_eq!(ShutdownError::SignalFailed.to_string(), "failed to send shutdown signal");
}

#[test]
fn emitter_holds_on_to_its_registry() {
    let mut registry = registry_with(Policy::count_based(3).unwrap());
    registry.with_event_state(EventSignature::simple("INFO", "Test"), |state, now| {
        state.counter.record_suppression(now);
    });
    let emitter = SummaryEmitter::new(registry, EmitterConfig::default());
    assert_eq!(emitter.registry().len(), 1);
    assert_eq!(emitter.registry().now(), start_time());
    assert_eq!(emitter.registry().evicted_count(), 0);
    let mut policy = emitter.registry().clone_default_policy();
    for i in 0..5 {
        assert_eq!(policy.register_event(start_time()).is_allow(), i < 3);
    }
    assert_eq!(emitter.collect_summaries().len(), 1);
}

#[test]
fn details_make_no_difference_to_evictions() {
    for max_entries in 1..4 {
        let limited = || {
            let storage: MemoryStorage =
                ShardedStorage::new().with_eviction_strategy(EvictionStrategy::Lru { max_entries });
            let registry =
                SuppressionRegistry::new(storage, fixed_clock(), Policy::count_based(1).unwrap());
            RateLimiter::new(registry, Metrics::new(), CircuitBreaker::new(fixed_clock()))
                .counting_evictions()
        };
        let mut plain = limited();
        let mut detailed = limited();
        for name in ["a", "b", "c", "a", "d", "b"] {
            let sig = EventSignature::simple("INFO", name);
            plain.check_event(sig);
            detailed.check_event_with_metadata(sig, details("INFO"));
        }
        assert_eq!(plain.metrics().snapshot(), detailed.metrics().snapshot());
        assert_eq!(plain.registry().len(), max_entries);
    }
}
