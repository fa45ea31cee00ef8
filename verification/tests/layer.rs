//! Tests of the layer.

use std::sync::{Arc, Mutex};

use tracing_throttle::application::circuit_breaker::{
    CircuitBreaker, CircuitBreakerConfig, CircuitState,
};
use tracing_throttle::application::emitter::EmitterConfigError;
use tracing_throttle::application::limiter::RateLimiter;
use tracing_throttle::application::metrics::{Metrics, MetricsSnapshot};
use tracing_throttle::application::ports::{Clock, SharedClock};
use tracing_throttle::application::registry::{EventState, SuppressionRegistry};
use tracing_throttle::domain::fields::FieldMap;
use tracing_throttle::domain::policy::TokenAmount;
use tracing_throttle::domain::signature::EventSignature;
use tracing_throttle::domain::summary::SuppressionSummary;
use tracing_throttle::domain::time::{Duration, Instant};
use tracing_throttle::infrastructure::eviction::{EvictionStrategy, PriorityFn};
use tracing_throttle::infrastructure::layer::{
    BuildError, EventRecord, SummaryFormatter, TracingRateLimitLayer, TracingRateLimitLayerBuilder,
    SUMMARY_TARGET,
};
use tracing_throttle::infrastructure::storage::ShardedStorage;

/// Tokens counted in floating point.
#[derive(Debug, Clone, Copy, PartialEq)]
struct Tokens(f64);

impl TokenAmount for Tokens {
    fn is_unusable(self) -> bool {
        !(self.0 > 0.0)
    }

    fn credited(self, elapsed: Duration, refill_rate: Tokens, capacity: Tokens) -> Tokens {
        let seconds =
            std::time::Duration::new(elapsed.as_secs(), elapsed.subsec_nanos()).as_secs_f64();
        Tokens((self.0 + seconds * refill_rate.0).min(capacity.0))
    }

    fn spent(self) -> Option<Tokens> {
        if self.0 >= 1.0 {
            Some(Tokens(self.0 - 1.0))
        } else {
            None
        }
    }
}

/// A clock that is set by hand.
struct MockClock {
    now: Mutex<Instant>,
}

impl MockClock {
    fn new(now: Instant) -> MockClock {
        MockClock { now: Mutex::new(now) }
    }

    fn advance(&self, by: Duration) {
        let mut now = self.now.lock().unwrap();
        *now = *now + by;
    }
}

impl Clock for MockClock {
    fn now(&self) -> Instant {
        *self.now.lock().unwrap()
    }
}

type Policy = tracing_throttle::domain::policy::Policy<Tokens>;
type State = EventState<Tokens>;

/// Priorities by the level of an event.
struct LevelPriority;

impl PriorityFn<State> for LevelPriority {
    fn priority(&self, _signature: &EventSignature, state: &State) -> u32 {
        match state.metadata.as_ref().map(|m| m.level.as_str()) {
            Some("ERROR") => 100,
            Some("WARN") => 50,
            Some("INFO") => 10,
            _ => 5,
        }
    }
}

type MemoryStorage = ShardedStorage<State, LevelPriority>;

fn start_time() -> Instant {
    Instant::origin() + Duration::from_secs(1_000)
}

fn fixed_clock() -> SharedClock {
    SharedClock { inner: Arc::new(MockClock::new(start_time())) }
}

/// Keeps the counts of the summaries that it is handed.
#[derive(Clone)]
struct Recorder {
    counts: Arc<Mutex<Vec<usize>>>,
}

impl Recorder {
    fn new() -> Recorder {
        Recorder { counts: Arc::new(Mutex::new(Vec::new())) }
    }

    fn counts(&self) -> Vec<usize> {
        self.counts.lock().unwrap().clone()
    }
}

impl SummaryFormatter for Recorder {
    fn format(&mut self, summary: &SuppressionSummary) {
        self.counts.lock().unwrap().push(summary.count);
    }
}

type Layer = TracingRateLimitLayer<Tokens, MemoryStorage, Recorder>;

fn default_policy() -> Policy {
    Policy::token_bucket(Tokens(50.0), Tokens(1.0)).unwrap()
}

fn builder() -> TracingRateLimitLayerBuilder<Tokens, LevelPriority, Recorder> {
    Layer::builder(default_policy(), fixed_clock(), fixed_clock(), Recorder::new())
}

fn new_layer() -> Layer {
    Layer::new(default_policy(), fixed_clock(), fixed_clock(), Recorder::new())
}

fn suppression_rate(snapshot: &MetricsSnapshot) -> f64 {
    snapshot.events_suppressed as f64 / snapshot.total_events() as f64
}

fn field_map(pairs: &[(&str, &str)]) -> FieldMap {
    let mut fields = FieldMap::new();
    for (name, value) in pairs {
        fields.insert(name.to_string(), value.to_string());
    }
    fields
}

fn event(target: &str, pairs: &[(&str, &str)]) -> EventRecord {
    EventRecord {
        level: "INFO".to_string(),
        name: "event src/main.rs:1".to_string(),
        target: target.to_string(),
        fields: field_map(pairs),
    }
}

#[test]
fn test_layer_builder() {
    let layer = builder()
        .with_policy(Policy::count_based(50).unwrap())
        .with_summary_interval(Duration::from_secs(60))
        .build()
        .unwrap();

    assert!(layer.limiter().registry().is_empty());
}

#[test]
fn test_span_context_fields_deduplication() {
    let layer = builder()
        .with_span_context_fields(vec![
            "user_id".to_string(),
            "user_id".to_string(), // duplicate
            "tenant_id".to_string(),
            "".to_string(),        // empty, should be filtered
            "user_id".to_string(), // another duplicate
        ])
        .build()
        .unwrap();

    // Should only have 2 unique fields: user_id and tenant_id
    assert_eq!(layer.span_context_fields().len(), 2);
    assert!(layer.span_context_fields().contains("user_id"));
    assert!(layer.span_context_fields().contains("tenant_id"));
}

#[test]
fn test_excluded_fields_deduplication() {
    let layer = builder()
        .with_excluded_fields(vec![
            "request_id".to_string(),
            "request_id".to_string(), // duplicate
            "trace_id".to_string(),
            "".to_string(),           // empty, should be filtered
            "request_id".to_string(), // another duplicate
        ])
        .build()
        .unwrap();

    // Should only have 2 unique fields: request_id and trace_id
    assert_eq!(layer.excluded_fields().len(), 2);
    assert!(layer.excluded_fields().contains("request_id"));
    assert!(layer.excluded_fields().contains("trace_id"));
}

#[test]
fn test_exempt_targets_deduplication() {
    let layer = builder()
        .with_exempt_targets(vec![
            "myapp::security".to_string(),
            "myapp::security".to_string(), // duplicate
            "myapp::audit".to_string(),
            "".to_string(),                // empty, should be filtered
            "myapp::security".to_string(), // another duplicate
        ])
        .build()
        .unwrap();

    // Should only have 2 unique targets: security and audit
    assert_eq!(layer.exempt_targets().len(), 2);
    assert!(layer.exempt_targets().contains("myapp::security"));
    assert!(layer.exempt_targets().contains("myapp::audit"));
}

#[test]
fn test_exempt_targets_bypass_rate_limiting() {
    let mut rate_limit = builder()
        .with_policy(Policy::count_based(2).unwrap())
        .with_exempt_targets(vec!["myapp::security".to_string()])
        .build()
        .unwrap();

    // Regular logs get throttled after 2 (same callsite = same signature)
    for _ in 0..3 {
        rate_limit.event_enabled(&event("myapp", &[("message", "Regular log")]), &vec![]);
    }

    // Security logs are never throttled (exempt target)
    for _ in 0..4 {
        let security = event("myapp::security", &[("message", "Security event")]);
        assert!(rate_limit.event_enabled(&security, &vec![]));
    }

    // Verify metrics
    let metrics = rate_limit.metrics();
    assert_eq!(metrics.events_allowed(), 6); // 2 regular + 4 exempt
    assert_eq!(metrics.events_suppressed(), 1); // 1 regular suppressed
}

#[test]
fn test_layer_default() {
    let layer = new_layer();
    assert!(layer.limiter().registry().is_empty());
}

#[test]
fn test_signature_computation() {
    let _layer = new_layer();

    // Use a simple signature test without metadata construction
    let sig1 = EventSignature::simple("INFO", "test_event");
    let sig2 = EventSignature::simple("INFO", "test_event");

    // Same inputs should produce same signature
    assert_eq!(sig1, sig2);
}

#[test]
fn test_basic_rate_limiting() {
    let mut layer = builder()
        .with_policy(Policy::count_based(2).unwrap())
        .build()
        .unwrap();

    let sig = EventSignature::simple("INFO", "test_message");

    // First two should be allowed
    assert!(layer.should_allow(sig));
    assert!(layer.should_allow(sig));

    // Third should be suppressed
    assert!(!layer.should_allow(sig));
}

#[test]
fn test_layer_integration() {
    let mut layer = builder()
        .with_policy(Policy::count_based(3).unwrap())
        .build()
        .unwrap();

    // Emit 10 identical events
    for _ in 0..10 {
        layer.event_enabled(&event("myapp", &[("message", "test event")]), &vec![]);
    }

    // After emitting 10 events with the same signature, the layer should have
    // tracked them and only the first 3 should have been marked as allowed
    // The registry should contain one entry for this signature
    assert_eq!(layer.limiter().registry().len(), 1);
}

#[test]
fn test_layer_suppression_logic() {
    let mut layer = builder()
        .with_policy(Policy::count_based(3).unwrap())
        .build()
        .unwrap();

    let sig = EventSignature::simple("INFO", "test");

    // Verify the suppression logic works correctly
    let mut allowed_count = 0;
    for _ in 0..10 {
        if layer.should_allow(sig) {
            allowed_count += 1;
        }
    }

    assert_eq!(allowed_count, 3);
}

#[test]
fn test_builder_zero_summary_interval() {
    let result = builder().with_summary_interval(Duration::from_secs(0)).build();

    assert!(matches!(
        result,
        Err(BuildError::EmitterConfig(
            EmitterConfigError::ZeroSummaryInterval
        ))
    ));
}

#[test]
fn test_builder_zero_max_signatures() {
    let result = builder().with_max_signatures(0).build();

    assert!(matches!(result, Err(BuildError::ZeroMaxSignatures)));
}

#[test]
fn test_builder_valid_max_signatures() {
    let layer = builder().with_max_signatures(100).build().unwrap();

    assert!(layer.limiter().registry().is_empty());
}

#[test]
fn test_metrics_tracking() {
    let mut layer = builder()
        .with_policy(Policy::count_based(2).unwrap())
        .build()
        .unwrap();

    let sig = EventSignature::simple("INFO", "test");

    // Check initial metrics
    assert_eq!(layer.metrics().events_allowed(), 0);
    assert_eq!(layer.metrics().events_suppressed(), 0);

    // Allow first two events
    assert!(layer.should_allow(sig));
    assert!(layer.should_allow(sig));

    // Check metrics after allowed events
    assert_eq!(layer.metrics().events_allowed(), 2);
    assert_eq!(layer.metrics().events_suppressed(), 0);

    // Suppress third event
    assert!(!layer.should_allow(sig));

    // Check metrics after suppressed event
    assert_eq!(layer.metrics().events_allowed(), 2);
    assert_eq!(layer.metrics().events_suppressed(), 1);
}

#[test]
fn test_metrics_snapshot() {
    let mut layer = builder()
        .with_policy(Policy::count_based(3).unwrap())
        .build()
        .unwrap();

    let sig = EventSignature::simple("INFO", "test");

    // Generate some events
    for _ in 0..5 {
        layer.should_allow(sig);
    }

    // Get snapshot
    let snapshot = layer.metrics().snapshot();
    assert_eq!(snapshot.events_allowed, 3);
    assert_eq!(snapshot.events_suppressed, 2);
    assert_eq!(snapshot.total_events(), 5);
    assert!((suppression_rate(&snapshot) - 0.4).abs() < f64::EPSILON);
}

#[test]
fn test_signature_count() {
    let mut layer = builder()
        .with_policy(Policy::count_based(2).unwrap())
        .build()
        .unwrap();

    assert_eq!(layer.signature_count(), 0);

    let sig1 = EventSignature::simple("INFO", "test1");
    let sig2 = EventSignature::simple("INFO", "test2");

    layer.should_allow(sig1);
    assert_eq!(layer.signature_count(), 1);

    layer.should_allow(sig2);
    assert_eq!(layer.signature_count(), 2);

    // Same signature shouldn't increase count
    layer.should_allow(sig1);
    assert_eq!(layer.signature_count(), 2);
}

#[test]
fn test_metrics_with_eviction() {
    let mut layer = builder()
        .with_policy(Policy::count_based(1).unwrap())
        .with_max_signatures(3)
        .build()
        .unwrap();

    // Fill up to capacity
    for i in 0..3 {
        let sig = EventSignature::simple("INFO", &format!("test{}", i));
        layer.should_allow(sig);
    }

    assert_eq!(layer.signature_count(), 3);
    assert_eq!(layer.metrics().signatures_evicted(), 0);

    // Add one more, which should trigger eviction
    let sig = EventSignature::simple("INFO", "test3");
    layer.should_allow(sig);

    assert_eq!(layer.signature_count(), 3);
    assert_eq!(layer.metrics().signatures_evicted(), 1);
}

#[test]
fn test_circuit_breaker_observability() {
    let mut layer = builder()
        .with_policy(Policy::count_based(2).unwrap())
        .build()
        .unwrap();

    // Check initial circuit breaker state
    let cb = layer.circuit_breaker();
    assert_eq!(cb.state(), CircuitState::Closed);
    assert_eq!(cb.consecutive_failures(), 0);

    // Circuit breaker should remain closed during normal operation
    let sig = EventSignature::simple("INFO", "test");
    layer.should_allow(sig);
    layer.should_allow(sig);
    layer.should_allow(sig);

    assert_eq!(layer.circuit_breaker().state(), CircuitState::Closed);
}

#[test]
fn test_circuit_breaker_fail_open_integration() {
    // Create a circuit breaker with low threshold for testing
    let cb_config = CircuitBreakerConfig {
        failure_threshold: 2,
        recovery_timeout: Duration::from_secs(1),
    };
    let circuit_breaker = CircuitBreaker::with_config(cb_config, fixed_clock());

    // Build layer with custom circuit breaker
    let policy = Policy::count_based(2).unwrap();
    let registry = SuppressionRegistry::new(ShardedStorage::new(), fixed_clock(), policy);
    let metrics = Metrics::new();
    let limiter = RateLimiter::new(registry, metrics, circuit_breaker);

    let mut layer = builder()
        .with_summary_interval(Duration::from_secs(30))
        .build()
        .unwrap();
    *layer.limiter_mut() = limiter;

    let sig = EventSignature::simple("INFO", "test");

    // Normal operation - first 2 events allowed, third suppressed
    assert!(layer.should_allow(sig));
    assert!(layer.should_allow(sig));
    assert!(!layer.should_allow(sig));

    // Circuit should still be closed
    assert_eq!(layer.circuit_breaker().state(), CircuitState::Closed);

    // Manually trigger circuit breaker failures to test fail-open
    layer.limiter_mut().circuit_breaker_mut().record_failure();
    layer.limiter_mut().circuit_breaker_mut().record_failure();

    // Circuit should now be open
    assert_eq!(layer.circuit_breaker().state(), CircuitState::Open);

    // With circuit open, rate limiter should fail open (allow all events)
    // even though we've already hit the rate limit
    assert!(layer.should_allow(sig));
    assert!(layer.should_allow(sig));
    assert!(layer.should_allow(sig));

    // Metrics should show these as allowed (fail-open behavior)
    let snapshot = layer.metrics().snapshot();
    assert!(snapshot.events_allowed >= 5); // 2 normal + 3 fail-open
}

#[test]
fn test_episode_end_summary_emission() {
    let mock_clock = Arc::new(MockClock::new(start_time()));
    let recorder = Recorder::new();

    let mut layer = builder()
        .with_policy(Policy::time_window(1, Duration::from_secs(60)).unwrap())
        .with_clock(SharedClock { inner: mock_clock.clone() })
        .with_summary_formatter(recorder.clone())
        .build()
        .unwrap();

    let sig = EventSignature::simple("INFO", "Initialization step");

    // 1 allowed, 9 suppressed
    assert!(layer.should_allow(sig));
    for _ in 0..9 {
        assert!(!layer.should_allow(sig));
    }
    assert_eq!(recorder.counts().len(), 0);

    // Window rolls over: the allowing event closes the episode
    mock_clock.advance(Duration::from_secs(61));
    assert!(layer.should_allow(sig));
    assert_eq!(recorder.counts().len(), 1);
    assert_eq!(recorder.counts().last(), Some(&9));

    // Quiet windows produce no repeated summaries
    mock_clock.advance(Duration::from_secs(61));
    assert!(layer.should_allow(sig));
    mock_clock.advance(Duration::from_secs(61));
    assert!(layer.should_allow(sig));
    assert_eq!(recorder.counts().len(), 1);
}

#[test]
fn events_that_carry_summaries_leave_no_trace() {
    let mut layer = builder()
        .with_policy(Policy::count_based(1).unwrap())
        .build()
        .unwrap();
    for _ in 0..5 {
        assert!(layer.event_enabled(&event(SUMMARY_TARGET, &[]), &vec![]));
    }
    assert_eq!(SUMMARY_TARGET, "tracing_throttle::summary");
    assert_eq!(layer.signature_count(), 0);
    assert_eq!(layer.metrics().events_allowed(), 0);
}

#[test]
fn excluded_fields_do_not_tell_events_apart() {
    let mut layer = builder()
        .with_policy(Policy::count_based(1).unwrap())
        .with_excluded_fields(vec!["request_id".to_string()])
        .build()
        .unwrap();
    assert!(layer.event_enabled(&event("app", &[("request_id", "1"), ("user", "a")]), &vec![]));
    assert!(!layer.event_enabled(&event("app", &[("request_id", "2"), ("user", "a")]), &vec![]));
    assert!(layer.event_enabled(&event("app", &[("request_id", "2"), ("user", "b")]), &vec![]));
    assert!(layer.event_enabled(&event("other", &[("user", "b")]), &vec![]));
}

#[test]
fn field_values_tell_events_apart() {
    let mut layer = builder()
        .with_policy(Policy::count_based(1).unwrap())
        .build()
        .unwrap();
    assert!(layer.event_enabled(&event("app", &[("user_id", "123")]), &vec![]));
    assert!(layer.event_enabled(&event("app", &[("user_id", "456")]), &vec![]));
    assert!(!layer.event_enabled(&event("app", &[("user_id", "123")]), &vec![]));
    assert_eq!(layer.signature_count(), 2);
}

#[test]
fn innermost_span_gives_the_context() {
    let layer = builder()
        .with_span_context_fields(vec!["user".to_string(), "tenant".to_string()])
        .build()
        .unwrap();
    assert!(layer.keeps_span_fields());
    let scope = vec![
        Some(field_map(&[("user", "inner"), ("other", "x")])),
        None,
        Some(field_map(&[("user", "outer"), ("tenant", "t")])),
    ];
    let context = layer.extract_span_context(&scope);
    assert_eq!(context.len(), 2);
    assert_eq!(context.get("user").map(|v| v.as_str()), Some("inner"));
    assert_eq!(context.get("tenant").map(|v| v.as_str()), Some("t"));
    assert!(!new_layer().keeps_span_fields());
    assert!(new_layer().extract_span_context(&scope).is_empty());
}

#[test]
fn own_fields_count_more_than_those_of_spans() {
    let mut layer = builder()
        .with_policy(Policy::count_based(1).unwrap())
        .with_span_context_fields(vec!["user".to_string()])
        .build()
        .unwrap();
    let own = event("app", &[("user", "own"), ("message", "hello")]);
    assert!(layer.event_enabled(&own, &vec![Some(field_map(&[("user", "a")]))]));
    assert!(!layer.event_enabled(&own, &vec![Some(field_map(&[("user", "b")]))]));
    let plain = event("app", &[("message", "hello")]);
    assert!(layer.event_enabled(&plain, &vec![Some(field_map(&[("user", "a")]))]));
    assert!(layer.event_enabled(&plain, &vec![Some(field_map(&[("user", "b")]))]));
    assert!(!layer.event_enabled(&plain, &vec![Some(field_map(&[("user", "b")]))]));
}

#[test]
fn details_hold_message_and_combined_fields() {
    let mut layer = builder()
        .with_policy(Policy::count_based(1).unwrap())
        .with_excluded_fields(vec!["message".to_string()])
        .build()
        .unwrap();
    let with_message = event("app", &[("message", "hello"), ("n", "1")]);
    layer.event_enabled(&with_message, &vec![]);
    let fields = layer.extract_event_fields(&with_message);
    let sig = layer.compute_signature(&with_message, &fields);
    let text = layer
        .limiter_mut()
        .registry_mut()
        .with_event_state(sig, |state, _| state.metadata.as_ref().unwrap().format_detailed());
    assert_eq!(text, "[INFO] app: hello {n=1}");

    let without = event("app", &[("n", "2")]);
    layer.event_enabled(&without, &vec![]);
    let fields = layer.extract_event_fields(&without);
    let sig = layer.compute_signature(&without, &fields);
    let text = layer
        .limiter_mut()
        .registry_mut()
        .with_event_state(sig, |state, _| state.metadata.as_ref().unwrap().format_brief());
    assert_eq!(text, "[INFO] app: event src/main.rs:1");
}

#[test]
fn strategy_takes_the_place_of_the_signature_limit() {
    let mut layer = builder()
        .with_max_signatures(1)
        .with_eviction_strategy(EvictionStrategy::Lru { max_entries: 3 })
        .build()
        .unwrap();
    for i in 0..4 {
        layer.should_allow(EventSignature::simple("INFO", &format!("{}", i)));
    }
    assert_eq!(layer.signature_count(), 3);

    let mut unlimited =
        builder().with_unlimited_signatures().build().unwrap();
    for i in 0..100 {
        unlimited.should_allow(EventSignature::simple("INFO", &format!("{}", i)));
    }
    assert_eq!(unlimited.signature_count(), 100);
}

#[test]
fn only_built_layers_count_evictions() {
    let limit = || EvictionStrategy::Lru { max_entries: 2 };
    let storage: MemoryStorage = ShardedStorage::new().with_eviction_strategy(limit());
    let mut plain = TracingRateLimitLayer::with_storage(
        storage,
        Policy::count_based(1).unwrap(),
        fixed_clock(),
        fixed_clock(),
        Recorder::new(),
    );
    let mut built = builder().with_eviction_strategy(limit()).build().unwrap();
    for i in 0..5 {
        let sig = EventSignature::simple("INFO", &format!("{}", i));
        plain.should_allow(sig);
        built.should_allow(sig);
    }
    assert_eq!(plain.signature_count(), 2);
    assert_eq!(built.signature_count(), 2);
    assert_eq!(plain.metrics().signatures_evicted(), 0);
    assert_eq!(built.metrics().signatures_evicted(), 3);
}

#[test]
fn a_custom_clock_is_not_that_of_the_breaker() {
    let mock_clock = Arc::new(MockClock::new(start_time()));
    let mut layer = builder()
        .with_policy(Policy::count_based(1).unwrap())
        .with_clock(SharedClock { inner: mock_clock.clone() })
        .build()
        .unwrap();
    for _ in 0..5 {
        layer.limiter_mut().circuit_breaker_mut().record_failure();
    }
    mock_clock.advance(Duration::from_secs(3_600));
    assert_eq!(layer.now(), start_time() + Duration::from_secs(3_600));
    assert!(layer.should_allow(EventSignature::simple("INFO", "test")));
    assert_eq!(layer.circuit_breaker().state(), CircuitState::Open);
    assert_eq!(layer.circuit_breaker().now(), start_time());
}

#[test]
fn context_fields_are_listed_in_order() {
    let layer = builder()
        .with_span_context_fields(vec![
            "user_id".to_string(),
            "".to_string(),
            "tenant_id".to_string(),
            "user_id".to_string(),
        ])
        .build()
        .unwrap();
    let names = layer.span_context_fields();
    assert_eq!(names.len(), 2);
    assert_eq!(names.name_at(0), "tenant_id");
    assert_eq!(names.name_at(1), "user_id");
}

#[test]
fn layers_carry_their_settings() {
    let layer = builder()
        .with_active_emission(true)
        .with_summary_interval(Duration::from_secs(5))
        .build()
        .unwrap();
    assert!(layer.active_emission());
    assert_eq!(layer.emitter_config().interval, Duration::from_secs(5));
    assert_eq!(layer.emitter_config().min_count, 1);

    let storage: MemoryStorage = ShardedStorage::new();
    let mut plain = TracingRateLimitLayer::with_storage(
        storage,
        Policy::count_based(1).unwrap(),
        fixed_clock(),
        fixed_clock(),
        Recorder::new(),
    );
    assert!(!plain.active_emission());
    assert_eq!(plain.emitter_config().interval, Duration::from_secs(30));
    let sig = EventSignature::simple("INFO", "test");
    assert!(plain.should_allow(sig));
    assert!(!plain.should_allow(sig));
    assert_eq!(plain.summary_formatter().counts().len(), 0);
}

#[test]
fn default_policy_allows_a_burst_of_fifty() {
    let mut layer = new_layer();
    let sig = EventSignature::simple("INFO", "test");
    for _ in 0..50 {
        assert!(layer.should_allow(sig));
    }
    assert!(!layer.should_allow(sig));
}

#[test]
fn build_errors_have_texts() {
    assert_eq!(
        BuildError::ZeroMaxSignatures.to_string(),
        "max_signatures must be greater than 0"
    );
    assert_eq!(
        BuildError::from(EmitterConfigError::ZeroSummaryInterval).to_string(),
        "emitter configuration error: summary interval must be greater than 0"
    );
}
