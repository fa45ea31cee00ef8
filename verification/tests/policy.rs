//! Tests of the policies.

use tracing_throttle::domain::policy::exponential_backoff::ExponentialBackoffPolicy;
use tracing_throttle::domain::policy::time_window::{WindowAssembly, WindowField, WindowValue};
use tracing_throttle::domain::policy::token_bucket::{BucketAssembly, BucketField, BucketValue};
use tracing_throttle::domain::policy::{
    CountBasedPolicy, FieldError, PolicyDecision, PolicyError, RateLimitPolicy, TimeWindowPolicy,
    TokenAmount, TokenBucketPolicy,
};
use tracing_throttle::domain::time::{Duration, Instant};

/// Tokens counted in floating point.
#[derive(Debug, Clone, Copy, PartialEq)]
struct Tokens(f64);

impl TokenAmount for Tokens {
    fn is_unusable(self) -> bool {
        !(self.0 > 0.0)
    }

    fn credited(self, elapsed: Duration, refill_rate: Tokens, capacity: Tokens) -> Tokens {
        let seconds =
            std::time::Duration::new(elapsed.as_secs(), elapsed.subsec_nanos()).as_secs_f64();
        Tokens((self.0 + seconds * refill_rate.0).min(capacity.0))
    }

    fn spent(self) -> Option<Tokens> {
        if self.0 >= 1.0 {
            Some(Tokens(self.0 - 1.0))
        } else {
            None
        }
    }
}

type Policy = tracing_throttle::domain::policy::Policy<Tokens>;

fn start_time() -> Instant {
    Instant::origin() + Duration::from_secs(1_000)
}

#[test]
fn test_count_based_policy() {
    let mut policy = CountBasedPolicy::new(3).unwrap();
    let now = start_time();

    assert_eq!(policy.register_event(now), PolicyDecision::Allow);
    assert_eq!(policy.register_event(now), PolicyDecision::Allow);
    assert_eq!(policy.register_event(now), PolicyDecision::Allow);
    assert_eq!(policy.register_event(now), PolicyDecision::Suppress);
    assert_eq!(policy.register_event(now), PolicyDecision::Suppress);

    policy.reset();
    assert_eq!(policy.register_event(now), PolicyDecision::Allow);
}

#[test]
fn test_time_window_policy() {
    let mut policy = TimeWindowPolicy::new(2, Duration::from_secs(1)).unwrap();
    let now = start_time();

    assert_eq!(policy.register_event(now), PolicyDecision::Allow);
    assert_eq!(policy.register_event(now), PolicyDecision::Allow);
    assert_eq!(policy.register_event(now), PolicyDecision::Suppress);

    // After window expires, should allow again
    let later = now + Duration::from_secs(2);
    assert_eq!(policy.register_event(later), PolicyDecision::Allow);
}

#[test]
fn test_exponential_backoff_policy() {
    let mut policy = ExponentialBackoffPolicy::new();
    let now = start_time();

    // 1st allowed
    assert_eq!(policy.register_event(now), PolicyDecision::Allow);
    // 2nd allowed
    assert_eq!(policy.register_event(now), PolicyDecision::Allow);
    // 3rd suppressed
    assert_eq!(policy.register_event(now), PolicyDecision::Suppress);
    // 4th allowed
    assert_eq!(policy.register_event(now), PolicyDecision::Allow);
    // 5th, 6th, 7th suppressed
    assert_eq!(policy.register_event(now), PolicyDecision::Suppress);
    assert_eq!(policy.register_event(now), PolicyDecision::Suppress);
    assert_eq!(policy.register_event(now), PolicyDecision::Suppress);
    // 8th allowed
    assert_eq!(policy.register_event(now), PolicyDecision::Allow);
}

#[test]
fn test_policy_enum() {
    let mut policy = Policy::count_based(2).unwrap();
    let now = start_time();

    assert!(policy.register_event(now).is_allow());
    assert!(policy.register_event(now).is_allow());
    assert!(policy.register_event(now).is_suppress());
}

// Edge case tests
#[test]
fn test_count_based_policy_zero_limit() {
    // Zero limit should be rejected
    let result = CountBasedPolicy::new(0);
    assert_eq!(result, Err(PolicyError::ZeroMaxCount));
}

#[test]
fn test_count_based_policy_one_limit() {
    let mut policy = CountBasedPolicy::new(1).unwrap();
    let now = start_time();

    // Only first event allowed
    assert_eq!(policy.register_event(now), PolicyDecision::Allow);
    assert_eq!(policy.register_event(now), PolicyDecision::Suppress);
    assert_eq!(policy.register_event(now), PolicyDecision::Suppress);
}

#[test]
fn test_count_based_policy_reset() {
    let mut policy = CountBasedPolicy::new(2).unwrap();
    let now = start_time();

    // Use up the limit
    assert_eq!(policy.register_event(now), PolicyDecision::Allow);
    assert_eq!(policy.register_event(now), PolicyDecision::Allow);
    assert_eq!(policy.register_event(now), PolicyDecision::Suppress);

    // Reset should restore the limit
    policy.reset();
    assert_eq!(policy.register_event(now), PolicyDecision::Allow);
    assert_eq!(policy.register_event(now), PolicyDecision::Allow);
    assert_eq!(policy.register_event(now), PolicyDecision::Suppress);
}

#[test]
fn test_time_window_policy_zero_duration() {
    // Zero duration should be rejected
    let result = TimeWindowPolicy::new(2, Duration::from_secs(0));
    assert_eq!(result, Err(PolicyError::ZeroWindowDuration));
}

#[test]
fn test_time_window_policy_rapid_events() {
    let mut policy = TimeWindowPolicy::new(3, Duration::from_millis(100)).unwrap();
    let now = start_time();

    // Rapid fire events
    for i in 0..10 {
        let decision = policy.register_event(now);
        if i < 3 {
            assert_eq!(
                decision,
                PolicyDecision::Allow,
                "Event {} should be allowed",
                i
            );
        } else {
            assert_eq!(
                decision,
                PolicyDecision::Suppress,
                "Event {} should be suppressed",
                i
            );
        }
    }
}

#[test]
fn test_time_window_policy_reset() {
    let mut policy = TimeWindowPolicy::new(2, Duration::from_secs(60)).unwrap();
    let now = start_time();

    // Use up limit
    assert_eq!(policy.register_event(now), PolicyDecision::Allow);
    assert_eq!(policy.register_event(now), PolicyDecision::Allow);
    assert_eq!(policy.register_event(now), PolicyDecision::Suppress);

    // Reset should clear the window
    policy.reset();
    assert_eq!(policy.register_event(now), PolicyDecision::Allow);
}

#[test]
fn test_exponential_backoff_large_count() {
    let mut policy = ExponentialBackoffPolicy::new();
    let now = start_time();

    let expected_allowed = [0, 1, 3, 7, 15, 31, 63]; // 0-indexed: 1st, 2nd, 4th, 8th, 16th, 32nd, 64th

    for i in 0..100 {
        let decision = policy.register_event(now);
        if expected_allowed.contains(&i) {
            assert_eq!(
                decision,
                PolicyDecision::Allow,
                "Event {} should be allowed",
                i + 1
            );
        } else {
            assert_eq!(
                decision,
                PolicyDecision::Suppress,
                "Event {} should be suppressed",
                i + 1
            );
        }
    }
}

#[test]
fn test_exponential_backoff_reset() {
    let mut policy = ExponentialBackoffPolicy::new();
    let now = start_time();

    // Progress through first few events
    assert_eq!(policy.register_event(now), PolicyDecision::Allow); // 1st
    assert_eq!(policy.register_event(now), PolicyDecision::Allow); // 2nd
    assert_eq!(policy.register_event(now), PolicyDecision::Suppress); // 3rd

    // Reset should start over
    policy.reset();
    assert_eq!(policy.register_event(now), PolicyDecision::Allow); // 1st again
}

// Token Bucket Policy Tests
#[test]
fn test_token_bucket_basic_consumption() {
    let mut policy = TokenBucketPolicy::new(Tokens(3.0), Tokens(1.0)).unwrap();
    let now = start_time();

    // Should allow up to capacity
    assert_eq!(policy.register_event(now), PolicyDecision::Allow);
    assert_eq!(policy.register_event(now), PolicyDecision::Allow);
    assert_eq!(policy.register_event(now), PolicyDecision::Allow);
    // Bucket empty, should suppress
    assert_eq!(policy.register_event(now), PolicyDecision::Suppress);
    assert_eq!(policy.register_event(now), PolicyDecision::Suppress);
}

#[test]
fn test_token_bucket_refill_over_time() {
    let mut policy = TokenBucketPolicy::new(Tokens(10.0), Tokens(10.0)).unwrap(); // 10 tokens/sec
    let now = start_time();

    // Use all tokens
    for _ in 0..10 {
        assert_eq!(policy.register_event(now), PolicyDecision::Allow);
    }
    assert_eq!(policy.register_event(now), PolicyDecision::Suppress);

    // Wait 0.5 seconds - should get 5 tokens back
    let later = now + Duration::from_millis(500);
    for i in 0..5 {
        assert_eq!(
            policy.register_event(later),
            PolicyDecision::Allow,
            "Event {} should be allowed after refill",
            i
        );
    }
    assert_eq!(policy.register_event(later), PolicyDecision::Suppress);
}

#[test]
fn test_token_bucket_burst_tolerance() {
    let mut policy = TokenBucketPolicy::new(Tokens(100.0), Tokens(1.0)).unwrap();
    let now = start_time();

    // Can burst up to full capacity immediately
    for i in 0..100 {
        assert_eq!(
            policy.register_event(now),
            PolicyDecision::Allow,
            "Event {} in burst should be allowed",
            i
        );
    }
    // Then rate limited
    assert_eq!(policy.register_event(now), PolicyDecision::Suppress);
}

#[test]
fn test_token_bucket_sustained_rate() {
    let mut policy = TokenBucketPolicy::new(Tokens(10.0), Tokens(10.0)).unwrap(); // 10/sec sustained, 10 capacity
    let now = start_time();

    // Use all tokens
    for _ in 0..10 {
        assert_eq!(policy.register_event(now), PolicyDecision::Allow);
    }
    assert_eq!(policy.register_event(now), PolicyDecision::Suppress);

    // Wait 1 second - should get 10 tokens back (capped at capacity)
    let later = now + Duration::from_secs(1);
    for i in 0..10 {
        assert_eq!(
            policy.register_event(later),
            PolicyDecision::Allow,
            "Event {} after 1s should be allowed",
            i
        );
    }
    assert_eq!(policy.register_event(later), PolicyDecision::Suppress);

    // Wait 0.5 seconds - should get 5 tokens
    let even_later = later + Duration::from_millis(500);
    for i in 0..5 {
        assert_eq!(
            policy.register_event(even_later),
            PolicyDecision::Allow,
            "Event {} after 0.5s should be allowed",
            i
        );
    }
    assert_eq!(policy.register_event(even_later), PolicyDecision::Suppress);
}

#[test]
fn test_token_bucket_recovery_after_quiet() {
    let mut policy = TokenBucketPolicy::new(Tokens(5.0), Tokens(2.0)).unwrap();
    let now = start_time();

    // Use all tokens
    for _ in 0..5 {
        policy.register_event(now);
    }
    assert_eq!(policy.register_event(now), PolicyDecision::Suppress);

    // Wait long enough to fully recover
    let much_later = now + Duration::from_secs(10);
    // Should be back to full capacity (5 tokens)
    for i in 0..5 {
        assert_eq!(
            policy.register_event(much_later),
            PolicyDecision::Allow,
            "Event {} after recovery should be allowed",
            i
        );
    }
    assert_eq!(policy.register_event(much_later), PolicyDecision::Suppress);
}

#[test]
fn test_token_bucket_fractional_refill() {
    let mut policy = TokenBucketPolicy::new(Tokens(10.0), Tokens(0.5)).unwrap(); // 0.5 tokens/sec
    let now = start_time();

    // Use all tokens
    for _ in 0..10 {
        policy.register_event(now);
    }
    assert_eq!(policy.register_event(now), PolicyDecision::Suppress);

    // Wait 3 seconds - should get 1.5 tokens (only 1 usable)
    let later = now + Duration::from_secs(3);
    assert_eq!(policy.register_event(later), PolicyDecision::Allow);
    assert_eq!(policy.register_event(later), PolicyDecision::Suppress); // 0.5 tokens left, not enough

    // Wait 1 more second - should have 1.5 tokens now
    let even_later = later + Duration::from_secs(1);
    assert_eq!(policy.register_event(even_later), PolicyDecision::Allow);
    assert_eq!(policy.register_event(even_later), PolicyDecision::Suppress);
}

#[test]
fn test_token_bucket_reset() {
    let mut policy = TokenBucketPolicy::new(Tokens(5.0), Tokens(1.0)).unwrap();
    let now = start_time();

    // Use all tokens
    for _ in 0..5 {
        policy.register_event(now);
    }
    assert_eq!(policy.register_event(now), PolicyDecision::Suppress);

    // Reset should restore full capacity
    policy.reset();
    for i in 0..5 {
        assert_eq!(
            policy.register_event(now),
            PolicyDecision::Allow,
            "Event {} after reset should be allowed",
            i
        );
    }
    assert_eq!(policy.register_event(now), PolicyDecision::Suppress);
}

#[test]
fn test_token_bucket_capacity_cap() {
    let mut policy = TokenBucketPolicy::new(Tokens(5.0), Tokens(10.0)).unwrap();
    let now = start_time();

    // Use some tokens
    for _ in 0..3 {
        policy.register_event(now);
    }

    // Wait long time - tokens should cap at capacity (5), not grow unbounded
    let much_later = now + Duration::from_secs(100);
    for i in 0..5 {
        assert_eq!(
            policy.register_event(much_later),
            PolicyDecision::Allow,
            "Event {} should be allowed (capped at capacity)",
            i
        );
    }
    assert_eq!(policy.register_event(much_later), PolicyDecision::Suppress);
}

#[test]
fn test_token_bucket_zero_capacity() {
    let result = TokenBucketPolicy::new(Tokens(0.0), Tokens(1.0));
    assert_eq!(result, Err(PolicyError::ZeroCapacity));
}

#[test]
fn test_token_bucket_negative_capacity() {
    let result = TokenBucketPolicy::new(Tokens(-5.0), Tokens(1.0));
    assert_eq!(result, Err(PolicyError::ZeroCapacity));
}

#[test]
fn test_token_bucket_zero_refill_rate() {
    let result = TokenBucketPolicy::new(Tokens(10.0), Tokens(0.0));
    assert_eq!(result, Err(PolicyError::ZeroRefillRate));
}

#[test]
fn test_token_bucket_negative_refill_rate() {
    let result = TokenBucketPolicy::new(Tokens(10.0), Tokens(-2.0));
    assert_eq!(result, Err(PolicyError::ZeroRefillRate));
}

#[test]
fn test_token_bucket_policy_enum() {
    let mut policy = Policy::token_bucket(Tokens(5.0), Tokens(2.0)).unwrap();
    let now = start_time();

    // Test via Policy enum
    for i in 0..5 {
        assert!(
            policy.register_event(now).is_allow(),
            "Event {} should be allowed",
            i
        );
    }
    assert!(policy.register_event(now).is_suppress());

    // Test reset via enum
    policy.reset();
    assert!(policy.register_event(now).is_allow());
}

#[test]
fn test_token_bucket_incremental_refill() {
    let mut policy = TokenBucketPolicy::new(Tokens(1.0), Tokens(10.0)).unwrap(); // 10 tokens/sec, 1 max
    let now = start_time();

    // Use initial token
    assert_eq!(policy.register_event(now), PolicyDecision::Allow);
    assert_eq!(policy.register_event(now), PolicyDecision::Suppress);

    // Incremental refills - 100ms = 1 token
    let t1 = now + Duration::from_millis(100);
    assert_eq!(policy.register_event(t1), PolicyDecision::Allow);
    assert_eq!(policy.register_event(t1), PolicyDecision::Suppress);

    let t2 = t1 + Duration::from_millis(100);
    assert_eq!(policy.register_event(t2), PolicyDecision::Allow);
    assert_eq!(policy.register_event(t2), PolicyDecision::Suppress);
}

#[test]
fn test_token_bucket_same_timestamp_multiple_events() {
    // Regression test: multiple events at the same timestamp should not refill
    let mut policy = TokenBucketPolicy::new(Tokens(5.0), Tokens(2.0)).unwrap();
    let start = start_time();

    // First burst at t=0: use all 5 tokens
    for i in 0..5 {
        assert_eq!(
            policy.register_event(start),
            PolicyDecision::Allow,
            "Event {} should be allowed",
            i
        );
    }

    // Events 6,7,8 at t=0 should be suppressed (no tokens left)
    for i in 5..8 {
        assert_eq!(
            policy.register_event(start),
            PolicyDecision::Suppress,
            "Event {} should be suppressed (no tokens)",
            i
        );
    }

    // After 1 second, should have refilled 2 tokens
    let t1 = start + Duration::from_secs(1);

    // Events at t=1s: should allow exactly 2
    assert_eq!(
        policy.register_event(t1),
        PolicyDecision::Allow,
        "First event after 1s should be allowed"
    );
    assert_eq!(
        policy.register_event(t1),
        PolicyDecision::Allow,
        "Second event after 1s should be allowed"
    );

    // Third event at t=1s should be suppressed (only refilled 2 tokens)
    assert_eq!(
        policy.register_event(t1),
        PolicyDecision::Suppress,
        "Third event after 1s should be suppressed (only 2 tokens refilled)"
    );

    // Fourth and fifth should also be suppressed
    assert_eq!(policy.register_event(t1), PolicyDecision::Suppress);
    assert_eq!(policy.register_event(t1), PolicyDecision::Suppress);
}

#[test]
fn test_token_bucket_time_goes_backwards() {
    let mut policy = TokenBucketPolicy::new(Tokens(10.0), Tokens(5.0)).unwrap();
    let now = start_time();

    // Use 5 tokens
    for _ in 0..5 {
        assert_eq!(policy.register_event(now), PolicyDecision::Allow);
    }
    // 5 tokens remaining

    // Time goes forward - should refill 5 tokens (now have 10)
    let future = now + Duration::from_secs(1);
    for _ in 0..10 {
        assert_eq!(policy.register_event(future), PolicyDecision::Allow);
    }
    // 0 tokens remaining after using all 10

    // Time goes backwards (NTP correction, VM migration, etc.)
    // Should NOT panic and should NOT add/remove tokens
    let past = now + Duration::from_millis(500);
    assert!(past < future, "Test setup: past must be before future");

    // Should still have 0 tokens (time went backwards, no refill)
    assert_eq!(
        policy.register_event(past),
        PolicyDecision::Suppress,
        "Should suppress when no tokens available after time went backwards"
    );

    // Time moves forward again normally (1 second after 'past')
    let future2 = past + Duration::from_secs(1);
    // Should refill 5 tokens based on elapsed time from 'past'
    for i in 0..5 {
        assert_eq!(
            policy.register_event(future2),
            PolicyDecision::Allow,
            "Token {} should be available after normal time progression",
            i
        );
    }

    // 6th should be suppressed
    assert_eq!(policy.register_event(future2), PolicyDecision::Suppress);
}

#[test]
fn test_time_window_with_many_events() {
    // Fill time window with maximum events
    let mut policy = TimeWindowPolicy::new(100, Duration::from_secs(60)).unwrap();
    let now = start_time();

    // Add 100 events
    for i in 0..100 {
        let timestamp = now + Duration::from_millis(i * 10);
        policy.register_event(timestamp);
    }

    // Verify window is full
    assert_eq!(
        policy.register_event(now + Duration::from_millis(1000)),
        PolicyDecision::Suppress
    );

    // After window expires, should allow again
    let later = now + Duration::from_secs(70);
    assert_eq!(policy.register_event(later), PolicyDecision::Allow);
}

#[test]
fn count_based_policy_resumes_where_it_was() {
    let mut policy = CountBasedPolicy::resumed(3, 2);
    assert_eq!(policy.max_count(), 3);
    assert_eq!(policy.current_count(), 2);
    assert!(policy.register_event(start_time()).is_allow());
    assert!(policy.register_event(start_time()).is_suppress());
    assert_eq!(policy.current_count(), 4);
    assert!(!policy.allow_ends_episode());
}

#[test]
fn a_count_that_cannot_grow_stays() {
    for max_count in [3, usize::MAX] {
        let mut policy = CountBasedPolicy::resumed(max_count, usize::MAX);
        for _ in 0..3 {
            assert!(policy.register_event(start_time()).is_suppress());
            assert_eq!(policy.current_count(), usize::MAX);
        }
    }
    let mut last = CountBasedPolicy::resumed(usize::MAX, usize::MAX - 1);
    assert!(last.register_event(start_time()).is_allow());
    assert!(last.register_event(start_time()).is_suppress());
}

#[test]
fn policies_without_room_say_so() {
    assert!(CountBasedPolicy::resumed(3, usize::MAX).has_room());
    assert!(!ExponentialBackoffPolicy::resumed(u64::MAX, 1).has_room());
    assert!(Policy::exponential_backoff().has_room());
}

#[test]
fn backoff_doubling_stops_at_the_largest_number() {
    let half = 1u64 << 63;
    let mut policy = ExponentialBackoffPolicy::resumed(half - 1, half);
    assert!(policy.register_event(start_time()).is_allow());
    assert_eq!(policy.event_count(), half);
    assert_eq!(policy.next_allowed(), u64::MAX);
    assert!(policy.register_event(start_time()).is_suppress());
}

#[test]
fn episodes_end_with_windows_and_backoff_only() {
    assert!(Policy::time_window(1, Duration::from_secs(1)).unwrap().allow_ends_episode());
    assert!(Policy::exponential_backoff().allow_ends_episode());
    assert!(!Policy::count_based(1).unwrap().allow_ends_episode());
    assert!(!Policy::token_bucket(Tokens(1.0), Tokens(1.0)).unwrap().allow_ends_episode());
}

#[test]
fn policy_constructors_report_each_error() {
    assert_eq!(Policy::count_based(0).unwrap_err(), PolicyError::ZeroMaxCount);
    assert_eq!(
        Policy::time_window(0, Duration::zero()).unwrap_err(),
        PolicyError::ZeroMaxEvents
    );
    assert_eq!(
        Policy::time_window(1, Duration::zero()).unwrap_err(),
        PolicyError::ZeroWindowDuration
    );
    assert_eq!(
        Policy::token_bucket(Tokens(0.0), Tokens(0.0)).unwrap_err(),
        PolicyError::ZeroCapacity
    );
    assert_eq!(
        Policy::token_bucket(Tokens(1.0), Tokens(-1.0)).unwrap_err(),
        PolicyError::ZeroRefillRate
    );
}

#[test]
fn policy_errors_have_texts() {
    assert_eq!(PolicyError::ZeroMaxCount.to_string(), "max_count must be greater than 0");
    assert_eq!(PolicyError::ZeroMaxEvents.to_string(), "max_events must be greater than 0");
    assert_eq!(
        PolicyError::ZeroWindowDuration.to_string(),
        "window duration must be greater than 0"
    );
    assert_eq!(PolicyError::ZeroCapacity.to_string(), "capacity must be greater than 0");
    assert_eq!(PolicyError::ZeroRefillRate.to_string(), "refill_rate must be greater than 0");
}

#[test]
fn window_slides_with_the_events_it_allowed() {
    let mut policy = TimeWindowPolicy::new(2, Duration::from_secs(10)).unwrap();
    let now = start_time();
    assert!(policy.register_event(now).is_allow());
    assert!(policy.register_event(now + Duration::from_secs(6)).is_allow());
    // At exactly the length of the window the first event still counts.
    assert!(policy.register_event(now + Duration::from_secs(10)).is_suppress());
    assert!(policy.register_event(now + Duration::from_secs(11)).is_allow());
    assert!(policy.register_event(now + Duration::from_secs(12)).is_suppress());
    assert!(policy.register_event(now + Duration::from_secs(17)).is_allow());
}

#[test]
fn reset_makes_a_policy_as_new() {
    let mut policy = Policy::time_window(1, Duration::from_secs(60)).unwrap();
    assert!(policy.register_event(start_time()).is_allow());
    assert!(policy.register_event(start_time()).is_suppress());
    let mut copy = policy.duplicate();
    policy.reset();
    assert!(policy.register_event(start_time()).is_allow());
    assert!(copy.register_event(start_time()).is_suppress());
}

#[test]
fn window_is_stored_by_distances() {
    let mut policy = TimeWindowPolicy::new(3, Duration::from_secs(60)).unwrap();
    let empty = policy.to_parts();
    assert_eq!(empty.timestamps_nanos, Vec::<u64>::new());
    assert_eq!(empty.base_timestamp_nanos, None);

    let now = start_time();
    policy.register_event(now);
    policy.register_event(now + Duration::from_nanos(7));
    let parts = policy.to_parts();
    assert_eq!(parts.max_events, 3);
    assert_eq!(parts.window_duration_nanos, 60_000_000_000);
    assert_eq!(parts.timestamps_nanos, vec![0, 7]);
    assert_eq!(parts.base_timestamp_nanos, Some(0));
}

#[test]
fn stored_window_is_read_back_from_now_on() {
    let mut policy = TimeWindowPolicy::new(2, Duration::from_secs(60)).unwrap();
    let now = start_time();
    policy.register_event(now);
    policy.register_event(now + Duration::from_secs(30));
    let parts = policy.to_parts();

    let mut assembly = WindowAssembly::new();
    assert_eq!(assembly.expect(WindowField::TimestampsNanos), Ok(()));
    assembly.put(WindowValue::TimestampsNanos(parts.timestamps_nanos.clone()));
    assembly.put(WindowValue::BaseTimestampNanos(parts.base_timestamp_nanos));
    assembly.put(WindowValue::WindowDurationNanos(parts.window_duration_nanos));
    assembly.put(WindowValue::MaxEvents(parts.max_events));
    let later = now + Duration::from_secs(1_000);
    let mut restored = assembly.finish(later).unwrap();
    assert_eq!(restored.to_parts(), parts);
    assert!(restored.register_event(later + Duration::from_secs(60)).is_suppress());
    assert!(restored.register_event(later + Duration::from_secs(61)).is_allow());
    assert!(restored.register_event(later + Duration::from_secs(62)).is_suppress());
}

#[test]
fn long_window_keeps_what_fits_64_bits() {
    let mut assembly = WindowAssembly::new();
    assembly.put(WindowValue::MaxEvents(1));
    assembly.put(WindowValue::WindowDurationNanos((1u128 << 64) + 5));
    assembly.put(WindowValue::TimestampsNanos(vec![]));
    let restored = assembly.finish(start_time()).unwrap();
    assert_eq!(restored.to_parts().window_duration_nanos, 5);
}

#[test]
fn window_fields_occur_once_and_are_all_there() {
    let mut assembly = WindowAssembly::new();
    assert_eq!(
        assembly.clone().finish(start_time()),
        Err(FieldError::Missing(WindowField::MaxEvents))
    );
    assembly.put(WindowValue::MaxEvents(1));
    assert_eq!(
        assembly.expect(WindowField::MaxEvents),
        Err(FieldError::Duplicate(WindowField::MaxEvents))
    );
    assert_eq!(
        assembly.clone().finish(start_time()),
        Err(FieldError::Missing(WindowField::WindowDurationNanos))
    );
    assembly.put(WindowValue::WindowDurationNanos(1));
    assert_eq!(
        assembly.clone().finish(start_time()),
        Err(FieldError::Missing(WindowField::TimestampsNanos))
    );
    assembly.put(WindowValue::BaseTimestampNanos(None));
    assert_eq!(assembly.expect(WindowField::BaseTimestampNanos), Ok(()));
    assert_eq!(WindowField::MaxEvents.name(), "max_events");
    assert_eq!(WindowField::WindowDurationNanos.name(), "window_duration_nanos");
    assert_eq!(WindowField::TimestampsNanos.name(), "timestamps_nanos");
    assert_eq!(WindowField::BaseTimestampNanos.name(), "base_timestamp_nanos");
}

#[test]
fn stored_bucket_keeps_its_tokens() {
    let mut policy = TokenBucketPolicy::new(Tokens(5.0), Tokens(2.0)).unwrap();
    policy.register_event(start_time());
    policy.register_event(start_time());
    let parts = policy.to_parts();
    assert_eq!(parts.tokens, Tokens(3.0));
    assert!(parts.has_last_refill);

    let mut assembly = BucketAssembly::new();
    assembly.put(BucketValue::Capacity(parts.capacity));
    assembly.put(BucketValue::RefillRate(parts.refill_rate));
    assembly.put(BucketValue::Tokens(parts.tokens));
    assembly.put(BucketValue::HasLastRefill(parts.has_last_refill));
    let mut restored = assembly.finish().unwrap();
    assert!(!restored.to_parts().has_last_refill);
    // The first event after reading back adds no tokens, however late it comes.
    let later = start_time() + Duration::from_secs(100);
    for _ in 0..3 {
        assert!(restored.register_event(later).is_allow());
    }
    assert!(restored.register_event(later).is_suppress());
}

#[test]
fn bucket_fields_occur_once_and_are_all_there() {
    let mut assembly: BucketAssembly<Tokens> = BucketAssembly::new();
    assert_eq!(assembly.finish(), Err(FieldError::Missing(BucketField::Capacity)));
    assembly.put(BucketValue::Capacity(Tokens(1.0)));
    assert_eq!(
        assembly.expect(BucketField::Capacity),
        Err(FieldError::Duplicate(BucketField::Capacity))
    );
    assert_eq!(assembly.finish(), Err(FieldError::Missing(BucketField::RefillRate)));
    assembly.put(BucketValue::RefillRate(Tokens(1.0)));
    assert_eq!(assembly.finish(), Err(FieldError::Missing(BucketField::Tokens)));
    assembly.put(BucketValue::HasLastRefill(true));
    assert_eq!(assembly.expect(BucketField::HasLastRefill), Ok(()));
    assembly.put(BucketValue::Tokens(Tokens(0.5)));
    assert_eq!(assembly.finish().unwrap().to_parts().tokens, Tokens(0.5));
    assert_eq!(BucketField::Capacity.name(), "capacity");
    assert_eq!(BucketField::RefillRate.name(), "refill_rate");
    assert_eq!(BucketField::Tokens.name(), "tokens");
    assert_eq!(BucketField::HasLastRefill.name(), "has_last_refill");
}
