//! Tests of counters, summaries and what they are made of.

use tracing_throttle::domain::fields::FieldMap;
use tracing_throttle::domain::metadata::EventMetadata;
use tracing_throttle::domain::names::NameSet;
use tracing_throttle::domain::signature::EventSignature;
use tracing_throttle::domain::summary::{SuppressionCounter, SuppressionSummary};
use tracing_throttle::domain::time::{Duration, Instant};

fn start_time() -> Instant {
    Instant::origin() + Duration::from_secs(1_000)
}

fn field_map(pairs: &[(&str, &str)]) -> FieldMap {
    let mut fields = FieldMap::new();
    for (name, value) in pairs {
        fields.insert(name.to_string(), value.to_string());
    }
    fields
}

fn details() -> EventMetadata {
    EventMetadata::new(
        "WARN".to_string(),
        "disk full".to_string(),
        "app::disk".to_string(),
        field_map(&[("mount", "/var"), ("device", "sda")]),
    )
}

#[test]
fn test_suppression_counter_basic() {
    let now = start_time();
    let mut counter = SuppressionCounter::new(now);

    assert_eq!(counter.count(), 0);

    counter.record_suppression(now);
    assert_eq!(counter.count(), 1);

    counter.record_suppression(now);
    assert_eq!(counter.count(), 2);
}

#[test]
fn test_suppression_counter_timestamps() {
    let start = start_time();
    let mut counter = SuppressionCounter::new(start);

    let later = start + Duration::from_millis(10);
    counter.record_suppression(later);

    let first = counter.first_suppressed();
    let last = counter.last_suppressed();

    // First should be approximately start
    assert!(first.saturating_duration_since(start) < Duration::from_millis(5));

    // Last should be approximately later
    assert!(last.saturating_duration_since(later) < Duration::from_millis(5));
}

#[test]
fn test_suppression_counter_reset() {
    let now = start_time();
    let mut counter = SuppressionCounter::new(now);

    counter.record_suppression(now);
    counter.record_suppression(now);
    assert_eq!(counter.count(), 2);

    counter.reset(now);
    assert_eq!(counter.count(), 0);
}

#[test]
fn test_claim_unreported_basic() {
    let now = start_time();
    let mut counter = SuppressionCounter::new(now);

    // Nothing to claim on a fresh counter
    assert!(counter.claim_unreported().is_none());

    counter.record_suppression(now + Duration::from_secs(1));
    counter.record_suppression(now + Duration::from_secs(2));

    let claim = counter.claim_unreported().expect("should claim 2");
    assert_eq!(claim.count, 2);
    assert_eq!(counter.reported(), 2);

    // Nothing new to claim until further suppressions occur
    assert!(counter.claim_unreported().is_none());

    counter.record_suppression(now + Duration::from_secs(3));
    let claim = counter.claim_unreported().expect("should claim delta");
    assert_eq!(claim.count, 1);
    assert!(counter.claim_unreported().is_none());
}

#[test]
fn test_claim_unreported_range_timestamps() {
    let now = start_time();
    let mut counter = SuppressionCounter::new(now);

    counter.record_suppression(now + Duration::from_secs(2));
    let claim = counter.claim_unreported().unwrap();
    // First claim spans from counter creation to last suppression
    assert_eq!(claim.since, now);
    assert_eq!(claim.until, now + Duration::from_secs(2));

    counter.record_suppression(now + Duration::from_secs(5));
    let claim = counter.claim_unreported().unwrap();
    // Subsequent claims start at the previous claim's boundary
    assert_eq!(claim.since, now + Duration::from_secs(2));
    assert_eq!(claim.until, now + Duration::from_secs(5));
}

#[test]
fn test_reset_clears_reported() {
    let now = start_time();
    let mut counter = SuppressionCounter::new(now);

    counter.record_suppression(now);
    counter.claim_unreported().unwrap();
    assert_eq!(counter.reported(), 1);

    counter.reset(now);
    assert_eq!(counter.reported(), 0);
    assert!(counter.claim_unreported().is_none());
}

#[test]
fn test_summary_from_unreported() {
    let sig = EventSignature::simple("INFO", "Test");
    let now = start_time();
    let mut counter = SuppressionCounter::new(now);

    for i in 1..=9 {
        counter.record_suppression(now + Duration::from_secs(i));
    }
    counter.claim_unreported().unwrap();

    for i in 10..=12 {
        counter.record_suppression(now + Duration::from_secs(i));
    }
    let claim = counter.claim_unreported().unwrap();
    let summary = SuppressionSummary::from_unreported(sig, claim, None);

    assert_eq!(summary.count, 3);
    assert_eq!(summary.duration, Duration::from_secs(3));
    assert_eq!(summary.signature, sig);
}

#[test]
fn test_suppression_summary_creation() {
    let sig = EventSignature::simple("INFO", "Test message");
    let start = start_time();
    let mut counter = SuppressionCounter::new(start);

    counter.record_suppression(start + Duration::from_millis(10));

    let summary = SuppressionSummary::from_counter(sig, &counter);

    assert_eq!(summary.signature, sig);
    assert_eq!(summary.count, 1);
    assert!(summary.duration >= Duration::from_millis(10));
}

#[test]
fn test_suppression_summary_message() {
    let sig = EventSignature::simple("INFO", "Test");
    let now = start_time();
    let mut counter = SuppressionCounter::new(now);
    counter.record_suppression(now);

    let summary = SuppressionSummary::from_counter(sig, &counter);
    let message = summary.format_message();

    assert!(message.contains("suppressed 1 times"));
    assert!(message.contains(&sig.to_string()));
}

#[test]
fn test_very_large_suppression_count() {
    let now = start_time();
    let mut counter = SuppressionCounter::new(now);

    // Simulate a very large number of suppressions
    for _ in 0..10_000 {
        counter.record_suppression(now);
    }

    assert_eq!(counter.count(), 10_000);
}

#[test]
fn test_zero_duration_summary() {
    let sig = EventSignature::simple("INFO", "Test");
    let now = start_time();
    let counter = SuppressionCounter::new(now);

    // Immediately create summary (same timestamp)
    let summary = SuppressionSummary::from_counter(sig, &counter);

    assert_eq!(summary.count, 0);
    assert!(summary.duration < Duration::from_millis(1));
}

#[test]
fn test_reset_multiple_times() {
    let now = start_time();
    let mut counter = SuppressionCounter::new(now);

    counter.record_suppression(now);
    assert_eq!(counter.count(), 1);

    counter.reset(now);
    assert_eq!(counter.count(), 0);

    counter.record_suppression(now);
    assert_eq!(counter.count(), 1);

    counter.reset(now);
    assert_eq!(counter.count(), 0);
}

#[test]
fn test_clone_preserves_state() {
    let now = start_time();
    let mut counter = SuppressionCounter::new(now);

    counter.record_suppression(now);
    counter.record_suppression(now);

    let cloned = counter.clone();

    assert_eq!(counter.count(), cloned.count());
    assert_eq!(counter.first_suppressed(), cloned.first_suppressed());
    assert_eq!(counter.last_suppressed(), cloned.last_suppressed());
}

#[test]
fn test_clone_independence() {
    let now = start_time();
    let mut counter1 = SuppressionCounter::new(now);
    let counter2 = counter1.clone();

    // Modify counter1
    counter1.record_suppression(now);

    // counter2 should not be affected
    assert_eq!(counter1.count(), 1);
    assert_eq!(counter2.count(), 0);
}

#[test]
fn test_very_large_suppression_count_stress() {
    let now = start_time();
    let mut counter = SuppressionCounter::new(now);

    // Simulate a huge number of suppressions
    for _ in 0..100_000 {
        counter.record_suppression(now);
    }

    assert_eq!(counter.count(), 100_000);
}

#[test]
fn test_timestamp_persistence_over_time() {
    let start = start_time();
    let mut counter = SuppressionCounter::new(start);

    // Record suppressions over time
    for i in 1..=10 {
        let timestamp = start + Duration::from_millis(i * 100);
        counter.record_suppression(timestamp);
    }

    // First timestamp should be preserved
    let first = counter.first_suppressed();
    let duration_from_start = first.duration_since(start);
    assert!(duration_from_start < Duration::from_millis(10));

    // Last timestamp should be the most recent
    let last = counter.last_suppressed();
    let expected_last = start + Duration::from_millis(1000);
    let duration_diff = last.duration_since(expected_last);
    assert!(duration_diff < Duration::from_millis(10));
}

#[test]
fn test_epoch_overflow_handling() {
    // Test with duration that would overflow u64 nanoseconds
    let base = SuppressionCounter::base_instant();
    let now = base;

    let mut counter = SuppressionCounter::new(now);

    // Try to record at a time far in the future
    // Duration::from_secs(u64::MAX / 1_000_000_000) would be ~584 years
    // This tests saturation behavior
    let far_future = now + Duration::from_secs(600 * 365 * 24 * 3600); // 600 years

    counter.record_suppression(far_future);

    // Should not panic, timestamps should saturate gracefully
    let _first = counter.first_suppressed();
    let _last = counter.last_suppressed();
    assert!(counter.count() > 0);
}

#[test]
fn test_base_instant_consistency() {
    // base_instant should be consistent across calls
    let base1 = SuppressionCounter::base_instant();
    let base2 = SuppressionCounter::base_instant();

    assert_eq!(base1, base2, "base_instant should be consistent");
}

#[test]
fn test_nanos_conversion_roundtrip() {
    let now = start_time();
    let counter = SuppressionCounter::new(now);

    // Convert to nanos and back
    let first = counter.first_suppressed();
    let last = counter.last_suppressed();

    // Both should be close to 'now'
    assert!(first.duration_since(now) < Duration::from_millis(10));
    assert!(last.duration_since(now) < Duration::from_millis(10));
}

#[test]
fn test_summary_with_zero_duration() {
    let sig = EventSignature::simple("INFO", "Test");
    let now = start_time();
    let counter = SuppressionCounter::new(now);

    // Create summary immediately - same timestamp for first and last
    let summary = SuppressionSummary::from_counter(sig, &counter);

    assert_eq!(summary.count, 0);
    assert_eq!(summary.duration, Duration::from_secs(0));
    assert_eq!(summary.first_suppressed, summary.last_suppressed);
}

#[test]
fn test_snapshot_roundtrip() {
    let now = start_time();
    let mut counter = SuppressionCounter::new(now);

    counter.record_suppression(now + Duration::from_secs(1));
    counter.record_suppression(now + Duration::from_secs(2));

    let snapshot = counter.snapshot();

    let restored = SuppressionCounter::from_snapshot(
        snapshot.suppressed_count,
        snapshot.first_suppressed,
        snapshot.last_suppressed,
    );

    assert_eq!(counter.count(), restored.count());
    // Note: timestamps may have slight differences due to serialization precision
    let first_diff = counter
        .first_suppressed()
        .duration_since(restored.first_suppressed());
    let last_diff = counter
        .last_suppressed()
        .duration_since(restored.last_suppressed());

    assert!(first_diff < Duration::from_millis(1));
    assert!(last_diff < Duration::from_millis(1));
}

#[test]
fn claims_of_reporters_that_race_cover_each_suppression_once() {
    let now = start_time();
    let mut counter = SuppressionCounter::new(now);
    for _ in 0..100 {
        counter.record_suppression(now);
    }
    let seen = counter.count();
    counter.record_suppression(now);
    let mut total = 0;
    for _ in 0..8 {
        total += counter.claim_seen(seen).map_or(0, |c| c.count);
    }
    assert_eq!(total, 100);
    assert_eq!(counter.claim_unreported().map(|c| c.count), Some(1));
}

#[test]
fn times_beyond_64_bits_are_cut_off() {
    let far = Instant::after_origin(Duration::from_secs(u64::MAX));
    let counter = SuppressionCounter::new(far);
    assert_eq!(SuppressionCounter::instant_to_nanos(far), u64::MAX);
    assert_eq!(
        counter.first_suppressed(),
        SuppressionCounter::nanos_to_instant(u64::MAX)
    );
}

#[test]
fn summary_message_without_details_shows_signature_and_span() {
    let sig = EventSignature { digest: 0x2a };
    let now = start_time();
    let mut counter = SuppressionCounter::new(now);
    for _ in 0..12 {
        counter.record_suppression(now + Duration::from_millis(1500));
    }
    let summary = SuppressionSummary::from_counter(sig, &counter);
    assert_eq!(
        summary.format_message(),
        "Event suppressed 12 times over 1.5s (signature: 000000000000002a)"
    );
    assert_eq!(summary.format_detailed(), summary.format_message());
}

#[test]
fn summary_message_with_details_shows_the_event() {
    let sig = EventSignature { digest: 1 };
    let now = start_time();
    let mut counter = SuppressionCounter::new(now);
    counter.record_suppression(now + Duration::from_millis(1500));
    let summary =
        SuppressionSummary::from_counter_with_metadata(sig, &counter, Some(details()));
    assert_eq!(
        summary.format_message(),
        "Suppressed 1 times over 1.50s: [WARN] app::disk: disk full"
    );
    assert_eq!(
        summary.format_detailed(),
        "Suppressed 1 times over 1.50s: [WARN] app::disk: disk full {device=sda, mount=/var}"
    );
    let copy = summary.clone();
    assert_eq!(copy.format_detailed(), summary.format_detailed());
}

#[test]
fn summary_message_takes_the_time_as_text() {
    let counter = SuppressionCounter::new(start_time());
    let sig = EventSignature { digest: 0xabc };
    let bare = SuppressionSummary::from_counter(sig, &counter);
    assert_eq!(
        bare.message_over("a while"),
        "Event suppressed 0 times over a while (signature: 0000000000000abc)"
    );
    let known = SuppressionSummary::from_counter_with_metadata(sig, &counter, Some(details()));
    assert_eq!(
        known.details_over("7"),
        "Suppressed 0 times over 7s: [WARN] app::disk: disk full {device=sda, mount=/var}"
    );
}

#[test]
fn details_without_fields_have_no_braces() {
    let metadata = EventMetadata::new(
        "INFO".to_string(),
        "hello".to_string(),
        "app".to_string(),
        FieldMap::new(),
    );
    assert_eq!(metadata.format_brief(), "[INFO] app: hello");
    assert_eq!(metadata.format_detailed(), "[INFO] app: hello");
}

#[test]
fn signature_does_not_depend_on_the_order_of_fields() {
    let one = field_map(&[("a", "1"), ("b", "2")]);
    let two = field_map(&[("b", "2"), ("a", "1")]);
    assert_eq!(
        EventSignature::new("INFO", "m", &one, Some("t")),
        EventSignature::new("INFO", "m", &two, Some("t"))
    );
}

#[test]
fn signature_tells_events_apart() {
    let none = FieldMap::new();
    let base = EventSignature::new("INFO", "m", &none, Some("t"));
    assert_ne!(base, EventSignature::new("WARN", "m", &none, Some("t")));
    assert_ne!(base, EventSignature::new("INFO", "n", &none, Some("t")));
    assert_ne!(base, EventSignature::new("INFO", "m", &none, Some("u")));
    assert_ne!(base, EventSignature::new("INFO", "m", &none, None));
    assert_ne!(
        base,
        EventSignature::new("INFO", "m", &field_map(&[("a", "1")]), Some("t"))
    );
    assert_ne!(
        EventSignature::new("INFO", "m", &field_map(&[("a", "12")]), None),
        EventSignature::new("INFO", "m", &field_map(&[("a1", "2")]), None)
    );
    assert_eq!(
        EventSignature::simple("INFO", "m"),
        EventSignature::new("INFO", "m", &none, None)
    );
}

#[test]
fn fields_are_replaced_merged_and_left_out() {
    let mut fields = field_map(&[("b", "1"), ("a", "2"), ("b", "3")]);
    assert_eq!(fields.len(), 2);
    assert_eq!(fields.get("b").map(|v| v.as_str()), Some("3"));
    assert_eq!(fields.get("c"), None);
    assert_eq!(fields.field_at(0).name, "a");
    fields.extend(&field_map(&[("a", "4"), ("c", "5")]));
    assert_eq!(fields.len(), 3);
    assert_eq!(fields.get("a").map(|v| v.as_str()), Some("4"));
    let kept = fields.without(&NameSet::from_names(vec!["b".to_string(), "x".to_string()]));
    assert_eq!(kept.len(), 2);
    assert_eq!(kept.get("b"), None);
}

#[test]
fn names_are_sorted_without_repetition() {
    let names = NameSet::from_names(vec![
        "b".to_string(),
        "".to_string(),
        "a".to_string(),
        "b".to_string(),
    ]);
    assert_eq!(names.len(), 2);
    assert_eq!(names.name_at(0), "a");
    assert_eq!(names.name_at(1), "b");
    assert!(names.contains("a"));
    assert!(!names.contains(""));
    assert!(NameSet::empty().is_empty());
}

#[test]
fn spans_have_parts() {
    let span = Duration::from_parts(3, 250_000_000);
    assert_eq!(span.as_nanos(), 3_250_000_000);
    assert_eq!(span.as_secs(), 3);
    assert_eq!(span.subsec_nanos(), 250_000_000);
    assert_eq!(start_time().since_origin(), Duration::from_secs(1_000));
    assert_eq!(
        Instant::after_origin(Duration::from_secs(u64::MAX)).checked_add(Duration::from_secs(1)),
        None
    );
}
