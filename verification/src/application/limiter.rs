//! Decides about events and keeps count.

use vstd::prelude::*;

use crate::application::circuit_breaker;
use crate::application::circuit_breaker::{BreakerModel, CircuitBreaker};
use crate::application::metrics;
use crate::application::metrics::{Metrics, MetricsSnapshot};
use crate::application::ports;
use crate::application::ports::{SharedClock, Storage};
use crate::application::registry;
use crate::application::registry::{EventState, StateModel, SuppressionRegistry};
use crate::domain::metadata;
use crate::domain::metadata::{EventMetadata, MetadataModel};
use crate::domain::policy;
use crate::domain::policy::token_bucket;
use crate::domain::policy::{Policy, PolicyDecision, PolicyModel, RateLimitPolicy, TokenAmount};
use crate::domain::signature::EventSignature;
use crate::domain::summary;
use crate::domain::summary::{SummaryModel, SuppressionSummary};
use crate::domain::time::Instant;

verus! {

/// What happens to an event.
#[derive(Debug, Clone, Copy, PartialEq, Eq, Structural)]
pub enum LimitDecision {
    /// The event passes.
    Allow,
    /// The event is suppressed.
    Suppress,
}

/// The contents of an optional summary.
pub open spec fn optional_summary(s: Option<SuppressionSummary>) -> Option<SummaryModel> {
    match s {
        None => None,
        Some(summary) => Some(summary@),
    }
}

/// Whether the policy of an event has room in its counters for one more.
pub open spec fn can_decide<A: TokenAmount>(s: StateModel<A>) -> bool {
    Policy::<A>::has_room_in(s.policy)
}

/// What deciding about an event makes of its state.
///
/// Details are kept if there were none. A suppression is counted. Where summaries
/// are claimed, an event that ends a run of suppressions comes with a summary of
/// those that no summary has covered yet.
pub open spec fn decides<A: TokenAmount>(
    before: StateModel<A>,
    signature: EventSignature,
    details: Option<MetadataModel>,
    claims: bool,
    at: nat,
    decision: LimitDecision,
    episode: Option<SummaryModel>,
    after: StateModel<A>,
) -> bool {
    let known = registry::with_details(before, details);
    &&& after.metadata == known.metadata
    &&& match decision {
        LimitDecision::Suppress => {
            &&& Policy::<A>::steps(known.policy, at, PolicyDecision::Suppress, after.policy)
            &&& after.counter == summary::counter_after_suppression(known.counter, at)
            &&& episode is None
        },
        LimitDecision::Allow => {
            &&& Policy::<A>::steps(known.policy, at, PolicyDecision::Allow, after.policy)
            &&& if claims && Policy::<A>::allow_ends_episode_in(after.policy) && summary::has_news(
                known.counter,
                known.counter.count,
            ) {
                &&& after.counter == summary::counter_after_claim(
                    known.counter,
                    known.counter.count,
                )
                &&& episode == Some(
                    summary::summary_of_claim(signature, known.counter, known.metadata),
                )
            } else {
                &&& after.counter == known.counter
                &&& episode is None
            }
        },
    }
}

/// Decides about an event, with its details, and claims what is to be summarised.
///
/// Returns `None`, and only keeps the details, if the counters of the policy have
/// no room for another event.
pub fn decide<A: TokenAmount>(
    state: &mut EventState<A>,
    signature: EventSignature,
    metadata: Option<EventMetadata>,
    claims: bool,
    now: Instant,
) -> (r: Option<(LimitDecision, Option<SuppressionSummary>)>)
    ensures
        r is Some <==> can_decide(old(state)@),
        r is None ==> final(state)@ == registry::with_details(
            old(state)@,
            metadata::optional_metadata(metadata),
        ),
        r matches Some(outcome) ==> decides(
            old(state)@,
            signature,
            metadata::optional_metadata(metadata),
            claims,
            now@,
            outcome.0,
            optional_summary(outcome.1),
            final(state)@,
        ),
{
    if let Some(details) = metadata {
        state.set_metadata(details);
    }
    if !state.policy.has_room() {
        return None;
    }
    match state.policy.register_event(now) {
        PolicyDecision::Suppress => {
            state.counter.record_suppression(now);
            Some((LimitDecision::Suppress, None))
        },
        PolicyDecision::Allow => {
            if claims && state.policy.allow_ends_episode() {
                if let Some(unreported) = state.counter.claim_unreported() {
                    let episode = SuppressionSummary::from_unreported(
                        signature,
                        unreported,
                        metadata::clone_metadata(&state.metadata),
                    );
                    return Some((LimitDecision::Allow, Some(episode)));
                }
            }
            Some((LimitDecision::Allow, None))
        },
    }
}

/// The state of a [`RateLimiter`].
pub struct LimiterModel<A> {
    /// The events that are tracked.
    pub states: Map<EventSignature, EventState<A>>,
    /// The state in which the policy of every new event starts.
    pub first_policy: PolicyModel<A>,
    /// The clock.
    pub clock: SharedClock,
    /// Number of signatures that the storage has evicted.
    pub evicted: u64,
    /// Whether the counters tell of signatures that the storage evicts.
    pub counts_evictions: bool,
    /// The counters.
    pub metrics: MetricsSnapshot,
    /// The circuit breaker.
    pub breaker: BreakerModel,
    /// The clock of the circuit breaker.
    pub breaker_clock: SharedClock,
}

/// When the steps of a check happen.
#[derive(Debug, Clone, Copy)]
pub struct CheckTimes {
    /// When the circuit breaker is asked, by its own clock.
    pub asked: Instant,
    /// When the event happens.
    pub event: Instant,
    /// When the circuit breaker is told how the check came out, by its own clock.
    pub concluded: Instant,
}

/// Whether the clocks of a limiter show these times, as far as they are read: where
/// the circuit breaker turns the check away, only the first is.
pub open spec fn shown<A>(m: LimiterModel<A>, times: CheckTimes) -> bool {
    &&& m.breaker_clock.shows(times.asked)
    &&& circuit_breaker::breaker_admits(m.breaker, times.asked@) ==> {
        &&& m.clock.shows(times.event)
        &&& m.breaker_clock.shows(times.concluded)
    }
}

/// Counters once the storage has evicted more signatures.
pub open spec fn with_evictions(
    m: MetricsSnapshot,
    counts_evictions: bool,
    before: u64,
    after: u64,
) -> MetricsSnapshot {
    if counts_evictions {
        MetricsSnapshot {
            signatures_evicted: ((m.signatures_evicted + after - before)
                % 0x1_0000_0000_0000_0000) as u64,
            ..m
        }
    } else {
        m
    }
}

/// A limiter whose registry has changed.
pub open spec fn with_registry<A>(
    m: LimiterModel<A>,
    states: Map<EventSignature, EventState<A>>,
    evicted: u64,
) -> LimiterModel<A> {
    LimiterModel {
        states,
        evicted,
        metrics: with_evictions(m.metrics, m.counts_evictions, m.evicted, evicted),
        ..m
    }
}

/// What a check makes of the storage behind a limiter: an access to the signature,
/// unless the circuit breaker turns it away.
pub open spec fn stores<A: TokenAmount, S: Storage<EventState<A>>>(
    before: S,
    admitted: bool,
    signature: EventSignature,
    after: S,
) -> bool {
    if admitted {
        S::follows(before, signature, after)
    } else {
        after == before
    }
}

/// Counters after one more decision.
pub open spec fn counted(m: MetricsSnapshot, decision: LimitDecision) -> MetricsSnapshot {
    match decision {
        LimitDecision::Allow => MetricsSnapshot {
            events_allowed: metrics::advanced(m.events_allowed, 1),
            ..m
        },
        LimitDecision::Suppress => MetricsSnapshot {
            events_suppressed: metrics::advanced(m.events_suppressed, 1),
            ..m
        },
    }
}

/// What an attempt to decide about an event makes of the events that are tracked.
pub open spec fn attempts<A: TokenAmount>(
    before: LimiterModel<A>,
    signature: EventSignature,
    details: Option<MetadataModel>,
    claims: bool,
    at: nat,
    outcome: Option<(LimitDecision, Option<SuppressionSummary>)>,
    after: LimiterModel<A>,
    start: EventState<A>,
    end: EventState<A>,
) -> bool {
    &&& registry::state_begins(before.states, before.first_policy, signature, at, start)
    &&& ports::accessed(before.states, signature, end, after.states)
    &&& after.evicted == metrics::advanced(
        before.evicted,
        (before.states.dom().insert(signature).len() - after.states.dom().len()) as nat,
    )
    &&& outcome is Some <==> can_decide(start@)
    &&& outcome is None ==> end@ == registry::with_details(start@, details)
    &&& outcome matches Some(o) ==> decides(
        start@,
        signature,
        details,
        claims,
        at,
        o.0,
        optional_summary(o.1),
        end@,
    )
}

/// The state of a limiter once an attempt has been concluded.
pub open spec fn concluded<A>(
    before: LimiterModel<A>,
    outcome: Option<LimitDecision>,
    at: nat,
) -> LimiterModel<A> {
    match outcome {
        Some(decision) => LimiterModel {
            breaker: circuit_breaker::breaker_after_success(before.breaker),
            metrics: counted(before.metrics, decision),
            ..before
        },
        None => LimiterModel {
            breaker: circuit_breaker::breaker_after_failure(before.breaker, at),
            metrics: counted(before.metrics, LimitDecision::Allow),
            ..before
        },
    }
}

/// What is decided when an attempt comes out so: events pass where it failed.
pub open spec fn decision_for(outcome: Option<LimitDecision>) -> LimitDecision {
    match outcome {
        Some(decision) => decision,
        None => LimitDecision::Allow,
    }
}

/// The decision of an attempt, if it did not fail.
pub open spec fn decision_in(
    outcome: Option<(LimitDecision, Option<SuppressionSummary>)>,
) -> Option<LimitDecision> {
    match outcome {
        Some(o) => Some(o.0),
        None => None,
    }
}

/// What is returned when an attempt comes out so: events pass where it failed.
pub open spec fn result_for(
    outcome: Option<(LimitDecision, Option<SuppressionSummary>)>,
) -> (LimitDecision, Option<SuppressionSummary>) {
    match outcome {
        Some(o) => o,
        None => (LimitDecision::Allow, None),
    }
}

/// What an event makes of a limiter, and what is decided about it.
pub open spec fn checks<A: TokenAmount>(
    before: LimiterModel<A>,
    signature: EventSignature,
    details: Option<MetadataModel>,
    claims: bool,
    times: CheckTimes,
    result: (LimitDecision, Option<SuppressionSummary>),
    after: LimiterModel<A>,
) -> bool {
    let asked = LimiterModel {
        breaker: circuit_breaker::breaker_after_request(before.breaker, times.asked@),
        ..before
    };
    if !circuit_breaker::breaker_admits(before.breaker, times.asked@) {
        &&& result.0 is Allow
        &&& result.1 is None
        &&& after == (LimiterModel {
            metrics: counted(before.metrics, LimitDecision::Allow),
            ..asked
        })
    } else {
        exists|
            start: EventState<A>,
            end: EventState<A>,
            outcome: Option<(LimitDecision, Option<SuppressionSummary>)>,
        |
            {
                &&& #[trigger] attempts(
                    before,
                    signature,
                    details,
                    claims,
                    times.event@,
                    outcome,
                    after,
                    start,
                    end,
                )
                &&& result == result_for(outcome)
                &&& after == concluded(
                    with_registry(asked, after.states, after.evicted),
                    decision_in(outcome),
                    times.concluded@,
                )
            }
    }
}

/// Decides which events pass.
pub struct RateLimiter<A, S> {
    registry: SuppressionRegistry<A, S>,
    counts_evictions: bool,
    /// Where evictions are counted, those of the storage come on top.
    metrics: Metrics,
    circuit_breaker: CircuitBreaker,
}

impl<A: TokenAmount, S: Storage<EventState<A>>> RateLimiter<A, S> {
    /// Whether the limiter is in order.
    pub closed spec fn well_formed(&self) -> bool {
        self.registry.well_formed()
    }

    /// The storage behind the limiter.
    pub closed spec fn backend(&self) -> S {
        self.registry.backend()
    }

    /// The state of the limiter.
    pub closed spec fn model(&self) -> LimiterModel<A> {
        LimiterModel {
            states: self.registry.states(),
            first_policy: self.registry.first_policy(),
            clock: self.registry.clock(),
            evicted: self.registry.evicted(),
            counts_evictions: self.counts_evictions,
            metrics: if self.counts_evictions {
                MetricsSnapshot {
                    signatures_evicted: metrics::advanced(
                        self.metrics@.signatures_evicted,
                        self.registry.evicted() as nat,
                    ),
                    ..self.metrics@
                }
            } else {
                self.metrics@
            },
            breaker: self.circuit_breaker@,
            breaker_clock: self.circuit_breaker.clock(),
        }
    }

    /// A limiter over a registry. Its counters do not tell of signatures that the
    /// storage evicts.
    pub fn new(
        registry: SuppressionRegistry<A, S>,
        metrics: Metrics,
        circuit_breaker: CircuitBreaker,
    ) -> (r: RateLimiter<A, S>)
        requires
            registry.well_formed(),
        ensures
            r.well_formed(),
            r.model() == (LimiterModel {
                states: registry.states(),
                first_policy: registry.first_policy(),
                clock: registry.clock(),
                evicted: registry.evicted(),
                counts_evictions: false,
                metrics: metrics@,
                breaker: circuit_breaker@,
                breaker_clock: circuit_breaker.clock(),
            }),
            r.backend() == registry.backend(),
    {
        RateLimiter { registry, counts_evictions: false, metrics, circuit_breaker }
    }

    /// The same limiter, but its counters tell of all signatures that the storage
    /// evicts from now on.
    pub fn counting_evictions(self) -> (r: RateLimiter<A, S>)
        requires
            self.well_formed(),
        ensures
            r.well_formed(),
            r.model() == (LimiterModel { counts_evictions: true, ..self.model() }),
            r.backend() == self.backend(),
    {
        if self.counts_evictions {
            return self;
        }
        let evicted: u64 = self.registry.evicted_count();
        let metrics = self.metrics.with_evicted(0u64.wrapping_sub(evicted));
        let limiter = RateLimiter { counts_evictions: true, metrics, ..self };
        assert(limiter.model() == (LimiterModel { counts_evictions: true, ..self.model() }));
        limiter
    }

    /// Asks the circuit breaker whether an attempt may be made. If not, the event
    /// passes and is counted.
    pub fn request(&mut self, now: Instant) -> (r: bool)
        requires
            old(self).well_formed(),
        ensures
            final(self).well_formed(),
            r == circuit_breaker::breaker_admits(old(self).model().breaker, now@),
            final(self).model() == (LimiterModel {
                breaker: circuit_breaker::breaker_after_request(old(self).model().breaker, now@),
                metrics: if r {
                    old(self).model().metrics
                } else {
                    counted(old(self).model().metrics, LimitDecision::Allow)
                },
                ..old(self).model()
            }),
            final(self).backend() == old(self).backend(),
    {
        if !self.circuit_breaker.allow_request_at(now) {
            self.metrics.record_allowed();
            return false;
        }
        true
    }

    /// Attempts to decide about an event.
    ///
    /// Returns `None` if the counters of its policy have no room for another event.
    pub fn attempt(
        &mut self,
        signature: EventSignature,
        metadata: Option<EventMetadata>,
        claims: bool,
        now: Instant,
    ) -> (r: Option<(LimitDecision, Option<SuppressionSummary>)>)
        requires
            old(self).well_formed(),
        ensures
            final(self).well_formed(),
            exists|start: EventState<A>, end: EventState<A>| #[trigger]
                attempts(
                    old(self).model(),
                    signature,
                    metadata::optional_metadata(metadata),
                    claims,
                    now@,
                    r,
                    final(self).model(),
                    start,
                    end,
                ),
            final(self).model() == with_registry(
                old(self).model(),
                final(self).model().states,
                final(self).model().evicted,
            ),
            S::follows(old(self).backend(), signature, final(self).backend()),
    {
        let ghost details = metadata::optional_metadata(metadata);
        let f = move |state: &mut EventState<A>, at: Instant| -> (out: Option<
            (LimitDecision, Option<SuppressionSummary>),
        >)
            ensures
                out is Some <==> can_decide(old(state)@),
                out is None ==> final(state)@ == registry::with_details(old(state)@, details),
                out matches Some(outcome) ==> decides(
                    old(state)@,
                    signature,
                    details,
                    claims,
                    at@,
                    outcome.0,
                    optional_summary(outcome.1),
                    final(state)@,
                ),
            { decide(state, signature, metadata, claims, at) };
        let out = self.registry.with_event_state_at(signature, now, f);
        proof {
            let before = old(self).model();
            let (start, end) = choose|start: EventState<A>, end: EventState<A>|
                {
                    &&& #[trigger] registry::state_begins(
                        before.states,
                        before.first_policy,
                        signature,
                        now@,
                        start,
                    )
                    &&& #[trigger] ports::accessed(
                        before.states,
                        signature,
                        end,
                        self.model().states,
                    )
                    &&& out is Some <==> can_decide(start@)
                    &&& out is None ==> end@ == registry::with_details(start@, details)
                    &&& out matches Some(outcome) ==> decides(
                        start@,
                        signature,
                        details,
                        claims,
                        now@,
                        outcome.0,
                        optional_summary(outcome.1),
                        end@,
                    )
                };
            assert(attempts(
                before,
                signature,
                details,
                claims,
                now@,
                out,
                self.model(),
                start,
                end,
            ));
        }
        out
    }

    /// Concludes an attempt: tells the circuit breaker how it came out and counts
    /// the event. An event passes where the attempt failed.
    pub fn conclude(&mut self, outcome: Option<LimitDecision>, now: Instant) -> (r: LimitDecision)
        requires
            old(self).well_formed(),
        ensures
            final(self).well_formed(),
            r == decision_for(outcome),
            final(self).model() == concluded(old(self).model(), outcome, now@),
            final(self).backend() == old(self).backend(),
    {
        let decision = match outcome {
            Some(decision) => {
                self.circuit_breaker.record_success();
                decision
            },
            None => {
                self.circuit_breaker.record_failure_at(now);
                LimitDecision::Allow
            },
        };
        match decision {
            LimitDecision::Allow => self.metrics.record_allowed(),
            LimitDecision::Suppress => self.metrics.record_suppressed(),
        }
        decision
    }

    /// Concludes an attempt and returns what comes of it.
    fn settle(
        &mut self,
        outcome: Option<(LimitDecision, Option<SuppressionSummary>)>,
        now: Instant,
    ) -> (r: (LimitDecision, Option<SuppressionSummary>))
        requires
            old(self).well_formed(),
        ensures
            final(self).well_formed(),
            r == result_for(outcome),
            final(self).model() == concluded(old(self).model(), decision_in(outcome), now@),
            final(self).backend() == old(self).backend(),
    {
        match outcome {
            Some((decision, episode)) => {
                let concluded = self.conclude(Some(decision), now);
                (concluded, episode)
            },
            None => {
                let concluded = self.conclude(None, now);
                (concluded, None)
            },
        }
    }

    /// Decides about an event at given times.
    ///
    /// With `claims`, an event that ends a run of suppressions comes with a summary
    /// of them.
    pub fn check_event_at(
        &mut self,
        signature: EventSignature,
        metadata: Option<EventMetadata>,
        claims: bool,
        times: CheckTimes,
    ) -> (r: (LimitDecision, Option<SuppressionSummary>))
        requires
            old(self).well_formed(),
        ensures
            final(self).well_formed(),
            checks(
                old(self).model(),
                signature,
                metadata::optional_metadata(metadata),
                claims,
                times,
                r,
                final(self).model(),
            ),
            stores(
                old(self).backend(),
                circuit_breaker::breaker_admits(old(self).model().breaker, times.asked@),
                signature,
                final(self).backend(),
            ),
    {
        if !self.request(times.asked) {
            return (LimitDecision::Allow, None);
        }
        let ghost asked = self.model();
        let ghost details = metadata::optional_metadata(metadata);
        let outcome = self.attempt(signature, metadata, claims, times.event);
        let ghost tried = self.model();
        let result = self.settle(outcome, times.concluded);
        proof {
            lemma_steps_make_a_check(
                old(self).model(),
                signature,
                details,
                claims,
                times,
                times.event@,
                asked,
                outcome,
                tried,
            );
        }
        result
    }

    /// Decides about an event at the times that the clocks show.
    fn check(
        &mut self,
        signature: EventSignature,
        metadata: Option<EventMetadata>,
        claims: bool,
    ) -> (r: (LimitDecision, Option<SuppressionSummary>))
        requires
            old(self).well_formed(),
        ensures
            final(self).well_formed(),
            exists|times: CheckTimes|
                {
                    &&& #[trigger] checks(
                        old(self).model(),
                        signature,
                        metadata::optional_metadata(metadata),
                        claims,
                        times,
                        r,
                        final(self).model(),
                    )
                    &&& shown(old(self).model(), times)
                    &&& stores(
                        old(self).backend(),
                        circuit_breaker::breaker_admits(old(self).model().breaker, times.asked@),
                        signature,
                        final(self).backend(),
                    )
                },
    {
        let ghost before = self.model();
        let ghost details = metadata::optional_metadata(metadata);
        let asked_at = self.circuit_breaker.now();
        if !self.request(asked_at) {
            let ghost times = CheckTimes { asked: asked_at, event: asked_at, concluded: asked_at };
            let result = (LimitDecision::Allow, None);
            assert(checks(before, signature, details, claims, times, result, self.model()));
            return result;
        }
        let ghost asked = self.model();
        let event = self.registry.now();
        let outcome = self.attempt(signature, metadata, claims, event);
        let ghost tried = self.model();
        let concluded_at = self.circuit_breaker.now();
        let result = self.settle(outcome, concluded_at);
        proof {
            let times = CheckTimes { asked: asked_at, event, concluded: concluded_at };
            lemma_steps_make_a_check(
                before,
                signature,
                details,
                claims,
                times,
                event@,
                asked,
                outcome,
                tried,
            );
            assert(checks(before, signature, details, claims, times, result, self.model()));
        }
        result
    }

    /// Decides about an event.
    ///
    /// While the circuit breaker is open, and where a decision fails, events pass.
    pub fn check_event(&mut self, signature: EventSignature) -> (r: LimitDecision)
        requires
            old(self).well_formed(),
        ensures
            final(self).well_formed(),
            exists|times: CheckTimes|
                {
                    &&& #[trigger] checks(
                        old(self).model(),
                        signature,
                        None,
                        false,
                        times,
                        (r, None),
                        final(self).model(),
                    )
                    &&& shown(old(self).model(), times)
                    &&& stores(
                        old(self).backend(),
                        circuit_breaker::breaker_admits(old(self).model().breaker, times.asked@),
                        signature,
                        final(self).backend(),
                    )
                },
    {
        let (decision, _) = self.check(signature, None, false);
        decision
    }

    /// Decides about an event and keeps its details when it is seen first.
    pub fn check_event_with_metadata(
        &mut self,
        signature: EventSignature,
        metadata: EventMetadata,
    ) -> (r: LimitDecision)
        requires
            old(self).well_formed(),
        ensures
            final(self).well_formed(),
            exists|times: CheckTimes|
                {
                    &&& #[trigger] checks(
                        old(self).model(),
                        signature,
                        Some(metadata@),
                        false,
                        times,
                        (r, None),
                        final(self).model(),
                    )
                    &&& shown(old(self).model(), times)
                    &&& stores(
                        old(self).backend(),
                        circuit_breaker::breaker_admits(old(self).model().breaker, times.asked@),
                        signature,
                        final(self).backend(),
                    )
                },
    {
        let (decision, _) = self.check(signature, Some(metadata), false);
        decision
    }

    /// Decides about an event. One that ends a run of suppressions comes with a
    /// summary of those that no summary has covered yet.
    pub fn check_event_with_summary(&mut self, signature: EventSignature) -> (r: (
        LimitDecision,
        Option<SuppressionSummary>,
    ))
        requires
            old(self).well_formed(),
        ensures
            final(self).well_formed(),
            exists|times: CheckTimes|
                {
                    &&& #[trigger] checks(
                        old(self).model(),
                        signature,
                        None,
                        true,
                        times,
                        r,
                        final(self).model(),
                    )
                    &&& shown(old(self).model(), times)
                    &&& stores(
                        old(self).backend(),
                        circuit_breaker::breaker_admits(old(self).model().breaker, times.asked@),
                        signature,
                        final(self).backend(),
                    )
                },
    {
        self.check(signature, None, true)
    }

    /// Decides about an event and keeps its details when it is seen first. One that
    /// ends a run of suppressions comes with a summary of those that no summary has
    /// covered yet.
    pub fn check_event_with_metadata_and_summary(
        &mut self,
        signature: EventSignature,
        metadata: EventMetadata,
    ) -> (r: (LimitDecision, Option<SuppressionSummary>))
        requires
            old(self).well_formed(),
        ensures
            final(self).well_formed(),
            exists|times: CheckTimes|
                {
                    &&& #[trigger] checks(
                        old(self).model(),
                        signature,
                        Some(metadata@),
                        true,
                        times,
                        r,
                        final(self).model(),
                    )
                    &&& shown(old(self).model(), times)
                    &&& stores(
                        old(self).backend(),
                        circuit_breaker::breaker_admits(old(self).model().breaker, times.asked@),
                        signature,
                        final(self).backend(),
                    )
                },
    {
        self.check(signature, Some(metadata), true)
    }

    /// The registry.
    pub fn registry(&self) -> (r: &SuppressionRegistry<A, S>)
        requires
            self.well_formed(),
        ensures
            r.well_formed(),
            r.states() == self.model().states,
            r.first_policy() == self.model().first_policy,
            r.clock() == self.model().clock,
            r.evicted() == self.model().evicted,
            r.backend() == self.backend(),
    {
        &self.registry
    }

    /// The registry, to be changed.
    pub fn registry_mut(&mut self) -> (r: &mut SuppressionRegistry<A, S>)
        requires
            old(self).well_formed(),
        ensures
            r.well_formed(),
            r.states() == old(self).model().states,
            r.first_policy() == old(self).model().first_policy,
            r.clock() == old(self).model().clock,
            r.evicted() == old(self).model().evicted,
            r.backend() == old(self).backend(),
            final(self).well_formed() == final(r).well_formed(),
            final(self).backend() == final(r).backend(),
            final(self).model() == (LimiterModel {
                first_policy: final(r).first_policy(),
                clock: final(r).clock(),
                ..with_registry(old(self).model(), final(r).states(), final(r).evicted())
            }),
    {
        &mut self.registry
    }

    /// The counters.
    pub fn metrics(&self) -> (r: Metrics)
        requires
            self.well_formed(),
        ensures
            r@ == self.model().metrics,
    {
        if self.counts_evictions {
            self.metrics.with_evicted(self.registry.evicted_count())
        } else {
            self.metrics.with_evicted(0)
        }
    }

    /// Counts an event that passes without a decision.
    pub fn record_allowed(&mut self)
        ensures
            final(self).well_formed() == old(self).well_formed(),
            final(self).backend() == old(self).backend(),
            final(self).model() == (LimiterModel {
                metrics: counted(old(self).model().metrics, LimitDecision::Allow),
                ..old(self).model()
            }),
    {
        self.metrics.record_allowed();
    }

    /// The circuit breaker.
    pub fn circuit_breaker(&self) -> (r: &CircuitBreaker)
        ensures
            r@ == self.model().breaker,
            r.clock() == self.model().breaker_clock,
    {
        &self.circuit_breaker
    }

    /// The circuit breaker, to be changed.
    pub fn circuit_breaker_mut(&mut self) -> (r: &mut CircuitBreaker)
        ensures
            r@ == old(self).model().breaker,
            r.clock() == old(self).model().breaker_clock,
            final(self).well_formed() == old(self).well_formed(),
            final(self).backend() == old(self).backend(),
            final(self).model() == (LimiterModel {
                breaker: final(r)@,
                breaker_clock: final(r).clock(),
                ..old(self).model()
            }),
    {
        &mut self.circuit_breaker
    }
}

/// Asking the circuit breaker, making an attempt and concluding it make a check.
proof fn lemma_steps_make_a_check<A: TokenAmount>(
    before: LimiterModel<A>,
    signature: EventSignature,
    details: Option<MetadataModel>,
    claims: bool,
    times: CheckTimes,
    at: nat,
    asked: LimiterModel<A>,
    outcome: Option<(LimitDecision, Option<SuppressionSummary>)>,
    tried: LimiterModel<A>,
)
    requires
        at == times.event@,
        circuit_breaker::breaker_admits(before.breaker, times.asked@),
        asked == (LimiterModel {
            breaker: circuit_breaker::breaker_after_request(before.breaker, times.asked@),
            ..before
        }),
        exists|start: EventState<A>, end: EventState<A>| #[trigger]
            attempts(
                asked,
                signature,
                details,
                claims,
                at,
                outcome,
                tried,
                start,
                end,
            ),
        tried == with_registry(asked, tried.states, tried.evicted),
    ensures
        checks(
            before,
            signature,
            details,
            claims,
            times,
            result_for(outcome),
            concluded(tried, decision_in(outcome), times.concluded@),
        ),
{
    let after = concluded(tried, decision_in(outcome), times.concluded@);
    let (start, end) = choose|start: EventState<A>, end: EventState<A>| #[trigger]
        attempts(asked, signature, details, claims, at, outcome, tried, start, end);
    assert(attempts(
        before,
        signature,
        details,
        claims,
        at,
        outcome,
        after,
        start,
        end,
    ));
}

/// Every event is counted once: as allowed if it passes, else as suppressed.
pub proof fn lemma_every_event_is_counted_once<A: TokenAmount>(
    before: LimiterModel<A>,
    signature: EventSignature,
    details: Option<MetadataModel>,
    claims: bool,
    times: CheckTimes,
    result: (LimitDecision, Option<SuppressionSummary>),
    after: LimiterModel<A>,
)
    requires
        checks(before, signature, details, claims, times, result, after),
    ensures
        after.metrics.events_allowed == metrics::advanced(
            before.metrics.events_allowed,
            if result.0 is Allow {
                1
            } else {
                0
            },
        ),
        after.metrics.events_suppressed == metrics::advanced(
            before.metrics.events_suppressed,
            if result.0 is Suppress {
                1
            } else {
                0
            },
        ),
{
}

/// While the circuit breaker turns attempts away, every event passes, and nothing
/// changes but the count of events that passed.
pub proof fn lemma_open_breaker_lets_events_pass<A: TokenAmount>(
    before: LimiterModel<A>,
    signature: EventSignature,
    details: Option<MetadataModel>,
    claims: bool,
    times: CheckTimes,
    result: (LimitDecision, Option<SuppressionSummary>),
    after: LimiterModel<A>,
)
    requires
        checks(before, signature, details, claims, times, result, after),
        !circuit_breaker::breaker_admits(before.breaker, times.asked@),
    ensures
        result.0 is Allow,
        result.1 is None,
        after == (LimiterModel {
            metrics: counted(before.metrics, LimitDecision::Allow),
            ..before
        }),
{
}

/// An event passes also where deciding about it fails, which the circuit breaker
/// is told.
pub proof fn lemma_failed_attempt_lets_event_pass<A: TokenAmount>(
    before: LimiterModel<A>,
    signature: EventSignature,
    details: Option<MetadataModel>,
    claims: bool,
    times: CheckTimes,
    result: (LimitDecision, Option<SuppressionSummary>),
    after: LimiterModel<A>,
)
    requires
        checks(before, signature, details, claims, times, result, after),
        circuit_breaker::breaker_admits(before.breaker, times.asked@),
        before.states.contains_key(signature),
        !can_decide(before.states[signature]@),
    ensures
        result.0 is Allow,
        result.1 is None,
        after.breaker == circuit_breaker::breaker_after_failure(
            circuit_breaker::breaker_after_request(before.breaker, times.asked@),
            times.concluded@,
        ),
        after.states[signature]@ == registry::with_details(before.states[signature]@, details),
{
}

/// An event changes nothing about events of other signatures, except that some of
/// them may be evicted when its own signature is new.
pub proof fn lemma_signatures_are_independent<A: TokenAmount>(
    before: LimiterModel<A>,
    signature: EventSignature,
    details: Option<MetadataModel>,
    claims: bool,
    times: CheckTimes,
    result: (LimitDecision, Option<SuppressionSummary>),
    after: LimiterModel<A>,
    other: EventSignature,
)
    requires
        checks(before, signature, details, claims, times, result, after),
        other != signature,
    ensures
        after.states.contains_key(other) ==> before.states.contains_key(other)
            && after.states[other] == before.states[other],
        before.states.contains_key(signature) && before.states.contains_key(other)
            ==> after.states.contains_key(other),
{
}

/// A suppressed event is counted in the state of its signature, and no summary
/// comes with it.
pub proof fn lemma_suppressed_event_is_remembered<A: TokenAmount>(
    before: LimiterModel<A>,
    signature: EventSignature,
    details: Option<MetadataModel>,
    claims: bool,
    times: CheckTimes,
    result: (LimitDecision, Option<SuppressionSummary>),
    after: LimiterModel<A>,
)
    requires
        checks(before, signature, details, claims, times, result, after),
        result.0 is Suppress,
    ensures
        result.1 is None,
        after.states.contains_key(signature),
        after.states[signature]@.counter == summary::counter_after_suppression(
            if before.states.contains_key(signature) {
                before.states[signature]@.counter
            } else {
                summary::counter_from(times.event@)
            },
            times.event@,
        ),
{
}

/// A summary comes only with an event that passes. It tells of the suppressions of
/// its signature that no summary has covered, of which there is at least one, and
/// leaves none to tell of.
pub proof fn lemma_episode_is_told_once<A: TokenAmount>(
    before: LimiterModel<A>,
    signature: EventSignature,
    details: Option<MetadataModel>,
    claims: bool,
    times: CheckTimes,
    result: (LimitDecision, Option<SuppressionSummary>),
    after: LimiterModel<A>,
)
    requires
        checks(before, signature, details, claims, times, result, after),
        result.1 is Some,
    ensures
        result.0 is Allow,
        claims,
        before.states.contains_key(signature),
        result.1->0@.signature == signature,
        result.1->0@.count == before.states[signature]@.counter.count
            - before.states[signature]@.counter.reported,
        result.1->0@.count > 0,
        after.states.contains_key(signature),
        !summary::has_news(
            after.states[signature]@.counter,
            after.states[signature]@.counter.count,
        ),
{
}

/// The details of an event are those that came with it first.
pub proof fn lemma_first_details_are_kept<A: TokenAmount>(
    before: LimiterModel<A>,
    signature: EventSignature,
    details: Option<MetadataModel>,
    claims: bool,
    times: CheckTimes,
    result: (LimitDecision, Option<SuppressionSummary>),
    after: LimiterModel<A>,
)
    requires
        checks(before, signature, details, claims, times, result, after),
        circuit_breaker::breaker_admits(before.breaker, times.asked@),
    ensures
        after.states.contains_key(signature),
        after.states[signature]@.metadata == if before.states.contains_key(signature)
            && before.states[signature]@.metadata is Some {
            before.states[signature]@.metadata
        } else {
            details
        },
{
}

/// An optional summary without the details of the event.
pub open spec fn without_details(s: Option<SuppressionSummary>) -> Option<SummaryModel> {
    match s {
        None => None,
        Some(summary) => Some(SummaryModel { metadata: None, ..summary@ }),
    }
}

/// Whether two checks of a signature, of which only the second comes with details, come
/// out alike: with the same decision and in the same state, but for the details, which
/// are kept besides unless there are some already or the circuit breaker turns the event
/// away.
pub open spec fn alike_but_for_details<A: TokenAmount>(
    before: LimiterModel<A>,
    signature: EventSignature,
    details: MetadataModel,
    times: CheckTimes,
    plain_result: (LimitDecision, Option<SuppressionSummary>),
    plain: LimiterModel<A>,
    detailed_result: (LimitDecision, Option<SuppressionSummary>),
    detailed: LimiterModel<A>,
) -> bool {
    &&& detailed_result.0 == plain_result.0
    &&& without_details(detailed_result.1) == without_details(plain_result.1)
    &&& detailed == (LimiterModel { states: detailed.states, ..plain })
    &&& detailed.states.dom() == plain.states.dom()
    &&& detailed.states.remove(signature) == plain.states.remove(signature)
    &&& if circuit_breaker::breaker_admits(before.breaker, times.asked@) {
        let kept = plain.states[signature]@;
        &&& plain.states.contains_key(signature)
        &&& kept.metadata == if before.states.contains_key(signature) {
            before.states[signature]@.metadata
        } else {
            None
        }
        &&& detailed.states[signature]@ == registry::with_details(kept, Some(details))
    } else {
        plain.states == before.states && detailed.states == before.states
    }
}

/// A state with other details.
spec fn with_metadata<A>(s: EventState<A>, metadata: Option<EventMetadata>) -> EventState<A> {
    EventState { metadata, ..s }
}

/// The outcome of an attempt with other details.
spec fn outcome_with_metadata(
    outcome: Option<(LimitDecision, Option<SuppressionSummary>)>,
    metadata: Option<EventMetadata>,
) -> Option<(LimitDecision, Option<SuppressionSummary>)> {
    match outcome {
        Some((decision, Some(episode))) => Some(
            (decision, Some(SuppressionSummary { metadata, ..episode })),
        ),
        _ => outcome,
    }
}

/// Details change nothing about what may be decided: however a check without details
/// comes out, one with details may come out alike.
pub proof fn lemma_check_may_come_with_details<A: TokenAmount>(
    before: LimiterModel<A>,
    signature: EventSignature,
    details: EventMetadata,
    claims: bool,
    times: CheckTimes,
    result: (LimitDecision, Option<SuppressionSummary>),
    plain: LimiterModel<A>,
) -> (detailed: ((LimitDecision, Option<SuppressionSummary>), LimiterModel<A>))
    requires
        checks(before, signature, None, claims, times, result, plain),
    ensures
        checks(before, signature, Some(details@), claims, times, detailed.0, detailed.1),
        alike_but_for_details(
            before,
            signature,
            details@,
            times,
            result,
            plain,
            detailed.0,
            detailed.1,
        ),
{
    if !circuit_breaker::breaker_admits(before.breaker, times.asked@) {
        (result, plain)
    } else {
        let asked = LimiterModel {
            breaker: circuit_breaker::breaker_after_request(before.breaker, times.asked@),
            ..before
        };
        let (start, end, outcome) = choose|
            start: EventState<A>,
            end: EventState<A>,
            outcome: Option<(LimitDecision, Option<SuppressionSummary>)>,
        |
            {
                &&& #[trigger] attempts(
                    before,
                    signature,
                    None,
                    claims,
                    times.event@,
                    outcome,
                    plain,
                    start,
                    end,
                )
                &&& result == result_for(outcome)
                &&& plain == concluded(
                    with_registry(asked, plain.states, plain.evicted),
                    decision_in(outcome),
                    times.concluded@,
                )
            };
        let metadata = if start.metadata is None {
            Some(details)
        } else {
            start.metadata
        };
        let other = outcome_with_metadata(outcome, metadata);
        let last = with_metadata(end, metadata);
        let detailed = LimiterModel { states: plain.states.insert(signature, last), ..plain };
        assert(detailed.states.dom() =~= plain.states.dom());
        assert(detailed.states.remove(signature) =~= plain.states.remove(signature));
        assert(attempts(
            before,
            signature,
            Some(details@),
            claims,
            times.event@,
            other,
            detailed,
            start,
            last,
        ));
        (result_for(other), detailed)
    }
}

/// Details change nothing about what may be decided: however a check with details comes
/// out, one without may come out alike.
pub proof fn lemma_check_may_come_without_details<A: TokenAmount>(
    before: LimiterModel<A>,
    signature: EventSignature,
    details: EventMetadata,
    claims: bool,
    times: CheckTimes,
    result: (LimitDecision, Option<SuppressionSummary>),
    detailed: LimiterModel<A>,
) -> (plain: ((LimitDecision, Option<SuppressionSummary>), LimiterModel<A>))
    requires
        checks(before, signature, Some(details@), claims, times, result, detailed),
    ensures
        checks(before, signature, None, claims, times, plain.0, plain.1),
        alike_but_for_details(
            before,
            signature,
            details@,
            times,
            plain.0,
            plain.1,
            result,
            detailed,
        ),
{
    if !circuit_breaker::breaker_admits(before.breaker, times.asked@) {
        (result, detailed)
    } else {
        let asked = LimiterModel {
            breaker: circuit_breaker::breaker_after_request(before.breaker, times.asked@),
            ..before
        };
        let (start, end, outcome) = choose|
            start: EventState<A>,
            end: EventState<A>,
            outcome: Option<(LimitDecision, Option<SuppressionSummary>)>,
        |
            {
                &&& #[trigger] attempts(
                    before,
                    signature,
                    Some(details@),
                    claims,
                    times.event@,
                    outcome,
                    detailed,
                    start,
                    end,
                )
                &&& result == result_for(outcome)
                &&& detailed == concluded(
                    with_registry(asked, detailed.states, detailed.evicted),
                    decision_in(outcome),
                    times.concluded@,
                )
            };
        let other = outcome_with_metadata(outcome, start.metadata);
        let last = with_metadata(end, start.metadata);
        let plain = LimiterModel { states: detailed.states.insert(signature, last), ..detailed };
        assert(detailed.states.dom() =~= plain.states.dom());
        assert(detailed.states.remove(signature) =~= plain.states.remove(signature));
        assert(attempts(
            before,
            signature,
            None,
            claims,
            times.event@,
            other,
            plain,
            start,
            last,
        ));
        (result_for(other), plain)
    }
}

/// Details change nothing about what is decided. An event that comes with details is
/// decided about as one that comes without, at the same times and in the same state:
/// the circuit breaker, the counters and the policy and counter of its signature become
/// the same. Only the details are kept besides, unless there are some already or the
/// circuit breaker turns the event away. Of a token bucket this holds where arithmetic
/// on tokens gives the same results every time.
pub proof fn lemma_details_do_not_change_decisions<A: TokenAmount>(
    before: LimiterModel<A>,
    signature: EventSignature,
    details: MetadataModel,
    claims: bool,
    times: CheckTimes,
    plain_result: (LimitDecision, Option<SuppressionSummary>),
    plain: LimiterModel<A>,
    detailed_result: (LimitDecision, Option<SuppressionSummary>),
    detailed: LimiterModel<A>,
)
    requires
        current_policy(before, signature) is Bucket
            ==> token_bucket::token_arithmetic_is_determined::<A>(),
        checks(before, signature, None, claims, times, plain_result, plain),
        checks(before, signature, Some(details), claims, times, detailed_result, detailed),
    ensures
        detailed_result.0 == plain_result.0,
        without_details(detailed_result.1) == without_details(plain_result.1),
        detailed.breaker == plain.breaker,
        detailed.metrics.events_allowed == plain.metrics.events_allowed,
        detailed.metrics.events_suppressed == plain.metrics.events_suppressed,
        before.states.contains_key(signature) ==> detailed.evicted == plain.evicted,
        detailed.evicted == plain.evicted ==> detailed.metrics == plain.metrics,
        !circuit_breaker::breaker_admits(before.breaker, times.asked@) ==> detailed == plain
            && detailed.states == before.states,
        circuit_breaker::breaker_admits(before.breaker, times.asked@) ==> {
            &&& plain.states.contains_key(signature)
            &&& detailed.states.contains_key(signature)
            &&& detailed.states[signature]@.policy == plain.states[signature]@.policy
            &&& detailed.states[signature]@.counter == plain.states[signature]@.counter
            &&& detailed.states[signature]@.metadata == if plain.states[signature]@.metadata
                is None {
                Some(details)
            } else {
                plain.states[signature]@.metadata
            }
            &&& plain.states[signature]@.metadata == if before.states.contains_key(signature) {
                before.states[signature]@.metadata
            } else {
                None
            }
        },
{
    let p = current_policy(before, signature);
    if before.states.contains_key(signature) {
        assert(before.states.dom().insert(signature) =~= before.states.dom());
    }
    if circuit_breaker::breaker_admits(before.breaker, times.asked@)
        && Policy::<A>::has_room_in(p) {
        lemma_check_moves_one_policy(
            before,
            signature,
            None,
            claims,
            times,
            plain_result,
            plain,
            signature,
        );
        lemma_check_moves_one_policy(
            before,
            signature,
            Some(details),
            claims,
            times,
            detailed_result,
            detailed,
            signature,
        );
        policy::lemma_steps_are_determined(
            p,
            times.event@,
            policy_decision(plain_result.0),
            current_policy(plain, signature),
            policy_decision(detailed_result.0),
            current_policy(detailed, signature),
        );
    }
}

/// An event and what was decided about it.
pub struct CheckedEvent {
    /// Signature of the event.
    pub signature: EventSignature,
    /// Its details.
    pub details: Option<MetadataModel>,
    /// Whether a summary was asked for.
    pub claims: bool,
    /// When the steps of the check happened.
    pub times: CheckTimes,
    /// What was decided.
    pub result: (LimitDecision, Option<SuppressionSummary>),
}

/// Whether a limiter goes through these states with these events. No event is turned
/// away by the circuit breaker.
pub open spec fn runs<A: TokenAmount>(
    models: Seq<LimiterModel<A>>,
    events: Seq<CheckedEvent>,
) -> bool {
    &&& models.len() == events.len() + 1
    &&& forall|i: int|
        0 <= i < events.len() ==> {
            let e = #[trigger] events[i];
            &&& checks(
                models[i],
                e.signature,
                e.details,
                e.claims,
                e.times,
                e.result,
                models[i + 1],
            )
            &&& circuit_breaker::breaker_admits(models[i].breaker, e.times.asked@)
        }
}

/// Whether a signature is never evicted in the course of some events, and deciding
/// about it never fails.
pub open spec fn undisturbed<A: TokenAmount>(
    models: Seq<LimiterModel<A>>,
    events: Seq<CheckedEvent>,
    signature: EventSignature,
) -> bool {
    forall|i: int|
        0 <= i < events.len() ==> {
            let e = #[trigger] events[i];
            &&& models[i].states.contains_key(signature) ==> models[i
                + 1].states.contains_key(signature)
            &&& e.signature == signature ==> Policy::<A>::has_room_in(
                current_policy(models[i], signature),
            )
        }
}

/// The state of the policy that decides about a signature next.
pub open spec fn current_policy<A: TokenAmount>(
    m: LimiterModel<A>,
    signature: EventSignature,
) -> PolicyModel<A> {
    if m.states.contains_key(signature) {
        m.states[signature]@.policy
    } else {
        m.first_policy
    }
}

/// The events of one signature.
pub open spec fn events_of(
    events: Seq<CheckedEvent>,
    signature: EventSignature,
) -> Seq<CheckedEvent>
    decreases events.len(),
{
    if events.len() == 0 {
        Seq::empty()
    } else if events.last().signature == signature {
        events_of(events.drop_last(), signature).push(events.last())
    } else {
        events_of(events.drop_last(), signature)
    }
}

/// The decision of a policy behind that of a limiter.
pub open spec fn policy_decision(decision: LimitDecision) -> PolicyDecision {
    match decision {
        LimitDecision::Allow => PolicyDecision::Allow,
        LimitDecision::Suppress => PolicyDecision::Suppress,
    }
}

/// Whether a policy goes through these states with these events.
pub open spec fn policy_runs<A: TokenAmount>(
    states: Seq<PolicyModel<A>>,
    events: Seq<CheckedEvent>,
) -> bool {
    &&& states.len() == events.len() + 1
    &&& forall|i: int|
        0 <= i < events.len() ==> Policy::<A>::steps(
            states[i],
            (#[trigger] events[i]).times.event@,
            policy_decision(events[i].result.0),
            states[i + 1],
        )
}

/// An event moves the policy of its own signature by one step, and no other.
proof fn lemma_check_moves_one_policy<A: TokenAmount>(
    before: LimiterModel<A>,
    signature: EventSignature,
    details: Option<MetadataModel>,
    claims: bool,
    times: CheckTimes,
    result: (LimitDecision, Option<SuppressionSummary>),
    after: LimiterModel<A>,
    watched: EventSignature,
)
    requires
        checks(before, signature, details, claims, times, result, after),
        circuit_breaker::breaker_admits(before.breaker, times.asked@),
        before.states.contains_key(watched) ==> after.states.contains_key(watched),
        signature == watched ==> Policy::<A>::has_room_in(current_policy(before, watched)),
    ensures
        after.first_policy == before.first_policy,
        signature != watched ==> current_policy(after, watched) == current_policy(before, watched),
        signature == watched ==> Policy::<A>::steps(
            current_policy(before, watched),
            times.event@,
            policy_decision(result.0),
            current_policy(after, watched),
        ),
{
}

/// Every signature is throttled as if it were alone: whatever other events come in
/// between, the decisions about the events of a signature are those that a policy of
/// its own makes about them.
pub proof fn lemma_signature_is_throttled_as_if_alone<A: TokenAmount>(
    models: Seq<LimiterModel<A>>,
    events: Seq<CheckedEvent>,
    signature: EventSignature,
) -> (states: Seq<PolicyModel<A>>)
    requires
        runs(models, events),
        undisturbed(models, events, signature),
    ensures
        policy_runs(states, events_of(events, signature)),
        states[0] == current_policy(models[0], signature),
        states.last() == current_policy(models.last(), signature),
        models.last().first_policy == models[0].first_policy,
    decreases events.len(),
{
    if events.len() == 0 {
        seq![current_policy(models[0], signature)]
    } else {
        let earlier = events.drop_last();
        let before = models.drop_last();
        let n = earlier.len() as int;
        assert forall|i: int| 0 <= i < earlier.len() implies #[trigger] earlier[i] == events[i]
            && before[i] == models[i] && before[i + 1] == models[i + 1] by {}
        let states = lemma_signature_is_throttled_as_if_alone(before, earlier, signature);
        let e = events[n];
        lemma_check_moves_one_policy(
            models[n],
            e.signature,
            e.details,
            e.claims,
            e.times,
            e.result,
            models[n + 1],
            signature,
        );
        let own = events_of(earlier, signature);
        if e.signature == signature {
            let after = states.push(current_policy(models[n + 1], signature));
            assert forall|i: int| 0 <= i < own.push(e).len() implies Policy::<A>::steps(
                after[i],
                (#[trigger] own.push(e)[i]).times.event@,
                policy_decision(own.push(e)[i].result.0),
                after[i + 1],
            ) by {
                if i < own.len() {
                    assert(own.push(e)[i] == own[i]);
                }
            }
            after
        } else {
            states
        }
    }
}

/// A decision that does not fail leaves the circuit breaker closed and without failures,
/// whatever is decided.
pub proof fn lemma_decision_closes_the_breaker<A: TokenAmount>(
    before: LimiterModel<A>,
    signature: EventSignature,
    details: Option<MetadataModel>,
    claims: bool,
    times: CheckTimes,
    result: (LimitDecision, Option<SuppressionSummary>),
    after: LimiterModel<A>,
)
    requires
        checks(before, signature, details, claims, times, result, after),
        circuit_breaker::breaker_admits(before.breaker, times.asked@),
        Policy::<A>::has_room_in(current_policy(before, signature)),
    ensures
        after.breaker.state is Closed,
        after.breaker.failures == 0,
        after.breaker.threshold == before.breaker.threshold,
        after.breaker.timeout == before.breaker.timeout,
        after.breaker_clock == before.breaker_clock,
        after.clock == before.clock,
        after.first_policy == before.first_policy,
{
}

/// A decision that fails is told to the circuit breaker as a failure at the time when it
/// is told, by its own clock.
pub proof fn lemma_failure_is_told_to_the_breaker<A: TokenAmount>(
    before: LimiterModel<A>,
    signature: EventSignature,
    details: Option<MetadataModel>,
    claims: bool,
    times: CheckTimes,
    result: (LimitDecision, Option<SuppressionSummary>),
    after: LimiterModel<A>,
)
    requires
        checks(before, signature, details, claims, times, result, after),
        circuit_breaker::breaker_admits(before.breaker, times.asked@),
        !Policy::<A>::has_room_in(current_policy(before, signature)),
        before.breaker.failures < u32::MAX,
    ensures
        result.0 is Allow,
        result.1 is None,
        after.breaker.failures == before.breaker.failures + 1,
        after.breaker.last_failure == times.concluded@,
        !(before.breaker.state is Closed) || before.breaker.failures + 1
            >= before.breaker.threshold ==> after.breaker.state is Open,
        before.breaker.state is Closed && before.breaker.failures + 1 < before.breaker.threshold
            ==> after.breaker.state is Closed,
{
}

/// Where the counters tell of evictions, they tell of every signature that an event makes
/// the storage evict; where they do not, they tell of none.
pub proof fn lemma_evictions_are_counted_where_asked<A: TokenAmount>(
    before: LimiterModel<A>,
    signature: EventSignature,
    details: Option<MetadataModel>,
    claims: bool,
    times: CheckTimes,
    result: (LimitDecision, Option<SuppressionSummary>),
    after: LimiterModel<A>,
    gone: nat,
)
    requires
        checks(before, signature, details, claims, times, result, after),
        circuit_breaker::breaker_admits(before.breaker, times.asked@),
        before.states.dom().insert(signature).len() == after.states.dom().len() + gone,
        before.evicted + gone <= u64::MAX,
        before.metrics.signatures_evicted + gone <= u64::MAX,
    ensures
        after.counts_evictions == before.counts_evictions,
        after.evicted == before.evicted + gone,
        before.counts_evictions ==> after.metrics.signatures_evicted
            == before.metrics.signatures_evicted + gone,
        !before.counts_evictions ==> after.metrics.signatures_evicted
            == before.metrics.signatures_evicted,
{
    let m = before.metrics.signatures_evicted;
    let evicted = before.evicted;
    assert((evicted + gone) % 0x1_0000_0000_0000_0000 == evicted + gone);
    assert((m + gone) % 0x1_0000_0000_0000_0000 == m + gone);
}

/// The times of a check are read off the clocks: the time of the event off that of the
/// limiter, the two others off that of the circuit breaker.
pub proof fn lemma_times_are_read_off_the_clocks<A>(m: LimiterModel<A>, times: CheckTimes)
    requires
        shown(m, times),
    ensures
        m.breaker_clock.shows(times.asked),
        circuit_breaker::breaker_admits(m.breaker, times.asked@) ==> m.clock.shows(times.event)
            && m.breaker_clock.shows(times.concluded),
{
}

/// The storage is accessed for the signature of an event, unless the circuit breaker
/// turns the event away: it is then left alone.
pub proof fn lemma_storage_is_accessed_once<A: TokenAmount, S: Storage<EventState<A>>>(
    before: S,
    admitted: bool,
    signature: EventSignature,
    after: S,
)
    requires
        stores(before, admitted, signature, after),
    ensures
        admitted ==> S::follows(before, signature, after),
        !admitted ==> after == before,
{
}

/// Decisions of a limiter are those of its policies.
pub proof fn lemma_decisions_are_those_of_policies(decision: LimitDecision)
    ensures
        policy_decision(decision) is Allow <==> decision is Allow,
{
}

/// A summary that comes with an event is seen in full.
pub proof fn lemma_optional_summary_is_that_summary(s: SuppressionSummary)
    ensures
        optional_summary(None) is None,
        optional_summary(Some(s)) == Some(
            SummaryModel {
                signature: s.signature,
                count: s.count as nat,
                first: s.first_suppressed@,
                last: s.last_suppressed@,
                duration: s.duration@,
                metadata: metadata::optional_metadata(s.metadata),
            },
        ),
{
}

/// An attempt that comes out with a decision is concluded with that decision, and one
/// that fails lets the event pass. Either way the event is counted, and nothing else
/// changes but the circuit breaker.
pub proof fn lemma_attempts_are_concluded<A>(
    before: LimiterModel<A>,
    outcome: Option<LimitDecision>,
    at: nat,
)
    requires
        before.metrics.events_allowed < u64::MAX,
        before.metrics.events_suppressed < u64::MAX,
    ensures
        outcome is None ==> decision_for(outcome) is Allow,
        outcome matches Some(decision) ==> decision_for(outcome) == decision,
        ({
            let after = concluded(before, outcome, at);
            &&& after == (LimiterModel {
                breaker: after.breaker,
                metrics: after.metrics,
                ..before
            })
            &&& after.metrics.signatures_evicted == before.metrics.signatures_evicted
            &&& decision_for(outcome) is Allow ==> after.metrics.events_allowed
                == before.metrics.events_allowed + 1 && after.metrics.events_suppressed
                == before.metrics.events_suppressed
            &&& decision_for(outcome) is Suppress ==> after.metrics.events_allowed
                == before.metrics.events_allowed && after.metrics.events_suppressed
                == before.metrics.events_suppressed + 1
            &&& outcome is Some ==> after.breaker.failures == 0 && !(after.breaker.state
                is HalfOpen)
            &&& outcome is None ==> after.breaker.last_failure == at
        }),
{
}

} // verus!
