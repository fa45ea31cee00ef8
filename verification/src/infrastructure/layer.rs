//! Applies rate limiting to log events.

use vstd::prelude::*;
use vstd::string::StringExecFns;

use crate::application::circuit_breaker;
use crate::application::circuit_breaker::CircuitBreaker;
use crate::application::emitter::{EmitterConfig, EmitterConfigError};
use crate::application::limiter;
use crate::application::limiter::{CheckTimes, LimitDecision, LimiterModel, RateLimiter};
use crate::application::metrics::{Metrics, MetricsSnapshot};
use crate::application::ports::{SharedClock, Storage};
use crate::application::registry::{EventState, SuppressionRegistry};
use crate::domain::fields;
use crate::domain::fields::FieldMap;
use crate::domain::metadata::{EventMetadata, MetadataModel};
use crate::domain::names;
use crate::domain::names::NameSet;
use crate::domain::policy::token_bucket;
use crate::domain::policy::{Policy, PolicyModel, RateLimitPolicy, TokenAmount};
use crate::domain::signature;
use crate::domain::signature::EventSignature;
use crate::domain::summary::SuppressionSummary;
use crate::domain::text::{compare_text, TextOrder};
use crate::domain::time;
use crate::domain::time::{Duration, Instant};
use crate::infrastructure::eviction;
use crate::infrastructure::eviction::{EvictionStrategy, PriorityFn};
use crate::infrastructure::storage;
use crate::infrastructure::storage::ShardedStorage;

verus! {

/// Target of the events that carry summaries. Such events are never throttled.
pub const SUMMARY_TARGET: &'static str = "tracing_throttle::summary";

/// Number of signatures to track unless told otherwise.
pub const DEFAULT_MAX_SIGNATURES: usize = 10_000;

/// Emits summaries.
pub trait SummaryFormatter: Sized {
    /// Whether emitting one summary can make a formatter another: any, unless the
    /// formatter says otherwise.
    open spec fn emitted(before: Self, summary: SuppressionSummary, after: Self) -> bool {
        true
    }

    /// Emits one summary. Level and form are up to the formatter.
    fn format(&mut self, summary: &SuppressionSummary)
        ensures
            Self::emitted(*old(self), *summary, *final(self)),
    ;
}

/// Why a layer cannot be built.
#[derive(Debug, Clone, Copy, PartialEq, Eq, Structural)]
pub enum BuildError {
    /// The number of signatures to track is zero.
    ZeroMaxSignatures,
    /// The configuration of the emitter is not valid.
    EmitterConfig(EmitterConfigError),
}

/// The text of a build error.
pub open spec fn build_error_text(e: BuildError) -> Seq<char> {
    match e {
        BuildError::ZeroMaxSignatures => "max_signatures must be greater than 0"@,
        BuildError::EmitterConfig(_) => "emitter configuration error: "@
            + "summary interval must be greater than 0"@,
    }
}

impl BuildError {
    /// The error as text.
    pub fn to_string(&self) -> (r: String)
        ensures
            r@ == build_error_text(*self),
    {
        match self {
            BuildError::ZeroMaxSignatures => "max_signatures must be greater than 0".to_owned(),
            BuildError::EmitterConfig(e) => {
                let mut out = "emitter configuration error: ".to_owned();
                out.append(e.to_string().as_str());
                out
            },
        }
    }
}

impl vstd::std_specs::convert::FromSpecImpl<EmitterConfigError> for BuildError {
    open spec fn obeys_from_spec() -> bool {
        true
    }

    open spec fn from_spec(e: EmitterConfigError) -> BuildError {
        BuildError::EmitterConfig(e)
    }
}

impl From<EmitterConfigError> for BuildError {
    fn from(e: EmitterConfigError) -> (r: BuildError) {
        BuildError::EmitterConfig(e)
    }
}

/// An event as it is seen by the layer.
#[derive(Debug)]
pub struct EventRecord {
    /// Level of the event.
    pub level: String,
    /// Name of the place in the code that emits the event.
    pub name: String,
    /// Target of the event.
    pub target: String,
    /// All fields of the event.
    pub fields: FieldMap,
}

/// Names that a layer is configured with.
pub struct LayerNames {
    /// Span fields that count as fields of an event.
    pub context: Set<Seq<char>>,
    /// Event fields that do not count.
    pub excluded: Set<Seq<char>>,
    /// Targets that are not throttled.
    pub exempt: Set<Seq<char>>,
}

/// The fields of a span, if any are known.
pub open spec fn span_fields(span: Option<FieldMap>) -> Map<Seq<char>, Seq<char>> {
    match span {
        Some(fields) => fields@,
        None => Map::empty(),
    }
}

/// The named fields of nested spans, the innermost of which comes first. Where
/// several spans have a field, the innermost counts.
pub open spec fn span_context(
    names: Set<Seq<char>>,
    scope: Seq<Option<FieldMap>>,
) -> Map<Seq<char>, Seq<char>>
    decreases scope.len(),
{
    if scope.len() == 0 {
        Map::empty()
    } else {
        span_fields(scope.last()).restrict(names).union_prefer_right(
            span_context(names, scope.drop_last()),
        )
    }
}

/// The fields that tell an event from others: those of its spans that are named, and
/// its own that are not excluded. Its own count more.
pub open spec fn combined_fields(
    names: LayerNames,
    event: EventRecord,
    scope: Seq<Option<FieldMap>>,
) -> Map<Seq<char>, Seq<char>> {
    span_context(names.context, scope).union_prefer_right(
        event.fields@.remove_keys(names.excluded),
    )
}

/// The signature of an event.
pub open spec fn event_signature(
    names: LayerNames,
    event: EventRecord,
    scope: Seq<Option<FieldMap>>,
) -> EventSignature {
    EventSignature {
        digest: signature::event_digest(
            event.level@,
            event.name@,
            fields::listed(combined_fields(names, event, scope)),
            Some(event.target@),
        ),
    }
}

/// The details of an event. Its message is the field of that name, or else the name
/// of the place that emits it.
pub open spec fn event_details(
    names: LayerNames,
    event: EventRecord,
    scope: Seq<Option<FieldMap>>,
) -> MetadataModel {
    MetadataModel {
        level: event.level@,
        message: if event.fields@.contains_key("message"@) {
            event.fields@["message"@]
        } else {
            event.name@
        },
        target: event.target@,
        pairs: fields::listed(combined_fields(names, event, scope)),
    }
}

/// How an event is handled.
#[derive(Debug)]
pub enum EventClass {
    /// It carries a summary and passes untouched.
    Summary,
    /// Its target is exempt: it passes and is counted.
    Exempt,
    /// The limiter decides about it.
    Throttled {
        /// Its signature.
        signature: EventSignature,
        /// Its details.
        metadata: EventMetadata,
    },
}

/// Whether the limiter decides about an event.
pub open spec fn is_throttled(names: LayerNames, event: EventRecord) -> bool {
    event.target@ != SUMMARY_TARGET@ && !names.exempt.contains(event.target@)
}

/// What an event makes of a layer, whether it passes, and the summary that it ends.
pub open spec fn handles<A: TokenAmount>(
    names: LayerNames,
    event: EventRecord,
    scope: Seq<Option<FieldMap>>,
    before: LimiterModel<A>,
    times: CheckTimes,
    result: (LimitDecision, Option<SuppressionSummary>),
    after: LimiterModel<A>,
) -> bool {
    if event.target@ == SUMMARY_TARGET@ {
        &&& result.0 is Allow
        &&& result.1 is None
        &&& after == before
    } else if names.exempt.contains(event.target@) {
        &&& result.0 is Allow
        &&& result.1 is None
        &&& after == (LimiterModel {
            metrics: limiter::counted(before.metrics, LimitDecision::Allow),
            ..before
        })
    } else {
        limiter::checks(
            before,
            event_signature(names, event, scope),
            Some(event_details(names, event, scope)),
            true,
            times,
            result,
            after,
        )
    }
}

/// Applies rate limiting to events.
///
/// Computes the signature of each event and decides whether it passes.
pub struct TracingRateLimitLayer<A, S, F> {
    limiter: RateLimiter<A, S>,
    span_context_fields: NameSet,
    excluded_fields: NameSet,
    exempt_targets: NameSet,
    summary_formatter: F,
    emitter_config: EmitterConfig,
    active_emission: bool,
}

/// What the end of an episode makes of a formatter: it is called once, with the
/// summary, if there is one, and else not at all.
pub open spec fn told<F: SummaryFormatter>(
    before: F,
    episode: Option<SuppressionSummary>,
    after: F,
) -> bool {
    match episode {
        None => after == before,
        Some(summary) => F::emitted(before, summary, after),
    }
}

impl<A: TokenAmount, S: Storage<EventState<A>>, F: SummaryFormatter> TracingRateLimitLayer<
    A,
    S,
    F,
> {
    /// Whether the layer is in order.
    pub closed spec fn well_formed(&self) -> bool {
        self.limiter.well_formed()
    }

    /// The state of the limiter.
    pub closed spec fn model(&self) -> LimiterModel<A> {
        self.limiter.model()
    }

    /// The storage behind the layer.
    pub closed spec fn backend(&self) -> S {
        self.limiter.backend()
    }

    /// The names that the layer is configured with.
    pub closed spec fn names(&self) -> LayerNames {
        LayerNames {
            context: self.span_context_fields@,
            excluded: self.excluded_fields@,
            exempt: self.exempt_targets@,
        }
    }

    /// The formatter.
    pub closed spec fn formatter(&self) -> F {
        self.summary_formatter
    }

    /// When summaries are emitted, and of which events.
    pub closed spec fn emission(&self) -> EmitterConfig {
        self.emitter_config
    }

    /// Whether summaries are emitted from time to time.
    pub closed spec fn emits(&self) -> bool {
        self.active_emission
    }

    /// The parts of a layer that no event changes.
    pub open spec fn same_settings(&self, other: &Self) -> bool {
        &&& self.names() == other.names()
        &&& self.emission() == other.emission()
        &&& self.emits() == other.emits()
    }

    /// The configured fields of the current spans, the innermost of which comes
    /// first.
    pub fn extract_span_context(&self, scope: &Vec<Option<FieldMap>>) -> (r: FieldMap)
        ensures
            r@ == span_context(self.names().context, scope@),
    {
        let ghost names = self.span_context_fields@;
        let mut context = FieldMap::new();
        let wanted: usize = self.span_context_fields.len();
        let ghost list = self.span_context_fields.list();
        if wanted == 0 {
            proof {
                assert(names =~= Set::empty());
                lemma_no_names_no_context(scope@);
            }
            return context;
        }
        let mut i: usize = 0;
        assert(scope@.take(0) =~= Seq::empty());
        assert(scope@.take(scope.len() as int) =~= scope@);
        while i < scope.len()
            invariant
                i <= scope.len(),
                wanted == list.len(),
                wanted == names.len(),
                scope@.take(scope.len() as int) == scope@,
                list == self.span_context_fields.list(),
                list.to_set() == names,
                context@ == span_context(names, scope@.take(i as int)),
            ensures
                context@ == span_context(names, scope@),
            decreases scope.len() - i,
        {
            let ghost before = context@;
            if let Some(stored) = &scope[i] {
                let mut j: usize = 0;
                while j < wanted
                    invariant
                        j <= wanted,
                        wanted == list.len(),
                        list == self.span_context_fields.list(),
                        context@ == stored@.restrict(
                            list.take(j as int).to_set(),
                        ).union_prefer_right(before),
                    decreases wanted - j,
                {
                    let name = self.span_context_fields.name_at(j);
                    let ghost previous = context@;
                    if context.get(name.as_str()).is_none() {
                        if let Some(value) = stored.get(name.as_str()) {
                            context.insert(name.clone(), value.clone());
                        }
                    }
                    proof {
                        let older = list.take(j as int);
                        let newer = list.take(j + 1);
                        assert forall|x: Seq<char>| newer.to_set().contains(x)
                            == older.to_set().insert(list[j as int]).contains(x) by {
                            if newer.contains(x) {
                                let k = choose|k: int| 0 <= k < newer.len() && newer[k] == x;
                                if k < j {
                                    assert(older[k] == x);
                                }
                            }
                            if older.contains(x) {
                                let k = choose|k: int| 0 <= k < older.len() && older[k] == x;
                                assert(newer[k] == x);
                            }
                            assert(newer[j as int] == list[j as int]);
                        }
                        assert(newer.to_set() =~= older.to_set().insert(list[j as int]));
                        assert(context@ =~= stored@.restrict(
                            list.take(j + 1).to_set(),
                        ).union_prefer_right(before));
                    }
                    j = j + 1;
                }
                assert(list.take(wanted as int) =~= list);
            }
            proof {
                assert(scope@.take(i + 1).drop_last() =~= scope@.take(i as int));
                assert(context@ =~= span_context(names, scope@.take(i + 1)));
            }
            i = i + 1;
            if context.len() == wanted {
                proof {
                    fields::lemma_map_of_ordered_len(context.pairs());
                    lemma_context_within_names(names, scope@.take(i as int));
                    vstd::seq_lib::seq_to_set_is_finite(list);
                    vstd::set_lib::lemma_subset_equality(context@.dom(), names);
                    lemma_full_context_stays(names, scope@, i as int);
                }
                break;
            }
        }
        context
    }

    /// The fields of an event that are not excluded.
    pub fn extract_event_fields(&self, event: &EventRecord) -> (r: FieldMap)
        ensures
            r@ == event.fields@.remove_keys(self.names().excluded),
    {
        event.fields.without(&self.excluded_fields)
    }

    /// The signature of an event, from its level, its name, its target and the
    /// fields that tell it from others.
    pub fn compute_signature(&self, event: &EventRecord, combined: &FieldMap) -> (r: EventSignature)
        ensures
            r.digest == signature::event_digest(
                event.level@,
                event.name@,
                fields::listed(combined@),
                Some(event.target@),
            ),
            combined.pairs() == fields::listed(combined@),
    {
        EventSignature::new(
            event.level.as_str(),
            event.name.as_str(),
            combined,
            Some(event.target.as_str()),
        )
    }

    /// Tells how an event within the current spans, the innermost of which comes
    /// first, is handled.
    pub fn classify(&self, event: &EventRecord, scope: &Vec<Option<FieldMap>>) -> (r: EventClass)
        ensures
            r is Summary <==> event.target@ == SUMMARY_TARGET@,
            r is Exempt <==> event.target@ != SUMMARY_TARGET@ && self.names().exempt.contains(
                event.target@,
            ),
            r matches EventClass::Throttled { signature, metadata } ==> {
                &&& signature == event_signature(self.names(), *event, scope@)
                &&& metadata@ == event_details(self.names(), *event, scope@)
            },
    {
        if matches!(compare_text(event.target.as_str(), SUMMARY_TARGET), TextOrder::Same) {
            return EventClass::Summary;
        }
        if self.exempt_targets.contains(event.target.as_str()) {
            return EventClass::Exempt;
        }
        let mut combined = self.extract_span_context(scope);
        let own = self.extract_event_fields(event);
        combined.extend(&own);
        let signature = self.compute_signature(event, &combined);
        let message = match event.fields.get("message") {
            Some(message) => message.clone(),
            None => event.name.clone(),
        };
        let metadata = EventMetadata::new(
            event.level.clone(),
            message,
            event.target.clone(),
            combined,
        );
        assert(metadata@ =~= event_details(self.names(), *event, scope@));
        EventClass::Throttled { signature, metadata }
    }

    /// Decides about an event within the current spans, the innermost of which comes
    /// first, at given times.
    ///
    /// Events that carry summaries pass untouched. Events of exempt targets pass and
    /// are counted.
    pub fn decide_event_at(
        &mut self,
        event: &EventRecord,
        scope: &Vec<Option<FieldMap>>,
        times: CheckTimes,
    ) -> (r: (LimitDecision, Option<SuppressionSummary>))
        requires
            old(self).well_formed(),
        ensures
            final(self).well_formed(),
            final(self).same_settings(old(self)),
            final(self).formatter() == old(self).formatter(),
            handles(
                old(self).names(),
                *event,
                scope@,
                old(self).model(),
                times,
                r,
                final(self).model(),
            ),
            limiter::stores(
                old(self).backend(),
                is_throttled(old(self).names(), *event) && circuit_breaker::breaker_admits(
                    old(self).model().breaker,
                    times.asked@,
                ),
                event_signature(old(self).names(), *event, scope@),
                final(self).backend(),
            ),
    {
        match self.classify(event, scope) {
            EventClass::Summary => (LimitDecision::Allow, None),
            EventClass::Exempt => {
                self.limiter.record_allowed();
                (LimitDecision::Allow, None)
            },
            EventClass::Throttled { signature, metadata } => {
                self.limiter.check_event_at(signature, Some(metadata), true, times)
            },
        }
    }

    /// Whether an event within the current spans, the innermost of which comes first,
    /// passes.
    ///
    /// One that ends a run of suppressions makes the formatter emit a summary of
    /// those that no summary has covered yet.
    pub fn event_enabled(&mut self, event: &EventRecord, scope: &Vec<Option<FieldMap>>) -> (r: bool)
        requires
            old(self).well_formed(),
        ensures
            final(self).well_formed(),
            final(self).same_settings(old(self)),
            exists|times: CheckTimes, result: (LimitDecision, Option<SuppressionSummary>)|
                {
                    &&& #[trigger] handles(
                        old(self).names(),
                        *event,
                        scope@,
                        old(self).model(),
                        times,
                        result,
                        final(self).model(),
                    )
                    &&& is_throttled(old(self).names(), *event) ==> limiter::shown(old(self).model(), times)
                    &&& limiter::stores(
                        old(self).backend(),
                        is_throttled(old(self).names(), *event) && circuit_breaker::breaker_admits(
                            old(self).model().breaker,
                            times.asked@,
                        ),
                        event_signature(old(self).names(), *event, scope@),
                        final(self).backend(),
                    )
                    &&& r == (result.0 is Allow)
                    &&& told(old(self).formatter(), result.1, final(self).formatter())
                },
    {
        match self.classify(event, scope) {
            EventClass::Summary => {
                assert(handles(
                    old(self).names(),
                    *event,
                    scope@,
                    old(self).model(),
                    arbitrary(),
                    (LimitDecision::Allow, None),
                    self.model(),
                ));
                true
            },
            EventClass::Exempt => {
                self.limiter.record_allowed();
                assert(handles(
                    old(self).names(),
                    *event,
                    scope@,
                    old(self).model(),
                    arbitrary(),
                    (LimitDecision::Allow, None),
                    self.model(),
                ));
                true
            },
            EventClass::Throttled { signature, metadata } => {
                let ghost details = Some(metadata@);
                let passes = self.should_allow_with_metadata(signature, metadata);
                proof {
                    let (times, result) = choose|
                        times: CheckTimes,
                        result: (LimitDecision, Option<SuppressionSummary>),
                    |
                        {
                            &&& #[trigger] limiter::checks(
                                old(self).model(),
                                signature,
                                details,
                                true,
                                times,
                                result,
                                self.model(),
                            )
                            &&& limiter::shown(old(self).model(), times)
                            &&& limiter::stores(
                                old(self).backend(),
                                circuit_breaker::breaker_admits(
                                    old(self).model().breaker,
                                    times.asked@,
                                ),
                                signature,
                                self.backend(),
                            )
                            &&& passes == (result.0 is Allow)
                            &&& told(old(self).formatter(), result.1, self.formatter())
                        };
                    assert(handles(
                        old(self).names(),
                        *event,
                        scope@,
                        old(self).model(),
                        times,
                        result,
                        self.model(),
                    ));
                }
                passes
            },
        }
    }

    /// The current time, as the clock of the layer shows it.
    pub fn now(&self) -> (r: Instant)
        requires
            self.well_formed(),
        ensures
            self.model().clock.shows(r),
    {
        self.limiter.registry().now()
    }

    /// Makes the formatter emit the summary of an episode, if there is one.
    fn tell(&mut self, episode: &Option<SuppressionSummary>)
        ensures
            final(self).well_formed() == old(self).well_formed(),
            final(self).same_settings(old(self)),
            final(self).model() == old(self).model(),
            final(self).backend() == old(self).backend(),
            told(old(self).formatter(), *episode, final(self).formatter()),
    {
        if let Some(summary) = episode {
            self.summary_formatter.format(summary);
        }
    }

    /// Whether an event of a signature passes.
    ///
    /// One that ends a run of suppressions makes the formatter emit a summary of
    /// those that no summary has covered yet.
    pub fn should_allow(&mut self, signature: EventSignature) -> (r: bool)
        requires
            old(self).well_formed(),
        ensures
            final(self).well_formed(),
            final(self).same_settings(old(self)),
            exists|times: CheckTimes, result: (LimitDecision, Option<SuppressionSummary>)|
                {
                    &&& #[trigger] limiter::checks(
                        old(self).model(),
                        signature,
                        None,
                        true,
                        times,
                        result,
                        final(self).model(),
                    )
                    &&& limiter::shown(old(self).model(), times)
                    &&& limiter::stores(
                        old(self).backend(),
                        circuit_breaker::breaker_admits(old(self).model().breaker, times.asked@),
                        signature,
                        final(self).backend(),
                    )
                    &&& r == (result.0 is Allow)
                    &&& told(old(self).formatter(), result.1, final(self).formatter())
                },
    {
        let result = self.limiter.check_event_with_summary(signature);
        self.tell(&result.1);
        matches!(result.0, LimitDecision::Allow)
    }

    /// Whether an event of a signature passes, as
    /// [`should_allow`](Self::should_allow) tells. Its details are kept when it is
    /// seen first.
    pub fn should_allow_with_metadata(
        &mut self,
        signature: EventSignature,
        metadata: EventMetadata,
    ) -> (r: bool)
        requires
            old(self).well_formed(),
        ensures
            final(self).well_formed(),
            final(self).same_settings(old(self)),
            exists|times: CheckTimes, result: (LimitDecision, Option<SuppressionSummary>)|
                {
                    &&& #[trigger] limiter::checks(
                        old(self).model(),
                        signature,
                        Some(metadata@),
                        true,
                        times,
                        result,
                        final(self).model(),
                    )
                    &&& limiter::shown(old(self).model(), times)
                    &&& limiter::stores(
                        old(self).backend(),
                        circuit_breaker::breaker_admits(old(self).model().breaker, times.asked@),
                        signature,
                        final(self).backend(),
                    )
                    &&& r == (result.0 is Allow)
                    &&& told(old(self).formatter(), result.1, final(self).formatter())
                },
    {
        let result = self.limiter.check_event_with_metadata_and_summary(signature, metadata);
        self.tell(&result.1);
        matches!(result.0, LimitDecision::Allow)
    }

    /// Whether the fields of new spans have to be kept.
    pub fn keeps_span_fields(&self) -> (r: bool)
        ensures
            r == (self.names().context != Set::<Seq<char>>::empty()),
    {
        !self.span_context_fields.is_empty()
    }

    /// The limiter.
    pub fn limiter(&self) -> (r: &RateLimiter<A, S>)
        requires
            self.well_formed(),
        ensures
            r.well_formed(),
            r.model() == self.model(),
            r.backend() == self.backend(),
    {
        &self.limiter
    }

    /// The limiter, to be changed.
    pub fn limiter_mut(&mut self) -> (r: &mut RateLimiter<A, S>)
        requires
            old(self).well_formed(),
        ensures
            r.well_formed(),
            r.model() == old(self).model(),
            r.backend() == old(self).backend(),
            final(self).well_formed() == final(r).well_formed(),
            final(self).model() == final(r).model(),
            final(self).backend() == final(r).backend(),
            final(self).same_settings(old(self)),
            final(self).formatter() == old(self).formatter(),
    {
        &mut self.limiter
    }

    /// The counters.
    pub fn metrics(&self) -> (r: Metrics)
        requires
            self.well_formed(),
        ensures
            r@ == self.model().metrics,
    {
        self.limiter.metrics()
    }

    /// Number of signatures that are tracked.
    pub fn signature_count(&self) -> (r: usize)
        requires
            self.well_formed(),
        ensures
            self.model().states.dom().finite(),
            r == self.model().states.dom().len(),
    {
        self.limiter.registry().len()
    }

    /// The circuit breaker.
    pub fn circuit_breaker(&self) -> (r: &CircuitBreaker)
        ensures
            r@ == self.model().breaker,
            r.clock() == self.model().breaker_clock,
    {
        self.limiter.circuit_breaker()
    }

    /// Span fields that count as fields of an event.
    pub fn span_context_fields(&self) -> (r: &NameSet)
        ensures
            r@ == self.names().context,
    {
        &self.span_context_fields
    }

    /// Event fields that do not count.
    pub fn excluded_fields(&self) -> (r: &NameSet)
        ensures
            r@ == self.names().excluded,
    {
        &self.excluded_fields
    }

    /// Targets that are not throttled.
    pub fn exempt_targets(&self) -> (r: &NameSet)
        ensures
            r@ == self.names().exempt,
    {
        &self.exempt_targets
    }

    /// The formatter.
    pub fn summary_formatter(&self) -> (r: &F)
        ensures
            *r == self.formatter(),
    {
        &self.summary_formatter
    }

    /// When summaries are emitted, and of which events.
    pub fn emitter_config(&self) -> (r: &EmitterConfig)
        ensures
            *r == self.emission(),
    {
        &self.emitter_config
    }

    /// Whether summaries are emitted from time to time.
    pub fn active_emission(&self) -> (r: bool)
        ensures
            r == self.emits(),
    {
        self.active_emission
    }

    /// A layer over a storage, with no names, the default circuit breaker and no
    /// active emission. Its counters do not tell of signatures that the storage evicts.
    pub fn with_storage(
        storage: S,
        policy: Policy<A>,
        clock: SharedClock,
        breaker_clock: SharedClock,
        formatter: F,
    ) -> (r: TracingRateLimitLayer<A, S, F>)
        requires
            storage.well_formed(),
        ensures
            r.well_formed(),
            r.backend() == storage,
            r.model() == first_model(
                storage.entries(),
                policy.model(),
                clock,
                breaker_clock,
                storage.evicted(),
                false,
            ),
            r.names() == (LayerNames {
                context: Set::empty(),
                excluded: Set::empty(),
                exempt: Set::empty(),
            }),
            r.formatter() == formatter,
            r.emission().interval@ == 30 * time::NANOS_PER_SEC,
            r.emission().min_count == 1,
            !r.emits(),
    {
        let registry = SuppressionRegistry::new(storage, clock, policy);
        TracingRateLimitLayer {
            limiter: RateLimiter::new(
                registry,
                Metrics::new(),
                CircuitBreaker::new(breaker_clock),
            ),
            span_context_fields: NameSet::empty(),
            excluded_fields: NameSet::empty(),
            exempt_targets: NameSet::empty(),
            summary_formatter: formatter,
            emitter_config: EmitterConfig::default(),
            active_emission: false,
        }
    }
}

/// A context holds named fields only.
proof fn lemma_context_within_names(names: Set<Seq<char>>, scope: Seq<Option<FieldMap>>)
    ensures
        span_context(names, scope).dom().subset_of(names),
    decreases scope.len(),
{
    if scope.len() > 0 {
        lemma_context_within_names(names, scope.drop_last());
    }
}

/// Once inner spans have given all named fields, outer spans add nothing.
proof fn lemma_full_context_stays(names: Set<Seq<char>>, scope: Seq<Option<FieldMap>>, i: int)
    requires
        0 <= i <= scope.len(),
        span_context(names, scope.take(i)).dom() == names,
    ensures
        span_context(names, scope) == span_context(names, scope.take(i)),
    decreases scope.len(),
{
    if i == scope.len() {
        assert(scope.take(i) =~= scope);
    } else {
        let inner = scope.drop_last();
        assert(inner.take(i) =~= scope.take(i));
        lemma_full_context_stays(names, inner, i);
        assert(span_context(names, scope) =~= span_context(names, inner));
    }
}

/// The state of a limiter that has seen no event.
pub open spec fn first_model<A: TokenAmount>(
    states: Map<EventSignature, EventState<A>>,
    first_policy: PolicyModel<A>,
    clock: SharedClock,
    breaker_clock: SharedClock,
    evicted: u64,
    counts_evictions: bool,
) -> LimiterModel<A> {
    LimiterModel {
        states,
        first_policy,
        clock,
        evicted,
        counts_evictions,
        metrics: MetricsSnapshot { events_allowed: 0, events_suppressed: 0, signatures_evicted: 0 },
        breaker: circuit_breaker::breaker_from(5, (30 * time::NANOS_PER_SEC) as nat),
        breaker_clock,
    }
}

/// A layer that holds its entries in memory.
pub type MemoryLayer<A, P, F> = TracingRateLimitLayer<A, ShardedStorage<EventState<A>, P>, F>;

/// The settings of a [`TracingRateLimitLayerBuilder`].
pub struct BuilderModel<A, P, F> {
    /// State in which the policy of every event starts.
    pub policy: PolicyModel<A>,
    /// Time between two emissions of summaries.
    pub summary_interval: nat,
    /// The clock.
    pub clock: SharedClock,
    /// The clock of the circuit breaker.
    pub breaker_clock: SharedClock,
    /// Most signatures to track.
    pub max_signatures: Option<usize>,
    /// Whether summaries are emitted from time to time.
    pub active_emission: bool,
    /// Emits summaries.
    pub formatter: F,
    /// The names to configure a layer with.
    pub names: LayerNames,
    /// When entries are evicted, and which.
    pub eviction_strategy: Option<EvictionStrategy<P>>,
}

/// The eviction strategy of a layer: the one that was set, else a limit to the
/// number of signatures if there is one.
pub open spec fn chosen_strategy<A, P, F>(b: BuilderModel<A, P, F>) -> Option<EvictionStrategy<P>> {
    match (b.eviction_strategy, b.max_signatures) {
        (Some(strategy), _) => Some(strategy),
        (None, Some(max_entries)) => Some(EvictionStrategy::Lru { max_entries }),
        (None, None) => None,
    }
}

/// Builds a layer step by step.
pub struct TracingRateLimitLayerBuilder<A, P, F> {
    policy: Policy<A>,
    summary_interval: Duration,
    clock: SharedClock,
    breaker_clock: SharedClock,
    max_signatures: Option<usize>,
    enable_active_emission: bool,
    summary_formatter: F,
    span_context_fields: NameSet,
    excluded_fields: NameSet,
    exempt_targets: NameSet,
    eviction_strategy: Option<EvictionStrategy<P>>,
}

impl<A: TokenAmount, P: PriorityFn<EventState<A>>, F: SummaryFormatter> TracingRateLimitLayer<
    A,
    ShardedStorage<EventState<A>, P>,
    F,
> {
    /// A builder with defaults: ten thousand signatures, thirty seconds between
    /// emissions, no active emission, no names. The circuit breaker goes by the second
    /// clock.
    pub fn builder(
        policy: Policy<A>,
        clock: SharedClock,
        breaker_clock: SharedClock,
        formatter: F,
    ) -> (r: TracingRateLimitLayerBuilder<A, P, F>)
        ensures
            r@ == (BuilderModel::<A, P, F> {
                policy: policy.model(),
                summary_interval: (30 * time::NANOS_PER_SEC) as nat,
                clock,
                breaker_clock,
                max_signatures: Some(DEFAULT_MAX_SIGNATURES),
                active_emission: false,
                formatter,
                names: LayerNames {
                    context: Set::empty(),
                    excluded: Set::empty(),
                    exempt: Set::empty(),
                },
                eviction_strategy: None,
            }),
    {
        TracingRateLimitLayerBuilder {
            policy,
            summary_interval: Duration::from_secs(30),
            clock,
            breaker_clock,
            max_signatures: Some(DEFAULT_MAX_SIGNATURES),
            enable_active_emission: false,
            summary_formatter: formatter,
            span_context_fields: NameSet::empty(),
            excluded_fields: NameSet::empty(),
            exempt_targets: NameSet::empty(),
            eviction_strategy: None,
        }
    }

    /// A layer with the defaults of the [`builder`](Self::builder).
    pub fn new(
        policy: Policy<A>,
        clock: SharedClock,
        breaker_clock: SharedClock,
        formatter: F,
    ) -> (r: MemoryLayer<A, P, F>)
        ensures
            r.well_formed(),
            r.model() == first_model(Map::empty(), policy.model(), clock, breaker_clock, 0, true),
            r.backend().entries() == Map::<EventSignature, EventState<A>>::empty(),
            r.backend().strategy() == Some(
                EvictionStrategy::<P>::Lru { max_entries: DEFAULT_MAX_SIGNATURES },
            ),
            r.names() == (LayerNames {
                context: Set::empty(),
                excluded: Set::empty(),
                exempt: Set::empty(),
            }),
            r.formatter() == formatter,
            r.emission().interval@ == 30 * time::NANOS_PER_SEC,
            r.emission().min_count == 1,
            !r.emits(),
    {
        let storage = ShardedStorage::new().with_eviction_strategy(
            EvictionStrategy::Lru { max_entries: DEFAULT_MAX_SIGNATURES },
        );
        let layer = TracingRateLimitLayer::with_storage(
            storage,
            policy,
            clock,
            breaker_clock,
            formatter,
        );
        TracingRateLimitLayer { limiter: layer.limiter.counting_evictions(), ..layer }
    }
}

impl<
    A: TokenAmount,
    P: PriorityFn<EventState<A>>,
    F: SummaryFormatter,
> TracingRateLimitLayerBuilder<A, P, F> {
    /// The settings.
    pub closed spec fn view(&self) -> BuilderModel<A, P, F> {
        BuilderModel {
            policy: self.policy.model(),
            summary_interval: self.summary_interval@,
            clock: self.clock,
            breaker_clock: self.breaker_clock,
            max_signatures: self.max_signatures,
            active_emission: self.enable_active_emission,
            formatter: self.summary_formatter,
            names: LayerNames {
                context: self.span_context_fields@,
                excluded: self.excluded_fields@,
                exempt: self.exempt_targets@,
            },
            eviction_strategy: self.eviction_strategy,
        }
    }

    /// Sets the policy with which every event starts.
    pub fn with_policy(self, policy: Policy<A>) -> (r: Self)
        ensures
            r@ == (BuilderModel { policy: policy.model(), ..self@ }),
    {
        TracingRateLimitLayerBuilder { policy, ..self }
    }

    /// Sets the time between two emissions of summaries.
    pub fn with_summary_interval(self, interval: Duration) -> (r: Self)
        ensures
            r@ == (BuilderModel { summary_interval: interval@, ..self@ }),
    {
        TracingRateLimitLayerBuilder { summary_interval: interval, ..self }
    }

    /// Sets the clock that events go by. The circuit breaker keeps its own.
    pub fn with_clock(self, clock: SharedClock) -> (r: Self)
        ensures
            r@ == (BuilderModel { clock, ..self@ }),
    {
        TracingRateLimitLayerBuilder { clock, ..self }
    }

    /// Sets the number of signatures to track. Beyond it, the least recently used
    /// are evicted.
    pub fn with_max_signatures(self, max_signatures: usize) -> (r: Self)
        ensures
            r@ == (BuilderModel { max_signatures: Some(max_signatures), ..self@ }),
    {
        TracingRateLimitLayerBuilder { max_signatures: Some(max_signatures), ..self }
    }

    /// Lifts the limit to the number of signatures.
    pub fn with_unlimited_signatures(self) -> (r: Self)
        ensures
            r@ == (BuilderModel { max_signatures: None, ..self@ }),
    {
        TracingRateLimitLayerBuilder { max_signatures: None, ..self }
    }

    /// Sets whether summaries are emitted from time to time.
    pub fn with_active_emission(self, enabled: bool) -> (r: Self)
        ensures
            r@ == (BuilderModel { active_emission: enabled, ..self@ }),
    {
        TracingRateLimitLayerBuilder { enable_active_emission: enabled, ..self }
    }

    /// Sets what emits summaries.
    pub fn with_summary_formatter(self, formatter: F) -> (r: Self)
        ensures
            r@ == (BuilderModel { formatter, ..self@ }),
    {
        TracingRateLimitLayerBuilder { summary_formatter: formatter, ..self }
    }

    /// Sets the span fields that count as fields of an event. Repetitions and empty
    /// names are dropped.
    pub fn with_span_context_fields(self, fields: Vec<String>) -> (r: Self)
        ensures
            r@ == (BuilderModel {
                names: LayerNames { context: names::named(fields@), ..self@.names },
                ..self@
            }),
    {
        TracingRateLimitLayerBuilder { span_context_fields: NameSet::from_names(fields), ..self }
    }

    /// Sets the event fields that do not count. Repetitions and empty names are
    /// dropped.
    pub fn with_excluded_fields(self, fields: Vec<String>) -> (r: Self)
        ensures
            r@ == (BuilderModel {
                names: LayerNames { excluded: names::named(fields@), ..self@.names },
                ..self@
            }),
    {
        TracingRateLimitLayerBuilder { excluded_fields: NameSet::from_names(fields), ..self }
    }

    /// Sets the targets that are not throttled. Repetitions and empty names are
    /// dropped.
    pub fn with_exempt_targets(self, targets: Vec<String>) -> (r: Self)
        ensures
            r@ == (BuilderModel {
                names: LayerNames { exempt: names::named(targets@), ..self@.names },
                ..self@
            }),
    {
        TracingRateLimitLayerBuilder { exempt_targets: NameSet::from_names(targets), ..self }
    }

    /// Sets when entries are evicted, and which. It takes the place of the limit to
    /// the number of signatures.
    pub fn with_eviction_strategy(self, strategy: EvictionStrategy<P>) -> (r: Self)
        ensures
            r@ == (BuilderModel { eviction_strategy: Some(strategy), ..self@ }),
    {
        TracingRateLimitLayerBuilder { eviction_strategy: Some(strategy), ..self }
    }

    /// Builds the layer.
    ///
    /// Fails with `ZeroMaxSignatures` if the number of signatures to track is zero,
    /// else with `EmitterConfig` if the time between two emissions is.
    pub fn build(self) -> (r: Result<MemoryLayer<A, P, F>, BuildError>)
        ensures
            r matches Err(e) ==> e == if self@.max_signatures == Some(0usize) {
                BuildError::ZeroMaxSignatures
            } else {
                BuildError::EmitterConfig(EmitterConfigError::ZeroSummaryInterval)
            },
            r is Err <==> self@.max_signatures == Some(0usize) || self@.summary_interval == 0,
            r matches Ok(layer) ==> {
                &&& layer.well_formed()
                &&& layer.model() == first_model(
                    Map::empty(),
                    self@.policy,
                    self@.clock,
                    self@.breaker_clock,
                    0,
                    true,
                )
                &&& layer.backend().entries() == Map::<EventSignature, EventState<A>>::empty()
                &&& layer.backend().strategy() == chosen_strategy(self@)
                &&& layer.names() == self@.names
                &&& layer.formatter() == self@.formatter
                &&& layer.emission().interval@ == self@.summary_interval
                &&& layer.emission().min_count == 1
                &&& layer.emits() == self@.active_emission
            },
    {
        if let Some(max) = self.max_signatures {
            if max == 0 {
                return Err(BuildError::ZeroMaxSignatures);
            }
        }
        let mut storage = ShardedStorage::new();
        match self.eviction_strategy {
            Some(strategy) => {
                storage = storage.with_eviction_strategy(strategy);
            },
            None => {
                if let Some(max_entries) = self.max_signatures {
                    storage = storage.with_eviction_strategy(EvictionStrategy::Lru { max_entries });
                }
            },
        }
        let registry = SuppressionRegistry::new(storage, self.clock, self.policy);
        let breaker = CircuitBreaker::new(self.breaker_clock);
        let limiter = RateLimiter::new(registry, Metrics::new(), breaker).counting_evictions();
        let emitter_config = match EmitterConfig::new(self.summary_interval) {
            Ok(config) => config,
            Err(e) => {
                return Err(BuildError::from(e));
            },
        };
        Ok(
            TracingRateLimitLayer {
                limiter,
                span_context_fields: self.span_context_fields,
                excluded_fields: self.excluded_fields,
                exempt_targets: self.exempt_targets,
                summary_formatter: self.summary_formatter,
                emitter_config,
                active_emission: self.enable_active_emission,
            },
        )
    }
}

/// Without names there is no context.
proof fn lemma_no_names_no_context(scope: Seq<Option<FieldMap>>)
    ensures
        span_context(Set::empty(), scope) == Map::<Seq<char>, Seq<char>>::empty(),
    decreases scope.len(),
{
    if scope.len() > 0 {
        lemma_no_names_no_context(scope.drop_last());
        assert(span_context(Set::empty(), scope) =~= Map::empty());
    }
}

/// Events that carry summaries pass and leave no trace, whatever the policy.
pub proof fn lemma_summaries_are_not_throttled<A: TokenAmount>(
    names: LayerNames,
    event: EventRecord,
    scope: Seq<Option<FieldMap>>,
    before: LimiterModel<A>,
    times: CheckTimes,
    result: (LimitDecision, Option<SuppressionSummary>),
    after: LimiterModel<A>,
)
    requires
        handles(names, event, scope, before, times, result, after),
        event.target@ == SUMMARY_TARGET@,
    ensures
        result.0 is Allow,
        result.1 is None,
        after == before,
{
}

/// Events of exempt targets pass, and are not tracked.
pub proof fn lemma_exempt_targets_pass<A: TokenAmount>(
    names: LayerNames,
    event: EventRecord,
    scope: Seq<Option<FieldMap>>,
    before: LimiterModel<A>,
    times: CheckTimes,
    result: (LimitDecision, Option<SuppressionSummary>),
    after: LimiterModel<A>,
)
    requires
        handles(names, event, scope, before, times, result, after),
        names.exempt.contains(event.target@),
    ensures
        result.0 is Allow,
        result.1 is None,
        after.states == before.states,
        after.breaker == before.breaker,
{
}

/// However many events there are, and whatever their signatures, a layer that holds its
/// entries in memory never tracks more than its eviction strategy permits, if that
/// permits one at all.
pub proof fn lemma_tracked_signatures_stay_within_limits<
    A: TokenAmount,
    P: PriorityFn<EventState<A>>,
>(
    strategy: EvictionStrategy<P>,
    backends: Seq<ShardedStorage<EventState<A>, P>>,
    admitted: Seq<bool>,
    signatures: Seq<EventSignature>,
    i: int,
)
    requires
        backends.len() == signatures.len() + 1,
        admitted.len() == signatures.len(),
        backends[0].strategy() == Some(strategy),
        backends[0].entries() == Map::<EventSignature, EventState<A>>::empty(),
        eviction::within_limits(strategy, 1),
        forall|j: int|
            0 <= j < signatures.len() ==> limiter::stores(
                backends[j],
                admitted[j],
                #[trigger] signatures[j],
                backends[j + 1],
            ),
        0 <= i < backends.len(),
    ensures
        backends[i].strategy() == Some(strategy),
        eviction::within_limits(strategy, backends[i].entries().dom().len()),
    decreases i,
{
    if i == 0 {
        assert(backends[0].entries().dom() =~= Set::empty());
    } else {
        lemma_tracked_signatures_stay_within_limits(
            strategy,
            backends,
            admitted,
            signatures,
            i - 1,
        );
        let signature = signatures[i - 1];
        assert(backends[i - 1 + 1] == backends[i]);
        if admitted[i - 1] {
            storage::lemma_access_keeps_limits(
                strategy,
                backends[i - 1],
                signature,
                backends[i],
            );
        }
    }
}

/// Over entries in memory, an event that comes with details is also counted as one that
/// comes without, at the same times and in the same state: as many signatures are evicted
/// for it. Of a token bucket this holds where arithmetic on tokens gives the same results
/// every time.
pub proof fn lemma_details_do_not_change_counters<A: TokenAmount, P: PriorityFn<EventState<A>>>(
    before: LimiterModel<A>,
    backend: ShardedStorage<EventState<A>, P>,
    signature: EventSignature,
    details: MetadataModel,
    claims: bool,
    times: CheckTimes,
    plain_result: (LimitDecision, Option<SuppressionSummary>),
    plain: LimiterModel<A>,
    plain_backend: ShardedStorage<EventState<A>, P>,
    detailed_result: (LimitDecision, Option<SuppressionSummary>),
    detailed: LimiterModel<A>,
    detailed_backend: ShardedStorage<EventState<A>, P>,
)
    requires
        limiter::current_policy(before, signature) is Bucket
            ==> token_bucket::token_arithmetic_is_determined::<A>(),
        backend.well_formed(),
        plain_backend.entries() == plain.states,
        detailed_backend.entries() == detailed.states,
        limiter::checks(before, signature, None, claims, times, plain_result, plain),
        limiter::stores(
            backend,
            circuit_breaker::breaker_admits(before.breaker, times.asked@),
            signature,
            plain_backend,
        ),
        limiter::checks(
            before,
            signature,
            Some(details),
            claims,
            times,
            detailed_result,
            detailed,
        ),
        limiter::stores(
            backend,
            circuit_breaker::breaker_admits(before.breaker, times.asked@),
            signature,
            detailed_backend,
        ),
    ensures
        detailed_result.0 == plain_result.0,
        detailed.evicted == plain.evicted,
        detailed.metrics == plain.metrics,
        detailed.breaker == plain.breaker,
{
    limiter::lemma_details_do_not_change_decisions(
        before,
        signature,
        details,
        claims,
        times,
        plain_result,
        plain,
        detailed_result,
        detailed,
    );
    if circuit_breaker::breaker_admits(before.breaker, times.asked@) {
        storage::lemma_access_evicts_as_many(
            backend,
            signature,
            plain_backend,
            detailed_backend,
        );
    }
}

/// Two events that differ only in excluded fields have the same signature.
pub proof fn lemma_excluded_fields_do_not_count(
    names: LayerNames,
    a: EventRecord,
    b: EventRecord,
    scope: Seq<Option<FieldMap>>,
)
    requires
        a.level@ == b.level@,
        a.name@ == b.name@,
        a.target@ == b.target@,
        forall|name: Seq<char>|
            !names.excluded.contains(name) ==> (#[trigger] a.fields@.contains_key(name)
                <==> b.fields@.contains_key(name)) && (a.fields@.contains_key(name)
                ==> a.fields@[name] == b.fields@[name]),
    ensures
        event_signature(names, a, scope) == event_signature(names, b, scope),
{
    assert(a.fields@.remove_keys(names.excluded) =~= b.fields@.remove_keys(names.excluded));
}

/// A field that an event has itself, and that is not excluded, counts more than
/// one of its spans.
pub proof fn lemma_own_fields_count_more(
    names: LayerNames,
    event: EventRecord,
    scope: Seq<Option<FieldMap>>,
    name: Seq<char>,
)
    requires
        event.fields@.contains_key(name),
        !names.excluded.contains(name),
    ensures
        combined_fields(names, event, scope).contains_key(name),
        combined_fields(names, event, scope)[name] == event.fields@[name],
{
}

/// The context of an event holds the named fields that any of its spans has, and no
/// others.
pub proof fn lemma_context_holds_named_fields(
    names: Set<Seq<char>>,
    scope: Seq<Option<FieldMap>>,
    name: Seq<char>,
)
    ensures
        span_context(names, scope).contains_key(name) <==> names.contains(name) && exists|i: int|
            0 <= i < scope.len() && (#[trigger] span_fields(scope[i])).contains_key(name),
    decreases scope.len(),
{
    if scope.len() > 0 {
        let outer = scope.len() - 1;
        let inner = scope.drop_last();
        lemma_context_holds_named_fields(names, inner, name);
        if span_context(names, inner).contains_key(name) {
            let i = choose|i: int|
                0 <= i < inner.len() && (#[trigger] span_fields(inner[i])).contains_key(name);
            assert(span_fields(scope[i]).contains_key(name));
        } else if names.contains(name) {
            assert forall|i: int| 0 <= i < outer implies !(#[trigger] span_fields(
                scope[i],
            )).contains_key(name) by {
                assert(scope[i] == inner[i]);
            }
        }
        assert(scope.last() == scope[outer]);
    }
}

/// Of the spans that have a named field, the innermost counts.
pub proof fn lemma_innermost_span_counts(
    names: Set<Seq<char>>,
    scope: Seq<Option<FieldMap>>,
    name: Seq<char>,
    i: int,
)
    requires
        names.contains(name),
        0 <= i < scope.len(),
        span_fields(scope[i]).contains_key(name),
        forall|j: int| 0 <= j < i ==> !(#[trigger] span_fields(scope[j])).contains_key(name),
    ensures
        span_context(names, scope).contains_key(name),
        span_context(names, scope)[name] == span_fields(scope[i])[name],
    decreases scope.len(),
{
    let inner = scope.drop_last();
    assert forall|j: int| 0 <= j < i implies !(#[trigger] span_fields(inner[j])).contains_key(
        name,
    ) by {
        assert(inner[j] == scope[j]);
        assert(!span_fields(scope[j]).contains_key(name));
    }
    if i < inner.len() {
        lemma_innermost_span_counts(names, inner, name, i);
    } else {
        lemma_context_holds_named_fields(names, inner, name);
    }
}

/// The words that spell out an event.
pub open spec fn record_words(
    names: LayerNames,
    event: EventRecord,
    scope: Seq<Option<FieldMap>>,
) -> Seq<u64> {
    signature::event_words(
        event.level@,
        event.name@,
        fields::listed(combined_fields(names, event, scope)),
        Some(event.target@),
    )
}

/// Whether all texts of an event are short enough for their lengths to be words.
pub open spec fn record_word_sized(
    names: LayerNames,
    event: EventRecord,
    scope: Seq<Option<FieldMap>>,
) -> bool {
    signature::event_word_sized(
        event.level@,
        event.name@,
        fields::listed(combined_fields(names, event, scope)),
        Some(event.target@),
    )
}

/// The fields that tell an event from others are finitely many.
proof fn lemma_combined_fields_are_finite(
    names: LayerNames,
    event: EventRecord,
    scope: Seq<Option<FieldMap>>,
)
    ensures
        combined_fields(names, event, scope).dom().finite(),
{
    lemma_span_context_is_finite(names.context, scope);
    fields::lemma_map_of_is_finite(event.fields.pairs());
    let context = span_context(names.context, scope);
    let own = event.fields@.remove_keys(names.excluded);
    assert(own.dom() =~= event.fields@.dom().difference(names.excluded));
    assert(combined_fields(names, event, scope).dom() =~= context.dom().union(own.dom()));
}

proof fn lemma_span_context_is_finite(names: Set<Seq<char>>, scope: Seq<Option<FieldMap>>)
    ensures
        span_context(names, scope).dom().finite(),
    decreases scope.len(),
{
    if scope.len() > 0 {
        lemma_span_context_is_finite(names, scope.drop_last());
        let outer = span_fields(scope.last());
        if let Some(fields) = scope.last() {
            fields::lemma_map_of_is_finite(fields.pairs());
        }
        assert(outer.restrict(names).dom() =~= outer.dom().intersect(names));
        assert(span_context(names, scope).dom() =~= outer.restrict(names).dom().union(
            span_context(names, scope.drop_last()).dom(),
        ));
    }
}

/// Events that differ in level, name or target, or in the value of any field that
/// counts, are spelled out by different words, so that only a collision of the 64-bit
/// digest can give them the same signature.
pub proof fn lemma_field_values_tell_events_apart(
    names: LayerNames,
    a: EventRecord,
    scope_a: Seq<Option<FieldMap>>,
    b: EventRecord,
    scope_b: Seq<Option<FieldMap>>,
)
    requires
        record_word_sized(names, a, scope_a),
        record_word_sized(names, b, scope_b),
        record_words(names, a, scope_a) == record_words(names, b, scope_b),
    ensures
        a.level@ == b.level@,
        a.name@ == b.name@,
        a.target@ == b.target@,
        combined_fields(names, a, scope_a) == combined_fields(names, b, scope_b),
{
    let p = combined_fields(names, a, scope_a);
    let q = combined_fields(names, b, scope_b);
    lemma_combined_fields_are_finite(names, a, scope_a);
    lemma_combined_fields_are_finite(names, b, scope_b);
    fields::lemma_listed_spells_out(p);
    fields::lemma_listed_spells_out(q);
    signature::lemma_different_events_have_different_words(
        a.level@,
        a.name@,
        fields::listed(p),
        Some(a.target@),
        b.level@,
        b.name@,
        fields::listed(q),
        Some(b.target@),
    );
}

/// Every field of an event tells it apart: two events of the same level, place and target
/// and with the same fields, but for a single character in the value of one field that is
/// not excluded, have different signatures, however many fields there are.
pub proof fn lemma_every_field_tells_events_apart(
    names: LayerNames,
    a: EventRecord,
    b: EventRecord,
    scope: Seq<Option<FieldMap>>,
    name: Seq<char>,
)
    requires
        a.level@ == b.level@,
        a.name@ == b.name@,
        a.target@ == b.target@,
        !names.excluded.contains(name),
        a.fields@.contains_key(name),
        b.fields@ == a.fields@.insert(name, b.fields@[name]),
        signature::differ_in_one_character(a.fields@[name], b.fields@[name]),
    ensures
        event_signature(names, a, scope) != event_signature(names, b, scope),
{
    let p = combined_fields(names, a, scope);
    let value = b.fields@[name];
    assert(combined_fields(names, b, scope) =~= p.insert(name, value));
    lemma_combined_fields_are_finite(names, a, scope);
    let at = fields::lemma_listed_after_change(p, name, value);
    signature::lemma_field_value_tells_digests_apart(
        a.level@,
        a.name@,
        Some(a.target@),
        fields::listed(p),
        fields::listed(p.insert(name, value)),
        at,
    );
}

/// The named fields of the spans around an event tell it apart too: the same event within
/// the same spans, but for a single character in the value of a named field of one span,
/// has another signature, unless the event or a span further in has that field itself.
pub proof fn lemma_named_span_field_tells_events_apart(
    names: LayerNames,
    event: EventRecord,
    scope: Seq<Option<FieldMap>>,
    other: Option<FieldMap>,
    i: int,
    name: Seq<char>,
)
    requires
        names.context.contains(name),
        names.excluded.contains(name) || !event.fields@.contains_key(name),
        0 <= i < scope.len(),
        forall|j: int| 0 <= j < i ==> !(#[trigger] span_fields(scope[j])).contains_key(name),
        span_fields(scope[i]).contains_key(name),
        span_fields(other) == span_fields(scope[i]).insert(name, span_fields(other)[name]),
        signature::differ_in_one_character(
            span_fields(scope[i])[name],
            span_fields(other)[name],
        ),
    ensures
        event_signature(names, event, scope) != event_signature(
            names,
            event,
            scope.update(i, other),
        ),
{
    let changed = scope.update(i, other);
    let value = span_fields(other)[name];
    lemma_innermost_span_counts(names.context, scope, name, i);
    lemma_context_after_change(names.context, scope, other, i, name);
    let p = combined_fields(names, event, scope);
    assert(p.contains_key(name) && p[name] == span_fields(scope[i])[name]);
    assert(combined_fields(names, event, changed) =~= p.insert(name, value));
    lemma_combined_fields_are_finite(names, event, scope);
    let at = fields::lemma_listed_after_change(p, name, value);
    signature::lemma_field_value_tells_digests_apart(
        event.level@,
        event.name@,
        Some(event.target@),
        fields::listed(p),
        fields::listed(p.insert(name, value)),
        at,
    );
}

/// Another value of a field in the innermost span that has it is the value in the
/// context.
proof fn lemma_context_after_change(
    names: Set<Seq<char>>,
    scope: Seq<Option<FieldMap>>,
    other: Option<FieldMap>,
    i: int,
    name: Seq<char>,
)
    requires
        names.contains(name),
        0 <= i < scope.len(),
        forall|j: int| 0 <= j < i ==> !(#[trigger] span_fields(scope[j])).contains_key(name),
        span_fields(scope[i]).contains_key(name),
        span_fields(other) == span_fields(scope[i]).insert(name, span_fields(other)[name]),
    ensures
        span_context(names, scope.update(i, other)) == span_context(names, scope).insert(
            name,
            span_fields(other)[name],
        ),
    decreases scope.len(),
{
    let changed = scope.update(i, other);
    let value = span_fields(other)[name];
    let inner = scope.drop_last();
    if i < inner.len() {
        assert forall|j: int| 0 <= j < i implies !(#[trigger] span_fields(inner[j])).contains_key(
            name,
        ) by {
            assert(inner[j] == scope[j]);
            assert(!span_fields(scope[j]).contains_key(name));
        }
        lemma_context_after_change(names, inner, other, i, name);
        assert(changed.drop_last() =~= inner.update(i, other));
        assert(changed.last() == scope.last());
        assert(span_context(names, changed) =~= span_context(names, scope).insert(name, value));
    } else {
        assert(changed.drop_last() =~= inner);
        assert(changed.last() == other);
        lemma_context_holds_named_fields(names, inner, name);
        assert forall|j: int| 0 <= j < inner.len() implies !(#[trigger] span_fields(
            inner[j],
        )).contains_key(name) by {
            assert(inner[j] == scope[j]);
            assert(!span_fields(scope[j]).contains_key(name));
        }
        assert(span_context(names, changed) =~= span_context(names, scope).insert(name, value));
    }
}

/// Level, place and target of an event tell it apart, by a single character.
pub proof fn lemma_level_place_and_target_tell_events_apart(
    names: LayerNames,
    a: EventRecord,
    b: EventRecord,
    scope: Seq<Option<FieldMap>>,
)
    requires
        a.fields@ == b.fields@,
        ({
            ||| signature::differ_in_one_character(a.level@, b.level@) && a.name@ == b.name@
                && a.target@ == b.target@
            ||| a.level@ == b.level@ && signature::differ_in_one_character(a.name@, b.name@)
                && a.target@ == b.target@
            ||| a.level@ == b.level@ && a.name@ == b.name@ && signature::differ_in_one_character(
                a.target@,
                b.target@,
            )
        }),
    ensures
        event_signature(names, a, scope) != event_signature(names, b, scope),
{
    let pairs = fields::listed(combined_fields(names, a, scope));
    assert(combined_fields(names, b, scope) == combined_fields(names, a, scope));
    signature::lemma_level_message_and_target_tell_digests_apart(
        a.level@,
        a.name@,
        a.target@,
        pairs,
        b.level@,
    );
    signature::lemma_level_message_and_target_tell_digests_apart(
        a.level@,
        a.name@,
        a.target@,
        pairs,
        b.name@,
    );
    signature::lemma_level_message_and_target_tell_digests_apart(
        a.level@,
        a.name@,
        a.target@,
        pairs,
        b.target@,
    );
}

/// The details of an event are its level, its target, its message, and every field that
/// tells it apart: its own that are not excluded, and of the named fields of its spans
/// those that it does not have itself. Its message is its field of that name, even where
/// that is excluded, or else the name of the place that emits it.
pub proof fn lemma_details_describe_the_event(
    names: LayerNames,
    event: EventRecord,
    scope: Seq<Option<FieldMap>>,
    name: Seq<char>,
)
    ensures
        ({
            let details = event_details(names, event, scope);
            let own = event.fields@.contains_key(name) && !names.excluded.contains(name);
            &&& details.level == event.level@
            &&& details.target == event.target@
            &&& event.fields@.contains_key("message"@) ==> details.message
                == event.fields@["message"@]
            &&& !event.fields@.contains_key("message"@) ==> details.message == event.name@
            &&& own ==> details.pairs.contains((name, event.fields@[name]))
            &&& !own && span_context(names.context, scope).contains_key(name)
                ==> details.pairs.contains((name, span_context(names.context, scope)[name]))
            &&& !own && !span_context(names.context, scope).contains_key(name) ==> forall|i: int|
                0 <= i < details.pairs.len() ==> (#[trigger] details.pairs[i]).0 != name
        }),
{
    let p = combined_fields(names, event, scope);
    lemma_combined_fields_are_finite(names, event, scope);
    fields::lemma_list_holds_the_map(p, name);
}

/// A layer tracks no more signatures than the limits of its eviction strategy, in
/// numbers: no more than its limit of entries, and no more than its limit of bytes holds
/// at 200 bytes each, where these hold at least one.
pub proof fn lemma_layer_tracks_no_more_than_its_limits<
    A: TokenAmount,
    P: PriorityFn<EventState<A>>,
>(
    strategy: EvictionStrategy<P>,
    backends: Seq<ShardedStorage<EventState<A>, P>>,
    admitted: Seq<bool>,
    signatures: Seq<EventSignature>,
    i: int,
)
    requires
        backends.len() == signatures.len() + 1,
        admitted.len() == signatures.len(),
        backends[0].strategy() == Some(strategy),
        backends[0].entries() == Map::<EventSignature, EventState<A>>::empty(),
        match strategy {
            EvictionStrategy::Lru { max_entries } => max_entries >= 1,
            EvictionStrategy::Priority { max_entries, .. } => max_entries >= 1,
            EvictionStrategy::Memory { max_bytes } => max_bytes >= 200,
            EvictionStrategy::PriorityWithMemory { max_entries, max_bytes, .. } => max_entries >= 1
                && max_bytes >= 200,
        },
        forall|j: int|
            0 <= j < signatures.len() ==> limiter::stores(
                backends[j],
                admitted[j],
                #[trigger] signatures[j],
                backends[j + 1],
            ),
        0 <= i < backends.len(),
    ensures
        ({
            let count = backends[i].entries().dom().len();
            match strategy {
                EvictionStrategy::Lru { max_entries } => count <= max_entries,
                EvictionStrategy::Priority { max_entries, .. } => count <= max_entries,
                EvictionStrategy::Memory { max_bytes } => count * 200 <= max_bytes,
                EvictionStrategy::PriorityWithMemory { max_entries, max_bytes, .. } => count
                    <= max_entries && count * 200 <= max_bytes,
            }
        }),
{
    storage::lemma_limits_in_numbers(strategy, 1);
    storage::lemma_limits_in_numbers(strategy, backends[i].entries().dom().len());
    lemma_tracked_signatures_stay_within_limits(strategy, backends, admitted, signatures, i);
}

/// A layer is built with the eviction strategy that was set, or else with a limit to the
/// number of signatures, where the least recently used go first, or with no limit at all.
pub proof fn lemma_built_layer_has_the_chosen_strategy<A, P, F>(b: BuilderModel<A, P, F>)
    ensures
        b.eviction_strategy is Some ==> chosen_strategy(b) == b.eviction_strategy,
        b.eviction_strategy is None && b.max_signatures is Some ==> chosen_strategy(b) == Some(
            EvictionStrategy::<P>::Lru { max_entries: b.max_signatures->0 },
        ),
        b.eviction_strategy is None && b.max_signatures is None ==> chosen_strategy(b) is None,
{
}

/// A new layer has counted nothing, and its circuit breaker lets attempts be made until
/// five fail in a row, and again thirty seconds after the last.
pub proof fn lemma_new_layer_starts_from_nothing<A: TokenAmount>(
    states: Map<EventSignature, EventState<A>>,
    first_policy: PolicyModel<A>,
    clock: SharedClock,
    breaker_clock: SharedClock,
    evicted: u64,
    counts_evictions: bool,
)
    ensures
        ({
            let m = first_model(
                states,
                first_policy,
                clock,
                breaker_clock,
                evicted,
                counts_evictions,
            );
            &&& m.states == states
            &&& m.first_policy == first_policy
            &&& m.clock == clock
            &&& m.breaker_clock == breaker_clock
            &&& m.counts_evictions == counts_evictions
            &&& m.metrics.events_allowed == 0
            &&& m.metrics.events_suppressed == 0
            &&& m.metrics.signatures_evicted == 0
            &&& m.breaker.state is Closed
            &&& m.breaker.failures == 0
            &&& m.breaker.threshold == 5
            &&& m.breaker.timeout == 30_000_000_000
        }),
{
}

/// An event reaches the limiter unless it carries a summary or its target is exempt, and
/// is then decided about as one of its own signature, with its own details and with a
/// summary of what it ends.
pub proof fn lemma_other_events_are_checked<A: TokenAmount>(
    names: LayerNames,
    event: EventRecord,
    scope: Seq<Option<FieldMap>>,
    before: LimiterModel<A>,
    times: CheckTimes,
    result: (LimitDecision, Option<SuppressionSummary>),
    after: LimiterModel<A>,
)
    requires
        event.target@ != SUMMARY_TARGET@,
        !names.exempt.contains(event.target@),
    ensures
        is_throttled(names, event),
        handles(names, event, scope, before, times, result, after) <==> limiter::checks(
            before,
            event_signature(names, event, scope),
            Some(event_details(names, event, scope)),
            true,
            times,
            result,
            after,
        ),
{
}

/// Events of exempt targets are counted as passed, and nothing else is counted of them.
pub proof fn lemma_exempt_events_are_counted<A: TokenAmount>(
    names: LayerNames,
    event: EventRecord,
    scope: Seq<Option<FieldMap>>,
    before: LimiterModel<A>,
    times: CheckTimes,
    result: (LimitDecision, Option<SuppressionSummary>),
    after: LimiterModel<A>,
)
    requires
        handles(names, event, scope, before, times, result, after),
        event.target@ != SUMMARY_TARGET@,
        names.exempt.contains(event.target@),
        before.metrics.events_allowed < u64::MAX,
    ensures
        !is_throttled(names, event),
        after.metrics.events_allowed == before.metrics.events_allowed + 1,
        after.metrics.events_suppressed == before.metrics.events_suppressed,
        after.metrics.signatures_evicted == before.metrics.signatures_evicted,
        after.evicted == before.evicted,
{
}

/// The formatter emits a summary when there is one, and is left alone when there is none.
pub proof fn lemma_only_summaries_are_told<F: SummaryFormatter>(
    before: F,
    episode: Option<SuppressionSummary>,
    after: F,
)
    requires
        told(before, episode, after),
    ensures
        episode matches Some(summary) ==> F::emitted(before, summary, after),
        episode is None ==> after == before,
{
}

/// Only named span fields count: within spans whose named fields are the same, however
/// they differ in others, an event has the same signature.
pub proof fn lemma_other_span_fields_do_not_count(
    names: LayerNames,
    event: EventRecord,
    a: Seq<Option<FieldMap>>,
    b: Seq<Option<FieldMap>>,
)
    requires
        a.len() == b.len(),
        forall|i: int, name: Seq<char>|
            0 <= i < a.len() && names.context.contains(name) ==> (#[trigger] span_fields(
                a[i],
            ).contains_key(name) <==> span_fields(b[i]).contains_key(name)) && (span_fields(
                a[i],
            ).contains_key(name) ==> span_fields(a[i])[name] == span_fields(b[i])[name]),
    ensures
        event_signature(names, event, a) == event_signature(names, event, b),
        event_details(names, event, a) == event_details(names, event, b),
{
    lemma_same_named_fields_same_context(names.context, a, b);
}

proof fn lemma_same_named_fields_same_context(
    names: Set<Seq<char>>,
    a: Seq<Option<FieldMap>>,
    b: Seq<Option<FieldMap>>,
)
    requires
        a.len() == b.len(),
        forall|i: int, name: Seq<char>|
            0 <= i < a.len() && names.contains(name) ==> (#[trigger] span_fields(
                a[i],
            ).contains_key(name) <==> span_fields(b[i]).contains_key(name)) && (span_fields(
                a[i],
            ).contains_key(name) ==> span_fields(a[i])[name] == span_fields(b[i])[name]),
    ensures
        span_context(names, a) == span_context(names, b),
    decreases a.len(),
{
    if a.len() > 0 {
        let x = a.drop_last();
        let y = b.drop_last();
        assert forall|i: int, name: Seq<char>|
            0 <= i < x.len() && names.contains(name) implies (#[trigger] span_fields(
            x[i],
        ).contains_key(name) <==> span_fields(y[i]).contains_key(name)) && (span_fields(
            x[i],
        ).contains_key(name) ==> span_fields(x[i])[name] == span_fields(y[i])[name]) by {
            assert(x[i] == a[i] && y[i] == b[i]);
            assert(span_fields(a[i]).contains_key(name) <==> span_fields(b[i]).contains_key(name));
        }
        lemma_same_named_fields_same_context(names, x, y);
        let n = a.len() - 1;
        let p = span_fields(a.last()).restrict(names);
        let q = span_fields(b.last()).restrict(names);
        assert forall|name: Seq<char>| names.contains(name) implies (#[trigger] span_fields(
            a.last(),
        ).contains_key(name) <==> span_fields(b.last()).contains_key(name)) && (span_fields(
            a.last(),
        ).contains_key(name) ==> span_fields(a.last())[name] == span_fields(b.last())[name]) by {
            assert(span_fields(a[n]).contains_key(name) <==> span_fields(b[n]).contains_key(name));
        }
        assert(p =~= q);
    }
}

} // verus!
