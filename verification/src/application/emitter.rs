//! Reports what has been suppressed, from time to time.

use vstd::prelude::*;

use crate::application::ports::Storage;
use crate::application::registry::{EventState, SuppressionRegistry};
use crate::domain::metadata;
use crate::domain::policy::TokenAmount;
use crate::domain::signature::EventSignature;
use crate::domain::summary;
use crate::domain::summary::SuppressionSummary;
use crate::domain::time;
use crate::domain::time::Duration;

verus! {

/// Seconds for which a shutdown waits unless told otherwise.
pub const SHUTDOWN_TIMEOUT_SECS: u64 = 10;

/// Why a configuration is not valid.
#[derive(Debug, Clone, Copy, PartialEq, Eq, Structural)]
pub enum EmitterConfigError {
    /// The interval has zero length.
    ZeroSummaryInterval,
}

impl EmitterConfigError {
    /// The error as text.
    pub fn to_string(&self) -> (r: String)
        ensures
            r@ == "summary interval must be greater than 0"@,
    {
        match self {
            EmitterConfigError::ZeroSummaryInterval => {
                "summary interval must be greater than 0".to_owned()
            },
        }
    }
}

/// Why a shutdown failed.
#[derive(Debug, Clone, Copy, PartialEq, Eq, Structural)]
pub enum ShutdownError {
    /// The task panicked.
    TaskPanicked,
    /// The task was cancelled before it completed.
    TaskCancelled,
    /// The task did not complete in time.
    Timeout,
    /// The task could not be signalled. It may have exited already.
    SignalFailed,
}

/// The text of a shutdown error.
pub open spec fn shutdown_error_text(e: ShutdownError) -> Seq<char> {
    match e {
        ShutdownError::TaskPanicked => "emitter task panicked during shutdown"@,
        ShutdownError::TaskCancelled => "emitter task was cancelled"@,
        ShutdownError::Timeout => "shutdown exceeded timeout"@,
        ShutdownError::SignalFailed => "failed to send shutdown signal"@,
    }
}

impl ShutdownError {
    /// The error as text.
    pub fn to_string(&self) -> (r: String)
        ensures
            r@ == shutdown_error_text(*self),
    {
        match self {
            ShutdownError::TaskPanicked => "emitter task panicked during shutdown".to_owned(),
            ShutdownError::TaskCancelled => "emitter task was cancelled".to_owned(),
            ShutdownError::Timeout => "shutdown exceeded timeout".to_owned(),
            ShutdownError::SignalFailed => "failed to send shutdown signal".to_owned(),
        }
    }
}

/// What becomes of a task that is asked to shut down.
#[derive(Debug, Clone, Copy, PartialEq, Eq, Structural)]
pub enum TaskEnd {
    /// It could not be signalled.
    Unreachable,
    /// It had been waited for before.
    AlreadyJoined,
    /// It completed.
    Completed,
    /// It panicked.
    Panicked,
    /// It was cancelled.
    Cancelled,
    /// It failed in some other way.
    Failed,
    /// It was still running when the time was up.
    Overdue,
}

/// What a shutdown returns for each end of the task. A failure of an unknown kind
/// counts as a panic.
pub fn shutdown_result(end: TaskEnd) -> (r: Result<(), ShutdownError>)
    ensures
        r == match end {
            TaskEnd::Unreachable => Err(ShutdownError::SignalFailed),
            TaskEnd::AlreadyJoined | TaskEnd::Completed => Ok(()),
            TaskEnd::Panicked | TaskEnd::Failed => Err(ShutdownError::TaskPanicked),
            TaskEnd::Cancelled => Err(ShutdownError::TaskCancelled),
            TaskEnd::Overdue => Err(ShutdownError::Timeout),
        },
{
    match end {
        TaskEnd::Unreachable => Err(ShutdownError::SignalFailed),
        TaskEnd::AlreadyJoined | TaskEnd::Completed => Ok(()),
        TaskEnd::Panicked | TaskEnd::Failed => Err(ShutdownError::TaskPanicked),
        TaskEnd::Cancelled => Err(ShutdownError::TaskCancelled),
        TaskEnd::Overdue => Err(ShutdownError::Timeout),
    }
}

/// When summaries are emitted, and of which events.
#[derive(Debug, Clone, Copy)]
pub struct EmitterConfig {
    /// Time between two emissions.
    pub interval: Duration,
    /// Number of suppressions from which an event is reported.
    pub min_count: usize,
}

impl Default for EmitterConfig {
    /// Every thirty seconds, from one suppression on.
    fn default() -> (r: EmitterConfig)
        ensures
            r.interval@ == 30 * time::NANOS_PER_SEC,
            r.min_count == 1,
    {
        EmitterConfig { interval: Duration::from_secs(30), min_count: 1 }
    }
}

impl EmitterConfig {
    /// A configuration that reports events from one suppression on.
    ///
    /// Fails with `ZeroSummaryInterval` if the interval has zero length.
    pub fn new(interval: Duration) -> (r: Result<EmitterConfig, EmitterConfigError>)
        ensures
            r is Err <==> interval@ == 0,
            r matches Err(e) ==> e == EmitterConfigError::ZeroSummaryInterval,
            r matches Ok(config) ==> config.interval == interval && config.min_count == 1,
    {
        if interval.is_zero() {
            return Err(EmitterConfigError::ZeroSummaryInterval);
        }
        Ok(EmitterConfig { interval, min_count: 1 })
    }

    /// Sets the number of suppressions from which an event is reported.
    pub fn with_min_count(self, min_count: usize) -> (r: EmitterConfig)
        ensures
            r == (EmitterConfig { min_count, ..self }),
    {
        EmitterConfig { interval: self.interval, min_count }
    }
}

/// Whether an event is reported.
pub open spec fn is_reported<A: TokenAmount>(
    states: Map<EventSignature, EventState<A>>,
    min_count: usize,
    signature: EventSignature,
) -> bool {
    states.contains_key(signature) && states[signature]@.counter.count >= min_count
}

/// Whether summaries report every event that is to be reported, each once, with all
/// of its suppressions, and no other.
pub open spec fn reports<A: TokenAmount>(
    states: Map<EventSignature, EventState<A>>,
    min_count: usize,
    summaries: Seq<SuppressionSummary>,
) -> bool {
    &&& forall|i: int|
        0 <= i < summaries.len() ==> {
            let s = (#[trigger] summaries[i]).signature;
            &&& is_reported(states, min_count, s)
            &&& summaries[i]@ == summary::summary_of(
                s,
                states[s]@.counter,
                states[s]@.metadata,
            )
        }
    &&& forall|i: int, j: int|
        0 <= i < j < summaries.len() ==> (#[trigger] summaries[i]).signature != (
        #[trigger] summaries[j]).signature
    &&& forall|s: EventSignature| #[trigger]
        is_reported(states, min_count, s) ==> exists|i: int|
            0 <= i < summaries.len() && (#[trigger] summaries[i]).signature == s
}

/// Summarises all events of a registry that have been suppressed at least
/// `min_count` times.
pub fn collect<A: TokenAmount, S: Storage<EventState<A>>>(
    registry: &SuppressionRegistry<A, S>,
    min_count: usize,
) -> (r: Vec<SuppressionSummary>)
    requires
        registry.well_formed(),
    ensures
        reports(registry.states(), min_count, r@),
{
    let ghost states = registry.states();
    let storage = registry.storage();
    let signatures = storage.signatures();
    let mut summaries: Vec<SuppressionSummary> = Vec::new();
    let ghost mut places: Seq<int> = Seq::empty();
    let mut i: usize = 0;
    while i < signatures.len()
        invariant
            i <= signatures.len(),
            storage.well_formed(),
            storage.entries() == states,
            signatures@.no_duplicates(),
            signatures@.to_set() == states.dom(),
            places.len() == summaries.len(),
            forall|a: int|
                0 <= a < summaries.len() ==> {
                    let s = (#[trigger] summaries@[a]).signature;
                    &&& is_reported(states, min_count, s)
                    &&& summaries@[a]@ == summary::summary_of(
                        s,
                        states[s]@.counter,
                        states[s]@.metadata,
                    )
                    &&& signatures@[places[a]] == s
                },
            forall|a: int| 0 <= a < summaries.len() ==> 0 <= #[trigger] places[a] < i,
            forall|a: int, b: int|
                0 <= a < b < summaries.len() ==> #[trigger] places[a] < #[trigger] places[b],
            forall|j: int|
                0 <= j < i && is_reported(states, min_count, #[trigger] signatures@[j])
                    ==> exists|a: int|
                    0 <= a < summaries.len() && (#[trigger] summaries@[a]).signature
                        == signatures@[j],
        decreases signatures.len() - i,
    {
        let signature = signatures[i];
        let ghost before = summaries@;
        assert(signatures@.to_set().contains(signature));
        if let Some(state) = storage.get(signature) {
            if state.counter.count() >= min_count {
                let report = SuppressionSummary::from_counter_with_metadata(
                    signature,
                    &state.counter,
                    metadata::clone_metadata(&state.metadata),
                );
                summaries.push(report);
                proof {
                    places = places.push(i as int);
                    assert(summaries@[before.len() as int].signature == signature);
                }
            }
        }
        proof {
            assert forall|j: int| 0 <= j < i + 1 && is_reported(
                states,
                min_count,
                #[trigger] signatures@[j],
            ) implies exists|a: int|
                0 <= a < summaries.len() && (#[trigger] summaries@[a]).signature
                    == signatures@[j] by {
                if j < i {
                    let a = choose|a: int|
                        0 <= a < before.len() && (#[trigger] before[a]).signature
                            == signatures@[j];
                    assert(summaries@[a] == before[a]);
                }
            }
        }
        i = i + 1;
    }
    proof {
        assert forall|a: int, b: int| 0 <= a < b < summaries.len() implies (
        #[trigger] summaries@[a]).signature != (#[trigger] summaries@[b]).signature by {
            assert(places[a] < places[b]);
        }
        assert forall|s: EventSignature| #[trigger]
            is_reported(states, min_count, s) implies exists|a: int|
            0 <= a < summaries.len() && (#[trigger] summaries@[a]).signature == s by {
            assert(signatures@.to_set().contains(s));
            let j = choose|j: int| 0 <= j < signatures.len() && signatures@[j] == s;
            assert(is_reported(states, min_count, signatures@[j]));
        }
    }
    summaries
}

/// Something that the emitting task waits for.
#[derive(Debug, Clone, Copy, PartialEq, Eq, Structural)]
pub enum EmitterEvent {
    /// The shutdown signal has changed.
    Signal {
        /// Whether it asks for a shutdown.
        shutdown: bool,
    },
    /// An interval is over.
    Tick,
}

/// What the emitting task does next.
#[derive(Debug)]
pub struct EmitterAction {
    /// Summaries to emit.
    pub emission: Option<Vec<SuppressionSummary>>,
    /// Whether the task ends.
    pub stop: bool,
}

/// Whether an event makes the task report.
pub open spec fn calls_for_report(event: EmitterEvent, emit_final: bool) -> bool {
    match event {
        EmitterEvent::Tick => true,
        EmitterEvent::Signal { shutdown } => shutdown && emit_final,
    }
}

/// Decides what the emitting task does about an event.
///
/// It reports at the end of every interval, and once more before it ends if
/// `emit_final` is set. Where there is nothing to report, nothing is emitted.
pub fn react<A: TokenAmount, S: Storage<EventState<A>>>(
    registry: &SuppressionRegistry<A, S>,
    config: &EmitterConfig,
    event: EmitterEvent,
    emit_final: bool,
) -> (r: EmitterAction)
    requires
        registry.well_formed(),
    ensures
        r.stop == (event == EmitterEvent::Signal { shutdown: true }),
        r.emission matches Some(summaries) ==> {
            &&& calls_for_report(event, emit_final)
            &&& summaries.len() > 0
            &&& reports(registry.states(), config.min_count, summaries@)
        },
        r.emission is None ==> !calls_for_report(event, emit_final) || forall|s: EventSignature|
            !#[trigger] is_reported(registry.states(), config.min_count, s),
{
    let (report, stop) = match event {
        EmitterEvent::Tick => (true, false),
        EmitterEvent::Signal { shutdown } => (shutdown && emit_final, shutdown),
    };
    if !report {
        return EmitterAction { emission: None, stop };
    }
    let summaries = collect(registry, config.min_count);
    if summaries.len() == 0 {
        EmitterAction { emission: None, stop }
    } else {
        EmitterAction { emission: Some(summaries), stop }
    }
}

/// Reports the suppressed events of a registry.
pub struct SummaryEmitter<A, S> {
    registry: SuppressionRegistry<A, S>,
    config: EmitterConfig,
}

impl<A: TokenAmount, S: Storage<EventState<A>>> SummaryEmitter<A, S> {
    /// Whether the emitter is in order.
    pub open spec fn well_formed(&self) -> bool {
        self.source().well_formed()
    }

    /// The registry.
    pub closed spec fn source(&self) -> SuppressionRegistry<A, S> {
        self.registry
    }

    /// The events that are tracked.
    pub open spec fn states(&self) -> Map<EventSignature, EventState<A>> {
        self.source().states()
    }

    /// The configuration.
    pub closed spec fn settings(&self) -> EmitterConfig {
        self.config
    }

    /// An emitter for a registry.
    pub fn new(registry: SuppressionRegistry<A, S>, config: EmitterConfig) -> (r: SummaryEmitter<
        A,
        S,
    >)
        requires
            registry.well_formed(),
        ensures
            r.well_formed(),
            r.source() == registry,
            r.settings() == config,
    {
        SummaryEmitter { registry, config }
    }

    /// Summarises all events that have been suppressed at least `min_count` times.
    pub fn collect_summaries(&self) -> (r: Vec<SuppressionSummary>)
        requires
            self.well_formed(),
        ensures
            reports(self.states(), self.settings().min_count, r@),
    {
        collect(&self.registry, self.config.min_count)
    }

    /// The configuration.
    pub fn config(&self) -> (r: &EmitterConfig)
        ensures
            *r == self.settings(),
    {
        &self.config
    }

    /// The registry.
    pub fn registry(&self) -> (r: &SuppressionRegistry<A, S>)
        ensures
            *r == self.source(),
    {
        &self.registry
    }
}

/// A report has one summary for every event that is tracked and was suppressed at least
/// `min_count` times, and none for any other. Each tells how often that was, since when
/// the event is counted, when it was last suppressed, how long that took, and what is
/// known of the event.
pub proof fn lemma_report_tells_all_and_nothing_else<A: TokenAmount>(
    states: Map<EventSignature, EventState<A>>,
    min_count: usize,
    summaries: Seq<SuppressionSummary>,
    signature: EventSignature,
)
    requires
        reports(states, min_count, summaries),
    ensures
        (states.contains_key(signature) && states[signature]@.counter.count >= min_count)
            <==> exists|i: int|
            0 <= i < summaries.len() && (#[trigger] summaries[i]).signature == signature,
        forall|i: int, j: int|
            0 <= i < summaries.len() && 0 <= j < summaries.len() && (
            #[trigger] summaries[i]).signature == signature && (#[trigger] summaries[j]).signature
                == signature ==> i == j,
        forall|i: int|
            0 <= i < summaries.len() && (#[trigger] summaries[i]).signature == signature ==> {
                let c = states[signature]@.counter;
                &&& summaries[i].count == c.count
                &&& summaries[i].first_suppressed@ == c.first
                &&& summaries[i].last_suppressed@ == c.last
                &&& c.first <= c.last ==> c.first + summaries[i].duration@ == c.last
                &&& c.first > c.last ==> summaries[i].duration@ == 0
                &&& metadata::optional_metadata(summaries[i].metadata)
                    == states[signature]@.metadata
            },
{
    if is_reported(states, min_count, signature) {
        let i = choose|i: int|
            0 <= i < summaries.len() && (#[trigger] summaries[i]).signature == signature;
    }
}

/// The task reports at every tick, and once more when it is told to end if that is wanted,
/// and at no other time.
pub proof fn lemma_reports_are_called_for_at_ticks_and_the_end(
    event: EmitterEvent,
    emit_final: bool,
)
    ensures
        calls_for_report(event, emit_final) <==> event is Tick || (emit_final && event
            == (EmitterEvent::Signal { shutdown: true })),
{
}

} // verus!
