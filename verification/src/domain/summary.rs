//! Suppression counters and summaries.
//!
//! A counter tracks how often an event was suppressed and how much of that has
//! been reported. Summaries tell a reader about it.

use vstd::prelude::*;
use vstd::string::StringExecFns;

use crate::domain::metadata;
use crate::domain::metadata::EventMetadata;
use crate::domain::signature::EventSignature;
use crate::domain::text;
use crate::domain::text::{append_decimal, in_seconds, in_suitable_unit};
use crate::domain::time;
use crate::domain::time::{Duration, Instant};

verus! {

/// The state of a [`SuppressionCounter`].
pub struct CounterModel {
    /// Number of suppressions.
    pub count: nat,
    /// When the first suppression happened, in nanoseconds after the origin.
    pub first: nat,
    /// When the last suppression happened, in nanoseconds after the origin.
    pub last: nat,
    /// Number of suppressions that a summary has covered.
    pub reported: nat,
    /// Where the last reported range ends, in nanoseconds after the origin.
    pub boundary: nat,
}

/// A counter that starts at a point in time.
pub open spec fn counter_from(at: nat) -> CounterModel {
    let nanos = time::clamp_u64(at);
    CounterModel { count: 0, first: nanos, last: nanos, reported: 0, boundary: nanos }
}

/// A counter that continues from a count and two points in time.
pub open spec fn counter_restored(count: nat, first: nat, last: nat) -> CounterModel {
    CounterModel {
        count,
        first: time::clamp_u64(first),
        last: time::clamp_u64(last),
        reported: 0,
        boundary: time::clamp_u64(first),
    }
}

/// Whether a state can be that of a counter: its parts fit the machine words.
pub open spec fn counter_valid(c: CounterModel) -> bool {
    &&& c.count <= usize::MAX
    &&& c.first <= u64::MAX
    &&& c.last <= u64::MAX
    &&& c.reported <= usize::MAX
    &&& c.boundary <= u64::MAX
}

/// The number after one more; it starts over once the machine word is used up.
pub open spec fn one_more(count: nat) -> nat {
    if count == usize::MAX {
        0
    } else {
        count + 1
    }
}

/// A counter after one more suppression.
pub open spec fn counter_after_suppression(c: CounterModel, at: nat) -> CounterModel {
    CounterModel { count: one_more(c.count), last: time::clamp_u64(at), ..c }
}

/// Whether a reporter that has seen so many suppressions has news to claim.
pub open spec fn has_news(c: CounterModel, seen: nat) -> bool {
    c.reported < seen
}

/// Number of suppressions that such a reporter claims.
pub open spec fn claimed_by(c: CounterModel, seen: nat) -> nat {
    if has_news(c, seen) {
        (seen - c.reported) as nat
    } else {
        0
    }
}

/// A counter after a reporter that has seen so many suppressions claimed its news.
pub open spec fn counter_after_claim(c: CounterModel, seen: nat) -> CounterModel {
    if has_news(c, seen) {
        CounterModel { reported: seen, boundary: c.last, ..c }
    } else {
        c
    }
}

/// A claimed range of suppressions that no summary had covered yet.
#[derive(Debug, Clone, Copy)]
pub struct UnreportedSuppressions {
    /// Number of suppressions in the range.
    pub count: usize,
    /// Start of the range: the end of the range that was reported before.
    pub since: Instant,
    /// End of the range: the most recent suppression.
    pub until: Instant,
}

/// The state of a counter at one moment.
#[derive(Debug, Clone, Copy)]
pub struct SuppressionSnapshot {
    /// Number of suppressions.
    pub suppressed_count: usize,
    /// When the first suppression happened.
    pub first_suppressed: Instant,
    /// When the last suppression happened.
    pub last_suppressed: Instant,
}

/// Counts the suppressions of one event.
#[derive(Debug)]
pub struct SuppressionCounter {
    suppressed_count: usize,
    first_suppressed_nanos: u64,
    last_suppressed_nanos: u64,
    reported_count: usize,
    reported_boundary_nanos: u64,
}

impl SuppressionCounter {
    /// The state of the counter.
    pub closed spec fn view(&self) -> CounterModel {
        CounterModel {
            count: self.suppressed_count as nat,
            first: self.first_suppressed_nanos as nat,
            last: self.last_suppressed_nanos as nat,
            reported: self.reported_count as nat,
            boundary: self.reported_boundary_nanos as nat,
        }
    }

    /// A counter without suppressions.
    pub fn new(initial_timestamp: Instant) -> (r: SuppressionCounter)
        ensures
            r@ == counter_from(initial_timestamp@),
    {
        let nanos: u64 = SuppressionCounter::instant_to_nanos(initial_timestamp);
        SuppressionCounter {
            suppressed_count: 0,
            first_suppressed_nanos: nanos,
            last_suppressed_nanos: nanos,
            reported_count: 0,
            reported_boundary_nanos: nanos,
        }
    }

    /// A counter that continues from a snapshot; nothing of it counts as reported.
    pub fn from_snapshot(
        suppressed_count: usize,
        first_suppressed: Instant,
        last_suppressed: Instant,
    ) -> (r: SuppressionCounter)
        ensures
            r@ == counter_restored(
                suppressed_count as nat,
                first_suppressed@,
                last_suppressed@,
            ),
    {
        let first_nanos: u64 = SuppressionCounter::instant_to_nanos(first_suppressed);
        let last_nanos: u64 = SuppressionCounter::instant_to_nanos(last_suppressed);
        SuppressionCounter {
            suppressed_count,
            first_suppressed_nanos: first_nanos,
            last_suppressed_nanos: last_nanos,
            reported_count: 0,
            reported_boundary_nanos: first_nanos,
        }
    }

    /// Records one more suppression.
    pub fn record_suppression(&mut self, timestamp: Instant)
        ensures
            final(self)@ == counter_after_suppression(old(self)@, timestamp@),
    {
        self.suppressed_count = self.suppressed_count.wrapping_add(1);
        self.last_suppressed_nanos = SuppressionCounter::instant_to_nanos(timestamp);
    }

    /// Number of suppressions.
    pub fn count(&self) -> (r: usize)
        ensures
            r == self@.count,
    {
        self.suppressed_count
    }

    /// When the first suppression happened.
    pub fn first_suppressed(&self) -> (r: Instant)
        ensures
            r@ == self@.first,
    {
        SuppressionCounter::nanos_to_instant(self.first_suppressed_nanos)
    }

    /// When the last suppression happened.
    pub fn last_suppressed(&self) -> (r: Instant)
        ensures
            r@ == self@.last,
    {
        SuppressionCounter::nanos_to_instant(self.last_suppressed_nanos)
    }

    /// The state of the counter at this moment.
    pub fn snapshot(&self) -> (r: SuppressionSnapshot)
        ensures
            r.suppressed_count == self@.count,
            r.first_suppressed@ == self@.first,
            r.last_suppressed@ == self@.last,
    {
        SuppressionSnapshot {
            suppressed_count: self.count(),
            first_suppressed: self.first_suppressed(),
            last_suppressed: self.last_suppressed(),
        }
    }

    /// Starts over for a new tracking period.
    pub fn reset(&mut self, timestamp: Instant)
        ensures
            final(self)@ == counter_from(timestamp@),
    {
        let nanos: u64 = SuppressionCounter::instant_to_nanos(timestamp);
        self.suppressed_count = 0;
        self.first_suppressed_nanos = nanos;
        self.last_suppressed_nanos = nanos;
        self.reported_count = 0;
        self.reported_boundary_nanos = nanos;
    }

    /// Number of suppressions that a summary has covered.
    pub fn reported(&self) -> (r: usize)
        ensures
            r == self@.reported,
    {
        self.reported_count
    }

    /// Claims all suppressions that no summary has covered yet.
    ///
    /// Moves the reported mark to the current count and returns the range that
    /// was claimed, or `None` if there is nothing new.
    pub fn claim_unreported(&mut self) -> (r: Option<UnreportedSuppressions>)
        ensures
            final(self)@ == counter_after_claim(old(self)@, old(self)@.count),
            r is Some <==> has_news(old(self)@, old(self)@.count),
            r matches Some(range) ==> {
                &&& range.count == claimed_by(old(self)@, old(self)@.count)
                &&& range.since@ == old(self)@.boundary
                &&& range.until@ == old(self)@.last
            },
    {
        let seen: usize = self.suppressed_count;
        self.claim_seen(seen)
    }

    /// Claims on behalf of a reporter that has seen so many suppressions.
    ///
    /// A reporter reads the count first and claims afterwards. Other reporters
    /// may claim, and suppressions may be recorded, between the two.
    pub fn claim_seen(&mut self, seen: usize) -> (r: Option<UnreportedSuppressions>)
        ensures
            final(self)@ == counter_after_claim(old(self)@, seen as nat),
            r is Some <==> has_news(old(self)@, seen as nat),
            r matches Some(range) ==> {
                &&& range.count == claimed_by(old(self)@, seen as nat)
                &&& range.since@ == old(self)@.boundary
                &&& range.until@ == old(self)@.last
            },
    {
        if self.reported_count >= seen {
            return None;
        }
        let count: usize = seen - self.reported_count;
        self.reported_count = seen;
        let since = SuppressionCounter::nanos_to_instant(self.reported_boundary_nanos);
        let until = self.last_suppressed();
        self.reported_boundary_nanos = SuppressionCounter::instant_to_nanos(until);
        Some(UnreportedSuppressions { count, since, until })
    }

    /// The point in time from which stored nanoseconds are counted.
    pub fn base_instant() -> (r: Instant)
        ensures
            r@ == 0,
    {
        Instant::origin()
    }

    /// A point in time as nanoseconds, cut off at the largest 64-bit value.
    pub fn instant_to_nanos(instant: Instant) -> (r: u64)
        ensures
            r == time::clamp_u64(instant@),
    {
        let nanos: u128 = instant.saturating_duration_since(
            SuppressionCounter::base_instant(),
        ).as_nanos();
        if nanos <= u64::MAX as u128 {
            nanos as u64
        } else {
            u64::MAX
        }
    }

    /// The point in time that stored nanoseconds stand for.
    pub fn nanos_to_instant(nanos: u64) -> (r: Instant)
        ensures
            r@ == nanos,
    {
        let base = SuppressionCounter::base_instant();
        match base.checked_add(Duration::from_nanos(nanos)) {
            Some(instant) => instant,
            None => base,
        }
    }
}

impl Clone for SuppressionCounter {
    fn clone(&self) -> (r: SuppressionCounter)
        ensures
            r@ == self@,
            r == *self,
    {
        SuppressionCounter {
            suppressed_count: self.suppressed_count,
            first_suppressed_nanos: self.first_suppressed_nanos,
            last_suppressed_nanos: self.last_suppressed_nanos,
            reported_count: self.reported_count,
            reported_boundary_nanos: self.reported_boundary_nanos,
        }
    }
}

/// Tells a reader how often an event was suppressed.
#[derive(Debug)]
pub struct SuppressionSummary {
    /// Signature of the suppressed event.
    pub signature: EventSignature,
    /// How often the event was suppressed.
    pub count: usize,
    /// When the first of these suppressions happened.
    pub first_suppressed: Instant,
    /// When the last of these suppressions happened.
    pub last_suppressed: Instant,
    /// Time between the two.
    pub duration: Duration,
    /// Details of the event.
    pub metadata: Option<EventMetadata>,
}

/// The contents of a [`SuppressionSummary`].
pub struct SummaryModel {
    /// Signature of the suppressed event.
    pub signature: EventSignature,
    /// How often the event was suppressed.
    pub count: nat,
    /// When the first of these suppressions happened.
    pub first: nat,
    /// When the last of these suppressions happened.
    pub last: nat,
    /// Nanoseconds between the two.
    pub duration: nat,
    /// Details of the event.
    pub metadata: Option<metadata::MetadataModel>,
}

/// The summary of everything that a counter has counted.
pub open spec fn summary_of(
    signature: EventSignature,
    c: CounterModel,
    details: Option<metadata::MetadataModel>,
) -> SummaryModel {
    SummaryModel {
        signature,
        count: c.count,
        first: c.first,
        last: c.last,
        duration: time::elapsed(c.last, c.first),
        metadata: details,
    }
}

/// The summary of what a claim on a counter covers.
pub open spec fn summary_of_claim(
    signature: EventSignature,
    c: CounterModel,
    details: Option<metadata::MetadataModel>,
) -> SummaryModel {
    SummaryModel {
        signature,
        count: claimed_by(c, c.count),
        first: c.boundary,
        last: c.last,
        duration: time::elapsed(c.last, c.boundary),
        metadata: details,
    }
}

/// The message of a summary, with the time between its suppressions as a text.
pub open spec fn message_over(s: SummaryModel, time: Seq<char>) -> Seq<char> {
    match s.metadata {
        Some(m) => "Suppressed "@ + text::decimal(s.count) + " times over "@ + time + "s: "@
            + metadata::brief_text(m),
        None => "Event suppressed "@ + text::decimal(s.count) + " times over "@ + time
            + " (signature: "@ + text::hexadecimal(s.signature.digest as nat, 16) + ")"@,
    }
}

/// The message of a summary with the fields of the event, and with the time between its
/// suppressions as a text.
pub open spec fn details_over(s: SummaryModel, time: Seq<char>) -> Seq<char> {
    match s.metadata {
        Some(m) => "Suppressed "@ + text::decimal(s.count) + " times over "@ + time + "s: "@
            + metadata::detailed_text(m),
        None => message_over(s, time),
    }
}

/// The time between the suppressions of a summary as a text: a number of seconds where
/// the event is known, else a span in the unit that suits its size.
pub open spec fn summary_time(s: SummaryModel) -> Seq<char> {
    match s.metadata {
        Some(_) => text::seconds_view(s.duration),
        None => text::span_view(s.duration),
    }
}

/// The message of a summary.
pub open spec fn summary_message(s: SummaryModel) -> Seq<char> {
    message_over(s, summary_time(s))
}

/// The message of a summary, with the fields of the event.
pub open spec fn summary_details(s: SummaryModel) -> Seq<char> {
    details_over(s, summary_time(s))
}

impl SuppressionSummary {
    /// The contents.
    pub open spec fn view(&self) -> SummaryModel {
        SummaryModel {
            signature: self.signature,
            count: self.count as nat,
            first: self.first_suppressed@,
            last: self.last_suppressed@,
            duration: self.duration@,
            metadata: metadata::optional_metadata(self.metadata),
        }
    }

    /// Summarises a counter.
    pub fn from_counter(
        signature: EventSignature,
        counter: &SuppressionCounter,
    ) -> (r: SuppressionSummary)
        ensures
            r@ == summary_of(signature, counter@, None),
            r.signature == signature,
            r.count == counter@.count,
            r.first_suppressed@ == counter@.first,
            r.last_suppressed@ == counter@.last,
            r.metadata is None,
    {
        SuppressionSummary::from_counter_with_metadata(signature, counter, None)
    }

    /// Summarises a counter, with details of the event.
    pub fn from_counter_with_metadata(
        signature: EventSignature,
        counter: &SuppressionCounter,
        metadata: Option<EventMetadata>,
    ) -> (r: SuppressionSummary)
        ensures
            r@ == summary_of(signature, counter@, metadata::optional_metadata(metadata)),
            r.signature == signature,
            r.count == counter@.count,
            r.first_suppressed@ == counter@.first,
            r.last_suppressed@ == counter@.last,
            r.metadata == metadata,
    {
        let first = counter.first_suppressed();
        let last = counter.last_suppressed();
        SuppressionSummary {
            signature,
            count: counter.count(),
            first_suppressed: first,
            last_suppressed: last,
            duration: last.saturating_duration_since(first),
            metadata,
        }
    }

    /// Summarises a claimed range: count and duration describe that range alone.
    pub fn from_unreported(
        signature: EventSignature,
        unreported: UnreportedSuppressions,
        metadata: Option<EventMetadata>,
    ) -> (r: SuppressionSummary)
        ensures
            r.signature == signature,
            r.count == unreported.count,
            r.first_suppressed == unreported.since,
            r.last_suppressed == unreported.until,
            r.duration@ == time::elapsed(unreported.until@, unreported.since@),
            r.metadata == metadata,
    {
        SuppressionSummary {
            signature,
            count: unreported.count,
            first_suppressed: unreported.since,
            last_suppressed: unreported.until,
            duration: unreported.until.saturating_duration_since(unreported.since),
            metadata,
        }
    }

    /// The time between the suppressions as a text.
    fn time_text(&self) -> (r: String)
        ensures
            r@ == summary_time(self@),
    {
        match &self.metadata {
            Some(_) => in_seconds(self.duration),
            None => in_suitable_unit(self.duration),
        }
    }

    /// The summary as a message: with the event in short where its details are
    /// known, with its signature where they are not.
    pub fn format_message(&self) -> (r: String)
        ensures
            r@ == summary_message(self@),
    {
        self.message_over(self.time_text().as_str())
    }

    /// The summary as a message, with the fields of the event.
    pub fn format_detailed(&self) -> (r: String)
        ensures
            r@ == summary_details(self@),
    {
        self.details_over(self.time_text().as_str())
    }

    /// The summary as a message, with the time between the suppressions given as a
    /// text.
    pub fn message_over(&self, time: &str) -> (r: String)
        ensures
            r@ == message_over(self@, time@),
    {
        let mut out = String::new();
        match &self.metadata {
            Some(metadata) => {
                out.append("Suppressed ");
                append_decimal(&mut out, self.count as u64);
                out.append(" times over ");
                out.append(time);
                out.append("s: ");
                out.append(metadata.format_brief().as_str());
            },
            None => {
                out.append("Event suppressed ");
                append_decimal(&mut out, self.count as u64);
                out.append(" times over ");
                out.append(time);
                out.append(" (signature: ");
                out.append(self.signature.to_string().as_str());
                out.append(")");
            },
        }
        assert(out@ =~= message_over(self@, time@));
        out
    }

    /// The summary as a message with the fields of the event, and with the time between
    /// the suppressions given as a text.
    pub fn details_over(&self, time: &str) -> (r: String)
        ensures
            r@ == details_over(self@, time@),
    {
        match &self.metadata {
            Some(metadata) => {
                let mut out = String::new();
                out.append("Suppressed ");
                append_decimal(&mut out, self.count as u64);
                out.append(" times over ");
                out.append(time);
                out.append("s: ");
                out.append(metadata.format_detailed().as_str());
                assert(out@ =~= details_over(self@, time@));
                out
            },
            None => self.message_over(time),
        }
    }
}

impl Clone for SuppressionSummary {
    fn clone(&self) -> (r: SuppressionSummary)
        ensures
            r@ == self@,
    {
        SuppressionSummary {
            signature: self.signature,
            count: self.count,
            first_suppressed: self.first_suppressed,
            last_suppressed: self.last_suppressed,
            duration: self.duration,
            metadata: metadata::clone_metadata(&self.metadata),
        }
    }
}

/// The state of every counter fits the machine words.
pub proof fn lemma_counter_is_valid(counter: SuppressionCounter)
    ensures
        counter_valid(counter@),
{
}

/// A counter that is restored from a snapshot has the count and the two points
/// in time of the counter that the snapshot was taken of.
pub proof fn lemma_snapshot_restores(c: CounterModel)
    requires
        counter_valid(c),
    ensures
        counter_restored(c.count, c.first, c.last).count == c.count,
        counter_restored(c.count, c.first, c.last).first == c.first,
        counter_restored(c.count, c.first, c.last).last == c.last,
{
}

/// Starting over clears what was reported, so that nothing is left to claim.
pub proof fn lemma_reset_clears_reported(at: nat)
    ensures
        counter_from(at).reported == 0,
        !has_news(counter_from(at), counter_from(at).count),
{
}

/// What has been claimed once is not claimed again before there is news.
pub proof fn lemma_claim_leaves_nothing(c: CounterModel)
    ensures
        !has_news(counter_after_claim(c, c.count), counter_after_claim(c, c.count).count),
{
}

/// Something that happens to a counter.
pub enum CounterStep {
    /// A suppression is recorded.
    Suppress {
        /// When it happens.
        at: nat,
    },
    /// A reporter claims.
    Claim {
        /// How many suppressions the reporter has seen.
        seen: nat,
    },
}

/// A counter after one step.
pub open spec fn counter_after_step(c: CounterModel, step: CounterStep) -> CounterModel {
    match step {
        CounterStep::Suppress { at } => counter_after_suppression(c, at),
        CounterStep::Claim { seen } => counter_after_claim(c, seen),
    }
}

/// A counter after a number of steps.
pub open spec fn counter_after_steps(c: CounterModel, steps: Seq<CounterStep>) -> CounterModel
    decreases steps.len(),
{
    if steps.len() == 0 {
        c
    } else {
        counter_after_step(counter_after_steps(c, steps.drop_last()), steps.last())
    }
}

/// Number of suppressions that the claims among a number of steps cover.
pub open spec fn claimed_in_steps(c: CounterModel, steps: Seq<CounterStep>) -> nat
    decreases steps.len(),
{
    if steps.len() == 0 {
        0
    } else {
        claimed_in_steps(c, steps.drop_last()) + match steps.last() {
            CounterStep::Suppress { .. } => 0,
            CounterStep::Claim { seen } => claimed_by(
                counter_after_steps(c, steps.drop_last()),
                seen,
            ),
        }
    }
}

/// Number of suppressions among a number of steps.
pub open spec fn suppressed_in_steps(steps: Seq<CounterStep>) -> nat
    decreases steps.len(),
{
    if steps.len() == 0 {
        0
    } else {
        suppressed_in_steps(steps.drop_last()) + match steps.last() {
            CounterStep::Suppress { .. } => 1nat,
            CounterStep::Claim { .. } => 0,
        }
    }
}

/// Whether no reporter has seen more suppressions than there were when it claims.
pub open spec fn claims_seen_only(c: CounterModel, steps: Seq<CounterStep>) -> bool {
    forall|i: int|
        0 <= i < steps.len() ==> match #[trigger] steps[i] {
            CounterStep::Suppress { .. } => true,
            CounterStep::Claim { seen } => seen <= counter_after_steps(c, steps.take(i)).count,
        }
}

/// Recorded suppressions are all counted.
pub proof fn lemma_suppressions_are_counted(c: CounterModel, steps: Seq<CounterStep>)
    requires
        c.count + suppressed_in_steps(steps) <= usize::MAX,
    ensures
        counter_after_steps(c, steps).count == c.count + suppressed_in_steps(steps),
    decreases steps.len(),
{
    if steps.len() > 0 {
        lemma_suppressions_are_counted(c, steps.drop_last());
    }
}

/// Each suppression is claimed exactly once, in whatever order reporters and
/// suppressions take their turns: the claims cover what the reported mark has
/// advanced by, the mark never passes the count, and one more claim covers all
/// that is left. A suppression that is recorded after a reporter has read the
/// count is thus covered by a later claim.
pub proof fn lemma_each_suppression_is_claimed_once(c: CounterModel, steps: Seq<CounterStep>)
    requires
        c.reported <= c.count,
        c.count + suppressed_in_steps(steps) <= usize::MAX,
        claims_seen_only(c, steps),
    ensures
        counter_after_steps(c, steps).reported == c.reported + claimed_in_steps(c, steps),
        counter_after_steps(c, steps).reported <= counter_after_steps(c, steps).count,
        claimed_in_steps(c, steps) + claimed_by(
            counter_after_steps(c, steps),
            counter_after_steps(c, steps).count,
        ) == c.count + suppressed_in_steps(steps) - c.reported,
    decreases steps.len(),
{
    lemma_suppressions_are_counted(c, steps);
    if steps.len() > 0 {
        let fewer = steps.drop_last();
        assert forall|i: int| 0 <= i < fewer.len() implies match #[trigger] fewer[i] {
            CounterStep::Suppress { .. } => true,
            CounterStep::Claim { seen } => seen <= counter_after_steps(c, fewer.take(i)).count,
        } by {
            assert(fewer[i] == steps[i]);
            assert(fewer.take(i) =~= steps.take(i));
        }
        lemma_each_suppression_is_claimed_once(c, fewer);
        let last = steps[steps.len() - 1];
        assert(steps.take(steps.len() - 1) =~= fewer);
        assert(match last {
            CounterStep::Suppress { .. } => true,
            CounterStep::Claim { seen } => seen <= counter_after_steps(c, fewer).count,
        });
    }
}

/// A claimed range starts where the range claimed before it ends.
pub proof fn lemma_claimed_ranges_adjoin(c: CounterModel, seen: nat, steps: Seq<CounterStep>)
    requires
        has_news(c, seen),
        forall|i: int| 0 <= i < steps.len() ==> (#[trigger] steps[i]) is Suppress,
    ensures
        counter_after_steps(counter_after_claim(c, seen), steps).boundary == c.last,
    decreases steps.len(),
{
    if steps.len() > 0 {
        let fewer = steps.drop_last();
        assert forall|i: int| 0 <= i < fewer.len() implies (#[trigger] fewer[i]) is Suppress by {
            assert(fewer[i] == steps[i]);
        }
        lemma_claimed_ranges_adjoin(c, seen, fewer);
        assert(steps[steps.len() - 1] is Suppress);
    }
}

/// A summary of a counter tells when the counter started and when the last suppression in
/// it happened. While time does not go backwards the first is not after the last, and the
/// duration is the last minus the first.
pub proof fn lemma_summary_tells_first_and_last(
    signature: EventSignature,
    start: nat,
    steps: Seq<CounterStep>,
    j: int,
    details: Option<metadata::MetadataModel>,
    s: SuppressionSummary,
)
    requires
        s@ == summary_of(signature, counter_after_steps(counter_from(start), steps), details),
        start <= u64::MAX,
        0 <= j < steps.len(),
        steps[j] is Suppress,
        steps[j]->at <= u64::MAX,
        forall|k: int| j < k < steps.len() ==> (#[trigger] steps[k]) is Claim,
    ensures
        s.signature == signature,
        s.first_suppressed@ == start,
        s.last_suppressed@ == steps[j]->at,
        start <= steps[j]->at ==> s.first_suppressed@ + s.duration@ == s.last_suppressed@,
        start > steps[j]->at ==> s.duration@ == 0,
{
    lemma_counter_keeps_first_and_last(start, steps, j);
}

/// A summary of a counter tells of every suppression recorded in it, as far as the
/// machine word goes.
pub proof fn lemma_summary_tells_of_every_suppression(
    signature: EventSignature,
    start: nat,
    steps: Seq<CounterStep>,
    details: Option<metadata::MetadataModel>,
    s: SuppressionSummary,
)
    requires
        s@ == summary_of(signature, counter_after_steps(counter_from(start), steps), details),
        suppressed_in_steps(steps) <= usize::MAX,
    ensures
        s.count == suppressed_in_steps(steps),
        metadata::optional_metadata(s.metadata) == details,
{
    lemma_suppressions_are_counted(counter_from(start), steps);
}

proof fn lemma_counter_keeps_first_and_last(start: nat, steps: Seq<CounterStep>, j: int)
    requires
        start <= u64::MAX,
        0 <= j < steps.len(),
        steps[j] is Suppress,
        steps[j]->at <= u64::MAX,
        forall|k: int| j < k < steps.len() ==> (#[trigger] steps[k]) is Claim,
    ensures
        counter_after_steps(counter_from(start), steps).first == start,
        counter_after_steps(counter_from(start), steps).last == steps[j]->at,
    decreases steps.len(),
{
    let fewer = steps.drop_last();
    if j < fewer.len() {
        assert forall|k: int| j < k < fewer.len() implies (#[trigger] fewer[k]) is Claim by {
            assert(fewer[k] == steps[k]);
        }
        lemma_counter_keeps_first_and_last(start, fewer, j);
        assert(steps[steps.len() - 1] is Claim);
    } else {
        lemma_counter_keeps_first(start, fewer);
    }
}

proof fn lemma_counter_keeps_first(start: nat, steps: Seq<CounterStep>)
    requires
        start <= u64::MAX,
    ensures
        counter_after_steps(counter_from(start), steps).first == start,
    decreases steps.len(),
{
    if steps.len() > 0 {
        lemma_counter_keeps_first(start, steps.drop_last());
    }
}

/// A new counter has counted nothing and starts, with all that it tells of time, at the
/// given point. One that is restored goes on from what it is given, and nothing of that
/// has been reported.
pub proof fn lemma_counters_start_as_told(count: nat, first: nat, last: nat)
    requires
        first <= u64::MAX,
        last <= u64::MAX,
    ensures
        counter_from(first) == (CounterModel {
            count: 0,
            first,
            last: first,
            reported: 0,
            boundary: first,
        }),
        counter_restored(count, first, last) == (CounterModel {
            count,
            first,
            last,
            reported: 0,
            boundary: first,
        }),
{
}

/// A suppression adds one to the count, as far as the machine word goes, and is the last.
/// A claim covers what was seen beyond what is reported, if anything: that is then
/// reported, up to the last suppression.
pub proof fn lemma_counter_steps_in_full(c: CounterModel, at: nat, seen: nat)
    requires
        c.count < usize::MAX,
        at <= u64::MAX,
    ensures
        counter_after_suppression(c, at) == (CounterModel { count: c.count + 1, last: at, ..c }),
        has_news(c, seen) <==> c.reported < seen,
        c.reported < seen ==> claimed_by(c, seen) == seen - c.reported && counter_after_claim(
            c,
            seen,
        ) == (CounterModel { reported: seen, boundary: c.last, ..c }),
        c.reported >= seen ==> claimed_by(c, seen) == 0 && counter_after_claim(c, seen) == c,
{
}

/// The message of a summary says how often the event was suppressed and over what time,
/// and names the event: in short where its details are known, by its signature where they
/// are not. The longer form adds the fields where the details are known.
pub proof fn lemma_messages_of_a_summary(s: SummaryModel, time: Seq<char>)
    ensures
        s.metadata matches Some(m) ==> {
            &&& message_over(s, time) == "Suppressed "@ + text::decimal(s.count) + " times over "@
                + time + "s: "@ + metadata::brief_text(m)
            &&& details_over(s, time) == "Suppressed "@ + text::decimal(s.count) + " times over "@
                + time + "s: "@ + metadata::detailed_text(m)
            &&& summary_message(s) == message_over(s, text::seconds_view(s.duration))
            &&& summary_details(s) == details_over(s, text::seconds_view(s.duration))
        },
        s.metadata is None ==> {
            &&& message_over(s, time) == "Event suppressed "@ + text::decimal(s.count)
                + " times over "@ + time + " (signature: "@ + text::hexadecimal(
                s.signature.digest as nat,
                16,
            ) + ")"@
            &&& details_over(s, time) == message_over(s, time)
            &&& summary_message(s) == message_over(s, text::span_view(s.duration))
            &&& summary_details(s) == message_over(s, text::span_view(s.duration))
        },
{
}

/// A count that has used up the machine word starts over with the next suppression.
pub proof fn lemma_full_count_starts_over(c: CounterModel, at: nat)
    requires
        c.count == usize::MAX,
        at <= u64::MAX,
    ensures
        counter_after_suppression(c, at) == (CounterModel { count: 0, last: at, ..c }),
{
}

} // verus!
