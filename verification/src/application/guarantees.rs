//! What a limiter guarantees for the events of one signature, whatever other events
//! come in between.

use vstd::arithmetic::power2;
use vstd::prelude::*;

use crate::application::circuit_breaker;
use crate::application::emitter;
use crate::application::limiter;
use crate::application::limiter::{CheckedEvent, LimitDecision, LimiterModel};
use crate::domain::metadata;
use crate::domain::metadata::MetadataModel;
use crate::domain::policy::count_based::CountModel;
use crate::domain::policy::exponential_backoff;
use crate::domain::policy::exponential_backoff::BackoffModel;
use crate::domain::policy::time_window;
use crate::domain::policy::time_window::WindowModel;
use crate::domain::policy::token_bucket;
use crate::domain::policy::token_bucket::BucketModel;
use crate::domain::policy::{
    Policy, PolicyDecision, PolicyModel, RateLimitPolicy, TimeWindowPolicy, TokenAmount,
    TokenBucketPolicy,
};
use crate::domain::signature::EventSignature;
use crate::domain::summary::{CounterModel, SuppressionSummary};
use crate::domain::time::Duration;

verus! {

/// When events happened.
pub open spec fn times_of(events: Seq<CheckedEvent>) -> Seq<nat> {
    Seq::new(events.len(), |i: int| events[i].times.event@)
}

/// A count-based policy has counted the events that it has seen, as far as the machine
/// word goes.
proof fn lemma_count_run<A: TokenAmount>(
    states: Seq<PolicyModel<A>>,
    events: Seq<CheckedEvent>,
    max_count: nat,
    n: nat,
)
    requires
        limiter::policy_runs(states, events),
        states[0] == PolicyModel::<A>::Count(CountModel { max_count, current_count: 0 }),
        n <= events.len(),
    ensures
        states[n as int] == PolicyModel::<A>::Count(
            CountModel {
                max_count,
                current_count: if n <= usize::MAX {
                    n
                } else {
                    usize::MAX as nat
                },
            },
        ),
    decreases n,
{
    if n > 0 {
        lemma_count_run(states, events, max_count, (n - 1) as nat);
        let e = events[n - 1];
        assert(states[n - 1 + 1] == states[n as int]);
    }
}

/// Under a count-based policy, the first `max_count` events of a signature pass and
/// all others are suppressed.
pub proof fn lemma_first_events_of_signature_pass<A: TokenAmount>(
    models: Seq<LimiterModel<A>>,
    events: Seq<CheckedEvent>,
    signature: EventSignature,
    max_count: nat,
    i: int,
)
    requires
        limiter::runs(models, events),
        limiter::undisturbed(models, events, signature),
        models[0].first_policy == PolicyModel::<A>::Count(
            CountModel { max_count, current_count: 0 },
        ),
        max_count <= usize::MAX,
        !models[0].states.contains_key(signature),
        0 <= i < limiter::events_of(events, signature).len(),
    ensures
        limiter::events_of(events, signature)[i].result.0 is Allow <==> i < max_count,
{
    let own = limiter::events_of(events, signature);
    let states = limiter::lemma_signature_is_throttled_as_if_alone(models, events, signature);
    lemma_count_run(states, own, max_count, i as nat);
    let e = own[i];
}

/// An exponential backoff policy has counted every event that it has seen.
proof fn lemma_backoff_run<A: TokenAmount>(
    states: Seq<PolicyModel<A>>,
    events: Seq<CheckedEvent>,
    n: nat,
)
    requires
        limiter::policy_runs(states, events),
        states[0] == PolicyModel::<A>::Backoff(BackoffModel { event_count: 0, next_allowed: 1 }),
        n <= events.len(),
    ensures
        states[n as int] == PolicyModel::<A>::Backoff(exponential_backoff::backoff_after(n)),
    decreases n,
{
    if n > 0 {
        lemma_backoff_run(states, events, (n - 1) as nat);
        let e = events[n - 1];
        assert(states[n - 1 + 1] == states[n as int]);
    }
}

/// Under exponential backoff, those events of a signature pass whose number is a power
/// of two, and all others are suppressed.
pub proof fn lemma_power_of_two_events_of_signature_pass<A: TokenAmount>(
    models: Seq<LimiterModel<A>>,
    events: Seq<CheckedEvent>,
    signature: EventSignature,
    i: int,
)
    requires
        limiter::runs(models, events),
        limiter::undisturbed(models, events, signature),
        models[0].first_policy == PolicyModel::<A>::Backoff(
            BackoffModel { event_count: 0, next_allowed: 1 },
        ),
        !models[0].states.contains_key(signature),
        0 <= i < limiter::events_of(events, signature).len(),
        i + 1 < u64::MAX,
    ensures
        limiter::events_of(events, signature)[i].result.0 is Allow
            <==> exponential_backoff::is_power_of_two((i + 1) as nat),
{
    let own = limiter::events_of(events, signature);
    let states = limiter::lemma_signature_is_throttled_as_if_alone(models, events, signature);
    lemma_backoff_run(states, own, i as nat);
    exponential_backoff::lemma_powers_of_two_are_allowed(i as nat);
    let e = own[i];
}

/// A time-window policy is where its events have brought it.
proof fn lemma_window_run<A: TokenAmount>(
    states: Seq<PolicyModel<A>>,
    events: Seq<CheckedEvent>,
    m: WindowModel,
    n: int,
)
    requires
        limiter::policy_runs(states, events),
        states[0] == PolicyModel::<A>::Window(m),
        0 <= n <= events.len(),
    ensures
        states[n] == PolicyModel::<A>::Window(
            time_window::window_after(m, times_of(events).take(n)),
        ),
    decreases n,
{
    let times = times_of(events);
    if n == 0 {
        assert(times.take(0) =~= Seq::empty());
    } else {
        lemma_window_run(states, events, m, n - 1);
        let e = events[n - 1];
        assert(states[n - 1 + 1] == states[n]);
        assert(times.take(n).drop_last() =~= times.take(n - 1));
        assert(times.take(n).last() == e.times.event@);
    }
}

/// Under a time-window policy, and while time does not go backwards, an event of a
/// signature passes if and only if fewer than `max_events` of the events of the
/// signature that passed before lie within the window that ends with it.
pub proof fn lemma_window_of_signature_is_kept<A: TokenAmount>(
    models: Seq<LimiterModel<A>>,
    events: Seq<CheckedEvent>,
    signature: EventSignature,
    m: WindowModel,
    i: int,
)
    requires
        limiter::runs(models, events),
        limiter::undisturbed(models, events, signature),
        models[0].first_policy == PolicyModel::<A>::Window(TimeWindowPolicy::state_cleared(m)),
        !models[0].states.contains_key(signature),
        0 <= i < limiter::events_of(events, signature).len(),
        time_window::in_order(times_of(limiter::events_of(events, signature))),
    ensures
        limiter::events_of(events, signature)[i].result.0 is Allow <==> time_window::recent(
            time_window::window_allowed(
                TimeWindowPolicy::state_cleared(m),
                times_of(limiter::events_of(events, signature)).take(i),
            ),
            m.window,
            limiter::events_of(events, signature)[i].times.event@,
        ) < m.max_events,
{
    let own = limiter::events_of(events, signature);
    let times = times_of(own);
    let states = limiter::lemma_signature_is_throttled_as_if_alone(models, events, signature);
    lemma_window_run(states, own, TimeWindowPolicy::state_cleared(m), i);
    let e = own[i];
    assert(times[i] == e.times.event@);
    time_window::lemma_window_counts_recent_events(m, times.take(i), e.times.event@);
}

/// Number of events that were suppressed.
pub open spec fn suppressed_in(events: Seq<CheckedEvent>) -> nat
    decreases events.len(),
{
    if events.len() == 0 {
        0
    } else if events.last().result.0 is Suppress {
        suppressed_in(events.drop_last()) + 1
    } else {
        suppressed_in(events.drop_last())
    }
}

/// Number of suppressions that the summaries of these events tell of.
pub open spec fn told_in(events: Seq<CheckedEvent>) -> nat
    decreases events.len(),
{
    if events.len() == 0 {
        0
    } else {
        told_in(events.drop_last()) + match events.last().result.1 {
            Some(summary) => summary@.count,
            None => 0,
        }
    }
}

/// The counter of a signature, that of a new one if it is not tracked.
spec fn current_counter<A: TokenAmount>(
    m: LimiterModel<A>,
    signature: EventSignature,
) -> (nat, nat) {
    if m.states.contains_key(signature) {
        (m.states[signature]@.counter.count, m.states[signature]@.counter.reported)
    } else {
        (0, 0)
    }
}

/// What an event makes of the counter of a signature.
proof fn lemma_check_moves_one_counter<A: TokenAmount>(
    before: LimiterModel<A>,
    e: CheckedEvent,
    after: LimiterModel<A>,
    watched: EventSignature,
)
    requires
        limiter::checks(
            before,
            e.signature,
            e.details,
            e.claims,
            e.times,
            e.result,
            after,
        ),
        circuit_breaker::breaker_admits(before.breaker, e.times.asked@),
        before.states.contains_key(watched) ==> after.states.contains_key(watched),
        e.signature == watched ==> Policy::<A>::has_room_in(
            limiter::current_policy(before, watched),
        ),
        current_counter(before, watched).0 < usize::MAX,
    ensures
        e.signature != watched ==> current_counter(after, watched) == current_counter(
            before,
            watched,
        ),
        e.signature == watched ==> {
            let (count, reported) = current_counter(before, watched);
            match e.result {
                (LimitDecision::Suppress, episode) => {
                    &&& episode is None
                    &&& current_counter(after, watched) == (count + 1, reported)
                },
                (LimitDecision::Allow, None) => current_counter(after, watched) == (
                    count,
                    reported,
                ),
                (LimitDecision::Allow, Some(summary)) => {
                    &&& current_counter(after, watched) == (count, count)
                    &&& summary@.count == count - reported
                },
            }
        },
{
}

/// Of a signature that is new, the counter tells how many events were suppressed, and
/// its reported part how many of them the summaries that came with its events have
/// told of: none is told of twice.
pub proof fn lemma_suppressions_of_signature_add_up<A: TokenAmount>(
    models: Seq<LimiterModel<A>>,
    events: Seq<CheckedEvent>,
    signature: EventSignature,
)
    requires
        limiter::runs(models, events),
        limiter::undisturbed(models, events, signature),
        !models[0].states.contains_key(signature),
        events.len() <= usize::MAX,
    ensures
        ({
            let own = limiter::events_of(events, signature);
            let end = models.last();
            &&& told_in(own) <= suppressed_in(own) <= own.len()
            &&& end.states.contains_key(signature) ==> {
                &&& end.states[signature]@.counter.count == suppressed_in(own)
                &&& end.states[signature]@.counter.reported == told_in(own)
            }
        }),
{
    lemma_counter_run(models, events, signature);
}

/// As [`lemma_suppressions_of_signature_add_up`], also where the signature is not
/// tracked yet.
proof fn lemma_counter_run<A: TokenAmount>(
    models: Seq<LimiterModel<A>>,
    events: Seq<CheckedEvent>,
    signature: EventSignature,
)
    requires
        limiter::runs(models, events),
        limiter::undisturbed(models, events, signature),
        !models[0].states.contains_key(signature),
        events.len() <= usize::MAX,
    ensures
        ({
            let own = limiter::events_of(events, signature);
            &&& told_in(own) <= suppressed_in(own) <= own.len() <= events.len()
            &&& current_counter(models.last(), signature) == (suppressed_in(own), told_in(own))
        }),
    decreases events.len(),
{
    if events.len() > 0 {
        let earlier = events.drop_last();
        let before = models.drop_last();
        let n = earlier.len() as int;
        assert forall|i: int| 0 <= i < earlier.len() implies #[trigger] earlier[i] == events[i]
            && before[i] == models[i] && before[i + 1] == models[i + 1] by {}
        lemma_counter_run(before, earlier, signature);
        let e = events[n];
        lemma_check_moves_one_counter(models[n], e, models[n + 1], signature);
        let own = limiter::events_of(earlier, signature);
        assert(own.push(e).drop_last() =~= own);
        assert(own.push(e).last() == e);
    }
}

/// The place of an event of a signature among all events.
proof fn lemma_place_of_own_event(
    events: Seq<CheckedEvent>,
    signature: EventSignature,
    i: int,
) -> (n: int)
    requires
        0 <= i < limiter::events_of(events, signature).len(),
    ensures
        0 <= n < events.len(),
        events[n] == limiter::events_of(events, signature)[i],
        events[n].signature == signature,
        limiter::events_of(events.take(n), signature) == limiter::events_of(
            events,
            signature,
        ).take(i),
    decreases events.len(),
{
    let own = limiter::events_of(events, signature);
    let fewer = events.drop_last();
    let before = limiter::events_of(fewer, signature);
    if events.last().signature == signature && i == own.len() - 1 {
        let n = events.len() - 1;
        assert(events.take(n) =~= fewer);
        assert(own.take(i) =~= before);
        n
    } else {
        let n = lemma_place_of_own_event(fewer, signature, i);
        assert(fewer.take(n) =~= events.take(n));
        assert(own.take(i) =~= before.take(i));
        n
    }
}

/// A limiter that goes through states with events goes through the first of them with
/// the first of the events.
proof fn lemma_run_begins<A: TokenAmount>(
    models: Seq<LimiterModel<A>>,
    events: Seq<CheckedEvent>,
    signature: EventSignature,
    n: int,
)
    requires
        limiter::runs(models, events),
        limiter::undisturbed(models, events, signature),
        0 <= n <= events.len(),
    ensures
        limiter::runs(models.take(n + 1), events.take(n)),
        limiter::undisturbed(models.take(n + 1), events.take(n), signature),
{
    let m = models.take(n + 1);
    let e = events.take(n);
    assert forall|i: int| 0 <= i < e.len() implies #[trigger] e[i] == events[i] && m[i]
        == models[i] && m[i + 1] == models[i + 1] by {}
}

/// When the last of these events that was suppressed happened, or the first of them if
/// none was.
spec fn last_suppression(own: Seq<CheckedEvent>) -> nat
    decreases own.len(),
{
    if own.len() == 0 {
        0
    } else if own.len() == 1 || own.last().result.0 is Suppress {
        own.last().times.event@
    } else {
        last_suppression(own.drop_last())
    }
}

/// Up to when the summaries of these events tell: the first event if there is none.
spec fn told_until(own: Seq<CheckedEvent>) -> nat
    decreases own.len(),
{
    if own.len() == 0 {
        0
    } else if own.len() == 1 {
        own[0].times.event@
    } else if own.last().result.1 is Some {
        last_suppression(own.drop_last())
    } else {
        told_until(own.drop_last())
    }
}

/// The details that came first with these events.
spec fn first_details(own: Seq<CheckedEvent>) -> Option<MetadataModel>
    decreases own.len(),
{
    if own.len() == 0 {
        None
    } else {
        match first_details(own.drop_last()) {
            Some(details) => Some(details),
            None => own.last().details,
        }
    }
}

/// The counter from which an event of a signature starts.
spec fn counter_before<A: TokenAmount>(
    m: LimiterModel<A>,
    signature: EventSignature,
    at: nat,
) -> CounterModel {
    if m.states.contains_key(signature) {
        m.states[signature]@.counter
    } else {
        CounterModel { count: 0, first: at, last: at, reported: 0, boundary: at }
    }
}

/// The details from which an event of a signature starts.
spec fn details_before<A: TokenAmount>(
    m: LimiterModel<A>,
    signature: EventSignature,
) -> Option<MetadataModel> {
    if m.states.contains_key(signature) {
        m.states[signature]@.metadata
    } else {
        None
    }
}

/// What an event makes of the counter and the details of its signature, and what its
/// summary tells.
proof fn lemma_check_in_full<A: TokenAmount>(
    before: LimiterModel<A>,
    e: CheckedEvent,
    after: LimiterModel<A>,
)
    requires
        limiter::checks(before, e.signature, e.details, e.claims, e.times, e.result, after),
        circuit_breaker::breaker_admits(before.breaker, e.times.asked@),
        Policy::<A>::has_room_in(limiter::current_policy(before, e.signature)),
        e.times.event@ <= u64::MAX,
        counter_before(before, e.signature, e.times.event@).count < usize::MAX,
    ensures
        after.states.contains_key(e.signature),
        ({
            let at = e.times.event@;
            let c = counter_before(before, e.signature, at);
            let d = after.states[e.signature]@.counter;
            let known = after.states[e.signature]@.metadata;
            &&& known == match details_before(before, e.signature) {
                Some(details) => Some(details),
                None => e.details,
            }
            &&& match e.result {
                (LimitDecision::Suppress, episode) => {
                    &&& episode is None
                    &&& d == (CounterModel { count: c.count + 1, last: at, ..c })
                },
                (LimitDecision::Allow, None) => {
                    &&& d == c
                    &&& e.claims && c.count > c.reported
                        ==> !Policy::<A>::allow_ends_episode_in(
                        after.states[e.signature]@.policy,
                    )
                },
                (LimitDecision::Allow, Some(s)) => {
                    &&& d == (CounterModel { reported: c.count, boundary: c.last, ..c })
                    &&& e.claims
                    &&& Policy::<A>::allow_ends_episode_in(after.states[e.signature]@.policy)
                    &&& c.count > c.reported
                    &&& s.signature == e.signature
                    &&& s.count == c.count - c.reported
                    &&& s.first_suppressed@ == c.boundary
                    &&& s.last_suppressed@ == c.last
                    &&& c.boundary <= c.last ==> c.boundary + s.duration@ == c.last
                    &&& c.boundary > c.last ==> s.duration@ == 0
                    &&& metadata::optional_metadata(s.metadata) == known
                },
            }
        }),
{
}

/// The counter and the details of a signature that was new are what its events have made
/// of them.
proof fn lemma_history_of_signature<A: TokenAmount>(
    models: Seq<LimiterModel<A>>,
    events: Seq<CheckedEvent>,
    signature: EventSignature,
)
    requires
        limiter::runs(models, events),
        limiter::undisturbed(models, events, signature),
        !models[0].states.contains_key(signature),
        events.len() <= usize::MAX,
        forall|i: int| 0 <= i < events.len() ==> (#[trigger] events[i]).times.event@ <= u64::MAX,
    ensures
        ({
            let own = limiter::events_of(events, signature);
            let end = models.last();
            &&& told_in(own) <= suppressed_in(own) <= own.len() <= events.len()
            &&& end.states.contains_key(signature) <==> own.len() > 0
            &&& own.len() > 0 ==> {
                &&& end.states[signature]@.counter == (CounterModel {
                    count: suppressed_in(own),
                    first: own[0].times.event@,
                    last: last_suppression(own),
                    reported: told_in(own),
                    boundary: told_until(own),
                })
                &&& end.states[signature]@.metadata == first_details(own)
            }
        }),
    decreases events.len(),
{
    if events.len() > 0 {
        let earlier = events.drop_last();
        let n = earlier.len() as int;
        lemma_run_begins(models, events, signature, n);
        assert(events.take(n) =~= earlier);
        let before = models.take(n + 1);
        assert(before.last() == models[n]);
        assert forall|i: int| 0 <= i < earlier.len() implies (
        #[trigger] earlier[i]).times.event@ <= u64::MAX by {
            assert(earlier[i] == events[i]);
        }
        lemma_history_of_signature(before, earlier, signature);
        let e = events[n];
        let own = limiter::events_of(earlier, signature);
        if e.signature == signature {
            lemma_check_in_full(models[n], e, models[n + 1]);
            assert(own.push(e).drop_last() =~= own);
            assert(own.push(e).last() == e);
            if own.len() > 0 {
                assert(own.push(e)[0] == own[0]);
            }
        } else {
            lemma_check_leaves_others(models[n], e, models[n + 1], signature);
        }
    }
}

/// An event leaves the states of other signatures as they are.
proof fn lemma_check_leaves_others<A: TokenAmount>(
    before: LimiterModel<A>,
    e: CheckedEvent,
    after: LimiterModel<A>,
    watched: EventSignature,
)
    requires
        limiter::checks(before, e.signature, e.details, e.claims, e.times, e.result, after),
        before.states.contains_key(watched) ==> after.states.contains_key(watched),
        e.signature != watched,
    ensures
        after.states.contains_key(watched) <==> before.states.contains_key(watched),
        before.states.contains_key(watched) ==> after.states[watched] == before.states[watched],
{
}

/// What is known when an event of a signature comes: the counter and the details that its
/// earlier events have left.
proof fn lemma_before_own_event<A: TokenAmount>(
    models: Seq<LimiterModel<A>>,
    events: Seq<CheckedEvent>,
    signature: EventSignature,
    i: int,
) -> (n: int)
    requires
        limiter::runs(models, events),
        limiter::undisturbed(models, events, signature),
        !models[0].states.contains_key(signature),
        events.len() <= usize::MAX,
        forall|k: int| 0 <= k < events.len() ==> (#[trigger] events[k]).times.event@ <= u64::MAX,
        0 <= i < limiter::events_of(events, signature).len(),
    ensures
        0 <= n < events.len(),
        events[n] == limiter::events_of(events, signature)[i],
        events[n].signature == signature,
        limiter::checks(
            models[n],
            signature,
            events[n].details,
            events[n].claims,
            events[n].times,
            events[n].result,
            models[n + 1],
        ),
        circuit_breaker::breaker_admits(models[n].breaker, events[n].times.asked@),
        Policy::<A>::has_room_in(limiter::current_policy(models[n], signature)),
        events[n].times.event@ <= u64::MAX,
        ({
            let own = limiter::events_of(events, signature).take(i);
            let c = counter_before(models[n], signature, events[n].times.event@);
            &&& details_before(models[n], signature) == first_details(own)
            &&& c.count < usize::MAX
            &&& c.count == suppressed_in(own)
            &&& c.reported == told_in(own)
            &&& i == 0 ==> c.last == events[n].times.event@ && c.boundary
                == events[n].times.event@
            &&& i > 0 ==> c.last == last_suppression(own) && c.boundary == told_until(own)
        }),
{
    let n = lemma_place_of_own_event(events, signature, i);
    lemma_run_begins(models, events, signature, n);
    let begun = models.take(n + 1);
    let earlier = events.take(n);
    assert(begun.last() == models[n]);
    assert(begun[0] == models[0]);
    assert forall|k: int| 0 <= k < earlier.len() implies (#[trigger] earlier[k]).times.event@
        <= u64::MAX by {
        assert(earlier[k] == events[k]);
    }
    lemma_history_of_signature(begun, earlier, signature);
    let e = events[n];
    assert(e.times.event@ <= u64::MAX);
    n
}

/// The last suppression among events is the last of them that was suppressed.
proof fn lemma_last_suppression_found(own: Seq<CheckedEvent>, j: int)
    requires
        0 <= j < own.len(),
        own[j].result.0 is Suppress,
        forall|k: int| j < k < own.len() ==> (#[trigger] own[k]).result.0 is Allow,
    ensures
        last_suppression(own) == own[j].times.event@,
    decreases own.len(),
{
    if j < own.len() - 1 {
        let fewer = own.drop_last();
        assert forall|k: int| j < k < fewer.len() implies (#[trigger] fewer[k]).result.0
            is Allow by {
            assert(fewer[k] == own[k]);
        }
        assert(own[own.len() - 1].result.0 is Allow);
        lemma_last_suppression_found(fewer, j);
    }
}

/// Where no event comes with a summary, nothing has been told.
proof fn lemma_nothing_told(own: Seq<CheckedEvent>)
    requires
        forall|k: int| 0 <= k < own.len() ==> (#[trigger] own[k]).result.1 is None,
    ensures
        told_in(own) == 0,
        own.len() > 0 ==> told_until(own) == own[0].times.event@,
    decreases own.len(),
{
    if own.len() > 0 {
        let fewer = own.drop_last();
        assert forall|k: int| 0 <= k < fewer.len() implies (#[trigger] fewer[k]).result.1
            is None by {
            assert(fewer[k] == own[k]);
        }
        assert(own[own.len() - 1].result.1 is None);
        lemma_nothing_told(fewer);
        if fewer.len() > 0 {
            assert(fewer[0] == own[0]);
        }
    }
}

/// What has been told does not change until the next summary.
proof fn lemma_told_stays(own: Seq<CheckedEvent>, k: int)
    requires
        0 < k < own.len(),
        own[k].result.1 is Some,
        forall|j: int| k < j < own.len() ==> (#[trigger] own[j]).result.1 is None,
    ensures
        told_until(own) == last_suppression(own.take(k)),
        told_in(own) == told_in(own.take(k + 1)),
    decreases own.len(),
{
    let fewer = own.drop_last();
    if k == own.len() - 1 {
        assert(fewer =~= own.take(k));
        assert(own.take(k + 1) =~= own);
    } else {
        assert forall|j: int| k < j < fewer.len() implies (#[trigger] fewer[j]).result.1
            is None by {
            assert(fewer[j] == own[j]);
        }
        assert(own[own.len() - 1].result.1 is None);
        lemma_told_stays(fewer, k);
        assert(fewer.take(k) =~= own.take(k));
        assert(fewer.take(k + 1) =~= own.take(k + 1));
    }
}

/// A summary ends with the last suppression of its signature before the event that it
/// comes with, and lasts from where it starts to where it ends.
pub proof fn lemma_summary_ends_with_the_last_suppression<A: TokenAmount>(
    models: Seq<LimiterModel<A>>,
    events: Seq<CheckedEvent>,
    signature: EventSignature,
    i: int,
    s: SuppressionSummary,
    j: int,
)
    requires
        limiter::runs(models, events),
        limiter::undisturbed(models, events, signature),
        !models[0].states.contains_key(signature),
        events.len() <= usize::MAX,
        forall|k: int| 0 <= k < events.len() ==> (#[trigger] events[k]).times.event@ <= u64::MAX,
        0 <= i < limiter::events_of(events, signature).len(),
        limiter::events_of(events, signature)[i].result.1 == Some(s),
        0 <= j < i,
        limiter::events_of(events, signature)[j].result.0 is Suppress,
        forall|k: int|
            j < k < i ==> (#[trigger] limiter::events_of(events, signature)[k]).result.0 is Allow,
    ensures
        s.signature == signature,
        s.last_suppressed@ == limiter::events_of(events, signature)[j].times.event@,
        s.first_suppressed@ <= s.last_suppressed@ ==> s.first_suppressed@ + s.duration@
            == s.last_suppressed@,
        s.first_suppressed@ > s.last_suppressed@ ==> s.duration@ == 0,
{
    let n = lemma_before_own_event(models, events, signature, i);
    lemma_check_in_full(models[n], events[n], models[n + 1]);
    let own = limiter::events_of(events, signature);
    let before = own.take(i);
    assert forall|k: int| j < k < before.len() implies (#[trigger] before[k]).result.0 is Allow by {
        assert(before[k] == own[k]);
    }
    lemma_last_suppression_found(before, j);
}

/// The first summary of a signature starts when the signature was first seen, and counts
/// all suppressions until then.
pub proof fn lemma_first_summary_starts_with_the_first_event<A: TokenAmount>(
    models: Seq<LimiterModel<A>>,
    events: Seq<CheckedEvent>,
    signature: EventSignature,
    i: int,
    s: SuppressionSummary,
)
    requires
        limiter::runs(models, events),
        limiter::undisturbed(models, events, signature),
        !models[0].states.contains_key(signature),
        events.len() <= usize::MAX,
        forall|k: int| 0 <= k < events.len() ==> (#[trigger] events[k]).times.event@ <= u64::MAX,
        0 <= i < limiter::events_of(events, signature).len(),
        limiter::events_of(events, signature)[i].result.1 == Some(s),
        forall|k: int|
            0 <= k < i ==> (#[trigger] limiter::events_of(events, signature)[k]).result.1 is None,
    ensures
        s.first_suppressed@ == limiter::events_of(events, signature)[0].times.event@,
        s.count == suppressed_in(limiter::events_of(events, signature).take(i)),
{
    let n = lemma_before_own_event(models, events, signature, i);
    lemma_check_in_full(models[n], events[n], models[n + 1]);
    let own = limiter::events_of(events, signature);
    let before = own.take(i);
    assert forall|k: int| 0 <= k < before.len() implies (#[trigger] before[k]).result.1 is None by {
        assert(before[k] == own[k]);
    }
    lemma_nothing_told(before);
    if i > 0 {
        assert(before[0] == own[0]);
    }
}

/// A summary starts where the one before it ended, and counts the suppressions since the
/// event that came with that one.
pub proof fn lemma_summary_starts_where_the_last_ended<A: TokenAmount>(
    models: Seq<LimiterModel<A>>,
    events: Seq<CheckedEvent>,
    signature: EventSignature,
    k: int,
    earlier: SuppressionSummary,
    i: int,
    s: SuppressionSummary,
)
    requires
        limiter::runs(models, events),
        limiter::undisturbed(models, events, signature),
        !models[0].states.contains_key(signature),
        events.len() <= usize::MAX,
        forall|j: int| 0 <= j < events.len() ==> (#[trigger] events[j]).times.event@ <= u64::MAX,
        0 <= k < i < limiter::events_of(events, signature).len(),
        limiter::events_of(events, signature)[k].result.1 == Some(earlier),
        limiter::events_of(events, signature)[i].result.1 == Some(s),
        forall|j: int|
            k < j < i ==> (#[trigger] limiter::events_of(events, signature)[j]).result.1 is None,
    ensures
        s.first_suppressed@ == earlier.last_suppressed@,
        s.count == suppressed_in(limiter::events_of(events, signature).take(i)) - suppressed_in(
            limiter::events_of(events, signature).take(k),
        ),
{
    let own = limiter::events_of(events, signature);
    let m = lemma_before_own_event(models, events, signature, k);
    lemma_check_in_full(models[m], events[m], models[m + 1]);
    assert(k > 0) by {
        if k == 0 {
            assert(own.take(0) =~= Seq::empty());
        }
    }
    let n = lemma_before_own_event(models, events, signature, i);
    lemma_check_in_full(models[n], events[n], models[n + 1]);
    let before = own.take(i);
    assert forall|j: int| k < j < before.len() implies (#[trigger] before[j]).result.1 is None by {
        assert(before[j] == own[j]);
    }
    assert(before[k] == own[k]);
    lemma_told_stays(before, k);
    assert(before.take(k) =~= own.take(k));
    assert(before.take(k + 1) =~= own.take(k).push(own[k]));
    assert(own.take(k).push(own[k]).drop_last() =~= own.take(k));
}

/// A summary carries the details that came first with an event of its signature.
pub proof fn lemma_summary_carries_the_first_details<A: TokenAmount>(
    models: Seq<LimiterModel<A>>,
    events: Seq<CheckedEvent>,
    signature: EventSignature,
    i: int,
    s: SuppressionSummary,
    j: int,
)
    requires
        limiter::runs(models, events),
        limiter::undisturbed(models, events, signature),
        !models[0].states.contains_key(signature),
        events.len() <= usize::MAX,
        forall|k: int| 0 <= k < events.len() ==> (#[trigger] events[k]).times.event@ <= u64::MAX,
        0 <= j <= i < limiter::events_of(events, signature).len(),
        limiter::events_of(events, signature)[i].result.1 == Some(s),
        limiter::events_of(events, signature)[j].details is Some,
        forall|k: int|
            0 <= k < j ==> (#[trigger] limiter::events_of(events, signature)[k]).details is None,
    ensures
        metadata::optional_metadata(s.metadata) == limiter::events_of(events, signature)[j].details,
{
    let n = lemma_before_own_event(models, events, signature, i);
    lemma_check_in_full(models[n], events[n], models[n + 1]);
    let own = limiter::events_of(events, signature);
    let before = own.take(i);
    assert forall|k: int| 0 <= k < j && k < before.len() implies (#[trigger] before[k]).details
        is None by {
        assert(before[k] == own[k]);
    }
    if j < i {
        assert(before[j] == own[j]);
    }
    lemma_first_details_found(before, j);
}

proof fn lemma_first_details_found(own: Seq<CheckedEvent>, j: int)
    requires
        0 <= j <= own.len(),
        j < own.len() ==> own[j].details is Some,
        forall|k: int| 0 <= k < j ==> (#[trigger] own[k]).details is None,
    ensures
        first_details(own) == if j < own.len() {
            own[j].details
        } else {
            None
        },
    decreases own.len(),
{
    if own.len() > 0 {
        let fewer = own.drop_last();
        let place = if j < fewer.len() {
            j
        } else {
            fewer.len() as int
        };
        assert forall|k: int| 0 <= k < place implies (#[trigger] fewer[k]).details is None by {
            assert(fewer[k] == own[k]);
        }
        if place < fewer.len() {
            assert(fewer[place] == own[place]);
        }
        lemma_first_details_found(fewer, place);
    }
}

/// The kind of policy under which a signature is throttled stays that of the default
/// policy.
proof fn lemma_policy_kind_stays<A: TokenAmount>(
    states: Seq<PolicyModel<A>>,
    own: Seq<CheckedEvent>,
    n: int,
)
    requires
        limiter::policy_runs(states, own),
        0 <= n <= own.len(),
    ensures
        states[n] is Window <==> states[0] is Window,
        states[n] is Backoff <==> states[0] is Backoff,
    decreases n,
{
    if n > 0 {
        lemma_policy_kind_stays(states, own, n - 1);
        let e = own[n - 1];
        assert(states[n - 1 + 1] == states[n]);
    }
}

/// Whether an event of a signature ends episodes, should it pass, rests on the kind of
/// the default policy.
proof fn lemma_episodes_follow_the_default_policy<A: TokenAmount>(
    models: Seq<LimiterModel<A>>,
    events: Seq<CheckedEvent>,
    signature: EventSignature,
    n: int,
)
    requires
        limiter::runs(models, events),
        limiter::undisturbed(models, events, signature),
        !models[0].states.contains_key(signature),
        0 <= n < events.len(),
        events[n].signature == signature,
    ensures
        models[n + 1].states.contains_key(signature),
        Policy::<A>::allow_ends_episode_in(models[n + 1].states[signature]@.policy)
            <==> models[0].first_policy is Window || models[0].first_policy is Backoff,
{
    lemma_run_begins(models, events, signature, n + 1);
    let begun = models.take(n + 2);
    let first = events.take(n + 1);
    let states = limiter::lemma_signature_is_throttled_as_if_alone(begun, first, signature);
    let own = limiter::events_of(first, signature);
    lemma_policy_kind_stays(states, own, own.len() as int);
    assert(begun.last() == models[n + 1]);
    assert(begun[0] == models[0]);
    let e = events[n];
    assert(limiter::checks(
        models[n],
        e.signature,
        e.details,
        e.claims,
        e.times,
        e.result,
        models[n + 1],
    ));
}

/// A summary comes with every event that passes and asks for one, under a time window or
/// under backoff, if there are suppressions that none has told of.
pub proof fn lemma_summary_comes_when_it_is_due<A: TokenAmount>(
    models: Seq<LimiterModel<A>>,
    events: Seq<CheckedEvent>,
    signature: EventSignature,
    i: int,
    j: int,
)
    requires
        limiter::runs(models, events),
        limiter::undisturbed(models, events, signature),
        !models[0].states.contains_key(signature),
        events.len() <= usize::MAX,
        forall|k: int| 0 <= k < events.len() ==> (#[trigger] events[k]).times.event@ <= u64::MAX,
        models[0].first_policy is Window || models[0].first_policy is Backoff,
        0 <= j < i < limiter::events_of(events, signature).len(),
        limiter::events_of(events, signature)[i].result.0 is Allow,
        limiter::events_of(events, signature)[i].claims,
        limiter::events_of(events, signature)[j].result.0 is Suppress,
        forall|k: int|
            j < k < i ==> (#[trigger] limiter::events_of(events, signature)[k]).result.1 is None,
    ensures
        limiter::events_of(events, signature)[i].result.1 is Some,
{
    let own = limiter::events_of(events, signature);
    let n = lemma_before_own_event(models, events, signature, i);
    lemma_check_in_full(models[n], events[n], models[n + 1]);
    lemma_episodes_follow_the_default_policy(models, events, signature, n);
    let m = lemma_before_own_event(models, events, signature, j);
    lemma_place_bounds_what_is_told(models, events, signature, j);
    let before = own.take(i);
    let at = own.take(j);
    lemma_untold_remains(own, j, i);
}

/// What has been told of a signature before an event is no more than was suppressed.
proof fn lemma_place_bounds_what_is_told<A: TokenAmount>(
    models: Seq<LimiterModel<A>>,
    events: Seq<CheckedEvent>,
    signature: EventSignature,
    i: int,
)
    requires
        limiter::runs(models, events),
        limiter::undisturbed(models, events, signature),
        !models[0].states.contains_key(signature),
        events.len() <= usize::MAX,
        0 <= i < limiter::events_of(events, signature).len(),
    ensures
        told_in(limiter::events_of(events, signature).take(i)) <= suppressed_in(
            limiter::events_of(events, signature).take(i),
        ),
{
    let n = lemma_place_of_own_event(events, signature, i);
    lemma_run_begins(models, events, signature, n);
    let begun = models.take(n + 1);
    assert(begun[0] == models[0]);
    lemma_counter_run(begun, events.take(n), signature);
}

/// A suppression stays untold until a summary comes.
proof fn lemma_untold_remains(own: Seq<CheckedEvent>, j: int, i: int)
    requires
        0 <= j < i <= own.len(),
        own[j].result.0 is Suppress,
        own[j].result.1 is None,
        told_in(own.take(j)) <= suppressed_in(own.take(j)),
        forall|k: int| j < k < i ==> (#[trigger] own[k]).result.1 is None,
    ensures
        told_in(own.take(i)) < suppressed_in(own.take(i)),
    decreases i,
{
    let before = own.take(i - 1);
    assert(own.take(i).drop_last() =~= before);
    assert(own.take(i).last() == own[i - 1]);
    if i - 1 > j {
        lemma_untold_remains(own, j, i - 1);
        assert(own[i - 1].result.1 is None);
    }
}

/// A summary comes only with an event that passes and asks for one, under a time window
/// or under backoff, and only if there is a suppression before it that none has told of.
pub proof fn lemma_summary_comes_only_when_it_is_due<A: TokenAmount>(
    models: Seq<LimiterModel<A>>,
    events: Seq<CheckedEvent>,
    signature: EventSignature,
    i: int,
)
    requires
        limiter::runs(models, events),
        limiter::undisturbed(models, events, signature),
        !models[0].states.contains_key(signature),
        events.len() <= usize::MAX,
        forall|k: int| 0 <= k < events.len() ==> (#[trigger] events[k]).times.event@ <= u64::MAX,
        0 <= i < limiter::events_of(events, signature).len(),
        limiter::events_of(events, signature)[i].result.1 is Some,
    ensures
        models[0].first_policy is Window || models[0].first_policy is Backoff,
        limiter::events_of(events, signature)[i].result.0 is Allow,
        limiter::events_of(events, signature)[i].claims,
        told_in(limiter::events_of(events, signature).take(i)) < suppressed_in(
            limiter::events_of(events, signature).take(i),
        ),
        limiter::events_of(events, signature)[i].result.1->0.count > 0,
{
    let n = lemma_before_own_event(models, events, signature, i);
    lemma_check_in_full(models[n], events[n], models[n + 1]);
    lemma_episodes_follow_the_default_policy(models, events, signature, n);
}

/// A report tells of a signature that was new how often it was suppressed, that it is
/// counted since its first event, when it was last suppressed, and how long that took.
pub proof fn lemma_report_tells_of_all_events<A: TokenAmount>(
    models: Seq<LimiterModel<A>>,
    events: Seq<CheckedEvent>,
    signature: EventSignature,
    min_count: usize,
    summaries: Seq<SuppressionSummary>,
    i: int,
    j: int,
)
    requires
        limiter::runs(models, events),
        limiter::undisturbed(models, events, signature),
        !models[0].states.contains_key(signature),
        events.len() <= usize::MAX,
        forall|k: int| 0 <= k < events.len() ==> (#[trigger] events[k]).times.event@ <= u64::MAX,
        emitter::reports(models.last().states, min_count, summaries),
        0 <= i < summaries.len(),
        summaries[i].signature == signature,
        0 <= j < limiter::events_of(events, signature).len(),
        limiter::events_of(events, signature)[j].result.0 is Suppress,
        forall|k: int|
            j < k < limiter::events_of(events, signature).len() ==> (#[trigger] limiter::events_of(
                events,
                signature,
            )[k]).result.0 is Allow,
    ensures
        summaries[i].count == suppressed_in(limiter::events_of(events, signature)),
        summaries[i].first_suppressed@ == limiter::events_of(events, signature)[0].times.event@,
        summaries[i].last_suppressed@ == limiter::events_of(events, signature)[j].times.event@,
        summaries[i].first_suppressed@ <= summaries[i].last_suppressed@
            ==> summaries[i].first_suppressed@ + summaries[i].duration@
            == summaries[i].last_suppressed@,
{
    lemma_history_of_signature(models, events, signature);
    lemma_last_suppression_found(limiter::events_of(events, signature), j);
    emitter::lemma_report_tells_all_and_nothing_else(
        models.last().states,
        min_count,
        summaries,
        signature,
    );
}

/// A report tells of a signature that was new if and only if it was suppressed at least
/// `min_count` times, and at least one event of it has come.
pub proof fn lemma_report_tells_from_min_count_on<A: TokenAmount>(
    models: Seq<LimiterModel<A>>,
    events: Seq<CheckedEvent>,
    signature: EventSignature,
    min_count: usize,
    summaries: Seq<SuppressionSummary>,
)
    requires
        limiter::runs(models, events),
        limiter::undisturbed(models, events, signature),
        !models[0].states.contains_key(signature),
        events.len() <= usize::MAX,
        forall|k: int| 0 <= k < events.len() ==> (#[trigger] events[k]).times.event@ <= u64::MAX,
        emitter::reports(models.last().states, min_count, summaries),
    ensures
        (exists|i: int| 0 <= i < summaries.len() && (#[trigger] summaries[i]).signature
            == signature) <==> limiter::events_of(events, signature).len() > 0 && suppressed_in(
            limiter::events_of(events, signature),
        ) >= min_count,
{
    lemma_history_of_signature(models, events, signature);
    emitter::lemma_report_tells_all_and_nothing_else(
        models.last().states,
        min_count,
        summaries,
        signature,
    );
}

/// Number of events that passed.
pub open spec fn passed_in(events: Seq<CheckedEvent>) -> nat
    decreases events.len(),
{
    if events.len() == 0 {
        0
    } else if events.last().result.0 is Allow {
        passed_in(events.drop_last()) + 1
    } else {
        passed_in(events.drop_last())
    }
}

/// The counters tell how many events passed and how many were suppressed, until 64 bits
/// are used up.
pub proof fn lemma_counters_tell_of_all_events<A: TokenAmount>(
    models: Seq<LimiterModel<A>>,
    events: Seq<CheckedEvent>,
)
    requires
        limiter::runs(models, events),
        models[0].metrics.events_allowed + events.len() <= u64::MAX,
        models[0].metrics.events_suppressed + events.len() <= u64::MAX,
    ensures
        models.last().metrics.events_allowed == models[0].metrics.events_allowed + passed_in(
            events,
        ),
        models.last().metrics.events_suppressed == models[0].metrics.events_suppressed
            + suppressed_in(events),
        passed_in(events) + suppressed_in(events) == events.len(),
    decreases events.len(),
{
    if events.len() > 0 {
        let earlier = events.drop_last();
        let before = models.drop_last();
        let n = earlier.len() as int;
        assert forall|i: int| 0 <= i < earlier.len() implies #[trigger] earlier[i] == events[i]
            && before[i] == models[i] && before[i + 1] == models[i + 1] by {}
        lemma_counters_tell_of_all_events(before, earlier);
        let e = events[n];
        limiter::lemma_every_event_is_counted_once(
            models[n],
            e.signature,
            e.details,
            e.claims,
            e.times,
            e.result,
            models[n + 1],
        );
    }
}

/// Under a time-window policy, and while time does not go backwards, an event of a
/// signature passes if and only if fewer than `max_events` of the events of the signature
/// that passed before it lie no more than the window before it.
pub proof fn lemma_window_of_signature_in_numbers<A: TokenAmount>(
    models: Seq<LimiterModel<A>>,
    events: Seq<CheckedEvent>,
    signature: EventSignature,
    m: WindowModel,
    i: int,
)
    requires
        limiter::runs(models, events),
        limiter::undisturbed(models, events, signature),
        models[0].first_policy == PolicyModel::<A>::Window(
            WindowModel { stamps: Seq::empty(), ..m },
        ),
        !models[0].states.contains_key(signature),
        0 <= i < limiter::events_of(events, signature).len(),
        forall|j: int, k: int|
            0 <= j <= k < limiter::events_of(events, signature).len() ==> (
            #[trigger] limiter::events_of(events, signature)[j]).times.event@ <= (
            #[trigger] limiter::events_of(events, signature)[k]).times.event@,
    ensures
        ({
            let own = limiter::events_of(events, signature);
            let within = Set::new(
                |j: int|
                    0 <= j < i && own[j].result.0 is Allow && own[i].times.event@
                        - own[j].times.event@ <= m.window,
            );
            within.finite() && (own[i].result.0 is Allow <==> within.len() < m.max_events)
        }),
{
    let own = limiter::events_of(events, signature);
    let states = limiter::lemma_signature_is_throttled_as_if_alone(models, events, signature);
    let times = times_of(own);
    let decisions = Seq::new(own.len(), |k: int| limiter::policy_decision(own[k].result.0));
    let windows = Seq::new(states.len(), |k: int| states[k]->Window_0);
    assert forall|k: int| 0 <= k < times.len() implies TimeWindowPolicy::steps(
        windows[k],
        #[trigger] times[k],
        decisions[k],
        windows[k + 1],
    ) by {
        lemma_policy_kind_stays(states, own, k);
        lemma_policy_kind_stays(states, own, k + 1);
        let e = own[k];
        assert(Policy::<A>::steps(
            states[k],
            e.times.event@,
            limiter::policy_decision(e.result.0),
            states[k + 1],
        ));
    }
    assert forall|j: int, k: int| 0 <= j <= k < times.len() implies times[j] <= times[k] by {
        assert(own[j].times.event@ <= own[k].times.event@);
    }
    time_window::lemma_window_decides_by_what_passed(m, windows, times, decisions, i);
    assert(Set::new(
        |j: int| 0 <= j < i && decisions[j] is Allow && times[i] - times[j] <= m.window,
    ) =~= Set::new(
        |j: int|
            0 <= j < i && own[j].result.0 is Allow && own[i].times.event@ - own[j].times.event@
                <= m.window,
    ));
}

/// Under exponential backoff, an event of a signature passes if and only if its number
/// among them is a power of two.
pub proof fn lemma_backoff_of_signature_in_numbers<A: TokenAmount>(
    models: Seq<LimiterModel<A>>,
    events: Seq<CheckedEvent>,
    signature: EventSignature,
    i: int,
)
    requires
        limiter::runs(models, events),
        limiter::undisturbed(models, events, signature),
        models[0].first_policy == PolicyModel::<A>::Backoff(
            BackoffModel { event_count: 0, next_allowed: 1 },
        ),
        !models[0].states.contains_key(signature),
        0 <= i < limiter::events_of(events, signature).len(),
        i + 1 < u64::MAX,
    ensures
        limiter::events_of(events, signature)[i].result.0 is Allow <==> exists|e: nat| #[trigger]
            power2::pow2(e) == i + 1,
{
    lemma_power_of_two_events_of_signature_pass(models, events, signature, i);
}

/// Under a token bucket, every event of a signature moves a bucket of its own.
proof fn lemma_bucket_run<A: TokenAmount>(
    states: Seq<PolicyModel<A>>,
    own: Seq<CheckedEvent>,
    n: int,
)
    requires
        limiter::policy_runs(states, own),
        states[0] is Bucket,
        0 <= n <= own.len(),
    ensures
        states[n] is Bucket,
        n < own.len() ==> TokenBucketPolicy::<A>::steps(
            states[n]->Bucket_0,
            own[n].times.event@,
            limiter::policy_decision(own[n].result.0),
            states[n + 1]->Bucket_0,
        ),
    decreases n,
{
    if n > 0 {
        lemma_bucket_run(states, own, n - 1);
        let e = own[n - 1];
        assert(states[n - 1 + 1] == states[n]);
    }
    if n < own.len() {
        let e = own[n];
        assert(Policy::<A>::steps(
            states[n],
            e.times.event@,
            limiter::policy_decision(e.result.0),
            states[n + 1],
        ));
    }
}

/// Under a token bucket, and while time does not go backwards, no more events of a
/// signature pass than a full bucket holds tokens and time brings since the first of
/// them: a burst is bounded by the capacity, a sustained load by the rate. Every token is
/// worth `one`, and a nanosecond adds at most `rate`.
pub proof fn lemma_bucket_of_signature_limits_what_passes<A: TokenAmount>(
    models: Seq<LimiterModel<A>>,
    events: Seq<CheckedEvent>,
    signature: EventSignature,
    bucket: BucketModel<A>,
    worth: spec_fn(A) -> nat,
    one: nat,
    rate: nat,
)
    requires
        forall|t: A, span: Duration, r: A, c: A, x: A| #[trigger]
            call_ensures(A::credited, (t, span, r, c), x) ==> worth(x) <= worth(t) + rate * span@,
        forall|t: A, x: A| #[trigger]
            call_ensures(A::spent, (t,), Some(x)) ==> worth(x) + one <= worth(t),
        limiter::runs(models, events),
        limiter::undisturbed(models, events, signature),
        !models[0].states.contains_key(signature),
        models[0].first_policy == PolicyModel::<A>::Bucket(
            BucketModel { tokens: bucket.capacity, last_refill: None, ..bucket },
        ),
        limiter::events_of(events, signature).len() > 0,
        forall|j: int, k: int|
            0 <= j <= k < limiter::events_of(events, signature).len() ==> (
            #[trigger] limiter::events_of(events, signature)[j]).times.event@ <= (
            #[trigger] limiter::events_of(events, signature)[k]).times.event@,
    ensures
        passed_in(limiter::events_of(events, signature)) * one <= worth(bucket.capacity) + rate * (
        limiter::events_of(events, signature).last().times.event@ - limiter::events_of(
            events,
            signature,
        )[0].times.event@),
{
    let own = limiter::events_of(events, signature);
    let states = limiter::lemma_signature_is_throttled_as_if_alone(models, events, signature);
    let times = times_of(own);
    let decisions = Seq::new(own.len(), |k: int| limiter::policy_decision(own[k].result.0));
    let buckets = Seq::new(states.len(), |k: int| states[k]->Bucket_0);
    assert forall|k: int| 0 <= k < times.len() implies TokenBucketPolicy::<A>::steps(
        buckets[k],
        #[trigger] times[k],
        decisions[k],
        buckets[k + 1],
    ) by {
        lemma_bucket_run(states, own, k);
    }
    assert forall|j: int, k: int| 0 <= j <= k < times.len() implies times[j] <= times[k] by {
        assert(own[j].times.event@ <= own[k].times.event@);
    }
    token_bucket::lemma_bucket_limits_what_passes(
        worth,
        one,
        rate,
        buckets,
        times,
        decisions,
        times[0],
    );
    lemma_passed_are_allowed(own);
}

proof fn lemma_passed_are_allowed(own: Seq<CheckedEvent>)
    ensures
        token_bucket::allowed_among(
            Seq::new(own.len(), |k: int| limiter::policy_decision(own[k].result.0)),
        ) == passed_in(own),
    decreases own.len(),
{
    let decisions = Seq::new(own.len(), |k: int| limiter::policy_decision(own[k].result.0));
    if own.len() > 0 {
        let fewer = own.drop_last();
        lemma_passed_are_allowed(fewer);
        assert(decisions.drop_last() =~= Seq::new(
            fewer.len(),
            |k: int| limiter::policy_decision(fewer[k].result.0),
        ));
    }
}

/// Under a token bucket, and while time does not go backwards, an event of a signature
/// that follows on one at which the bucket was left with some tokens, with nothing but
/// suppressed events in between, passes if and only if there is a token to take once
/// those are credited with all the time between the two: suppressed events cost nothing.
/// Crediting two adjoining spans in turn is the same as crediting their sum.
pub proof fn lemma_suppressed_events_of_signature_cost_nothing<A: TokenAmount>(
    states: Seq<PolicyModel<A>>,
    own: Seq<CheckedEvent>,
    credit: spec_fn(A, nat, A, A) -> A,
    spend: spec_fn(A) -> Option<A>,
    a: int,
    i: int,
)
    requires
        limiter::policy_runs(states, own),
        states[0] is Bucket,
        token_bucket::token_arithmetic_is(credit, spend),
        token_bucket::adjoining_spans_add_up(credit),
        0 <= a < i < own.len(),
        forall|k: int| a < k < i ==> (#[trigger] own[k]).result.0 is Suppress,
        forall|j: int, k: int|
            a <= j <= k <= i ==> (#[trigger] own[j]).times.event@ <= (
            #[trigger] own[k]).times.event@,
    ensures
        states[a + 1] matches PolicyModel::Bucket(left) && (own[i].result.0 is Allow <==> spend(
            credit(
                left.tokens,
                (own[i].times.event@ - own[a].times.event@) as nat,
                left.refill_rate,
                left.capacity,
            ),
        ) is Some),
{
    lemma_bucket_run(states, own, a);
    lemma_bucket_run(states, own, a + 1);
    lemma_bucket_run(states, own, i);
    let left = states[a + 1]->Bucket_0;
    let from = own[a].times.event@;
    let n = i - a - 1;
    let buckets = Seq::new((n + 1) as nat, |k: int| states[a + 1 + k]->Bucket_0);
    let times = Seq::new(n as nat, |k: int| own[a + 1 + k].times.event@);
    assert forall|k: int| 0 <= k < times.len() implies TokenBucketPolicy::<A>::steps(
        buckets[k],
        #[trigger] times[k],
        PolicyDecision::Suppress,
        buckets[k + 1],
    ) by {
        lemma_bucket_run(states, own, a + 1 + k);
        assert(own[a + 1 + k].result.0 is Suppress);
    }
    assert forall|j: int, k: int| 0 <= j <= k < times.len() implies times[j] <= times[k] by {
        assert(own[a + 1 + j].times.event@ <= own[a + 1 + k].times.event@);
    }
    token_bucket::lemma_suppressed_events_only_credit(credit, spend, buckets, times, from, n);
    let held = buckets[n];
    let last = if n > 0 {
        times[n - 1]
    } else {
        from
    };
    let at = own[i].times.event@;
    assert(own[i - 1].times.event@ <= at);
    assert(from <= own[i - 1].times.event@);
    token_bucket::lemma_event_passes_if_there_is_a_token(
        credit,
        spend,
        held,
        last,
        at,
        limiter::policy_decision(own[i].result.0),
        states[i + 1]->Bucket_0,
    );
    if n > 0 {
        assert(from <= last);
        token_bucket::lemma_adjoining_spans_add_up(credit, left, from, last, at);
    }
}

/// An event of a signature that is not tracked, be it new or evicted before, is decided
/// about by the default policy as it was set up. It comes with no summary, and the
/// signature is counted from then on.
pub proof fn lemma_untracked_signature_starts_afresh<A: TokenAmount>(
    before: LimiterModel<A>,
    e: CheckedEvent,
    after: LimiterModel<A>,
)
    requires
        limiter::checks(before, e.signature, e.details, e.claims, e.times, e.result, after),
        circuit_breaker::breaker_admits(before.breaker, e.times.asked@),
        Policy::<A>::has_room_in(before.first_policy),
        !before.states.contains_key(e.signature),
        e.times.event@ <= u64::MAX,
    ensures
        after.states.contains_key(e.signature),
        e.result.1 is None,
        Policy::<A>::steps(
            before.first_policy,
            e.times.event@,
            limiter::policy_decision(e.result.0),
            after.states[e.signature]@.policy,
        ),
        after.states[e.signature]@.counter == (CounterModel {
            count: if e.result.0 is Suppress {
                1
            } else {
                0
            },
            first: e.times.event@,
            last: e.times.event@,
            reported: 0,
            boundary: e.times.event@,
        }),
        after.states[e.signature]@.metadata == e.details,
{
    lemma_check_in_full(before, e, after);
}

/// An event of a tracked signature moves the policy of that signature by one step. If it
/// is suppressed, that is counted, at its time. If it passes with a summary, that tells of
/// all suppressions that none has told of: how many, from where the last summary ended to
/// the last suppression, over the time between the two, and with the details that came
/// first; and all is then told. If it passes without, nothing changes but the policy.
pub proof fn lemma_event_of_tracked_signature_in_full<A: TokenAmount>(
    before: LimiterModel<A>,
    e: CheckedEvent,
    after: LimiterModel<A>,
)
    requires
        limiter::checks(before, e.signature, e.details, e.claims, e.times, e.result, after),
        circuit_breaker::breaker_admits(before.breaker, e.times.asked@),
        before.states.contains_key(e.signature),
        Policy::<A>::has_room_in(before.states[e.signature]@.policy),
        e.times.event@ <= u64::MAX,
        before.states[e.signature]@.counter.count < usize::MAX,
    ensures
        after.states.contains_key(e.signature),
        ({
            let old_state = before.states[e.signature]@;
            let new_state = after.states[e.signature]@;
            let c = old_state.counter;
            &&& Policy::<A>::steps(
                old_state.policy,
                e.times.event@,
                limiter::policy_decision(e.result.0),
                new_state.policy,
            )
            &&& new_state.metadata == if old_state.metadata is Some {
                old_state.metadata
            } else {
                e.details
            }
            &&& e.result.0 is Suppress ==> e.result.1 is None && new_state.counter == (
            CounterModel { count: c.count + 1, last: e.times.event@, ..c })
            &&& e.result.0 is Allow && e.result.1 is None ==> new_state.counter == c
            &&& e.result.0 is Allow ==> (e.result.1 is Some <==> e.claims && c.count > c.reported
                && (old_state.policy is Window || old_state.policy is Backoff))
            &&& e.result.1 matches Some(s) ==> {
                &&& new_state.counter == (CounterModel {
                    reported: c.count,
                    boundary: c.last,
                    ..c
                })
                &&& s.signature == e.signature
                &&& s.count == c.count - c.reported
                &&& s.first_suppressed@ == c.boundary
                &&& s.last_suppressed@ == c.last
                &&& c.boundary <= c.last ==> c.boundary + s.duration@ == c.last
                &&& c.boundary > c.last ==> s.duration@ == 0
                &&& metadata::optional_metadata(s.metadata) == new_state.metadata
            }
        }),
{
    lemma_check_in_full(before, e, after);
}

} // verus!
