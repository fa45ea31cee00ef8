//! Allows a fixed number of events.

use vstd::prelude::*;

use crate::domain::policy::{PolicyDecision, PolicyError, RateLimitPolicy};
use crate::domain::time::Instant;

verus! {

/// The state of a [`CountBasedPolicy`].
pub struct CountModel {
    /// Number of events to allow.
    pub max_count: nat,
    /// Number of events so far, at most the largest machine word.
    pub current_count: nat,
}

/// Allows up to a number of events, then suppresses all that follow.
#[derive(Debug, Clone, PartialEq)]
pub struct CountBasedPolicy {
    max_count: usize,
    current_count: usize,
}

impl CountBasedPolicy {
    /// A policy that allows `max_count` events.
    ///
    /// Fails with `ZeroMaxCount` if `max_count` is zero.
    pub fn new(max_count: usize) -> (r: Result<CountBasedPolicy, PolicyError>)
        ensures
            max_count == 0 <==> r is Err,
            r matches Err(e) ==> e == PolicyError::ZeroMaxCount,
            r matches Ok(p) ==> p.model() == (CountModel {
                max_count: max_count as nat,
                current_count: 0,
            }),
    {
        if max_count == 0 {
            return Err(PolicyError::ZeroMaxCount);
        }
        Ok(CountBasedPolicy { max_count, current_count: 0 })
    }

    /// A policy that allows `max_count` events and has seen some already.
    pub fn resumed(max_count: usize, current_count: usize) -> (r: CountBasedPolicy)
        ensures
            r.model() == (CountModel {
                max_count: max_count as nat,
                current_count: current_count as nat,
            }),
    {
        CountBasedPolicy { max_count, current_count }
    }

    /// Number of events to allow.
    pub fn max_count(&self) -> (r: usize)
        ensures
            r == self.model().max_count,
    {
        self.max_count
    }

    /// Number of events so far.
    pub fn current_count(&self) -> (r: usize)
        ensures
            r == self.model().current_count,
    {
        self.current_count
    }

    /// What is decided in a state.
    pub open spec fn decision_in(m: CountModel) -> PolicyDecision {
        if m.current_count < m.max_count {
            PolicyDecision::Allow
        } else {
            PolicyDecision::Suppress
        }
    }

    /// The state after an event. A count that cannot grow stays.
    pub open spec fn state_after(m: CountModel) -> CountModel {
        CountModel {
            current_count: if m.current_count < usize::MAX {
                m.current_count + 1
            } else {
                m.current_count
            },
            ..m
        }
    }
}

impl RateLimitPolicy for CountBasedPolicy {
    type Model = CountModel;

    closed spec fn model(&self) -> CountModel {
        CountModel {
            max_count: self.max_count as nat,
            current_count: self.current_count as nat,
        }
    }

    open spec fn has_room_in(m: CountModel) -> bool {
        true
    }

    open spec fn steps(
        before: CountModel,
        at: nat,
        decision: PolicyDecision,
        after: CountModel,
    ) -> bool {
        decision == Self::decision_in(before) && after == Self::state_after(before)
    }

    open spec fn state_cleared(m: CountModel) -> CountModel {
        CountModel { current_count: 0, ..m }
    }

    open spec fn allow_ends_episode_in(m: CountModel) -> bool {
        false
    }

    fn has_room(&self) -> (r: bool) {
        true
    }

    fn register_event(&mut self, _timestamp: Instant) -> (r: PolicyDecision) {
        let decision = if self.current_count < self.max_count {
            PolicyDecision::Allow
        } else {
            PolicyDecision::Suppress
        };
        self.current_count = self.current_count.saturating_add(1);
        decision
    }

    fn reset(&mut self) {
        self.current_count = 0;
    }

    fn allow_ends_episode(&self) -> (r: bool) {
        false
    }

    fn duplicate(&self) -> (r: CountBasedPolicy) {
        CountBasedPolicy { max_count: self.max_count, current_count: self.current_count }
    }
}

/// A policy after events at the given points in time.
pub open spec fn count_after(m: CountModel, times: Seq<nat>) -> CountModel
    decreases times.len(),
{
    if times.len() == 0 {
        m
    } else {
        CountBasedPolicy::state_after(count_after(m, times.drop_last()))
    }
}

/// After it was made or cleared, a policy allows the first `max_count` events
/// and suppresses all others, whenever they happen and however many there are.
pub proof fn lemma_first_events_are_allowed(m: CountModel, times: Seq<nat>)
    requires
        m.max_count <= usize::MAX,
    ensures
        CountBasedPolicy::decision_in(count_after(CountBasedPolicy::state_cleared(m), times))
            is Allow <==> times.len() < m.max_count,
        count_after(CountBasedPolicy::state_cleared(m), times).max_count == m.max_count,
{
    lemma_events_are_counted(m, times);
}

/// Events are counted as far as the machine word goes.
proof fn lemma_events_are_counted(m: CountModel, times: Seq<nat>)
    ensures
        count_after(CountBasedPolicy::state_cleared(m), times) == (CountModel {
            max_count: m.max_count,
            current_count: if times.len() <= usize::MAX {
                times.len()
            } else {
                usize::MAX as nat
            },
        }),
    decreases times.len(),
{
    if times.len() > 0 {
        lemma_events_are_counted(m, times.drop_last());
    }
}

/// Of the events of a policy that was made or cleared, the first `max_count` pass, and
/// no other.
pub proof fn lemma_count_lets_the_first_pass(
    max_count: nat,
    states: Seq<CountModel>,
    times: Seq<nat>,
    decisions: Seq<PolicyDecision>,
    i: int,
)
    requires
        max_count <= usize::MAX,
        states.len() == times.len() + 1,
        decisions.len() == times.len(),
        states[0] == (CountModel { max_count, current_count: 0 }),
        forall|k: int|
            0 <= k < times.len() ==> CountBasedPolicy::steps(
                states[k],
                #[trigger] times[k],
                decisions[k],
                states[k + 1],
            ),
        0 <= i < times.len(),
    ensures
        decisions[i] is Allow <==> i < max_count,
{
    lemma_count_run(max_count, states, times, decisions, i);
    assert(CountBasedPolicy::steps(states[i], times[i], decisions[i], states[i + 1]));
}

proof fn lemma_count_run(
    max_count: nat,
    states: Seq<CountModel>,
    times: Seq<nat>,
    decisions: Seq<PolicyDecision>,
    i: int,
)
    requires
        states.len() == times.len() + 1,
        decisions.len() == times.len(),
        states[0] == (CountModel { max_count, current_count: 0 }),
        forall|k: int|
            0 <= k < times.len() ==> CountBasedPolicy::steps(
                states[k],
                #[trigger] times[k],
                decisions[k],
                states[k + 1],
            ),
        0 <= i <= times.len(),
    ensures
        states[i].max_count == max_count,
        i <= usize::MAX ==> states[i].current_count == i,
        i > usize::MAX ==> states[i].current_count == usize::MAX,
    decreases i,
{
    if i > 0 {
        lemma_count_run(max_count, states, times, decisions, i - 1);
        assert(CountBasedPolicy::steps(
            states[i - 1],
            times[i - 1],
            decisions[i - 1],
            states[i - 1 + 1],
        ));
    }
}

} // verus!
