//! Allows events at doubling intervals.

use vstd::arithmetic::power2;
use vstd::prelude::*;

use crate::domain::policy::{PolicyDecision, RateLimitPolicy};
use crate::domain::time::Instant;

verus! {

/// The state of an [`ExponentialBackoffPolicy`].
pub struct BackoffModel {
    /// Number of events so far.
    pub event_count: nat,
    /// Number of the next event to allow.
    pub next_allowed: nat,
}

/// Twice a number, or the largest 64-bit value where that is exceeded.
pub open spec fn doubled(n: nat) -> nat {
    if 2 * n <= u64::MAX {
        2 * n
    } else {
        u64::MAX as nat
    }
}

/// Allows the 1st, 2nd, 4th, 8th, 16th event and so on.
#[derive(Debug, Clone, PartialEq)]
pub struct ExponentialBackoffPolicy {
    event_count: u64,
    next_allowed: u64,
}

impl ExponentialBackoffPolicy {
    /// A policy that has seen no event.
    pub fn new() -> (r: ExponentialBackoffPolicy)
        ensures
            r.model() == (BackoffModel { event_count: 0, next_allowed: 1 }),
    {
        ExponentialBackoffPolicy { event_count: 0, next_allowed: 1 }
    }

    /// A policy that has seen some events already.
    pub fn resumed(event_count: u64, next_allowed: u64) -> (r: ExponentialBackoffPolicy)
        ensures
            r.model() == (BackoffModel {
                event_count: event_count as nat,
                next_allowed: next_allowed as nat,
            }),
    {
        ExponentialBackoffPolicy { event_count, next_allowed }
    }

    /// Number of events so far.
    pub fn event_count(&self) -> (r: u64)
        ensures
            r == self.model().event_count,
    {
        self.event_count
    }

    /// Number of the next event to allow.
    pub fn next_allowed(&self) -> (r: u64)
        ensures
            r == self.model().next_allowed,
    {
        self.next_allowed
    }

    /// What is decided in a state.
    pub open spec fn decision_in(m: BackoffModel) -> PolicyDecision {
        if m.event_count + 1 == m.next_allowed {
            PolicyDecision::Allow
        } else {
            PolicyDecision::Suppress
        }
    }

    /// The state after an event.
    pub open spec fn state_after(m: BackoffModel) -> BackoffModel {
        BackoffModel {
            event_count: m.event_count + 1,
            next_allowed: if m.event_count + 1 == m.next_allowed {
                doubled(m.next_allowed)
            } else {
                m.next_allowed
            },
        }
    }
}

impl Default for ExponentialBackoffPolicy {
    fn default() -> (r: ExponentialBackoffPolicy)
        ensures
            r.model() == (BackoffModel { event_count: 0, next_allowed: 1 }),
    {
        ExponentialBackoffPolicy::new()
    }
}

impl RateLimitPolicy for ExponentialBackoffPolicy {
    type Model = BackoffModel;

    closed spec fn model(&self) -> BackoffModel {
        BackoffModel {
            event_count: self.event_count as nat,
            next_allowed: self.next_allowed as nat,
        }
    }

    open spec fn has_room_in(m: BackoffModel) -> bool {
        m.event_count < u64::MAX
    }

    open spec fn steps(
        before: BackoffModel,
        at: nat,
        decision: PolicyDecision,
        after: BackoffModel,
    ) -> bool {
        decision == Self::decision_in(before) && after == Self::state_after(before)
    }

    open spec fn state_cleared(m: BackoffModel) -> BackoffModel {
        BackoffModel { event_count: 0, next_allowed: 1 }
    }

    open spec fn allow_ends_episode_in(m: BackoffModel) -> bool {
        true
    }

    fn has_room(&self) -> (r: bool) {
        self.event_count < u64::MAX
    }

    fn register_event(&mut self, _timestamp: Instant) -> (r: PolicyDecision) {
        self.event_count = self.event_count + 1;
        if self.event_count == self.next_allowed {
            self.next_allowed = self.next_allowed.saturating_add(self.next_allowed);
            PolicyDecision::Allow
        } else {
            PolicyDecision::Suppress
        }
    }

    fn reset(&mut self) {
        self.event_count = 0;
        self.next_allowed = 1;
    }

    fn allow_ends_episode(&self) -> (r: bool) {
        true
    }

    fn duplicate(&self) -> (r: ExponentialBackoffPolicy) {
        ExponentialBackoffPolicy {
            event_count: self.event_count,
            next_allowed: self.next_allowed,
        }
    }
}

/// A fresh policy after so many events.
pub open spec fn backoff_after(n: nat) -> BackoffModel
    decreases n,
{
    if n == 0 {
        BackoffModel { event_count: 0, next_allowed: 1 }
    } else {
        ExponentialBackoffPolicy::state_after(backoff_after((n - 1) as nat))
    }
}

/// Whether a number is a power of two.
pub open spec fn is_power_of_two(n: nat) -> bool {
    exists|e: nat| power2::pow2(e) == n
}

/// The next event to allow is the first power of two beyond the number of
/// events, or the last countable event where no such power fits 64 bits.
proof fn lemma_backoff_state(n: nat)
    requires
        n < u64::MAX,
    ensures
        backoff_after(n).event_count == n,
        n >= power2::pow2(63) ==> backoff_after(n).next_allowed == u64::MAX,
        n < power2::pow2(63) ==> exists|k: nat|
            #![trigger power2::pow2(k)]
            k <= 63 && backoff_after(n).next_allowed == power2::pow2(k) && n < power2::pow2(k) && (k
                == 0 ==> n == 0) && (k > 0 ==> power2::pow2((k - 1) as nat) <= n),
    decreases n,
{
    power2::lemma2_to64();
    power2::lemma2_to64_rest();
    if n == 0 {
        assert(power2::pow2(0) == 1);
    } else {
        let m = (n - 1) as nat;
        lemma_backoff_state(m);
        if m < power2::pow2(63) {
            let k = choose|k: nat|
                #![trigger power2::pow2(k)]
                k <= 63 && backoff_after(m).next_allowed == power2::pow2(k) && m < power2::pow2(k)
                    && (k == 0 ==> m == 0) && (k > 0 ==> power2::pow2((k - 1) as nat) <= m);
            if n == power2::pow2(k) {
                power2::lemma_pow2_unfold(k + 1);
                if k < 63 {
                    power2::lemma_pow2_strictly_increases(k, 63);
                    power2::lemma_pow2_unfold(64);
                    assert(k + 1 <= 63);
                    if k + 1 < 63 {
                        power2::lemma_pow2_strictly_increases(k + 1, 63);
                    }
                    assert(backoff_after(n).next_allowed == power2::pow2(k + 1));
                    assert(((k + 1) - 1) as nat == k);
                } else {
                    assert(k == 63);
                }
            } else {
                assert(n < power2::pow2(k));
                if k < 63 {
                    power2::lemma_pow2_strictly_increases(k, 63);
                }
                assert(backoff_after(n).next_allowed == power2::pow2(k));
            }
        }
    }
}

/// Of a fresh policy's events exactly those are allowed whose number is a power
/// of two. (The last event that 64 bits can number, which no policy lives to
/// see, is allowed too.)
pub proof fn lemma_powers_of_two_are_allowed(n: nat)
    requires
        n < u64::MAX,
    ensures
        ExponentialBackoffPolicy::decision_in(backoff_after(n)) is Allow <==> (is_power_of_two(
            n + 1,
        ) || n + 1 == u64::MAX),
{
    power2::lemma2_to64();
    power2::lemma2_to64_rest();
    lemma_backoff_state(n);
    if n < power2::pow2(63) {
        let k = choose|k: nat|
            #![trigger power2::pow2(k)]
            k <= 63 && backoff_after(n).next_allowed == power2::pow2(k) && n < power2::pow2(k) && (k
                == 0 ==> n == 0) && (k > 0 ==> power2::pow2((k - 1) as nat) <= n);
        if is_power_of_two(n + 1) {
            let e = choose|e: nat| power2::pow2(e) == n + 1;
            if e > k {
                power2::lemma_pow2_strictly_increases(k, e);
            } else if e < k {
                if e < (k - 1) {
                    power2::lemma_pow2_strictly_increases(e, (k - 1) as nat);
                }
            }
            assert(e == k);
        }
    } else if is_power_of_two(n + 1) {
        let e = choose|e: nat| power2::pow2(e) == n + 1;
        if e < 63 {
            power2::lemma_pow2_strictly_increases(e, 63);
        } else if e > 64 {
            power2::lemma_pow2_strictly_increases(64, e);
        }
        assert(false);
    }
}

/// Of the events of a policy that was made or cleared, exactly those pass whose number is
/// a power of two. (The last event that 64 bits can number is left out: it passes too.)
pub proof fn lemma_backoff_lets_powers_of_two_pass(
    states: Seq<BackoffModel>,
    times: Seq<nat>,
    decisions: Seq<PolicyDecision>,
    i: int,
)
    requires
        states.len() == times.len() + 1,
        decisions.len() == times.len(),
        states[0] == (BackoffModel { event_count: 0, next_allowed: 1 }),
        forall|k: int|
            0 <= k < times.len() ==> ExponentialBackoffPolicy::steps(
                states[k],
                #[trigger] times[k],
                decisions[k],
                states[k + 1],
            ),
        0 <= i < times.len(),
        i + 1 < u64::MAX,
    ensures
        decisions[i] is Allow <==> exists|e: nat| #[trigger] power2::pow2(e) == i + 1,
{
    lemma_backoff_run(states, times, decisions, i);
    assert(ExponentialBackoffPolicy::steps(states[i], times[i], decisions[i], states[i + 1]));
    lemma_powers_of_two_are_allowed(i as nat);
}

proof fn lemma_backoff_run(
    states: Seq<BackoffModel>,
    times: Seq<nat>,
    decisions: Seq<PolicyDecision>,
    i: int,
)
    requires
        states.len() == times.len() + 1,
        decisions.len() == times.len(),
        states[0] == (BackoffModel { event_count: 0, next_allowed: 1 }),
        forall|k: int|
            0 <= k < times.len() ==> ExponentialBackoffPolicy::steps(
                states[k],
                #[trigger] times[k],
                decisions[k],
                states[k + 1],
            ),
        0 <= i <= times.len(),
    ensures
        states[i] == backoff_after(i as nat),
    decreases i,
{
    if i > 0 {
        lemma_backoff_run(states, times, decisions, i - 1);
        assert(ExponentialBackoffPolicy::steps(
            states[i - 1],
            times[i - 1],
            decisions[i - 1],
            states[i - 1 + 1],
        ));
    }
}

/// Every event is numbered by one more than the last. It passes if its number is the one
/// that was to pass next, which is then doubled as far as 64 bits go.
pub proof fn lemma_backoff_event_in_full(
    before: BackoffModel,
    at: nat,
    decision: PolicyDecision,
    after: BackoffModel,
)
    requires
        ExponentialBackoffPolicy::steps(before, at, decision, after),
    ensures
        after.event_count == before.event_count + 1,
        decision is Allow <==> after.event_count == before.next_allowed,
        decision is Suppress ==> after.next_allowed == before.next_allowed,
        decision is Allow && before.next_allowed < 0x8000_0000_0000_0000 ==> after.next_allowed
            == before.next_allowed + before.next_allowed,
        decision is Allow && before.next_allowed >= 0x8000_0000_0000_0000 ==> after.next_allowed
            == 0xffff_ffff_ffff_ffff,
{
}

} // verus!
