//! The state of every event that is tracked.

use vstd::prelude::*;

use crate::application::metrics;
use crate::application::ports;
use crate::application::ports::{SharedClock, Storage};
use crate::domain::metadata;
use crate::domain::metadata::{EventMetadata, MetadataModel};
use crate::domain::policy::{Policy, PolicyModel, RateLimitPolicy, TokenAmount};
use crate::domain::signature::EventSignature;
use crate::domain::summary;
use crate::domain::summary::{CounterModel, SuppressionCounter};
use crate::domain::time::Instant;

verus! {

/// What is tracked of an event.
#[derive(Debug)]
pub struct EventState<A> {
    /// Decides about the event.
    pub policy: Policy<A>,
    /// Counts its suppressions.
    pub counter: SuppressionCounter,
    /// Its details, for summaries.
    pub metadata: Option<EventMetadata>,
}

/// The contents of an [`EventState`].
pub struct StateModel<A> {
    /// State of the policy.
    pub policy: PolicyModel<A>,
    /// State of the counter.
    pub counter: CounterModel,
    /// Details of the event.
    pub metadata: Option<MetadataModel>,
}

/// The state of an event that is seen for the first time.
pub open spec fn first_state<A>(
    policy: PolicyModel<A>,
    at: nat,
    details: Option<MetadataModel>,
) -> StateModel<A> {
    StateModel { policy, counter: summary::counter_from(at), metadata: details }
}

/// A state with details, if it has none yet.
pub open spec fn with_details<A>(
    s: StateModel<A>,
    details: Option<MetadataModel>,
) -> StateModel<A> {
    if s.metadata is None {
        StateModel { metadata: details, ..s }
    } else {
        s
    }
}

impl<A: TokenAmount> EventState<A> {
    /// The contents.
    pub open spec fn view(&self) -> StateModel<A> {
        StateModel {
            policy: self.policy.model(),
            counter: self.counter@,
            metadata: metadata::optional_metadata(self.metadata),
        }
    }

    /// The state of an event without details.
    pub fn new(policy: Policy<A>, initial_timestamp: Instant) -> (r: EventState<A>)
        ensures
            r@ == first_state(policy.model(), initial_timestamp@, None),
            r.policy == policy,
            r.metadata is None,
    {
        EventState { policy, counter: SuppressionCounter::new(initial_timestamp), metadata: None }
    }

    /// The state of an event with details.
    pub fn new_with_metadata(
        policy: Policy<A>,
        initial_timestamp: Instant,
        metadata: EventMetadata,
    ) -> (r: EventState<A>)
        ensures
            r@ == first_state(policy.model(), initial_timestamp@, Some(metadata@)),
            r.policy == policy,
            r.metadata == Some(metadata),
    {
        EventState {
            policy,
            counter: SuppressionCounter::new(initial_timestamp),
            metadata: Some(metadata),
        }
    }

    /// Sets the details of the event, if it has none yet.
    pub fn set_metadata(&mut self, metadata: EventMetadata)
        ensures
            final(self)@ == with_details(old(self)@, Some(metadata@)),
            final(self).policy == old(self).policy,
            final(self).counter == old(self).counter,
            final(self).metadata == if old(self).metadata is None {
                Some(metadata)
            } else {
                old(self).metadata
            },
    {
        if self.metadata.is_none() {
            self.metadata = Some(metadata);
        }
    }

    /// A state that continues from a snapshot, without details.
    pub fn from_snapshot(
        policy: Policy<A>,
        suppressed_count: usize,
        first_suppressed: Instant,
        last_suppressed: Instant,
    ) -> (r: EventState<A>)
        ensures
            r@ == (StateModel {
                policy: policy.model(),
                counter: summary::counter_restored(
                    suppressed_count as nat,
                    first_suppressed@,
                    last_suppressed@,
                ),
                metadata: None,
            }),
            r.policy == policy,
            r.metadata is None,
    {
        EventState {
            policy,
            counter: SuppressionCounter::from_snapshot(
                suppressed_count,
                first_suppressed,
                last_suppressed,
            ),
            metadata: None,
        }
    }

    /// A state with the same contents.
    pub fn duplicate(&self) -> (r: EventState<A>)
        ensures
            r@ == self@,
    {
        EventState {
            policy: self.policy.duplicate(),
            counter: self.counter.clone(),
            metadata: metadata::clone_metadata(&self.metadata),
        }
    }
}

impl<A: TokenAmount> Clone for EventState<A> {
    fn clone(&self) -> (r: EventState<A>)
        ensures
            r@ == self@,
    {
        self.duplicate()
    }
}

/// The state that an access to a signature starts from: the one that is tracked,
/// or that of an event that is seen for the first time.
pub open spec fn state_begins<A: TokenAmount>(
    before: Map<EventSignature, EventState<A>>,
    default_policy: PolicyModel<A>,
    signature: EventSignature,
    at: nat,
    start: EventState<A>,
) -> bool {
    if before.contains_key(signature) {
        start == before[signature]
    } else {
        start@ == first_state(default_policy, at, None)
    }
}

/// Tracks the state of every event.
pub struct SuppressionRegistry<A, S> {
    storage: S,
    clock: SharedClock,
    default_policy: Policy<A>,
}

impl<A: TokenAmount, S: Storage<EventState<A>>> SuppressionRegistry<A, S> {
    /// Whether the registry is in order.
    pub closed spec fn well_formed(&self) -> bool {
        self.storage.well_formed()
    }

    /// The storage behind the registry.
    pub closed spec fn backend(&self) -> S {
        self.storage
    }

    /// The states that are tracked.
    pub closed spec fn states(&self) -> Map<EventSignature, EventState<A>> {
        self.storage.entries()
    }

    /// The clock.
    pub closed spec fn clock(&self) -> SharedClock {
        self.clock
    }

    /// Number of signatures that were evicted.
    pub closed spec fn evicted(&self) -> u64 {
        self.storage.evicted()
    }

    /// The state in which the policy of every new event starts.
    pub closed spec fn first_policy(&self) -> PolicyModel<A> {
        self.default_policy.model()
    }

    /// A registry over a storage, with a policy for all events.
    pub fn new(storage: S, clock: SharedClock, default_policy: Policy<A>) -> (r:
        SuppressionRegistry<A, S>)
        requires
            storage.well_formed(),
        ensures
            r.well_formed(),
            r.states() == storage.entries(),
            r.evicted() == storage.evicted(),
            r.first_policy() == default_policy.model(),
            r.clock() == clock,
            r.backend() == storage,
    {
        SuppressionRegistry { storage, clock, default_policy }
    }

    /// The current time, as the clock of the registry shows it.
    pub fn now(&self) -> (r: Instant)
        ensures
            self.clock().shows(r),
    {
        self.clock.now()
    }

    /// Hands the state of a signature and the current time to a function. A
    /// signature that is not tracked yet starts with the default policy.
    pub fn with_event_state<R, F: FnOnce(&mut EventState<A>, Instant) -> R>(
        &mut self,
        signature: EventSignature,
        f: F,
    ) -> (r: R)
        requires
            old(self).well_formed(),
            forall|slot: &mut EventState<A>, now: Instant|
                old(self).clock().shows(now) && state_begins(
                    old(self).states(),
                    old(self).first_policy(),
                    signature,
                    now@,
                    *slot,
                ) ==> #[trigger] call_requires(f, (slot, now)),
        ensures
            final(self).well_formed(),
            final(self).first_policy() == old(self).first_policy(),
            final(self).clock() == old(self).clock(),
            exists|slot: &mut EventState<A>, now: Instant|
                {
                    &&& #[trigger] call_ensures(f, (slot, now), r)
                    &&& old(self).clock().shows(now)
                    &&& state_begins(
                        old(self).states(),
                        old(self).first_policy(),
                        signature,
                        now@,
                        *slot,
                    )
                    &&& ports::accessed(
                        old(self).states(),
                        signature,
                        *final(slot),
                        final(self).states(),
                    )
                },
            S::follows(old(self).backend(), signature, final(self).backend()),
            final(self).evicted() == metrics::advanced(
                old(self).evicted(),
                (old(self).states().dom().insert(signature).len()
                    - final(self).states().dom().len()) as nat,
            ),
    {
        let now = self.clock.now();
        self.with_event_state_at(signature, now, f)
    }

    /// As [`with_event_state`](Self::with_event_state), at a given time.
    pub fn with_event_state_at<R, F: FnOnce(&mut EventState<A>, Instant) -> R>(
        &mut self,
        signature: EventSignature,
        now: Instant,
        f: F,
    ) -> (r: R)
        requires
            old(self).well_formed(),
            forall|slot: &mut EventState<A>|
                state_begins(
                    old(self).states(),
                    old(self).first_policy(),
                    signature,
                    now@,
                    *slot,
                ) ==> #[trigger] call_requires(f, (slot, now)),
        ensures
            final(self).well_formed(),
            final(self).first_policy() == old(self).first_policy(),
            final(self).clock() == old(self).clock(),
            exists|slot: &mut EventState<A>|
                {
                    &&& #[trigger] call_ensures(f, (slot, now), r)
                    &&& state_begins(
                        old(self).states(),
                        old(self).first_policy(),
                        signature,
                        now@,
                        *slot,
                    )
                    &&& ports::accessed(
                        old(self).states(),
                        signature,
                        *final(slot),
                        final(self).states(),
                    )
                },
            S::follows(old(self).backend(), signature, final(self).backend()),
            final(self).evicted() == metrics::advanced(
                old(self).evicted(),
                (old(self).states().dom().insert(signature).len()
                    - final(self).states().dom().len()) as nat,
            ),
    {
        let policy = self.default_policy.duplicate();
        let ghost first = policy.model();
        let factory = move || -> (s: EventState<A>)
            ensures
                s@ == first_state(first, now@, None),
            { EventState::new(policy, now) };
        let accessor = move |state: &mut EventState<A>| -> (out: R)
            requires
                forall|inner: &mut EventState<A>|
                    *inner == *old(state) ==> #[trigger] call_requires(f, (inner, now)),
            ensures
                exists|inner: &mut EventState<A>|
                    {
                        &&& #[trigger] call_ensures(f, (inner, now), out)
                        &&& *inner == *old(state)
                        &&& *final(inner) == *final(state)
                    },
            { f(state, now) };
        self.storage.with_entry_mut(signature, factory, accessor)
    }

    /// The policy with which every new event starts.
    pub fn default_policy(&self) -> (r: &Policy<A>)
        ensures
            r.model() == self.first_policy(),
    {
        &self.default_policy
    }

    /// A copy of the policy with which every new event starts.
    pub fn clone_default_policy(&self) -> (r: Policy<A>)
        ensures
            r.model() == self.first_policy(),
    {
        self.default_policy.duplicate()
    }

    /// The storage.
    pub fn storage(&self) -> (r: &S)
        requires
            self.well_formed(),
        ensures
            r.well_formed(),
            *r == self.backend(),
            r.entries() == self.states(),
            r.evicted() == self.evicted(),
    {
        &self.storage
    }

    /// Number of signatures that were evicted.
    pub fn evicted_count(&self) -> (r: u64)
        requires
            self.well_formed(),
        ensures
            r == self.evicted(),
    {
        self.storage.evicted_count()
    }

    /// Number of signatures that are tracked.
    pub fn len(&self) -> (r: usize)
        requires
            self.well_formed(),
        ensures
            self.states().dom().finite(),
            r == self.states().dom().len(),
    {
        self.storage.len()
    }

    /// Whether no signature is tracked.
    pub fn is_empty(&self) -> (r: bool)
        requires
            self.well_formed(),
        ensures
            r == (self.states() == Map::<EventSignature, EventState<A>>::empty()),
    {
        self.storage.is_empty()
    }

    /// Forgets all signatures.
    pub fn clear(&mut self)
        requires
            old(self).well_formed(),
        ensures
            final(self).well_formed(),
            final(self).first_policy() == old(self).first_policy(),
            final(self).clock() == old(self).clock(),
            S::pruned(old(self).backend(), final(self).backend()),
            final(self).evicted() == old(self).evicted(),
            final(self).states() == Map::<EventSignature, EventState<A>>::empty(),
    {
        self.storage.clear();
    }

    /// Hands each signature with its state to a function.
    pub fn for_each<F: FnMut(&EventSignature, &EventState<A>)>(&self, f: F)
        requires
            self.well_formed(),
            forall|k: EventSignature| #[trigger]
                self.states().contains_key(k) ==> call_requires(f, (&k, &self.states()[k])),
        ensures
            forall|k: EventSignature| #[trigger]
                self.states().contains_key(k) ==> call_ensures(f, (&k, &self.states()[k]), ()),
    {
        self.storage.for_each(f);
    }

    /// Hands each signature with its state to a function and forgets those for
    /// which it returns `false`.
    pub fn cleanup<F: FnMut(&EventSignature, &mut EventState<A>) -> bool>(&mut self, f: F)
        requires
            old(self).well_formed(),
            forall|k: EventSignature, slot: &mut EventState<A>|
                old(self).states().contains_key(k) && *slot == old(self).states()[k]
                    ==> #[trigger] call_requires(f, (&k, slot)),
        ensures
            final(self).well_formed(),
            final(self).first_policy() == old(self).first_policy(),
            final(self).clock() == old(self).clock(),
            S::pruned(old(self).backend(), final(self).backend()),
            final(self).evicted() == old(self).evicted(),
            forall|k: EventSignature| #[trigger]
                final(self).states().contains_key(k) ==> old(self).states().contains_key(k),
            forall|k: EventSignature| #[trigger]
                old(self).states().contains_key(k) ==> exists|
                    slot: &mut EventState<A>,
                    keep: bool,
                |
                    {
                        &&& *slot == old(self).states()[k]
                        &&& #[trigger] call_ensures(f, (&k, slot), keep)
                        &&& final(self).states().contains_key(k) <==> keep
                        &&& keep ==> final(self).states()[k] == *final(slot)
                    },
    {
        self.storage.retain(f);
    }
}

} // verus!
