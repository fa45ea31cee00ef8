//! What the application layer needs from its surroundings.

use std::sync::Arc;

use vstd::prelude::*;

use crate::application::metrics;
use crate::domain::signature::EventSignature;
use crate::domain::time::Instant;

verus! {

/// Tells the time.
///
/// Nothing is promised about how its readings follow one another: the time may stand
/// still or go backwards.
pub trait Clock: Send + Sync {
    /// Whether a point in time can be read off this clock: any, unless the clock says
    /// otherwise.
    open spec fn shows(&self, time: Instant) -> bool {
        true
    }

    /// The current time, as this clock shows it.
    fn now(&self) -> (r: Instant)
        ensures
            self.shows(r),
    ;
}

/// A clock that several parts share.
pub struct SharedClock {
    /// The clock.
    pub inner: Arc<dyn Clock>,
}

impl SharedClock {
    /// Whether a point in time can be read off the clock.
    pub open spec fn shows(&self, time: Instant) -> bool {
        self.inner.shows(time)
    }

    /// The current time, as the clock shows it.
    pub fn now(&self) -> (r: Instant)
        ensures
            self.shows(r),
    {
        self.inner.now()
    }
}

/// The value that an access to a key starts from: the one that is there, or one
/// that was made for the occasion.
pub open spec fn starts_from<V, N: FnOnce() -> V>(
    before: Map<EventSignature, V>,
    key: EventSignature,
    factory: N,
    start: V,
) -> bool {
    if before.contains_key(key) {
        start == before[key]
    } else {
        call_ensures(factory, (), start)
    }
}

/// What an access to a key, which leaves a value there, makes of the entries.
///
/// Every other entry stays as it is or is evicted, and entries are evicted only to
/// make room for a new key.
pub open spec fn accessed<V>(
    before: Map<EventSignature, V>,
    key: EventSignature,
    end: V,
    after: Map<EventSignature, V>,
) -> bool {
    &&& after.contains_key(key)
    &&& after[key] == end
    &&& forall|k: EventSignature|
        k != key && #[trigger] after.contains_key(k) ==> before.contains_key(k) && after[k]
            == before[k]
    &&& before.contains_key(key) ==> after.dom() == before.dom()
}

/// Holds a value for each signature.
pub trait Storage<V>: Sized {
    /// Whether the storage is in order.
    spec fn well_formed(&self) -> bool;

    /// The values that are held.
    spec fn entries(&self) -> Map<EventSignature, V>;

    /// Number of entries that were evicted to make room for others. It starts over
    /// once 64 bits are used up.
    spec fn evicted(&self) -> u64;

    /// Whether a storage has become another by an access to a key, as far as it matters
    /// to what is evicted: then and later.
    spec fn follows(before: Self, key: EventSignature, after: Self) -> bool;

    /// Whether a storage has become another by removing and changing entries, as far
    /// as it matters to what is evicted later.
    spec fn pruned(before: Self, after: Self) -> bool;

    /// Hands the value of a key to `accessor`, after making it with `factory` if
    /// there is none, and returns what `accessor` returns.
    fn with_entry_mut<R, N: FnOnce() -> V, F: FnOnce(&mut V) -> R>(
        &mut self,
        key: EventSignature,
        factory: N,
        accessor: F,
    ) -> (r: R)
        requires
            old(self).well_formed(),
            !old(self).entries().contains_key(key) ==> call_requires(factory, ()),
            forall|slot: &mut V|
                starts_from(old(self).entries(), key, factory, *slot) ==> #[trigger] call_requires(
                    accessor,
                    (slot,),
                ),
        ensures
            final(self).well_formed(),
            exists|slot: &mut V|
                {
                    &&& #[trigger] call_ensures(accessor, (slot,), r)
                    &&& starts_from(old(self).entries(), key, factory, *slot)
                    &&& accessed(old(self).entries(), key, *final(slot), final(self).entries())
                },
            Self::follows(*old(self), key, *final(self)),
            final(self).evicted() == metrics::advanced(
                old(self).evicted(),
                (old(self).entries().dom().insert(key).len()
                    - final(self).entries().dom().len()) as nat,
            ),
    ;

    /// Number of entries that were evicted.
    fn evicted_count(&self) -> (r: u64)
        requires
            self.well_formed(),
        ensures
            r == self.evicted(),
    ;

    /// The value of a key.
    fn get(&self, key: EventSignature) -> (r: Option<&V>)
        requires
            self.well_formed(),
        ensures
            r is Some <==> self.entries().contains_key(key),
            r matches Some(v) ==> *v == self.entries()[key],
    ;

    /// All keys, each once.
    fn signatures(&self) -> (r: Vec<EventSignature>)
        requires
            self.well_formed(),
        ensures
            r@.no_duplicates(),
            r@.to_set() == self.entries().dom(),
    ;

    /// Number of entries.
    fn len(&self) -> (r: usize)
        requires
            self.well_formed(),
        ensures
            self.entries().dom().finite(),
            r == self.entries().dom().len(),
    ;

    /// Whether there is no entry.
    fn is_empty(&self) -> (r: bool)
        requires
            self.well_formed(),
        ensures
            r == (self.entries() == Map::<EventSignature, V>::empty()),
    ;

    /// Removes all entries.
    fn clear(&mut self)
        requires
            old(self).well_formed(),
        ensures
            final(self).well_formed(),
            final(self).entries() == Map::<EventSignature, V>::empty(),
            Self::pruned(*old(self), *final(self)),
            final(self).evicted() == old(self).evicted(),
    ;

    /// Hands each entry to a function.
    fn for_each<F: FnMut(&EventSignature, &V)>(&self, f: F)
        requires
            self.well_formed(),
            forall|k: EventSignature| #[trigger]
                self.entries().contains_key(k) ==> call_requires(f, (&k, &self.entries()[k])),
        ensures
            forall|k: EventSignature| #[trigger]
                self.entries().contains_key(k) ==> call_ensures(f, (&k, &self.entries()[k]), ()),
    ;

    /// Hands each entry to a function and keeps those for which it returns `true`.
    fn retain<F: FnMut(&EventSignature, &mut V) -> bool>(&mut self, f: F)
        requires
            old(self).well_formed(),
            forall|k: EventSignature, slot: &mut V|
                old(self).entries().contains_key(k) && *slot == old(self).entries()[k]
                    ==> #[trigger] call_requires(f, (&k, slot)),
        ensures
            final(self).well_formed(),
            forall|k: EventSignature| #[trigger]
                final(self).entries().contains_key(k) ==> old(self).entries().contains_key(k),
            forall|k: EventSignature| #[trigger]
                old(self).entries().contains_key(k) ==> exists|slot: &mut V, keep: bool|
                    {
                        &&& *slot == old(self).entries()[k]
                        &&& #[trigger] call_ensures(f, (&k, slot), keep)
                        &&& final(self).entries().contains_key(k) <==> keep
                        &&& keep ==> final(self).entries()[k] == *final(slot)
                    },
            Self::pruned(*old(self), *final(self)),
            final(self).evicted() == old(self).evicted(),
    ;
}

} // verus!
