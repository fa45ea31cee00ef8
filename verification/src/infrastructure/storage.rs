//! A storage that holds its entries in memory.

use vstd::prelude::*;

use crate::application::metrics;
use crate::application::ports;
use crate::application::ports::Storage;
use crate::domain::signature::EventSignature;
use crate::infrastructure::eviction;
use crate::infrastructure::eviction::{EvictionStrategy, PriorityFn};

verus! {

/// An entry of a [`ShardedStorage`].
#[derive(Debug)]
pub struct Slot<V> {
    /// Signature of the entry.
    pub key: EventSignature,
    /// Value of the entry.
    pub value: V,
    /// When the entry was last used, in numbers of uses.
    pub last_used: u64,
}

/// Whether entries are listed in ascending order of their digests, each signature
/// once.
pub open spec fn sorted<V>(slots: Seq<Slot<V>>) -> bool {
    forall|i: int, j: int|
        0 <= i < j < slots.len() ==> (#[trigger] slots[i]).key.digest < (
        #[trigger] slots[j]).key.digest
}

/// Whether an entry of a signature stands at a place of a list.
pub open spec fn slot_at<V>(slots: Seq<Slot<V>>, key: EventSignature, i: int) -> bool {
    0 <= i < slots.len() && slots[i].key == key
}

/// The entries of a list by their signatures.
pub open spec fn slot_map<V>(slots: Seq<Slot<V>>) -> Map<EventSignature, Slot<V>> {
    Map::new(
        |key: EventSignature| exists|i: int| slot_at(slots, key, i),
        |key: EventSignature| slots[choose|i: int| slot_at(slots, key, i)],
    )
}

/// The values of entries by their signatures.
pub open spec fn values_of<V>(slots: Map<EventSignature, Slot<V>>) -> Map<EventSignature, V> {
    Map::new(|key: EventSignature| slots.contains_key(key), |key: EventSignature| slots[key].value)
}

proof fn lemma_slot_found<V>(slots: Seq<Slot<V>>, i: int)
    requires
        sorted(slots),
        0 <= i < slots.len(),
    ensures
        slot_map(slots).contains_key(slots[i].key),
        slot_map(slots)[slots[i].key] == slots[i],
{
    let key = slots[i].key;
    assert(slot_at(slots, key, i));
    let j = choose|j: int| slot_at(slots, key, j);
    assert(slot_at(slots, key, j));
}

proof fn lemma_slot_inserted<V>(slots: Seq<Slot<V>>, i: int, slot: Slot<V>)
    requires
        sorted(slots),
        0 <= i <= slots.len(),
        forall|j: int| 0 <= j < i ==> (#[trigger] slots[j]).key.digest < slot.key.digest,
        forall|j: int|
            i <= j < slots.len() ==> slot.key.digest < (#[trigger] slots[j]).key.digest,
    ensures
        sorted(slots.insert(i, slot)),
        slot_map(slots.insert(i, slot)) == slot_map(slots).insert(slot.key, slot),
        !slot_map(slots).contains_key(slot.key),
{
    let after = slots.insert(i, slot);
    assert forall|a: int, b: int| 0 <= a < b < after.len() implies (#[trigger] after[a]).key.digest
        < (#[trigger] after[b]).key.digest by {
        let x = if a < i { a } else { a - 1 };
        let y = if b < i { b } else { b - 1 };
        if a != i {
            assert(after[a] == slots[x]);
        }
        if b != i {
            assert(after[b] == slots[y]);
        }
    }
    assert forall|key: EventSignature| #[trigger]
        slot_map(after).contains_key(key) <==> slot_map(slots).insert(
            slot.key,
            slot,
        ).contains_key(key) by {
        if slot_map(after).contains_key(key) {
            let a = choose|a: int| slot_at(after, key, a);
            assert(slot_at(after, key, a));
            if a < i {
                assert(slot_at(slots, key, a));
            } else if a > i {
                assert(slot_at(slots, key, a - 1));
            }
        }
        if slot_map(slots).contains_key(key) {
            let a = choose|a: int| slot_at(slots, key, a);
            assert(slot_at(slots, key, a));
            assert(slot_at(after, key, if a < i { a } else { a + 1 }));
        }
        assert(slot_at(after, slot.key, i));
    }
    assert forall|key: EventSignature| #[trigger]
        slot_map(after).contains_key(key) implies slot_map(after)[key] == slot_map(slots).insert(
        slot.key,
        slot,
    )[key] by {
        let a = choose|a: int| slot_at(after, key, a);
        assert(slot_at(after, key, a));
        lemma_slot_found(after, a);
        if a < i {
            lemma_slot_found(slots, a);
        } else if a > i {
            lemma_slot_found(slots, a - 1);
        }
    }
    assert(slot_map(after) =~= slot_map(slots).insert(slot.key, slot));
}

proof fn lemma_slot_removed<V>(slots: Seq<Slot<V>>, i: int)
    requires
        sorted(slots),
        0 <= i < slots.len(),
    ensures
        sorted(slots.remove(i)),
        slot_map(slots.remove(i)) == slot_map(slots).remove(slots[i].key),
{
    let after = slots.remove(i);
    let gone = slots[i].key;
    assert forall|a: int, b: int| 0 <= a < b < after.len() implies (#[trigger] after[a]).key.digest
        < (#[trigger] after[b]).key.digest by {
        let x = if a < i { a } else { a + 1 };
        let y = if b < i { b } else { b + 1 };
        assert(after[a] == slots[x] && after[b] == slots[y]);
    }
    assert forall|key: EventSignature| #[trigger]
        slot_map(after).contains_key(key) <==> slot_map(slots).remove(gone).contains_key(key) by {
        if slot_map(after).contains_key(key) {
            let a = choose|a: int| slot_at(after, key, a);
            assert(slot_at(after, key, a));
            assert(slot_at(slots, key, if a < i { a } else { a + 1 }));
        }
        if slot_map(slots).contains_key(key) && key != gone {
            let a = choose|a: int| slot_at(slots, key, a);
            assert(slot_at(slots, key, a));
            assert(slot_at(after, key, if a < i { a } else { a - 1 }));
        }
    }
    assert forall|key: EventSignature| #[trigger]
        slot_map(after).contains_key(key) implies slot_map(after)[key] == slot_map(slots).remove(
        gone,
    )[key] by {
        let a = choose|a: int| slot_at(after, key, a);
        assert(slot_at(after, key, a));
        lemma_slot_found(after, a);
        lemma_slot_found(slots, if a < i { a } else { a + 1 });
    }
    assert(slot_map(after) =~= slot_map(slots).remove(gone));
}

proof fn lemma_slot_replaced<V>(slots: Seq<Slot<V>>, i: int, slot: Slot<V>)
    requires
        sorted(slots),
        0 <= i < slots.len(),
        slot.key == slots[i].key,
    ensures
        sorted(slots.update(i, slot)),
        slot_map(slots.update(i, slot)) == slot_map(slots).insert(slot.key, slot),
{
    let after = slots.update(i, slot);
    assert forall|a: int, b: int| 0 <= a < b < after.len() implies (#[trigger] after[a]).key.digest
        < (#[trigger] after[b]).key.digest by {
        assert(after[a].key == slots[a].key && after[b].key == slots[b].key);
    }
    assert forall|key: EventSignature, a: int| #[trigger] slot_at(after, key, a) == slot_at(
        slots,
        key,
        a,
    ) by {}
    assert forall|key: EventSignature| #[trigger]
        slot_map(after).contains_key(key) <==> slot_map(slots).insert(
            slot.key,
            slot,
        ).contains_key(key) by {
        if slot_map(after).contains_key(key) {
            let a = choose|a: int| slot_at(after, key, a);
            assert(slot_at(slots, key, a));
        }
        if slot_map(slots).contains_key(key) {
            let a = choose|a: int| slot_at(slots, key, a);
            assert(slot_at(after, key, a));
        }
        assert(slot_at(after, slot.key, i));
    }
    assert forall|key: EventSignature| #[trigger]
        slot_map(after).contains_key(key) implies slot_map(after)[key] == slot_map(slots).insert(
        slot.key,
        slot,
    )[key] by {
        let a = choose|a: int| slot_at(after, key, a);
        assert(slot_at(after, key, a));
        lemma_slot_found(after, a);
        lemma_slot_found(slots, a);
        lemma_slot_found(after, i);
    }
    assert(slot_map(after) =~= slot_map(slots).insert(slot.key, slot));
}

proof fn lemma_slot_count<V>(slots: Seq<Slot<V>>)
    requires
        sorted(slots),
    ensures
        slot_map(slots).dom().finite(),
        slot_map(slots).dom().len() == slots.len(),
    decreases slots.len(),
{
    if slots.len() == 0 {
        assert(slot_map(slots).dom() =~= Set::empty());
    } else {
        let i = slots.len() - 1;
        lemma_slot_found(slots, i);
        lemma_slot_removed(slots, i);
        lemma_slot_count(slots.remove(i));
        assert(slot_map(slots).dom() =~= slot_map(slots.remove(i)).dom().insert(slots[i].key));
    }
}

/// Whether an entry has the lowest of these priorities, other than one that is
/// kept; of several, it is the one used least recently.
pub open spec fn ranks_lowest<V, P: PriorityFn<V>>(
    p: Option<P>,
    slots: Map<EventSignature, Slot<V>>,
    keep: EventSignature,
    victim: EventSignature,
    ranks: Map<EventSignature, u32>,
) -> bool {
    forall|k: EventSignature|
        k != keep && #[trigger] slots.contains_key(k) ==> call_ensures(
            P::priority,
            (&p->0, &k, &slots[k].value),
            ranks[k],
        ) && (ranks[victim] < ranks[k] || (ranks[victim] == ranks[k] && slots[victim].last_used
            <= slots[k].last_used))
}

/// Whether an entry is the first to go, other than one that is kept: the one used
/// least recently, among those of the lowest priority if there are priorities.
pub open spec fn is_victim<V, P: PriorityFn<V>>(
    strategy: EvictionStrategy<P>,
    slots: Map<EventSignature, Slot<V>>,
    keep: EventSignature,
    victim: EventSignature,
) -> bool {
    &&& victim != keep
    &&& slots.contains_key(victim)
    &&& if eviction::priority_of(strategy) is Some {
        exists|ranks: Map<EventSignature, u32>|
            ranks_lowest(eviction::priority_of(strategy), slots, keep, victim, ranks)
    } else {
        forall|k: EventSignature|
            k != keep && #[trigger] slots.contains_key(k) ==> slots[victim].last_used
                <= slots[k].last_used
    }
}

/// Whether an entry has to go. The last one never has to.
pub open spec fn needs_room<V, P>(
    strategy: Option<EvictionStrategy<P>>,
    slots: Map<EventSignature, Slot<V>>,
) -> bool {
    match strategy {
        None => false,
        Some(s) => slots.dom().len() > 1 && !eviction::within_limits(s, slots.dom().len()),
    }
}

/// The entries left after some have gone.
pub open spec fn after_evictions<V>(
    slots: Map<EventSignature, Slot<V>>,
    victims: Seq<EventSignature>,
) -> Map<EventSignature, Slot<V>>
    decreases victims.len(),
{
    if victims.len() == 0 {
        slots
    } else {
        after_evictions(slots, victims.drop_last()).remove(victims.last())
    }
}

/// Entries that have not gone are as they were.
proof fn lemma_evictions_only_remove<V>(
    slots: Map<EventSignature, Slot<V>>,
    victims: Seq<EventSignature>,
    key: EventSignature,
)
    requires
        after_evictions(slots, victims).contains_key(key),
    ensures
        slots.contains_key(key),
        after_evictions(slots, victims)[key] == slots[key],
    decreases victims.len(),
{
    if victims.len() > 0 {
        lemma_evictions_only_remove(slots, victims.drop_last(), key);
    }
}

/// Whether entries go in this order: each because one had to go, and was the first
/// to go.
pub open spec fn evicts<V, P: PriorityFn<V>>(
    strategy: Option<EvictionStrategy<P>>,
    slots: Map<EventSignature, Slot<V>>,
    keep: EventSignature,
    victims: Seq<EventSignature>,
) -> bool
    decreases victims.len(),
{
    victims.len() > 0 ==> {
        let left = after_evictions(slots, victims.drop_last());
        &&& evicts(strategy, slots, keep, victims.drop_last())
        &&& needs_room(strategy, left)
        &&& is_victim(strategy->0, left, keep, victims.last())
    }
}

/// The number of a use after another one. The last number stays.
pub open spec fn next_use(uses: u64) -> u64 {
    if uses < u64::MAX {
        (uses + 1) as u64
    } else {
        uses
    }
}

/// Entries with one more.
pub open spec fn with_slot<V>(
    slots: Map<EventSignature, Slot<V>>,
    key: EventSignature,
    value: V,
    last_used: u64,
) -> Map<EventSignature, Slot<V>> {
    slots.insert(key, Slot { key, value, last_used })
}

/// Holds entries in memory, within the limits of an eviction strategy.
pub struct ShardedStorage<V, P> {
    slots: Vec<Slot<V>>,
    uses: u64,
    evicted: u64,
    strategy: Option<EvictionStrategy<P>>,
}

impl<V, P: PriorityFn<V>> ShardedStorage<V, P> {
    /// The entries.
    pub closed spec fn slots(&self) -> Map<EventSignature, Slot<V>> {
        slot_map(self.slots@)
    }

    /// Number of uses so far.
    pub closed spec fn uses(&self) -> u64 {
        self.uses
    }

    /// The eviction strategy, if there is one.
    pub closed spec fn strategy(&self) -> Option<EvictionStrategy<P>> {
        self.strategy
    }

    /// A storage without entries and limits.
    pub fn new() -> (r: ShardedStorage<V, P>)
        ensures
            r.well_formed(),
            r.slots() == Map::<EventSignature, Slot<V>>::empty(),
            r.entries() == Map::<EventSignature, V>::empty(),
            r.uses() == 0,
            r.evicted() == 0,
            r.strategy() is None,
    {
        let storage = ShardedStorage { slots: Vec::new(), uses: 0, evicted: 0, strategy: None };
        assert(storage.slots() =~= Map::empty());
        assert(storage.entries() =~= Map::empty());
        storage
    }

    /// A storage with the same entries and other limits. These take effect when
    /// the next entry is added.
    pub fn with_eviction_strategy(self, strategy: EvictionStrategy<P>) -> (r: ShardedStorage<V, P>)
        requires
            self.well_formed(),
        ensures
            r.well_formed(),
            r.slots() == self.slots(),
            r.entries() == self.entries(),
            r.uses() == self.uses(),
            r.evicted() == self.evicted(),
            r.strategy() == Some(strategy),
    {
        ShardedStorage {
            slots: self.slots,
            uses: self.uses,
            evicted: self.evicted,
            strategy: Some(strategy),
        }
    }

    /// The place of a signature, or the place where it would be inserted.
    fn find(&self, key: EventSignature) -> (r: Result<usize, usize>)
        requires
            self.well_formed(),
        ensures
            r is Ok <==> self.slots().contains_key(key),
            r matches Ok(i) ==> slot_at(self.slots@, key, i as int),
            r matches Err(i) ==> {
                &&& i <= self.slots.len()
                &&& forall|j: int|
                    0 <= j < i ==> (#[trigger] self.slots@[j]).key.digest < key.digest
                &&& forall|j: int|
                    i <= j < self.slots.len() ==> key.digest < (
                    #[trigger] self.slots@[j]).key.digest
            },
    {
        let mut low: usize = 0;
        let mut high: usize = self.slots.len();
        while low < high
            invariant
                sorted(self.slots@),
                low <= high <= self.slots.len(),
                forall|j: int|
                    0 <= j < low ==> (#[trigger] self.slots@[j]).key.digest < key.digest,
                forall|j: int|
                    high <= j < self.slots.len() ==> key.digest < (
                    #[trigger] self.slots@[j]).key.digest,
            decreases high - low,
        {
            let middle: usize = low + (high - low) / 2;
            let found: u64 = self.slots[middle].key.digest;
            if found == key.digest {
                assert(slot_at(self.slots@, key, middle as int));
                return Ok(middle);
            }
            if found < key.digest {
                low = middle + 1;
            } else {
                high = middle;
            }
        }
        Err(low)
    }

    /// The place of the first entry to go, other than one that is kept.
    fn choose_victim(&self, strategy: &EvictionStrategy<P>, keep: EventSignature) -> (r: usize)
        requires
            self.well_formed(),
            self.slots.len() > 1,
        ensures
            r < self.slots.len(),
            is_victim(*strategy, self.slots(), keep, self.slots@[r as int].key),
    {
        let mut best: usize = if self.slots[0].key.digest == keep.digest {
            1
        } else {
            0
        };
        match strategy {
            EvictionStrategy::Priority { priority_fn, .. } => {
                let lowest: usize = self.choose_lowest(priority_fn, keep);
                proof {
                    lemma_slot_found(self.slots@, lowest as int);
                    assert(eviction::priority_of(*strategy) == Some(*priority_fn));
                }
                lowest
            },
            EvictionStrategy::PriorityWithMemory { priority_fn, .. } => {
                let lowest: usize = self.choose_lowest(priority_fn, keep);
                proof {
                    lemma_slot_found(self.slots@, lowest as int);
                    assert(eviction::priority_of(*strategy) == Some(*priority_fn));
                }
                lowest
            },
            _ => {
                let mut i: usize = 0;
                while i < self.slots.len()
                    invariant
                        sorted(self.slots@),
                        i <= self.slots.len(),
                        best < self.slots.len(),
                        self.slots@[best as int].key != keep,
                        forall|j: int|
                            0 <= j < i && (#[trigger] self.slots@[j]).key != keep
                                ==> self.slots@[best as int].last_used <= self.slots@[j].last_used,
                    decreases self.slots.len() - i,
                {
                    if self.slots[i].key.digest != keep.digest && self.slots[i].last_used
                        < self.slots[best].last_used {
                        best = i;
                    }
                    i = i + 1;
                }
                proof {
                    lemma_slot_found(self.slots@, best as int);
                    assert forall|k: EventSignature| k != keep && #[trigger]
                        self.slots().contains_key(k) implies self.slots@[best as int].last_used
                        <= self.slots()[k].last_used by {
                        let j = choose|j: int| slot_at(self.slots@, k, j);
                        assert(slot_at(self.slots@, k, j));
                        lemma_slot_found(self.slots@, j);
                    }
                }
                best
            },
        }
    }

    /// The place of the entry of the lowest priority, other than one that is kept;
    /// of several, the one used least recently.
    fn choose_lowest(&self, priority_fn: &P, keep: EventSignature) -> (r: usize)
        requires
            self.well_formed(),
            self.slots.len() > 1,
        ensures
            r < self.slots.len(),
            self.slots@[r as int].key != keep,
            exists|ranks: Map<EventSignature, u32>|
                ranks_lowest(
                    Some(*priority_fn),
                    self.slots(),
                    keep,
                    self.slots@[r as int].key,
                    ranks,
                ),
    {
        let mut best: usize = self.slots.len();
        let mut lowest: u32 = 0;
        let ghost mut ranks: Map<EventSignature, u32> = Map::empty();
        let mut i: usize = 0;
        while i < self.slots.len()
            invariant
                sorted(self.slots@),
                i <= self.slots.len(),
                best <= self.slots.len(),
                best < self.slots.len() ==> best < i && self.slots@[best as int].key != keep
                    && ranks[self.slots@[best as int].key] == lowest,
                best == self.slots.len() ==> forall|j: int|
                    0 <= j < i ==> (#[trigger] self.slots@[j]).key == keep,
                forall|j: int|
                    0 <= j < i && (#[trigger] self.slots@[j]).key != keep ==> call_ensures(
                        P::priority,
                        (priority_fn, &self.slots@[j].key, &self.slots@[j].value),
                        ranks[self.slots@[j].key],
                    ) && (lowest < ranks[self.slots@[j].key] || (lowest
                        == ranks[self.slots@[j].key] && self.slots@[best as int].last_used
                        <= self.slots@[j].last_used)),
            decreases self.slots.len() - i,
        {
            let slot = &self.slots[i];
            if slot.key.digest != keep.digest {
                let rank: u32 = priority_fn.priority(&slot.key, &slot.value);
                proof {
                    ranks = ranks.insert(slot.key, rank);
                }
                if best == self.slots.len() || rank < lowest || (rank == lowest && slot.last_used
                    < self.slots[best].last_used) {
                    best = i;
                    lowest = rank;
                }
            }
            i = i + 1;
        }
        proof {
            if best == self.slots.len() {
                assert(self.slots@[0].key == keep && self.slots@[1].key == keep);
            }
            assert forall|k: EventSignature| k != keep && #[trigger]
                self.slots().contains_key(k) implies call_ensures(
                P::priority,
                (priority_fn, &k, &self.slots()[k].value),
                ranks[k],
            ) && (lowest < ranks[k] || (lowest == ranks[k] && self.slots@[best as int].last_used
                <= self.slots()[k].last_used)) by {
                let j = choose|j: int| slot_at(self.slots@, k, j);
                assert(slot_at(self.slots@, k, j));
                lemma_slot_found(self.slots@, j);
            }
            lemma_slot_found(self.slots@, best as int);
            assert(ranks_lowest(
                Some(*priority_fn),
                self.slots(),
                keep,
                self.slots@[best as int].key,
                ranks,
            ));
        }
        best
    }

    /// Evicts entries other than one until the limits are met.
    fn make_room(&mut self, keep: EventSignature)
        requires
            old(self).well_formed(),
            old(self).slots().contains_key(keep),
        ensures
            final(self).well_formed(),
            final(self).uses() == old(self).uses(),
            final(self).strategy() == old(self).strategy(),
            final(self).evicted() == metrics::advanced(
                old(self).evicted(),
                (old(self).slots().dom().len() - final(self).slots().dom().len()) as nat,
            ),
            final(self).slots().contains_key(keep),
            final(self).slots()[keep] == old(self).slots()[keep],
            exists|victims: Seq<EventSignature>| #[trigger]
                evicts(old(self).strategy(), old(self).slots(), keep, victims)
                    && final(self).slots() == after_evictions(old(self).slots(), victims)
                    && !needs_room(final(self).strategy(), final(self).slots()),
    {
        let ghost mut victims: Seq<EventSignature> = Seq::empty();
        proof {
            lemma_slot_count(self.slots@);
        }
        if let Some(strategy) = &self.strategy {
            while self.slots.len() > 1 && !strategy.permits(self.slots.len())
                invariant
                    sorted(self.slots@),
                    self.uses == old(self).uses,
                    self.strategy == old(self).strategy,
                    self.strategy == Some(*strategy),
                    evicts(old(self).strategy(), old(self).slots(), keep, victims),
                    slot_map(self.slots@) == after_evictions(old(self).slots(), victims),
                    slot_map(self.slots@).contains_key(keep),
                    slot_map(self.slots@)[keep] == old(self).slots()[keep],
                    slot_map(self.slots@).dom().len() == self.slots.len(),
                    self.slots.len() <= old(self).slots.len(),
                    self.evicted == metrics::advanced(
                        old(self).evicted(),
                        (old(self).slots.len() - self.slots.len()) as nat,
                    ),
                decreases self.slots.len(),
            {
                let i: usize = self.choose_victim(strategy, keep);
                let ghost gone = self.slots@[i as int].key;
                let ghost before = self.slots@;
                let _ = self.slots.remove(i);
                proof {
                    lemma_slot_removed(before, i as int);
                    lemma_slot_count(self.slots@);
                    assert(victims.push(gone).drop_last() =~= victims);
                    victims = victims.push(gone);
                }
                self.evicted = self.evicted.wrapping_add(1);
            }
        }
        proof {
            lemma_slot_count(self.slots@);
            assert(evicts(old(self).strategy(), old(self).slots(), keep, victims));
        }
    }
}

impl<V, P: PriorityFn<V>> Storage<V> for ShardedStorage<V, P> {
    closed spec fn well_formed(&self) -> bool {
        sorted(self.slots@)
    }

    open spec fn entries(&self) -> Map<EventSignature, V> {
        values_of(self.slots())
    }

    closed spec fn evicted(&self) -> u64 {
        self.evicted
    }

    /// The key has been used last. If it is new, entries have been evicted until the
    /// limits were met, each time the first to go; the other entries are as they were.
    open spec fn follows(before: Self, key: EventSignature, after: Self) -> bool {
        &&& after.strategy() == before.strategy()
        &&& after.uses() == next_use(before.uses())
        &&& after.slots().contains_key(key)
        &&& after.slots()[key].key == key
        &&& after.slots()[key].last_used == after.uses()
        &&& before.slots().contains_key(key) ==> after.slots().remove(key)
            == before.slots().remove(key)
        &&& !before.slots().contains_key(key) ==> {
            &&& !needs_room(after.strategy(), after.slots())
            &&& exists|fresh: V, victims: Seq<EventSignature>|
                {
                    &&& #[trigger] evicts(
                        before.strategy(),
                        with_slot(before.slots(), key, fresh, after.uses()),
                        key,
                        victims,
                    )
                    &&& after.slots().remove(key) == after_evictions(
                        with_slot(before.slots(), key, fresh, after.uses()),
                        victims,
                    ).remove(key)
                }
        }
    }

    /// The limits are the same, and no entry has been used.
    open spec fn pruned(before: Self, after: Self) -> bool {
        &&& after.strategy() == before.strategy()
        &&& after.uses() == before.uses()
        &&& forall|key: EventSignature| #[trigger]
            after.slots().contains_key(key) ==> before.slots().contains_key(key)
                && after.slots()[key].last_used == before.slots()[key].last_used
    }

    fn with_entry_mut<R, N: FnOnce() -> V, F: FnOnce(&mut V) -> R>(
        &mut self,
        key: EventSignature,
        factory: N,
        accessor: F,
    ) -> (r: R) {
        self.uses = self.uses.saturating_add(1);
        let found = self.find(key);
        proof {
            lemma_slot_count(self.slots@);
        }
        let ghost mut fresh: Option<V> = None;
        let ghost mut gone: Seq<EventSignature> = Seq::empty();
        if let Err(i) = found {
            let slot = Slot { key, value: factory(), last_used: self.uses };
            proof {
                lemma_slot_inserted(self.slots@, i as int, slot);
            }
            self.slots.insert(i, slot);
            let ghost added = self.slots();
            assert(added == with_slot(old(self).slots(), key, slot.value, self.uses));
            self.make_room(key);
            proof {
                let victims = choose|victims: Seq<EventSignature>| #[trigger]
                    evicts(self.strategy(), added, key, victims) && self.slots()
                        == after_evictions(added, victims);
                assert forall|k: EventSignature| k != key && #[trigger]
                    self.slots().contains_key(k) implies old(self).slots().contains_key(k)
                    && self.slots()[k] == old(self).slots()[k] by {
                    lemma_evictions_only_remove(added, victims, k);
                }
                fresh = Some(added[key].value);
                gone = victims;
            }
        }
        let ghost left = self.slots();
        let i: usize = match self.find(key) {
            Ok(i) => i,
            Err(i) => i,
        };
        let ghost before = self.slots@;
        proof {
            lemma_slot_found(before, i as int);
        }
        let slot = &mut self.slots[i];
        slot.last_used = self.uses;
        let out = accessor(&mut slot.value);
        proof {
            lemma_slot_replaced(before, i as int, self.slots@[i as int]);
            lemma_slot_count(before);
            lemma_slot_count(self.slots@);
            assert(self.entries().dom() =~= self.slots().dom());
            assert(old(self).entries().dom() =~= old(self).slots().dom());
            let start = before[i as int].value;
            let end = self.slots@[i as int].value;
            assert(ports::starts_from(old(self).entries(), key, factory, start));
            assert(self.slots().remove(key) =~= left.remove(key));
            if found is Ok {
                assert(self.entries().dom() =~= old(self).entries().dom());
            } else {
                assert(self.slots().dom() =~= left.dom());
                let value = fresh->0;
                assert(evicts(
                    old(self).strategy(),
                    with_slot(old(self).slots(), key, value, self.uses()),
                    key,
                    gone,
                ));
            }
            assert(ports::accessed(old(self).entries(), key, end, self.entries()));
        }
        out
    }

    fn evicted_count(&self) -> (r: u64) {
        self.evicted
    }

    fn get(&self, key: EventSignature) -> (r: Option<&V>) {
        match self.find(key) {
            Ok(i) => {
                proof {
                    lemma_slot_found(self.slots@, i as int);
                }
                Some(&self.slots[i].value)
            },
            Err(_) => None,
        }
    }

    fn signatures(&self) -> (r: Vec<EventSignature>) {
        let mut keys: Vec<EventSignature> = Vec::new();
        let mut i: usize = 0;
        while i < self.slots.len()
            invariant
                sorted(self.slots@),
                i <= self.slots.len(),
                keys.len() == i,
                forall|j: int| 0 <= j < i ==> #[trigger] keys@[j] == self.slots@[j].key,
            decreases self.slots.len() - i,
        {
            keys.push(self.slots[i].key);
            i = i + 1;
        }
        proof {
            assert forall|k: EventSignature| keys@.to_set().contains(k)
                == self.entries().dom().contains(k) by {
                if keys@.contains(k) {
                    let j = choose|j: int| 0 <= j < keys.len() && keys@[j] == k;
                    assert(slot_at(self.slots@, k, j));
                }
                if self.slots().contains_key(k) {
                    let j = choose|j: int| slot_at(self.slots@, k, j);
                    assert(slot_at(self.slots@, k, j));
                    assert(keys@[j] == k);
                }
            }
        }
        keys
    }

    fn len(&self) -> (r: usize) {
        proof {
            lemma_slot_count(self.slots@);
            assert(self.entries().dom() =~= self.slots().dom());
        }
        self.slots.len()
    }

    fn is_empty(&self) -> (r: bool) {
        proof {
            if self.slots.len() == 0 {
                assert(self.entries() =~= Map::empty());
            } else {
                lemma_slot_found(self.slots@, 0);
                assert(self.entries().contains_key(self.slots@[0].key));
            }
        }
        self.slots.len() == 0
    }

    fn clear(&mut self) {
        self.slots.clear();
        assert(self.entries() =~= Map::empty());
    }

    fn for_each<F: FnMut(&EventSignature, &V)>(&self, f: F) {
        let ghost handed = f;
        let mut f = f;
        let mut i: usize = 0;
        while i < self.slots.len()
            invariant
                f == handed,
                self.well_formed(),
                i <= self.slots.len(),
                forall|k: EventSignature| #[trigger]
                    self.entries().contains_key(k) ==> call_requires(f, (&k, &self.entries()[k])),
                forall|j: int|
                    0 <= j < i ==> call_ensures(
                        f,
                        (&(#[trigger] self.slots@[j]).key, &self.slots@[j].value),
                        (),
                    ),
            decreases self.slots.len() - i,
        {
            proof {
                lemma_slot_found(self.slots@, i as int);
                assert(self.entries().contains_key(self.slots@[i as int].key));
            }
            f(&self.slots[i].key, &self.slots[i].value);
            i = i + 1;
        }
        proof {
            assert forall|k: EventSignature| #[trigger]
                self.entries().contains_key(k) implies call_ensures(
                f,
                (&k, &self.entries()[k]),
                (),
            ) by {
                let j = choose|j: int| slot_at(self.slots@, k, j);
                assert(slot_at(self.slots@, k, j));
                lemma_slot_found(self.slots@, j);
            }
        }
    }

    fn retain<F: FnMut(&EventSignature, &mut V) -> bool>(&mut self, f: F) {
        let ghost handed = f;
        let mut f = f;
        let ghost before = self.slots@;
        let ghost mut done: Set<EventSignature> = Set::empty();
        let ghost mut n: int = 0;
        let mut i: usize = 0;
        while i < self.slots.len()
            invariant
                f == handed,
                forall|k: EventSignature, slot: &mut V|
                    values_of(slot_map(before)).contains_key(k) && *slot == values_of(
                        slot_map(before),
                    )[k] ==> #[trigger] call_requires(f, (&k, slot)),
                sorted(before),
                sorted(self.slots@),
                self.evicted == old(self).evicted,
                self.uses == old(self).uses,
                self.strategy == old(self).strategy,
                i <= self.slots.len(),
                0 <= n <= before.len(),
                self.slots.len() - i == before.len() - n,
                forall|j: int|
                    n <= j < before.len() ==> #[trigger] before[j] == self.slots@[j - n + i],
                forall|j: int| 0 <= j < n ==> done.contains((#[trigger] before[j]).key),
                forall|k: EventSignature| #[trigger]
                    done.contains(k) ==> exists|j: int| 0 <= j < n && slot_at(before, k, j),
                forall|k: EventSignature| #[trigger]
                    slot_map(self.slots@).contains_key(k) ==> slot_map(before).contains_key(k)
                        && slot_map(self.slots@)[k].last_used == slot_map(before)[k].last_used,
                forall|k: EventSignature| #[trigger]
                    done.contains(k) ==> exists|slot: &mut V, keep: bool|
                        {
                            &&& *slot == slot_map(before)[k].value
                            &&& #[trigger] call_ensures(f, (&k, slot), keep)
                            &&& slot_map(self.slots@).contains_key(k) <==> keep
                            &&& keep ==> slot_map(self.slots@)[k].value == *final(slot)
                        },
            decreases self.slots.len() - i,
        {
            let ghost list = self.slots@;
            let ghost key = before[n].key;
            proof {
                assert(list[i as int] == before[n]);
                lemma_slot_found(before, n);
            }
            let slot = &mut self.slots[i];
            let keep = f(&slot.key, &mut slot.value);
            proof {
                lemma_slot_replaced(list, i as int, self.slots@[i as int]);
                assert(!done.contains(key));
            }
            if keep {
                i = i + 1;
            } else {
                let ghost changed = self.slots@;
                let _ = self.slots.remove(i);
                proof {
                    lemma_slot_removed(changed, i as int);
                }
            }
            proof {
                assert forall|k: EventSignature| done.insert(key).contains(k) implies exists|j: int|
                    0 <= j < n + 1 && slot_at(before, k, j) by {
                    if k == key {
                        assert(slot_at(before, k, n));
                    } else {
                        assert(done.contains(k));
                    }
                }
                n = n + 1;
                done = done.insert(key);
            }
        }
        proof {
            assert forall|k: EventSignature| #[trigger]
                old(self).entries().contains_key(k) implies done.contains(k) by {
                let j = choose|j: int| slot_at(before, k, j);
                assert(slot_at(before, k, j));
            }
        }
    }
}

/// Where a single entry is within the limits, so are all that are left once no
/// entry has to go.
pub proof fn lemma_limits_are_kept<V, P>(
    strategy: EvictionStrategy<P>,
    slots: Map<EventSignature, Slot<V>>,
)
    requires
        eviction::within_limits(strategy, 1),
        !needs_room(Some(strategy), slots),
    ensures
        eviction::within_limits(strategy, slots.dom().len()),
{
}

/// Without priorities, whatever is evicted was used no later than anything that
/// stays.
pub proof fn lemma_least_recently_used_go_first<V, P: PriorityFn<V>>(
    strategy: EvictionStrategy<P>,
    slots: Map<EventSignature, Slot<V>>,
    keep: EventSignature,
    victims: Seq<EventSignature>,
    i: int,
    survivor: EventSignature,
)
    requires
        eviction::priority_of(strategy) is None,
        evicts(Some(strategy), slots, keep, victims),
        0 <= i < victims.len(),
        survivor != keep,
        after_evictions(slots, victims).contains_key(survivor),
    ensures
        slots.contains_key(victims[i]),
        slots.contains_key(survivor),
        slots[victims[i]].last_used <= slots[survivor].last_used,
    decreases victims.len(),
{
    let earlier = victims.drop_last();
    let left = after_evictions(slots, earlier);
    assert(left.contains_key(survivor));
    lemma_evictions_only_remove(slots, earlier, survivor);
    if i < earlier.len() {
        assert(earlier[i] == victims[i]);
        lemma_least_recently_used_go_first(strategy, slots, keep, earlier, i, survivor);
    } else {
        lemma_evictions_only_remove(slots, earlier, victims[i]);
    }
}

/// An access leaves the entries within the limits, where a single one is within them.
pub proof fn lemma_access_keeps_limits<V, P: PriorityFn<V>>(
    strategy: EvictionStrategy<P>,
    before: ShardedStorage<V, P>,
    key: EventSignature,
    after: ShardedStorage<V, P>,
)
    requires
        before.strategy() == Some(strategy),
        eviction::within_limits(strategy, 1),
        eviction::within_limits(strategy, before.entries().dom().len()),
        ShardedStorage::follows(before, key, after),
    ensures
        after.strategy() == Some(strategy),
        eviction::within_limits(strategy, after.entries().dom().len()),
{
    assert(before.entries().dom() =~= before.slots().dom());
    assert(after.entries().dom() =~= after.slots().dom());
    if before.slots().contains_key(key) {
        assert(after.slots().dom() =~= after.slots().remove(key).dom().insert(key));
        assert(before.slots().dom() =~= before.slots().remove(key).dom().insert(key));
    } else {
        lemma_limits_are_kept(strategy, after.slots());
    }
}

/// Without priorities, an entry that an access evicts was used no later than any that
/// stays, and the one that was accessed stays.
pub proof fn lemma_access_evicts_least_recently_used<V, P: PriorityFn<V>>(
    strategy: EvictionStrategy<P>,
    before: ShardedStorage<V, P>,
    key: EventSignature,
    after: ShardedStorage<V, P>,
    gone: EventSignature,
    survivor: EventSignature,
)
    requires
        before.strategy() == Some(strategy),
        eviction::priority_of(strategy) is None,
        ShardedStorage::follows(before, key, after),
        before.entries().contains_key(gone),
        !after.entries().contains_key(gone),
        after.entries().contains_key(survivor),
        survivor != key,
    ensures
        gone != key,
        !before.entries().contains_key(key),
        before.entries().contains_key(survivor),
        before.slots()[gone].last_used <= before.slots()[survivor].last_used,
{
    if before.slots().contains_key(key) {
        assert(before.slots().remove(key).contains_key(gone));
        assert(after.slots().remove(key).contains_key(gone));
    }
    let (fresh, victims) = choose|fresh: V, victims: Seq<EventSignature>|
        {
            &&& #[trigger] evicts(
                before.strategy(),
                with_slot(before.slots(), key, fresh, after.uses()),
                key,
                victims,
            )
            &&& after.slots().remove(key) == after_evictions(
                with_slot(before.slots(), key, fresh, after.uses()),
                victims,
            ).remove(key)
        };
    let added = with_slot(before.slots(), key, fresh, after.uses());
    assert(added.contains_key(gone));
    assert(!after.slots().remove(key).contains_key(gone));
    assert(after.slots().remove(key).contains_key(survivor));
    lemma_gone_is_a_victim(added, victims, gone);
    let i = choose|i: int| 0 <= i < victims.len() && victims[i] == gone;
    lemma_least_recently_used_go_first(strategy, added, key, victims, i, survivor);
}

/// An entry that has gone is one of those that went.
proof fn lemma_gone_is_a_victim<V>(
    slots: Map<EventSignature, Slot<V>>,
    victims: Seq<EventSignature>,
    gone: EventSignature,
)
    requires
        slots.contains_key(gone),
        !after_evictions(slots, victims).contains_key(gone),
    ensures
        victims.contains(gone),
    decreases victims.len(),
{
    if victims.len() > 0 && victims.last() != gone {
        lemma_gone_is_a_victim(slots, victims.drop_last(), gone);
        let i = choose|i: int| 0 <= i < victims.len() - 1 && victims.drop_last()[i] == gone;
        assert(victims[i] == gone);
    }
}

/// Every entry that goes makes one less, and the one that is kept stays.
proof fn lemma_evictions_are_counted<V, P: PriorityFn<V>>(
    strategy: Option<EvictionStrategy<P>>,
    slots: Map<EventSignature, Slot<V>>,
    keep: EventSignature,
    victims: Seq<EventSignature>,
)
    requires
        slots.dom().finite(),
        slots.contains_key(keep),
        evicts(strategy, slots, keep, victims),
    ensures
        after_evictions(slots, victims).dom().finite(),
        after_evictions(slots, victims).contains_key(keep),
        after_evictions(slots, victims).dom().len() + victims.len() == slots.dom().len(),
        forall|i: int|
            0 <= i < victims.len() ==> needs_room(
                strategy,
                after_evictions(slots, #[trigger] victims.take(i)),
            ) && after_evictions(slots, victims.take(i)).dom().len() + i == slots.dom().len(),
    decreases victims.len(),
{
    if victims.len() > 0 {
        let earlier = victims.drop_last();
        lemma_evictions_are_counted(strategy, slots, keep, earlier);
        let left = after_evictions(slots, earlier);
        assert(after_evictions(slots, victims).dom() =~= left.dom().remove(victims.last()));
        assert forall|i: int| 0 <= i < victims.len() implies needs_room(
            strategy,
            after_evictions(slots, #[trigger] victims.take(i)),
        ) && after_evictions(slots, victims.take(i)).dom().len() + i == slots.dom().len() by {
            if i < earlier.len() {
                assert(victims.take(i) =~= earlier.take(i));
            } else {
                assert(victims.take(i) =~= earlier);
            }
        }
    }
}

/// No more entries go in one course of evictions than in another, where the second ends
/// with no entry that has to go.
proof fn lemma_no_more_evictions_than_needed<V, P: PriorityFn<V>>(
    strategy: Option<EvictionStrategy<P>>,
    a: Map<EventSignature, Slot<V>>,
    b: Map<EventSignature, Slot<V>>,
    keep: EventSignature,
    in_a: Seq<EventSignature>,
    in_b: Seq<EventSignature>,
)
    requires
        a.dom() == b.dom(),
        a.dom().finite(),
        a.contains_key(keep),
        evicts(strategy, a, keep, in_a),
        evicts(strategy, b, keep, in_b),
        !needs_room(strategy, after_evictions(b, in_b)),
    ensures
        in_a.len() <= in_b.len(),
{
    lemma_evictions_are_counted(strategy, a, keep, in_a);
    lemma_evictions_are_counted(strategy, b, keep, in_b);
    if in_b.len() < in_a.len() {
        let first = in_a.take(in_b.len() as int);
        assert(needs_room(strategy, after_evictions(a, first)));
    }
}

/// The evictions of an access to a new key, and how many entries they leave.
proof fn lemma_access_leaves<V, P: PriorityFn<V>>(
    before: ShardedStorage<V, P>,
    key: EventSignature,
    after: ShardedStorage<V, P>,
) -> (r: (V, Seq<EventSignature>))
    requires
        before.well_formed(),
        !before.slots().contains_key(key),
        ShardedStorage::follows(before, key, after),
    ensures
        ({
            let added = with_slot(before.slots(), key, r.0, after.uses());
            &&& evicts(before.strategy(), added, key, r.1)
            &&& added.dom() == before.slots().dom().insert(key)
            &&& added.dom().finite()
            &&& added.contains_key(key)
            &&& after.slots().dom() == after_evictions(added, r.1).dom()
            &&& after.slots().dom().len() + r.1.len() == added.dom().len()
            &&& !needs_room(before.strategy(), after_evictions(added, r.1))
        }),
{
    lemma_slot_count(before.slots@);
    let (fresh, victims) = choose|fresh: V, victims: Seq<EventSignature>|
        {
            &&& #[trigger] evicts(
                before.strategy(),
                with_slot(before.slots(), key, fresh, after.uses()),
                key,
                victims,
            )
            &&& after.slots().remove(key) == after_evictions(
                with_slot(before.slots(), key, fresh, after.uses()),
                victims,
            ).remove(key)
        };
    let added = with_slot(before.slots(), key, fresh, after.uses());
    assert(added.dom() =~= before.slots().dom().insert(key));
    lemma_evictions_are_counted(before.strategy(), added, key, victims);
    let left = after_evictions(added, victims);
    assert(left.dom() =~= left.remove(key).dom().insert(key));
    assert(after.slots().dom() =~= after.slots().remove(key).dom().insert(key));
    (fresh, victims)
}

/// However an access to a key comes out, it leaves the same number of entries.
pub proof fn lemma_access_evicts_as_many<V, P: PriorityFn<V>>(
    before: ShardedStorage<V, P>,
    key: EventSignature,
    a: ShardedStorage<V, P>,
    b: ShardedStorage<V, P>,
)
    requires
        before.well_formed(),
        ShardedStorage::follows(before, key, a),
        ShardedStorage::follows(before, key, b),
    ensures
        a.entries().dom().len() == b.entries().dom().len(),
{
    assert(a.entries().dom() =~= a.slots().dom());
    assert(b.entries().dom() =~= b.slots().dom());
    if before.slots().contains_key(key) {
        assert(a.slots().dom() =~= a.slots().remove(key).dom().insert(key));
        assert(b.slots().dom() =~= b.slots().remove(key).dom().insert(key));
    } else {
        let (x, in_a) = lemma_access_leaves(before, key, a);
        let (y, in_b) = lemma_access_leaves(before, key, b);
        let added_a = with_slot(before.slots(), key, x, a.uses());
        let added_b = with_slot(before.slots(), key, y, b.uses());
        lemma_no_more_evictions_than_needed(
            before.strategy(),
            added_a,
            added_b,
            key,
            in_a,
            in_b,
        );
        lemma_no_more_evictions_than_needed(
            before.strategy(),
            added_b,
            added_a,
            key,
            in_b,
            in_a,
        );
    }
}

/// Whether so many entries are more than a strategy keeps, in numbers: more than its
/// limit of entries, or more than its limit of bytes at 200 bytes each.
pub open spec fn over_limits<P>(strategy: EvictionStrategy<P>, count: nat) -> bool {
    match strategy {
        EvictionStrategy::Lru { max_entries } => count > max_entries,
        EvictionStrategy::Priority { max_entries, .. } => count > max_entries,
        EvictionStrategy::Memory { max_bytes } => count * 200 > max_bytes,
        EvictionStrategy::PriorityWithMemory { max_entries, max_bytes, .. } => count > max_entries
            || count * 200 > max_bytes,
    }
}

/// Whether entries are as many as the limits of a strategy allow, in numbers. One entry
/// is always kept.
pub open spec fn holds_at_most<P>(strategy: EvictionStrategy<P>, count: nat) -> bool {
    count <= 1 || match strategy {
        EvictionStrategy::Lru { max_entries } => count <= max_entries,
        EvictionStrategy::Priority { max_entries, .. } => count <= max_entries,
        EvictionStrategy::Memory { max_bytes } => count <= max_bytes / 200,
        EvictionStrategy::PriorityWithMemory { max_entries, max_bytes, .. } => count <= max_entries
            && count <= max_bytes / 200,
    }
}

/// However many accesses there are, and whatever their keys, a storage that starts empty
/// never holds more entries than the limits of its strategy: no more than its limit of
/// entries, and no more than 200 bytes each fit into its limit of bytes. Where a limit
/// has no room for a single entry, one is held.
pub proof fn lemma_accesses_stay_within_numbers<V, P: PriorityFn<V>>(
    strategy: EvictionStrategy<P>,
    storages: Seq<ShardedStorage<V, P>>,
    keys: Seq<EventSignature>,
    n: int,
)
    requires
        storages.len() == keys.len() + 1,
        storages[0].strategy() == Some(strategy),
        storages[0].entries() == Map::<EventSignature, V>::empty(),
        forall|i: int|
            0 <= i < keys.len() ==> ShardedStorage::follows(
                storages[i],
                #[trigger] keys[i],
                storages[i + 1],
            ),
        0 <= n < storages.len(),
    ensures
        ({
            let held = storages[n].entries().dom().len();
            match strategy {
                EvictionStrategy::Lru { max_entries } => max_entries >= 1 ==> held <= max_entries,
                EvictionStrategy::Priority { max_entries, .. } => max_entries >= 1 ==> held
                    <= max_entries,
                EvictionStrategy::Memory { max_bytes } => max_bytes >= 200 ==> held * 200
                    <= max_bytes,
                EvictionStrategy::PriorityWithMemory { max_entries, max_bytes, .. } => {
                    &&& max_entries >= 1 ==> held <= max_entries
                    &&& max_bytes >= 200 ==> held * 200 <= max_bytes
                },
            }
        }),
        storages[n].strategy() == Some(strategy),
        holds_at_most(strategy, storages[n].entries().dom().len()),
    decreases n,
{
    assert(storages[n].entries().dom() =~= storages[n].slots().dom());
    if n == 0 {
        assert(storages[0].entries().dom() =~= Set::empty());
    } else {
        lemma_accesses_stay_within_numbers(strategy, storages, keys, n - 1);
        let before = storages[n - 1];
        let after = storages[n];
        let key = keys[n - 1];
        assert(ShardedStorage::follows(before, key, storages[n - 1 + 1]));
        assert(before.entries().dom() =~= before.slots().dom());
        if before.slots().contains_key(key) {
            assert(after.slots().dom() =~= after.slots().remove(key).dom().insert(key));
            assert(before.slots().dom() =~= before.slots().remove(key).dom().insert(key));
        } else {
            assert(!needs_room(Some(strategy), after.slots()));
        }
    }
}

/// A limit of bytes, where a strategy has one, and a limit of entries, where it has one,
/// are both kept by every number of entries that the strategy permits, and by no other.
pub proof fn lemma_limits_in_numbers<P>(strategy: EvictionStrategy<P>, count: nat)
    ensures
        eviction::within_limits(strategy, count) <==> match strategy {
            EvictionStrategy::Lru { max_entries } => count <= max_entries,
            EvictionStrategy::Priority { max_entries, .. } => count <= max_entries,
            EvictionStrategy::Memory { max_bytes } => 200 * count <= max_bytes,
            EvictionStrategy::PriorityWithMemory { max_entries, max_bytes, .. } => count
                <= max_entries && 200 * count <= max_bytes,
        },
{
}

/// An access evicts only as far as it must: nothing if the key was there or the limits
/// have room for it, and never so many that one more could have stayed. The key itself
/// stays.
pub proof fn lemma_access_evicts_no_more_than_needed<V, P: PriorityFn<V>>(
    before: ShardedStorage<V, P>,
    key: EventSignature,
    after: ShardedStorage<V, P>,
)
    requires
        before.well_formed(),
        ShardedStorage::follows(before, key, after),
    ensures
        after.entries().contains_key(key),
        forall|k: EventSignature|
            k != key && #[trigger] after.entries().contains_key(k) ==> before.entries().contains_key(
                k,
            ) && after.entries()[k] == before.entries()[k],
        before.entries().contains_key(key) || before.strategy() is None ==> after.entries().dom()
            == before.entries().dom().insert(key),
        before.strategy() matches Some(strategy) ==> {
            ||| after.entries().dom() == before.entries().dom().insert(key)
            ||| over_limits(strategy, after.entries().dom().len() + 1)
        },
{
    assert(before.entries().dom() =~= before.slots().dom());
    assert(after.entries().dom() =~= after.slots().dom());
    assert(after.slots().dom() =~= after.slots().remove(key).dom().insert(key));
    if before.slots().contains_key(key) {
        assert(before.slots().dom() =~= before.slots().remove(key).dom().insert(key));
        assert(after.entries().dom() =~= before.entries().dom().insert(key));
        assert forall|k: EventSignature|
            k != key && #[trigger] after.entries().contains_key(
                k,
            ) implies before.entries().contains_key(k) && after.entries()[k]
            == before.entries()[k] by {
            assert(after.slots().remove(key).contains_key(k));
            assert(before.slots().remove(key).contains_key(k));
            assert(after.slots().remove(key)[k] == after.slots()[k]);
            assert(before.slots().remove(key)[k] == before.slots()[k]);
        }
    } else {
        let (fresh, victims) = lemma_access_leaves(before, key, after);
        let added = with_slot(before.slots(), key, fresh, after.uses());
        lemma_evictions_are_counted(before.strategy(), added, key, victims);
        lemma_access_keeps_the_rest(before, key, after);
        if victims.len() == 0 {
            assert(after.entries().dom() =~= before.entries().dom().insert(key));
        } else {
            let n = victims.len() - 1;
            let left = after_evictions(added, victims.take(n));
            assert(needs_room(before.strategy(), left));
            assert(left.dom().len() == after.slots().dom().len() + 1);
        }
    }
}

/// What an access leaves of the other entries is as it was.
proof fn lemma_access_keeps_the_rest<V, P: PriorityFn<V>>(
    before: ShardedStorage<V, P>,
    key: EventSignature,
    after: ShardedStorage<V, P>,
)
    requires
        !before.slots().contains_key(key),
        ShardedStorage::follows(before, key, after),
    ensures
        forall|k: EventSignature|
            k != key && #[trigger] after.slots().contains_key(k) ==> before.slots().contains_key(k)
                && after.slots()[k] == before.slots()[k],
{
    let (fresh, victims) = choose|fresh: V, victims: Seq<EventSignature>|
        {
            &&& #[trigger] evicts(
                before.strategy(),
                with_slot(before.slots(), key, fresh, after.uses()),
                key,
                victims,
            )
            &&& after.slots().remove(key) == after_evictions(
                with_slot(before.slots(), key, fresh, after.uses()),
                victims,
            ).remove(key)
        };
    let added = with_slot(before.slots(), key, fresh, after.uses());
    assert forall|k: EventSignature|
        k != key && #[trigger] after.slots().contains_key(k) implies before.slots().contains_key(k)
        && after.slots()[k] == before.slots()[k] by {
        assert(after.slots().remove(key).contains_key(k));
        assert(after.slots().remove(key)[k] == after.slots()[k]);
        assert(after_evictions(added, victims).contains_key(k));
        lemma_evictions_only_remove(added, victims, k);
    }
}

/// Under a strategy with priorities, an entry that an access evicts was of no higher
/// priority than any that stays, and if of the same, used no later.
pub proof fn lemma_access_evicts_lowest_priority<V, P: PriorityFn<V>>(
    priority_fn: P,
    before: ShardedStorage<V, P>,
    key: EventSignature,
    after: ShardedStorage<V, P>,
    gone: EventSignature,
    survivor: EventSignature,
)
    requires
        match before.strategy() {
            Some(EvictionStrategy::Priority { priority_fn: p, .. }) => p == priority_fn,
            Some(EvictionStrategy::PriorityWithMemory { priority_fn: p, .. }) => p == priority_fn,
            _ => false,
        },
        ShardedStorage::follows(before, key, after),
        before.entries().contains_key(gone),
        !after.entries().contains_key(gone),
        after.entries().contains_key(survivor),
        survivor != key,
    ensures
        gone != key,
        before.entries().contains_key(survivor),
        exists|low: u32, high: u32|
            {
                &&& #[trigger] call_ensures(
                    P::priority,
                    (&priority_fn, &gone, &before.entries()[gone]),
                    low,
                )
                &&& #[trigger] call_ensures(
                    P::priority,
                    (&priority_fn, &survivor, &before.entries()[survivor]),
                    high,
                )
                &&& low < high || (low == high && before.slots()[gone].last_used
                    <= before.slots()[survivor].last_used)
            },
{
    if before.slots().contains_key(key) {
        assert(before.slots().remove(key).contains_key(gone));
        assert(after.slots().remove(key).contains_key(gone));
    }
    let (fresh, victims) = choose|fresh: V, victims: Seq<EventSignature>|
        {
            &&& #[trigger] evicts(
                before.strategy(),
                with_slot(before.slots(), key, fresh, after.uses()),
                key,
                victims,
            )
            &&& after.slots().remove(key) == after_evictions(
                with_slot(before.slots(), key, fresh, after.uses()),
                victims,
            ).remove(key)
        };
    let added = with_slot(before.slots(), key, fresh, after.uses());
    assert(added.contains_key(gone));
    assert(!after.slots().remove(key).contains_key(gone));
    assert(after.slots().remove(key).contains_key(survivor));
    lemma_gone_is_a_victim(added, victims, gone);
    let i = choose|i: int| 0 <= i < victims.len() && victims[i] == gone;
    let strategy = before.strategy()->0;
    assert(eviction::priority_of(strategy) == Some(priority_fn));
    lemma_lowest_priorities_go_first(strategy, added, key, victims, i, survivor);
    let (low, high) = choose|low: u32, high: u32|
        {
            &&& #[trigger] call_ensures(
                P::priority,
                (&priority_fn, &gone, &added[gone].value),
                low,
            )
            &&& #[trigger] call_ensures(
                P::priority,
                (&priority_fn, &survivor, &added[survivor].value),
                high,
            )
            &&& low < high || (low == high && added[gone].last_used <= added[survivor].last_used)
        };
    assert(before.entries()[gone] == added[gone].value);
    assert(before.entries()[survivor] == added[survivor].value);
    assert(call_ensures(P::priority, (&priority_fn, &gone, &before.entries()[gone]), low));
    assert(call_ensures(P::priority, (&priority_fn, &survivor, &before.entries()[survivor]), high));
}

/// With priorities, whatever is evicted was of no higher priority than anything that
/// stays, and if of the same, used no later.
proof fn lemma_lowest_priorities_go_first<V, P: PriorityFn<V>>(
    strategy: EvictionStrategy<P>,
    slots: Map<EventSignature, Slot<V>>,
    keep: EventSignature,
    victims: Seq<EventSignature>,
    i: int,
    survivor: EventSignature,
)
    requires
        eviction::priority_of(strategy) is Some,
        evicts(Some(strategy), slots, keep, victims),
        0 <= i < victims.len(),
        survivor != keep,
        after_evictions(slots, victims).contains_key(survivor),
    ensures
        victims[i] != keep,
        slots.contains_key(victims[i]),
        slots.contains_key(survivor),
        exists|low: u32, high: u32|
            {
                &&& #[trigger] call_ensures(
                    P::priority,
                    (
                        &eviction::priority_of(strategy)->0,
                        &victims[i],
                        &slots[victims[i]].value,
                    ),
                    low,
                )
                &&& #[trigger] call_ensures(
                    P::priority,
                    (&eviction::priority_of(strategy)->0, &survivor, &slots[survivor].value),
                    high,
                )
                &&& low < high || (low == high && slots[victims[i]].last_used
                    <= slots[survivor].last_used)
            },
    decreases victims.len(),
{
    let earlier = victims.drop_last();
    let left = after_evictions(slots, earlier);
    assert(left.contains_key(survivor));
    lemma_evictions_only_remove(slots, earlier, survivor);
    if i < earlier.len() {
        assert(earlier[i] == victims[i]);
        lemma_lowest_priorities_go_first(strategy, slots, keep, earlier, i, survivor);
    } else {
        let victim = victims[i];
        lemma_evictions_only_remove(slots, earlier, victim);
        let p = eviction::priority_of(strategy);
        let ranks = choose|ranks: Map<EventSignature, u32>|
            ranks_lowest(p, left, keep, victim, ranks);
        assert(left.contains_key(victim));
        assert(call_ensures(P::priority, (&p->0, &victim, &slots[victim].value), ranks[victim]));
        assert(call_ensures(
            P::priority,
            (&p->0, &survivor, &slots[survivor].value),
            ranks[survivor],
        ));
    }
}

/// Every entry was last used when its key was last accessed, counted in accesses.
proof fn lemma_last_use_is_last_access<V, P: PriorityFn<V>>(
    storages: Seq<ShardedStorage<V, P>>,
    keys: Seq<EventSignature>,
    n: int,
)
    requires
        storages.len() == keys.len() + 1,
        storages[0].slots() == Map::<EventSignature, Slot<V>>::empty(),
        storages[0].uses() == 0,
        forall|i: int|
            0 <= i < keys.len() ==> ShardedStorage::follows(
                storages[i],
                #[trigger] keys[i],
                storages[i + 1],
            ),
        0 <= n < storages.len(),
        n <= u64::MAX,
    ensures
        storages[n].uses() == n,
        forall|k: EventSignature| #[trigger]
            storages[n].slots().contains_key(k) ==> {
                let used = storages[n].slots()[k].last_used;
                &&& 1 <= used <= n
                &&& keys[used - 1] == k
                &&& forall|i: int| used <= i < n ==> #[trigger] keys[i] != k
            },
    decreases n,
{
    if n > 0 {
        lemma_last_use_is_last_access(storages, keys, n - 1);
        let before = storages[n - 1];
        let after = storages[n];
        let key = keys[n - 1];
        assert(ShardedStorage::follows(before, key, storages[n - 1 + 1]));
        if !before.slots().contains_key(key) {
            lemma_access_keeps_the_rest(before, key, after);
        }
        assert forall|k: EventSignature| #[trigger] after.slots().contains_key(k) implies {
            let used = after.slots()[k].last_used;
            &&& 1 <= used <= n
            &&& keys[used - 1] == k
            &&& forall|i: int| used <= i < n ==> #[trigger] keys[i] != k
        } by {
            if k != key {
                if before.slots().contains_key(key) {
                    assert(after.slots().remove(key).contains_key(k));
                    assert(before.slots().remove(key).contains_key(k));
                    assert(after.slots().remove(key)[k] == after.slots()[k]);
                    assert(before.slots().remove(key)[k] == before.slots()[k]);
                }
                assert(before.slots().contains_key(k));
                assert(after.slots()[k] == before.slots()[k]);
            }
        }
    }
}

/// The least recently used goes first: without priorities, a key whose entry is evicted
/// has not been accessed since the last access to any other key whose entry stays. The
/// accesses start with an empty storage, and there are no more than 64 bits can count.
pub proof fn lemma_least_recently_accessed_goes<V, P: PriorityFn<V>>(
    storages: Seq<ShardedStorage<V, P>>,
    keys: Seq<EventSignature>,
    n: int,
    gone: EventSignature,
    survivor: EventSignature,
) -> (j: int)
    requires
        storages.len() == keys.len() + 1,
        storages[0].slots() == Map::<EventSignature, Slot<V>>::empty(),
        storages[0].uses() == 0,
        match storages[0].strategy() {
            Some(EvictionStrategy::Lru { .. }) => true,
            Some(EvictionStrategy::Memory { .. }) => true,
            _ => false,
        },
        forall|i: int|
            0 <= i < keys.len() ==> ShardedStorage::follows(
                storages[i],
                #[trigger] keys[i],
                storages[i + 1],
            ),
        0 <= n < keys.len() <= u64::MAX,
        storages[n].entries().contains_key(gone),
        !storages[n + 1].entries().contains_key(gone),
        storages[n + 1].entries().contains_key(survivor),
        survivor != keys[n],
    ensures
        0 <= j < n,
        keys[j] == survivor,
        forall|i: int| j <= i <= n ==> #[trigger] keys[i] != gone,
{
    lemma_strategy_stays(storages, keys, n);
    lemma_last_use_is_last_access(storages, keys, n);
    let before = storages[n];
    let after = storages[n + 1];
    assert(ShardedStorage::follows(before, keys[n], after));
    lemma_access_evicts_least_recently_used(
        before.strategy()->0,
        before,
        keys[n],
        after,
        gone,
        survivor,
    );
    let lost = before.slots()[gone].last_used;
    let kept = before.slots()[survivor].last_used;
    assert(keys[lost - 1] == gone && keys[kept - 1] == survivor);
    assert(gone != survivor);
    assert(lost < kept);
    kept - 1
}

/// The strategy of a storage stays.
proof fn lemma_strategy_stays<V, P: PriorityFn<V>>(
    storages: Seq<ShardedStorage<V, P>>,
    keys: Seq<EventSignature>,
    n: int,
)
    requires
        storages.len() == keys.len() + 1,
        forall|i: int|
            0 <= i < keys.len() ==> ShardedStorage::follows(
                storages[i],
                #[trigger] keys[i],
                storages[i + 1],
            ),
        0 <= n < storages.len(),
    ensures
        storages[n].strategy() == storages[0].strategy(),
    decreases n,
{
    if n > 0 {
        lemma_strategy_stays(storages, keys, n - 1);
        assert(ShardedStorage::follows(storages[n - 1], keys[n - 1], storages[n - 1 + 1]));
    }
}

/// Removing and changing entries changes neither the limits nor when an entry that stays
/// was last used.
pub proof fn lemma_pruning_keeps_limits_and_order<V, P: PriorityFn<V>>(
    before: ShardedStorage<V, P>,
    after: ShardedStorage<V, P>,
    key: EventSignature,
)
    requires
        ShardedStorage::pruned(before, after),
    ensures
        after.strategy() == before.strategy(),
        after.uses() == before.uses(),
        after.entries().contains_key(key) ==> before.entries().contains_key(key)
            && after.slots()[key].last_used == before.slots()[key].last_used,
{
}

/// Once a new key has been accessed, the entries are within the limits of the strategy in
/// numbers, however many there were before, or there is only one.
pub proof fn lemma_new_key_brings_entries_within_numbers<V, P: PriorityFn<V>>(
    before: ShardedStorage<V, P>,
    key: EventSignature,
    after: ShardedStorage<V, P>,
)
    requires
        ShardedStorage::follows(before, key, after),
        !before.entries().contains_key(key),
    ensures
        after.entries().dom().len() <= 1 || match before.strategy() {
            None => true,
            Some(EvictionStrategy::Lru { max_entries }) => after.entries().dom().len()
                <= max_entries,
            Some(EvictionStrategy::Priority { max_entries, .. }) => after.entries().dom().len()
                <= max_entries,
            Some(EvictionStrategy::Memory { max_bytes }) => after.entries().dom().len() * 200
                <= max_bytes,
            Some(EvictionStrategy::PriorityWithMemory { max_entries, max_bytes, .. }) =>
                after.entries().dom().len() <= max_entries && after.entries().dom().len() * 200
                    <= max_bytes,
        },
{
    assert(after.entries().dom() =~= after.slots().dom());
}

} // verus!
