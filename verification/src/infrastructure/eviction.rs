//! Which signatures are given up when there are too many.

use vstd::prelude::*;
use vstd::string::StringExecFns;

use crate::domain::signature::EventSignature;
use crate::domain::text;
use crate::domain::text::append_decimal;

verus! {

/// Estimated size of one entry in bytes.
pub const ENTRY_BYTES: usize = 200;

/// Says how important it is to keep an entry.
pub trait PriorityFn<V> {
    /// The priority of an entry. Entries of low priority go first.
    fn priority(&self, signature: &EventSignature, value: &V) -> u32;
}

/// When entries are evicted, and which.
#[derive(Clone)]
pub enum EvictionStrategy<P> {
    /// Limits the number of entries. The least recently used go first.
    Lru {
        /// Most entries to keep.
        max_entries: usize,
    },
    /// Limits the number of entries. Those of the lowest priority go first.
    Priority {
        /// Most entries to keep.
        max_entries: usize,
        /// Says how important it is to keep an entry.
        priority_fn: P,
    },
    /// Limits the estimated size. The least recently used entries go first.
    Memory {
        /// Most bytes to use.
        max_bytes: usize,
    },
    /// Limits number and estimated size. Entries of the lowest priority go first.
    PriorityWithMemory {
        /// Most entries to keep.
        max_entries: usize,
        /// Says how important it is to keep an entry.
        priority_fn: P,
        /// Most bytes to use.
        max_bytes: usize,
    },
}

/// A strategy as it is shown to developers.
pub open spec fn strategy_text<P>(s: EvictionStrategy<P>) -> Seq<char> {
    match s {
        EvictionStrategy::Lru { max_entries } => "Lru { max_entries: "@ + text::decimal(
            max_entries as nat,
        ) + " }"@,
        EvictionStrategy::Priority { max_entries, .. } => "Priority { max_entries: "@
            + text::decimal(max_entries as nat) + ", priority_fn: \"<fn>\" }"@,
        EvictionStrategy::Memory { max_bytes } => "Memory { max_bytes: "@ + text::decimal(
            max_bytes as nat,
        ) + " }"@,
        EvictionStrategy::PriorityWithMemory { max_entries, max_bytes, .. } =>
            "PriorityWithMemory { max_entries: "@ + text::decimal(max_entries as nat)
            + ", priority_fn: \"<fn>\", max_bytes: "@ + text::decimal(max_bytes as nat) + " }"@,
    }
}

/// Whether so many entries are within the limits.
pub open spec fn within_limits<P>(s: EvictionStrategy<P>, count: nat) -> bool {
    match s {
        EvictionStrategy::Lru { max_entries } => count <= max_entries,
        EvictionStrategy::Priority { max_entries, .. } => count <= max_entries,
        EvictionStrategy::Memory { max_bytes } => count * ENTRY_BYTES <= max_bytes,
        EvictionStrategy::PriorityWithMemory { max_entries, max_bytes, .. } => count <= max_entries
            && count * ENTRY_BYTES <= max_bytes,
    }
}

/// The priority function of a strategy.
pub open spec fn priority_of<P>(s: EvictionStrategy<P>) -> Option<P> {
    match s {
        EvictionStrategy::Priority { priority_fn, .. } => Some(priority_fn),
        EvictionStrategy::PriorityWithMemory { priority_fn, .. } => Some(priority_fn),
        _ => None,
    }
}

impl<P> EvictionStrategy<P> {
    /// Whether the estimated size is limited.
    pub fn tracks_memory(&self) -> (r: bool)
        ensures
            r == (*self is Memory || *self is PriorityWithMemory),
    {
        matches!(
            self,
            EvictionStrategy::Memory { .. } | EvictionStrategy::PriorityWithMemory { .. }
        )
    }

    /// The limit of the estimated size, if there is one.
    pub fn memory_limit(&self) -> (r: Option<usize>)
        ensures
            r == match *self {
                EvictionStrategy::Memory { max_bytes } => Some(max_bytes),
                EvictionStrategy::PriorityWithMemory { max_bytes, .. } => Some(max_bytes),
                _ => None,
            },
    {
        match self {
            EvictionStrategy::Memory { max_bytes } => Some(*max_bytes),
            EvictionStrategy::PriorityWithMemory { max_bytes, .. } => Some(*max_bytes),
            _ => None,
        }
    }

    /// Whether a priority decides which entries go first.
    pub fn uses_priority(&self) -> (r: bool)
        ensures
            r == (priority_of(*self) is Some),
    {
        matches!(
            self,
            EvictionStrategy::Priority { .. } | EvictionStrategy::PriorityWithMemory { .. }
        )
    }

    /// Whether so many entries are within the limits.
    pub fn permits(&self, count: usize) -> (r: bool)
        ensures
            r == within_limits(*self, count as nat),
    {
        match self {
            EvictionStrategy::Lru { max_entries } => count <= *max_entries,
            EvictionStrategy::Priority { max_entries, .. } => count <= *max_entries,
            EvictionStrategy::Memory { max_bytes } => fits(count, *max_bytes),
            EvictionStrategy::PriorityWithMemory { max_entries, max_bytes, .. } => count
                <= *max_entries && fits(count, *max_bytes),
        }
    }

    /// The strategy as it is shown to developers.
    pub fn debug_text(&self) -> (r: String)
        ensures
            r@ == strategy_text(*self),
    {
        let mut out = String::new();
        match self {
            EvictionStrategy::Lru { max_entries } => {
                out.append("Lru { max_entries: ");
                append_decimal(&mut out, *max_entries as u64);
                out.append(" }");
            },
            EvictionStrategy::Priority { max_entries, .. } => {
                out.append("Priority { max_entries: ");
                append_decimal(&mut out, *max_entries as u64);
                out.append(", priority_fn: \"<fn>\" }");
            },
            EvictionStrategy::Memory { max_bytes } => {
                out.append("Memory { max_bytes: ");
                append_decimal(&mut out, *max_bytes as u64);
                out.append(" }");
            },
            EvictionStrategy::PriorityWithMemory { max_entries, max_bytes, .. } => {
                out.append("PriorityWithMemory { max_entries: ");
                append_decimal(&mut out, *max_entries as u64);
                out.append(", priority_fn: \"<fn>\", max_bytes: ");
                append_decimal(&mut out, *max_bytes as u64);
                out.append(" }");
            },
        }
        assert(out@ =~= strategy_text(*self));
        out
    }
}

/// Whether so many entries fit an estimated size.
fn fits(count: usize, max_bytes: usize) -> (r: bool)
    ensures
        r == (count * ENTRY_BYTES <= max_bytes),
{
    count <= max_bytes / ENTRY_BYTES
}

} // verus!
