//! Operation counters for benchmark experiments.
use vstd::prelude::*;

verus! {

/// Counts of logical lookup operations and backing-record access.
#[derive(Clone, Copy, Debug, PartialEq, Eq, Structural)]
pub struct Counters {
    /// Calls to the storage node-read API, including cache hits and RAM nodes.
    pub logical_node_reads: u64,
    /// Node reads served from an open uncommitted trie.
    pub ram_node_reads: u64,
    /// Eligible committed-root read requests, regardless of cache enablement.
    pub committed_root_requests: u64,
    /// Committed-root requests served by the decoded root cache.
    pub root_cache_hits: u64,
    /// Eligible cache-enabled requests requiring a new root entry.
    pub root_cache_misses: u64,
    /// Non-patch persisted nodes returned by the borrowed mapping fast path.
    pub mmap_node_returns: u64,
    /// Node or patch records read by the patch-resolution loop.
    pub resolved_item_reads: u64,
    /// Patch records encountered during patch resolution.
    pub patch_records: u64,
    /// Node requests served by the resolved patched-node cache.
    pub resolved_patch_cache_hits: u64,
    /// Patched-node requests admitted after a cache miss.
    pub resolved_patch_cache_misses: u64,
    /// Read-node visits by the lookup cursor.
    pub cursor_steps: u64,
    /// Inter-trie back-pointers followed by the lookup walker.
    pub backpointer_follows: u64,
}

impl Counters {
    /// No counts.
    pub open spec fn none() -> Self {
        Counters {
            logical_node_reads: 0,
            ram_node_reads: 0,
            committed_root_requests: 0,
            root_cache_hits: 0,
            root_cache_misses: 0,
            mmap_node_returns: 0,
            resolved_item_reads: 0,
            patch_records: 0,
            resolved_patch_cache_hits: 0,
            resolved_patch_cache_misses: 0,
            cursor_steps: 0,
            backpointer_follows: 0,
        }
    }

    /// Update the counters.
    pub fn update<F: FnOnce(Counters) -> Counters>(&mut self, f: F)
        requires
            call_requires(f, (*old(self),)),
        ensures
            call_ensures(f, (*old(self),), *final(self)),
    {
        *self = f(*self);
    }

    /// Take accumulated counts and start a new measurement interval.
    pub fn take(&mut self) -> (counts: Counters)
        ensures
            counts == *old(self),
            *final(self) == Self::none(),
    {
        let counts = *self;
        *self = Counters::default();
        counts
    }
}

impl Default for Counters {
    fn default() -> (counts: Self)
        ensures
            counts == Self::none(),
    {
        Counters {
            logical_node_reads: 0,
            ram_node_reads: 0,
            committed_root_requests: 0,
            root_cache_hits: 0,
            root_cache_misses: 0,
            mmap_node_returns: 0,
            resolved_item_reads: 0,
            patch_records: 0,
            resolved_patch_cache_hits: 0,
            resolved_patch_cache_misses: 0,
            cursor_steps: 0,
            backpointer_follows: 0,
        }
    }
}

} // verus!
