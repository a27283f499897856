//! Bounded lookup results belonging to one mutable trie, with mutation guards.
use vstd::prelude::*;

use crate::cache::{invalidated, law_invalidations_count_on};
use crate::hash::TrieHash;
use crate::key_index::{
    clear_index, indexed_slots, insert_slot, new_index, remove_slot, slot_of, KeyIndex,
};
use crate::leaf::{Leaf, TrieLeaf};

verus! {

/// Default maximum number of complete lookup results per mutable trie.
pub const DEFAULT_RESULT_CACHE_CAPACITY: usize = 2048;

/// Invalidation signal of a storage owner and its in-flight mutations.
#[derive(Clone, Copy, Debug, PartialEq, Eq, Structural)]
pub struct ResultCacheControl {
    /// Number of times that cached results had to be discarded.
    pub generation: u64,
    /// Number of key mutations during which results cannot be read or added.
    pub writes: usize,
}

impl Default for ResultCacheControl {
    fn default() -> (control: Self)
        ensures
            control.generation == 0,
            control.writes == 0,
    {
        ResultCacheControl { generation: 0, writes: 0 }
    }
}

impl ResultCacheControl {
    /// Discard results at the next access without borrowing their owner.
    pub fn invalidate(&mut self)
        ensures
            final(self).generation == old(self).generation.wrapping_add(1),
            final(self).writes == old(self).writes,
    {
        self.generation = self.generation.wrapping_add(1);
    }

    /// Invalidate on release unless the enclosing operation completes successfully.
    pub fn guard(&self) -> (guard: ResultCacheGuard)
        ensures
            !guard.writing,
            !guard.succeeded,
    {
        ResultCacheGuard { writing: false, succeeded: false }
    }

    /// End a guarded operation: results are discarded unless it succeeded, and a mutation no
    /// longer suspends their reuse.
    pub fn release(&mut self, guard: ResultCacheGuard)
        requires
            guard.writing ==> old(self).writes > 0,
        ensures
            final(self).generation == if guard.succeeded {
                old(self).generation
            } else {
                old(self).generation.wrapping_add(1)
            },
            final(self).writes == old(self).writes - if guard.writing {
                1int
            } else {
                0
            },
    {
        if !guard.succeeded {
            self.invalidate();
        }
        if guard.writing {
            self.writes = self.writes - 1;
        }
    }
}

/// Invalidates results when an operation fails or a storage transaction is not committed.
#[derive(Debug)]
pub struct ResultCacheGuard {
    /// Whether this guard also suspends the use of results.
    pub writing: bool,
    /// Whether the guarded operation completed successfully.
    pub succeeded: bool,
}

impl ResultCacheGuard {
    /// Mark successful completion; key eviction still takes effect.
    pub fn succeed(self) -> (guard: Self)
        ensures
            guard.writing == self.writing,
            guard.succeeded,
    {
        ResultCacheGuard { writing: self.writing, succeeded: true }
    }
}

/// An occupied slot in the indexed doubly linked list.
#[derive(Debug)]
pub struct CachedResult {
    /// Hashed key, also retained to remove its index entry on eviction.
    key: TrieHash,
    /// Successful lookup result; `None` caches absence, never a storage error.
    value: Option<TrieLeaf>,
    /// Previous slot toward the least recently used end.
    previous: Option<usize>,
    /// Next slot toward the most recently used end.
    next: Option<usize>,
}

/// A cached result: the key, and the leaf or its absence.
pub struct Found {
    pub key: Seq<u8>,
    pub value: Option<Leaf>,
}

/// Where a key is among results.
pub open spec fn found_at(results: Seq<Found>, key: Seq<u8>, i: int) -> bool {
    0 <= i < results.len() && results[i].key == key
}

/// Whether a key is among results.
pub open spec fn has_key(results: Seq<Found>, key: Seq<u8>) -> bool {
    exists|i: int| found_at(results, key, i)
}

/// Where a key is among results.
pub open spec fn place_of(results: Seq<Found>, key: Seq<u8>) -> int {
    choose|i: int| found_at(results, key, i)
}

/// Whether no key is held twice.
pub open spec fn unique_keys(results: Seq<Found>) -> bool {
    forall|i: int, j: int|
        0 <= i < results.len() && 0 <= j < results.len() && (#[trigger] results[i]).key == (
        #[trigger] results[j]).key ==> i == j
}

/// Results without a key.
pub open spec fn without(results: Seq<Found>, key: Seq<u8>) -> Seq<Found> {
    if has_key(results, key) {
        results.remove(place_of(results, key))
    } else {
        results
    }
}

/// Results after a key was looked up: a hit becomes the newest.
pub open spec fn after_get(results: Seq<Found>, key: Seq<u8>) -> Seq<Found> {
    if has_key(results, key) {
        results.remove(place_of(results, key)).push(results[place_of(results, key)])
    } else {
        results
    }
}

/// Results after a key was added as the newest; a full cache gives up its oldest result.
pub open spec fn after_put(
    results: Seq<Found>,
    capacity: nat,
    key: Seq<u8>,
    value: Option<Leaf>,
) -> Seq<Found> {
    let rest = without(results, key);
    (if rest.len() == capacity {
        rest.remove(0)
    } else {
        rest
    }).push(Found { key, value })
}

/// What a cached value is.
pub open spec fn value_view(value: Option<TrieLeaf>) -> Option<Leaf> {
    match value {
        Some(leaf) => Some(leaf@),
        None => None,
    }
}

/// A neighbour of the entry at a place.
spec fn neighbour(order: Seq<usize>, i: int) -> Option<usize> {
    if 0 <= i < order.len() {
        Some(order[i])
    } else {
        None
    }
}

/// Whether slots are linked in an order from oldest to newest.
spec fn linked(
    slots: Seq<Option<CachedResult>>,
    order: Seq<usize>,
    oldest: Option<usize>,
    newest: Option<usize>,
) -> bool {
    &&& forall|i: int|
        0 <= i < order.len() ==> {
            let slot = #[trigger] order[i] as int;
            &&& slot < slots.len()
            &&& slots[slot] is Some
            &&& slots[slot]->0.previous == neighbour(order, i - 1)
            &&& slots[slot]->0.next == neighbour(order, i + 1)
        }
    &&& forall|i: int, j: int|
        0 <= i < order.len() && 0 <= j < order.len() && #[trigger] order[i] == #[trigger] order[j]
            ==> i == j
    &&& oldest == neighbour(order, 0)
    &&& newest == neighbour(order, order.len() - 1)
}

/// Whether slots hold the same results, however they are linked.
spec fn same_results(
    before: Seq<Option<CachedResult>>,
    after: Seq<Option<CachedResult>>,
) -> bool {
    &&& after.len() == before.len()
    &&& forall|s: int|
        0 <= s < before.len() ==> {
            &&& (#[trigger] after[s] is Some) == (before[s] is Some)
            &&& before[s] is Some ==> after[s]->0.key == before[s]->0.key && after[s]->0.value
                == before[s]->0.value
        }
}

/// Hash-indexed lookup cache; hits, invalidation and promotion require no scan.
pub struct ResultCache {
    /// Key-to-slot index.
    index: KeyIndex,
    /// Stable slots holding results and recency links.
    slots: Vec<Option<CachedResult>>,
    /// Vacant slots available for reuse after per-key invalidation.
    free: Vec<usize>,
    /// Least recently used occupied slot.
    oldest: Option<usize>,
    /// Most recently used occupied slot.
    newest: Option<usize>,
    /// Maximum number of occupied slots; zero disables the cache.
    capacity: usize,
    /// State-reset and mutation signal.
    control: ResultCacheControl,
    /// Last generation observed by this cache.
    generation: u64,
    /// Occupied slots from oldest to newest.
    order: Ghost<Seq<usize>>,
}

/// The key of the entry at a place.
spec fn key_in(slots: Seq<Option<CachedResult>>, order: Seq<usize>, i: int) -> Seq<u8> {
    slots[order[i] as int]->0.key@
}

/// The value of the entry at a place.
spec fn value_in(slots: Seq<Option<CachedResult>>, order: Seq<usize>, i: int) -> Option<Leaf> {
    value_view(slots[order[i] as int]->0.value)
}

/// Whether keys and slots index each other.
spec fn indexed(
    map: Map<Seq<u8>, usize>,
    slots: Seq<Option<CachedResult>>,
    order: Seq<usize>,
) -> bool {
    &&& forall|i: int|
        0 <= i < order.len() ==> map.contains_key(#[trigger] key_in(slots, order, i)) && map[key_in(
            slots,
            order,
            i,
        )] == order[i]
    &&& forall|key: Seq<u8>| #[trigger]
        map.contains_key(key) ==> exists|i: int|
            0 <= i < order.len() && #[trigger] key_in(slots, order, i) == key
}

/// Whether vacant slots are exactly those on the free list.
spec fn recycled(slots: Seq<Option<CachedResult>>, free: Seq<usize>, order: Seq<usize>) -> bool {
    &&& forall|i: int|
        0 <= i < free.len() ==> (#[trigger] free[i]) < slots.len() && slots[free[i] as int] is None
    &&& forall|i: int, j: int|
        0 <= i < free.len() && 0 <= j < free.len() && #[trigger] free[i] == #[trigger] free[j]
            ==> i == j
    &&& free.len() + order.len() == slots.len()
}

/// Entries as results from oldest to newest.
spec fn results_in(slots: Seq<Option<CachedResult>>, order: Seq<usize>) -> Seq<Found> {
    Seq::new(
        order.len(),
        |i: int| Found { key: key_in(slots, order, i), value: value_in(slots, order, i) },
    )
}

/// The place that an entry had before the one at `at` left.
spec fn before_leaving(at: int, i: int) -> int {
    if i < at {
        i
    } else {
        i + 1
    }
}

/// No key is held twice.
proof fn lemma_unique(
    map: Map<Seq<u8>, usize>,
    slots: Seq<Option<CachedResult>>,
    order: Seq<usize>,
    oldest: Option<usize>,
    newest: Option<usize>,
)
    requires
        linked(slots, order, oldest, newest),
        indexed(map, slots, order),
    ensures
        unique_keys(results_in(slots, order)),
{
    let held = results_in(slots, order);
    assert forall|i: int, j: int|
        0 <= i < held.len() && 0 <= j < held.len() && (#[trigger] held[i]).key == (
        #[trigger] held[j]).key implies i == j by {
        assert(held[i].key == key_in(slots, order, i));
        assert(held[j].key == key_in(slots, order, j));
        assert(order[i] == order[j]);
    }
}

/// An order without one of its entries.
proof fn lemma_order_without(order: Seq<usize>, at: int)
    requires
        0 <= at < order.len(),
        forall|i: int, j: int|
            0 <= i < order.len() && 0 <= j < order.len() && #[trigger] order[i]
                == #[trigger] order[j] ==> i == j,
    ensures
        ({
            let rest = order.remove(at);
            &&& forall|i: int|
                0 <= i < rest.len() ==> #[trigger] rest[i] == order[before_leaving(at, i)]
                    && rest[i] != order[at]
            &&& forall|i: int, j: int|
                0 <= i < rest.len() && 0 <= j < rest.len() && #[trigger] rest[i]
                    == #[trigger] rest[j] ==> i == j
        }),
{
    let rest = order.remove(at);
    assert forall|i: int| 0 <= i < rest.len() implies #[trigger] rest[i] == order[before_leaving(
        at,
        i,
    )] && rest[i] != order[at] by {
        assert(order[before_leaving(at, i)] != order[at]);
    }
    assert forall|i: int, j: int|
        0 <= i < rest.len() && 0 <= j < rest.len() && #[trigger] rest[i] == #[trigger] rest[j]
        implies i == j by {
        assert(order[before_leaving(at, i)] == order[before_leaving(at, j)]);
    }
}

/// Linking the neighbours of an entry to each other takes it out of the list.
#[verifier::spinoff_prover]
#[verifier::rlimit(60)]
proof fn lemma_unlinked(
    slots: Seq<Option<CachedResult>>,
    order: Seq<usize>,
    oldest: Option<usize>,
    newest: Option<usize>,
    at: int,
    after: Seq<Option<CachedResult>>,
)
    requires
        linked(slots, order, oldest, newest),
        0 <= at < order.len(),
        same_results(slots, after),
        forall|s: int|
            0 <= s < slots.len() && slots[s] is Some ==> {
                &&& (#[trigger] after[s])->0.next == if at > 0 && s == order[at - 1] {
                    neighbour(order, at + 1)
                } else {
                    slots[s]->0.next
                }
                &&& after[s]->0.previous == if at + 1 < order.len() && s == order[at + 1] {
                    neighbour(order, at - 1)
                } else {
                    slots[s]->0.previous
                }
            },
    ensures
        linked(
            after,
            order.remove(at),
            if at == 0 {
                neighbour(order, 1)
            } else {
                oldest
            },
            if at + 1 == order.len() {
                neighbour(order, at - 1)
            } else {
                newest
            },
        ),
{
    let rest = order.remove(at);
    lemma_order_without(order, at);
    assert forall|i: int| 0 <= i < rest.len() implies {
        let s = #[trigger] rest[i] as int;
        &&& s < after.len()
        &&& after[s] is Some
        &&& after[s]->0.previous == neighbour(rest, i - 1)
        &&& after[s]->0.next == neighbour(rest, i + 1)
    } by {
        let j = before_leaving(at, i);
        let s = order[j] as int;
        assert(rest[i] == order[j]);
        assert(slots[s] is Some);
        assert(after[s] is Some);
        if at > 0 {
            assert(order[j] == order[at - 1] ==> j == at - 1);
        }
        if at + 1 < order.len() {
            assert(order[j] == order[at + 1] ==> j == at + 1);
        }
        if i > 0 {
            assert(rest[i - 1] == order[before_leaving(at, i - 1)]);
        }
        if i + 1 < rest.len() {
            assert(rest[i + 1] == order[before_leaving(at, i + 1)]);
        }
    }
}

impl Default for ResultCache {
    /// A cache that holds nothing, with a signal of its own.
    fn default() -> (cache: Self)
        ensures
            cache.wf(),
            cache@ == Seq::<Found>::empty(),
            cache.held() == Seq::<Found>::empty(),
            cache.limit() == 0,
            cache.signal().generation == 0,
            cache.signal().writes == 0,
            cache.seen() == 0,
    {
        ResultCache::new(0, ResultCacheControl::default())
    }
}

impl ResultCache {
    /// The invariant.
    pub closed spec fn wf(&self) -> bool {
        &&& linked(self.slots@, self.order@, self.oldest, self.newest)
        &&& indexed(indexed_slots(self.index), self.slots@, self.order@)
        &&& recycled(self.slots@, self.free@, self.order@)
        &&& self.order@.len() <= self.capacity
        &&& self.slots@.len() <= self.capacity
    }

    /// Held results from oldest to newest, whether or not they may still be used.
    pub closed spec fn held(&self) -> Seq<Found> {
        results_in(self.slots@, self.order@)
    }

    /// Results from oldest to newest that no invalidation has discarded.
    pub open spec fn view(&self) -> Seq<Found> {
        if self.seen() != self.signal().generation {
            Seq::empty()
        } else {
            self.held()
        }
    }

    /// Maximum number of results.
    pub closed spec fn limit(&self) -> nat {
        self.capacity as nat
    }

    /// The invalidation signal.
    pub closed spec fn signal(&self) -> ResultCacheControl {
        self.control
    }

    /// The last generation that the cache observed.
    pub closed spec fn seen(&self) -> u64 {
        self.generation
    }

    /// Number of slots in use or kept for reuse.
    pub closed spec fn slot_total(&self) -> nat {
        self.slots@.len()
    }

    /// Whether results may be read and added.
    pub open spec fn usable(&self) -> bool {
        self.limit() > 0 && self.signal().writes == 0
    }

    /// Create an empty cache attached to an invalidation signal.
    pub fn new(capacity: usize, control: ResultCacheControl) -> (cache: Self)
        ensures
            cache.wf(),
            cache@ == Seq::<Found>::empty(),
            cache.held() == Seq::<Found>::empty(),
            cache.limit() == capacity,
            cache.signal() == control,
            cache.seen() == control.generation,
    {
        let cache = ResultCache {
            index: new_index(),
            slots: Vec::new(),
            free: Vec::new(),
            oldest: None,
            newest: None,
            capacity,
            control,
            generation: control.generation,
            order: Ghost(Seq::empty()),
        };
        assert(cache.held() =~= Seq::<Found>::empty());
        cache
    }

    /// The invalidation signal, by which operations on the cache's owner are guarded.
    pub fn control(&self) -> (control: &ResultCacheControl)
        ensures
            *control == self.signal(),
    {
        &self.control
    }

    /// Discard all results.
    pub fn clear(&mut self)
        ensures
            final(self).wf(),
            final(self)@ == Seq::<Found>::empty(),
            final(self).held() == Seq::<Found>::empty(),
            final(self).limit() == old(self).limit(),
            final(self).signal() == old(self).signal(),
            final(self).seen() == old(self).seen(),
    {
        clear_index(&mut self.index);
        self.slots.clear();
        self.free.clear();
        self.oldest = None;
        self.newest = None;
        self.order = Ghost(Seq::empty());
        assert(self.held() =~= Seq::<Found>::empty());
    }

    /// Apply pending invalidation and check whether lookup and addition are enabled.
    fn ready(&mut self) -> (ready: bool)
        requires
            old(self).wf(),
        ensures
            final(self).wf(),
            final(self)@ == old(self)@,
            final(self).limit() == old(self).limit(),
            final(self).signal() == old(self).signal(),
            ready == old(self).usable(),
            old(self).limit() > 0 ==> final(self)@ == final(self).held(),
            old(self).limit() == 0 ==> final(self)@ == Seq::<Found>::empty(),
            old(self).limit() > 0 ==> final(self).generation == final(self).control.generation,
            old(self).limit() == 0 ==> final(self).generation == old(self).generation,
            final(self).held().len() <= final(self).limit(),
    {
        if self.capacity == 0 {
            assert(self.held() =~= Seq::<Found>::empty());
            return false;
        }
        if self.control.generation != self.generation {
            self.clear();
            self.generation = self.control.generation;
            assert(self.held() =~= Seq::<Found>::empty());
        }
        self.control.writes == 0
    }

    /// Set the link toward the newest end.
    fn set_next(&mut self, slot: usize, next: Option<usize>)
        requires
            slot < old(self).slots@.len(),
            old(self).slots@[slot as int] is Some,
        ensures
            final(self).slots@ == old(self).slots@.update(
                slot as int,
                Some(CachedResult { next, ..old(self).slots@[slot as int]->0 }),
            ),
            final(self).index == old(self).index,
            final(self).free == old(self).free,
            final(self).oldest == old(self).oldest,
            final(self).newest == old(self).newest,
            final(self).capacity == old(self).capacity,
            final(self).control == old(self).control,
            final(self).generation == old(self).generation,
            final(self).order == old(self).order,
    {
        match &mut self.slots[slot] {
            Some(entry) => {
                entry.next = next;
            },
            None => {},
        }
    }

    /// Set the link toward the oldest end.
    fn set_previous(&mut self, slot: usize, previous: Option<usize>)
        requires
            slot < old(self).slots@.len(),
            old(self).slots@[slot as int] is Some,
        ensures
            final(self).slots@ == old(self).slots@.update(
                slot as int,
                Some(CachedResult { previous, ..old(self).slots@[slot as int]->0 }),
            ),
            final(self).index == old(self).index,
            final(self).free == old(self).free,
            final(self).oldest == old(self).oldest,
            final(self).newest == old(self).newest,
            final(self).capacity == old(self).capacity,
            final(self).control == old(self).control,
            final(self).generation == old(self).generation,
            final(self).order == old(self).order,
    {
        match &mut self.slots[slot] {
            Some(entry) => {
                entry.previous = previous;
            },
            None => {},
        }
    }

    /// Detach an occupied slot from its current position.
    fn unlink(&mut self, slot: usize, Ghost(at): Ghost<int>)
        requires
            linked(old(self).slots@, old(self).order@, old(self).oldest, old(self).newest),
            0 <= at < old(self).order@.len(),
            old(self).order@[at] == slot,
        ensures
            linked(final(self).slots@, final(self).order@, final(self).oldest, final(self).newest),
            final(self).order@ == old(self).order@.remove(at),
            same_results(old(self).slots@, final(self).slots@),
            final(self).index == old(self).index,
            final(self).free == old(self).free,
            final(self).capacity == old(self).capacity,
            final(self).control == old(self).control,
            final(self).generation == old(self).generation,
    {
        let ghost before = self.slots@;
        let ghost order = self.order@;
        let ghost oldest = self.oldest;
        let ghost newest = self.newest;
        let (previous, next): (Option<usize>, Option<usize>) = match &self.slots[slot] {
            Some(entry) => (entry.previous, entry.next),
            None => (None, None),
        };
        assert(previous == neighbour(order, at - 1));
        assert(next == neighbour(order, at + 1));
        match previous {
            Some(p) => {
                assert(order[at - 1] == p);
                self.set_next(p, next);
            },
            None => self.oldest = next,
        }
        match next {
            Some(n) => {
                assert(order[at + 1] == n);
                self.set_previous(n, previous);
            },
            None => self.newest = previous,
        }
        self.order = Ghost(order.remove(at));
        proof {
            assert(at > 0 && at + 1 < order.len() ==> order[at - 1] != order[at + 1]);
            lemma_unlinked(before, order, oldest, newest, at, self.slots@);
        }
    }

    /// Place an occupied slot at the most recently used end.
    fn append(&mut self, slot: usize)
        requires
            linked(old(self).slots@, old(self).order@, old(self).oldest, old(self).newest),
            slot < old(self).slots@.len(),
            old(self).slots@[slot as int] is Some,
            forall|i: int| 0 <= i < old(self).order@.len() ==> #[trigger] old(self).order@[i]
                != slot,
        ensures
            linked(final(self).slots@, final(self).order@, final(self).oldest, final(self).newest),
            final(self).order@ == old(self).order@.push(slot),
            same_results(old(self).slots@, final(self).slots@),
            final(self).index == old(self).index,
            final(self).free == old(self).free,
            final(self).capacity == old(self).capacity,
            final(self).control == old(self).control,
            final(self).generation == old(self).generation,
    {
        let ghost order = self.order@;
        let newest: Option<usize> = self.newest;
        self.set_previous(slot, newest);
        self.set_next(slot, None);
        match newest {
            Some(n) => {
                assert(order[order.len() - 1] == n);
                self.set_next(n, Some(slot));
            },
            None => self.oldest = Some(slot),
        }
        self.newest = Some(slot);
        self.order = Ghost(order.push(slot));
        proof {
            let all = order.push(slot);
            assert forall|i: int| 0 <= i < all.len() implies {
                let s = #[trigger] all[i] as int;
                &&& s < self.slots@.len()
                &&& self.slots@[s] is Some
                &&& self.slots@[s]->0.previous == neighbour(all, i - 1)
                &&& self.slots@[s]->0.next == neighbour(all, i + 1)
            } by {
                if i < order.len() {
                    assert(all[i] == order[i]);
                    assert(order[i] == order[order.len() - 1] ==> i == order.len() - 1);
                }
            }
        }
    }

    /// Remove a key and recycle its slot.
    fn remove(&mut self, key: &TrieHash)
        requires
            old(self).wf(),
        ensures
            final(self).wf(),
            final(self).held() == without(old(self).held(), key@),
            !has_key(final(self).held(), key@),
            final(self).capacity == old(self).capacity,
            final(self).control == old(self).control,
            final(self).generation == old(self).generation,
    {
        let ghost before = *self;
        let ghost slots = self.slots@;
        let ghost order = self.order@;
        match remove_slot(&mut self.index, key.as_bytes()) {
            Some(slot) => {
                let ghost at = choose|i: int|
                    0 <= i < order.len() && #[trigger] key_in(slots, order, i) == key@;
                proof {
                    assert(indexed_slots(before.index).contains_key(key@));
                    assert(key_in(slots, order, at) == key@);
                    assert(order[at] == slot);
                }
                self.unlink(slot, Ghost(at));
                let ghost mid = self.slots@;
                self.slots.set(slot, None);
                self.free.push(slot);
                proof {
                    before.lemma_removed(mid, *self, at, key@);
                }
            },
            None => {
                proof {
                    assert(indexed_slots(self.index) =~= indexed_slots(before.index));
                    if has_key(before.held(), key@) {
                        let i = place_of(before.held(), key@);
                        assert(found_at(before.held(), key@, i));
                        assert(key_in(slots, order, i) == key@);
                    }
                }
            },
        }
    }

    /// The state after a key was unlinked, emptied and recycled.
    #[verifier::spinoff_prover]
    #[verifier::rlimit(60)]
    proof fn lemma_removed(
        self,
        mid: Seq<Option<CachedResult>>,
        after: Self,
        at: int,
        key: Seq<u8>,
    )
        requires
            self.wf(),
            0 <= at < self.order@.len(),
            key_in(self.slots@, self.order@, at) == key,
            linked(mid, after.order@, after.oldest, after.newest),
            after.order@ == self.order@.remove(at),
            same_results(self.slots@, mid),
            after.slots@ == mid.update(self.order@[at] as int, None),
            after.free@ == self.free@.push(self.order@[at]),
            after.capacity == self.capacity,
            indexed_slots(after.index) == indexed_slots(self.index).remove(key),
        ensures
            after.wf(),
            after.held() == without(self.held(), key),
            !has_key(after.held(), key),
    {
        let slots = self.slots@;
        let order = self.order@;
        let rest = after.order@;
        let slot = order[at];
        lemma_order_without(order, at);
        assert forall|i: int| 0 <= i < rest.len() implies after.slots@[#[trigger] rest[i] as int]
            == mid[rest[i] as int] by {}
        assert(linked(after.slots@, rest, after.oldest, after.newest));
        assert forall|i: int| 0 <= i < rest.len() implies {
            let j = before_leaving(at, i);
            &&& #[trigger] key_in(after.slots@, rest, i) == key_in(slots, order, j)
            &&& value_in(after.slots@, rest, i) == value_in(slots, order, j)
            &&& key_in(after.slots@, rest, i) != key
        } by {
            let j = before_leaving(at, i);
            assert(rest[i] == order[j]);
            assert(slots[order[j] as int] is Some);
            assert(mid[order[j] as int] is Some);
            assert(order[j] != order[at]);
            assert(indexed_slots(self.index)[key_in(slots, order, j)] == order[j]);
            assert(indexed_slots(self.index)[key_in(slots, order, at)] == order[at]);
        }
        let map = indexed_slots(after.index);
        assert forall|k: Seq<u8>| #[trigger] map.contains_key(k) implies exists|i: int|
            0 <= i < rest.len() && #[trigger] key_in(after.slots@, rest, i) == k by {
            assert(indexed_slots(self.index).contains_key(k));
            let j = choose|j: int| 0 <= j < order.len() && #[trigger] key_in(slots, order, j) == k;
            let i = if j < at {
                j
            } else {
                j - 1
            };
            assert(j != at);
            assert(before_leaving(at, i) == j);
            assert(key_in(after.slots@, rest, i) == k);
        }
        assert(slots[slot as int] is Some);
        assert forall|i: int| 0 <= i < after.free@.len() implies (#[trigger] after.free@[i])
            < after.slots@.len() && after.slots@[after.free@[i] as int] is None by {
            if i < self.free@.len() {
                assert(after.free@[i] == self.free@[i]);
                assert(slots[self.free@[i] as int] is None);
                assert(mid[self.free@[i] as int] is None);
            }
        }
        assert forall|i: int, j: int|
            0 <= i < after.free@.len() && 0 <= j < after.free@.len() && #[trigger] after.free@[i]
                == #[trigger] after.free@[j] implies i == j by {
            if i < self.free@.len() {
                assert(after.free@[i] == self.free@[i]);
            }
            if j < self.free@.len() {
                assert(after.free@[j] == self.free@[j]);
            }
        }
        let held = self.held();
        assert(found_at(held, key, at));
        lemma_unique(indexed_slots(self.index), slots, order, self.oldest, self.newest);
        let p = place_of(held, key);
        assert(found_at(held, key, p));
        assert(held[p].key == held[at].key);
        assert(after.held() =~= held.remove(at));
        if has_key(after.held(), key) {
            let i = place_of(after.held(), key);
            assert(found_at(after.held(), key, i));
            assert(key_in(after.slots@, rest, i) == key);
        }
    }

    /// Return a cached value or absence, or outer `None` when no entry is usable.
    pub fn get(&mut self, key: &TrieHash) -> (value: Option<Option<TrieLeaf>>)
        requires
            old(self).wf(),
        ensures
            final(self).wf(),
            final(self).limit() == old(self).limit(),
            final(self).signal() == old(self).signal(),
            final(self).seen() == if old(self).limit() > 0 {
                old(self).signal().generation
            } else {
                old(self).seen()
            },
            if old(self).usable() && has_key(old(self)@, key@) {
                &&& value matches Some(found)
                &&& value_view(found) == old(self)@[place_of(old(self)@, key@)].value
                &&& final(self)@ == after_get(old(self)@, key@)
            } else {
                value is None && final(self)@ == old(self)@
            },
    {
        if !self.ready() {
            return None;
        }
        let ghost before = *self;
        let ghost slots = self.slots@;
        let ghost order = self.order@;
        let slot: usize = match slot_of(&self.index, key.as_bytes()) {
            Some(slot) => slot,
            None => {
                proof {
                    if has_key(before.held(), key@) {
                        let i = place_of(before.held(), key@);
                        assert(found_at(before.held(), key@, i));
                        assert(key_in(slots, order, i) == key@);
                    }
                }
                return None;
            },
        };
        let ghost at = choose|i: int|
            0 <= i < order.len() && #[trigger] key_in(slots, order, i) == key@;
        proof {
            assert(indexed_slots(before.index).contains_key(key@));
            assert(key_in(slots, order, at) == key@);
            assert(order[at] == slot);
            lemma_order_without(order, at);
        }
        self.unlink(slot, Ghost(at));
        self.append(slot);
        proof {
            before.lemma_promoted(*self, at, key@);
        }
        match &self.slots[slot] {
            Some(entry) => match &entry.value {
                Some(leaf) => Some(Some(leaf.clone())),
                None => Some(None),
            },
            None => None,
        }
    }

    /// The state after a hit was moved to the newest end.
    #[verifier::spinoff_prover]
    #[verifier::rlimit(60)]
    proof fn lemma_promoted(self, after: Self, at: int, key: Seq<u8>)
        requires
            self.wf(),
            0 <= at < self.order@.len(),
            key_in(self.slots@, self.order@, at) == key,
            linked(after.slots@, after.order@, after.oldest, after.newest),
            after.order@ == self.order@.remove(at).push(self.order@[at]),
            same_results(self.slots@, after.slots@),
            after.free == self.free,
            after.capacity == self.capacity,
            after.index == self.index,
        ensures
            after.wf(),
            has_key(self.held(), key),
            place_of(self.held(), key) == at,
            after.held() == after_get(self.held(), key),
            after.slots@[self.order@[at] as int] is Some,
            value_view(after.slots@[self.order@[at] as int]->0.value) == self.held()[at].value,
    {
        let slots = self.slots@;
        let order = self.order@;
        let all = after.order@;
        let last = all.len() - 1;
        lemma_order_without(order, at);
        assert forall|i: int| 0 <= i < all.len() implies {
            let j = if i == last {
                at
            } else {
                before_leaving(at, i)
            };
            &&& all[i] == order[j]
            &&& #[trigger] key_in(after.slots@, all, i) == key_in(slots, order, j)
            &&& value_in(after.slots@, all, i) == value_in(slots, order, j)
        } by {
            let j = if i == last {
                at
            } else {
                before_leaving(at, i)
            };
            if i < last {
                assert(all[i] == order.remove(at)[i]);
            }
            assert(all[i] == order[j]);
            assert(slots[order[j] as int] is Some);
            assert(after.slots@[order[j] as int] is Some);
        }
        let map = indexed_slots(after.index);
        assert forall|k: Seq<u8>| #[trigger] map.contains_key(k) implies exists|i: int|
            0 <= i < all.len() && #[trigger] key_in(after.slots@, all, i) == k by {
            let j = choose|j: int| 0 <= j < order.len() && #[trigger] key_in(slots, order, j) == k;
            let i = if j == at {
                last
            } else if j < at {
                j
            } else {
                j - 1
            };
            assert(key_in(after.slots@, all, i) == k);
        }
        assert forall|i: int| 0 <= i < after.free@.len() implies (#[trigger] after.free@[i])
            < after.slots@.len() && after.slots@[after.free@[i] as int] is None by {
            assert(slots[self.free@[i] as int] is None);
        }
        let held = self.held();
        assert(found_at(held, key, at));
        lemma_unique(map, slots, order, self.oldest, self.newest);
        let p = place_of(held, key);
        assert(found_at(held, key, p));
        assert(held[p].key == held[at].key);
        assert(after.held() =~= held.remove(at).push(held[at]));
    }

    /// Add a successful lookup result, evicting the oldest entry when full.
    pub fn put(&mut self, key: TrieHash, value: Option<TrieLeaf>)
        requires
            old(self).wf(),
        ensures
            final(self).wf(),
            final(self).limit() == old(self).limit(),
            final(self).signal() == old(self).signal(),
            final(self).seen() == if old(self).limit() > 0 {
                old(self).signal().generation
            } else {
                old(self).seen()
            },
            final(self)@ == if old(self).usable() {
                after_put(old(self)@, old(self).limit(), key@, value_view(value))
            } else {
                old(self)@
            },
    {
        if !self.ready() {
            return;
        }
        self.remove(&key);
        self.make_room(&key);
        self.add_newest(key, value);
    }

    /// Let the oldest result go if the cache is full.
    fn make_room(&mut self, key: &TrieHash)
        requires
            old(self).wf(),
            old(self).capacity > 0,
            !has_key(old(self).held(), key@),
        ensures
            final(self).wf(),
            final(self).held() == if old(self).held().len() == old(self).capacity {
                old(self).held().remove(0)
            } else {
                old(self).held()
            },
            !has_key(final(self).held(), key@),
            final(self).held().len() < final(self).capacity,
            final(self).capacity == old(self).capacity,
            final(self).control == old(self).control,
            final(self).generation == old(self).generation,
    {
        let ghost rest = self.held();
        if self.slots.len() - self.free.len() < self.capacity {
            return;
        }
        match self.oldest {
            Some(oldest) => {
                assert(self.order@[0] == oldest);
                let old_key: TrieHash = match &self.slots[oldest] {
                    Some(entry) => entry.key,
                    None => *key,
                };
                proof {
                    assert(key_in(self.slots@, self.order@, 0) == old_key@);
                    assert(found_at(rest, old_key@, 0));
                    lemma_unique(
                        indexed_slots(self.index),
                        self.slots@,
                        self.order@,
                        self.oldest,
                        self.newest,
                    );
                    let p = place_of(rest, old_key@);
                    assert(found_at(rest, old_key@, p));
                    assert(rest[p].key == rest[0].key);
                }
                self.remove(&old_key);
                proof {
                    assert(self.held() == rest.remove(0));
                    if has_key(self.held(), key@) {
                        let i = place_of(self.held(), key@);
                        assert(found_at(self.held(), key@, i));
                        assert(found_at(rest, key@, i + 1));
                    }
                }
            },
            None => {},
        }
    }

    /// Put a result into a vacant or new slot at the newest end.
    fn add_newest(&mut self, key: TrieHash, value: Option<TrieLeaf>)
        requires
            old(self).wf(),
            old(self).held().len() < old(self).capacity,
            !has_key(old(self).held(), key@),
        ensures
            final(self).wf(),
            final(self).held() == old(self).held().push(
                Found { key: key@, value: value_view(value) },
            ),
            final(self).capacity == old(self).capacity,
            final(self).control == old(self).control,
            final(self).generation == old(self).generation,
    {
        let ghost base = *self;
        let slot: usize = match self.free.pop() {
            Some(slot) => slot,
            None => {
                let fresh: usize = self.slots.len();
                self.slots.push(None);
                fresh
            },
        };
        self.slots.set(slot, Some(CachedResult { key, value, previous: None, next: None }));
        insert_slot(&mut self.index, key.0, slot);
        let ghost filled = *self;
        proof {
            base.lemma_fresh_slot(filled, slot);
        }
        self.append(slot);
        proof {
            base.lemma_added(filled.slots@, *self, slot, key@, value_view(value));
        }
    }

    /// A recycled or new slot is not in use.
    proof fn lemma_fresh_slot(self, filled: Self, slot: usize)
        requires
            self.wf(),
            filled.order == self.order,
            filled.oldest == self.oldest,
            filled.newest == self.newest,
            slot < filled.slots@.len(),
            filled.slots@[slot as int] is Some,
            self.free@.len() > 0 ==> slot == self.free@.last() && filled.slots@.len()
                == self.slots@.len(),
            self.free@.len() == 0 ==> slot == self.slots@.len() && filled.slots@.len()
                == self.slots@.len() + 1,
            forall|s: int|
                0 <= s < self.slots@.len() && s != slot ==> #[trigger] filled.slots@[s]
                    == self.slots@[s],
        ensures
            linked(filled.slots@, filled.order@, filled.oldest, filled.newest),
            forall|i: int| 0 <= i < filled.order@.len() ==> #[trigger] filled.order@[i] != slot,
    {
        assert forall|i: int| 0 <= i < filled.order@.len() implies #[trigger] filled.order@[i]
            != slot by {
            assert(self.slots@[self.order@[i] as int] is Some);
            if self.free@.len() > 0 {
                assert(self.slots@[self.free@[self.free@.len() - 1] as int] is None);
            }
        }
        assert forall|i: int| 0 <= i < filled.order@.len() implies filled.slots@[
        #[trigger] filled.order@[i] as int] == self.slots@[self.order@[i] as int] by {
            assert(filled.order@[i] != slot);
        }
    }

    /// The state after a result was put into a slot and appended.
    #[verifier::spinoff_prover]
    #[verifier::rlimit(60)]
    proof fn lemma_added(
        self,
        filled: Seq<Option<CachedResult>>,
        after: Self,
        slot: usize,
        key: Seq<u8>,
        value: Option<Leaf>,
    )
        requires
            self.wf(),
            self.order@.len() < self.capacity,
            !has_key(self.held(), key),
            self.free@.len() > 0 ==> slot == self.free@.last() && filled.len() == self.slots@.len()
                && after.free@ == self.free@.drop_last(),
            self.free@.len() == 0 ==> slot == self.slots@.len() && filled.len() == self.slots@.len()
                + 1 && after.free@ == self.free@,
            forall|s: int|
                0 <= s < self.slots@.len() && s != slot ==> #[trigger] filled[s] == self.slots@[s],
            filled[slot as int] is Some,
            filled[slot as int]->0.key@ == key,
            value_view(filled[slot as int]->0.value) == value,
            linked(after.slots@, after.order@, after.oldest, after.newest),
            after.order@ == self.order@.push(slot),
            same_results(filled, after.slots@),
            after.capacity == self.capacity,
            indexed_slots(after.index) == indexed_slots(self.index).insert(key, slot),
            forall|i: int| 0 <= i < self.order@.len() ==> #[trigger] self.order@[i] != slot,
        ensures
            after.wf(),
            after.held() == self.held().push(Found { key, value }),
    {
        let slots = self.slots@;
        let order = self.order@;
        let all = after.order@;
        let last = order.len() as int;
        assert forall|i: int| 0 <= i < order.len() implies {
            &&& #[trigger] key_in(after.slots@, all, i) == key_in(slots, order, i)
            &&& value_in(after.slots@, all, i) == value_in(slots, order, i)
            &&& key_in(after.slots@, all, i) != key
        } by {
            assert(all[i] == order[i]);
            assert(slots[order[i] as int] is Some);
            assert(filled[order[i] as int] == slots[order[i] as int]);
            assert(after.slots@[order[i] as int] is Some);
            if key_in(slots, order, i) == key {
                assert(found_at(self.held(), key, i));
            }
        }
        assert(all[last] == slot);
        assert(after.slots@[slot as int] is Some);
        assert(key_in(after.slots@, all, last) == key);
        assert(value_in(after.slots@, all, last) == value);
        let map = indexed_slots(after.index);
        assert forall|i: int| 0 <= i < all.len() implies map.contains_key(
            #[trigger] key_in(after.slots@, all, i),
        ) && map[key_in(after.slots@, all, i)] == all[i] by {
            if i < last {
                assert(indexed_slots(self.index).contains_key(key_in(slots, order, i)));
            }
        }
        assert forall|k: Seq<u8>| #[trigger] map.contains_key(k) implies exists|i: int|
            0 <= i < all.len() && #[trigger] key_in(after.slots@, all, i) == k by {
            if k != key {
                assert(indexed_slots(self.index).contains_key(k));
                let i = choose|i: int|
                    0 <= i < order.len() && #[trigger] key_in(slots, order, i) == k;
                assert(key_in(after.slots@, all, i) == k);
            }
        }
        assert forall|i: int| 0 <= i < after.free@.len() implies (#[trigger] after.free@[i])
            < after.slots@.len() && after.slots@[after.free@[i] as int] is None by {
            assert(after.free@[i] == self.free@[i]);
            assert(slots[self.free@[i] as int] is None);
            assert(self.free@[i] != self.free@[self.free@.len() - 1]);
            assert(filled[self.free@[i] as int] == slots[self.free@[i] as int]);
            assert(after.slots@[self.free@[i] as int] is None);
        }
        assert forall|i: int, j: int|
            0 <= i < after.free@.len() && 0 <= j < after.free@.len() && #[trigger] after.free@[i]
                == #[trigger] after.free@[j] implies i == j by {
            assert(after.free@[i] == self.free@[i]);
            assert(after.free@[j] == self.free@[j]);
        }
        assert(after.held() =~= self.held().push(Found { key, value }));
    }

    /// Evict the changed key and suspend all result reuse until the mutation ends.
    pub fn begin_write(&mut self, key: &TrieHash) -> (guard: ResultCacheGuard)
        requires
            old(self).wf(),
            old(self).signal().writes < usize::MAX,
        ensures
            final(self).wf(),
            final(self).limit() == old(self).limit(),
            final(self).signal().generation == old(self).signal().generation,
            final(self).signal().writes == old(self).signal().writes + 1,
            final(self).seen() == if old(self).limit() > 0 {
                old(self).signal().generation
            } else {
                old(self).seen()
            },
            final(self)@ == without(old(self)@, key@),
            guard.writing,
            !guard.succeeded,
    {
        let _ = self.ready();
        let ghost mid = *self;
        self.remove(key);
        proof {
            if mid.limit() == 0 {
                assert(mid.held() =~= Seq::<Found>::empty());
                assert(!has_key(mid.held(), key@));
                assert(mid@ =~= Seq::<Found>::empty());
                assert(self@ =~= Seq::<Found>::empty());
            }
        }
        self.control.writes = self.control.writes + 1;
        ResultCacheGuard { writing: true, succeeded: false }
    }

    /// End a guarded operation: a failed one discards all results.
    pub fn release(&mut self, guard: ResultCacheGuard)
        requires
            old(self).wf(),
            guard.writing ==> old(self).signal().writes > 0,
        ensures
            final(self).wf(),
            final(self).limit() == old(self).limit(),
            final(self).signal().writes == old(self).signal().writes - if guard.writing {
                1int
            } else {
                0
            },
            final(self).signal().generation == if guard.succeeded {
                old(self).signal().generation
            } else {
                old(self).signal().generation.wrapping_add(1)
            },
            final(self).seen() == old(self).seen(),
            final(self).held() == old(self).held(),
    {
        self.control.release(guard);
    }

    /// Discard results at the next access.
    pub fn invalidate(&mut self)
        requires
            old(self).wf(),
        ensures
            final(self).wf(),
            final(self).limit() == old(self).limit(),
            final(self).signal().writes == old(self).signal().writes,
            final(self).signal().generation == old(self).signal().generation.wrapping_add(1),
            final(self).seen() == old(self).seen(),
            final(self).held() == old(self).held(),
    {
        self.control.invalidate();
    }

    /// Invalidate all results before an untracked low-level node mutation.
    pub fn before_raw_write(&mut self)
        requires
            old(self).wf(),
        ensures
            final(self).wf(),
            final(self).limit() == old(self).limit(),
            final(self).signal() == old(self).signal(),
            final(self).seen() == old(self).seen(),
            final(self)@ == if old(self).signal().writes == 0 {
                Seq::<Found>::empty()
            } else {
                old(self)@
            },
    {
        if self.control.writes == 0 {
            self.clear();
        }
    }

    /// An independent empty cache of the same capacity.
    pub fn fresh_clone(&self) -> (cache: Self)
        ensures
            cache.wf(),
            cache@ == Seq::<Found>::empty(),
            cache.held() == Seq::<Found>::empty(),
            cache.limit() == self.limit(),
            cache.signal().generation == 0,
            cache.signal().writes == 0,
            cache.seen() == 0,
    {
        Self::new(self.capacity, ResultCacheControl::default())
    }

    /// Number of currently usable entries.
    pub fn len(&mut self) -> (n: usize)
        requires
            old(self).wf(),
        ensures
            final(self).wf(),
            final(self)@ == old(self)@,
            final(self).limit() == old(self).limit(),
            final(self).signal() == old(self).signal(),
            final(self).seen() == if old(self).limit() > 0 {
                old(self).signal().generation
            } else {
                old(self).seen()
            },
            n == if old(self).usable() {
                old(self)@.len()
            } else {
                0
            },
            n <= final(self).limit(),
    {
        if self.ready() {
            self.slots.len() - self.free.len()
        } else {
            0
        }
    }

    /// Number of slots in use or kept for reuse, which never exceeds the capacity.
    pub fn slot_count(&self) -> (n: usize)
        requires
            self.wf(),
        ensures
            n == self.slot_total(),
            n <= self.limit(),
    {
        self.slots.len()
    }
}

/// A result that was put into a usable cache is found again, keys stay unique and the capacity is
/// kept.
pub proof fn law_result_put(
    results: Seq<Found>,
    capacity: nat,
    key: Seq<u8>,
    value: Option<Leaf>,
)
    requires
        unique_keys(results),
        results.len() <= capacity,
        capacity > 0,
    ensures
        ({
            let after = after_put(results, capacity, key, value);
            &&& has_key(after, key)
            &&& after[place_of(after, key)].value == value
            &&& unique_keys(after)
            &&& after.len() <= capacity
        }),
{
    let rest = without(results, key);
    let after = after_put(results, capacity, key, value);
    let kept = if rest.len() == capacity {
        rest.remove(0)
    } else {
        rest
    };
    lemma_without(results, key);
    assert(unique_keys(kept)) by {
        if rest.len() == capacity {
            assert forall|i: int, j: int|
                0 <= i < kept.len() && 0 <= j < kept.len() && (#[trigger] kept[i]).key == (
                #[trigger] kept[j]).key implies i == j by {
                assert(rest[i + 1].key == rest[j + 1].key);
            }
        }
    }
    assert forall|i: int| 0 <= i < kept.len() implies (#[trigger] kept[i]).key != key by {
        let j = if rest.len() == capacity {
            i + 1
        } else {
            i
        };
        assert(kept[i] == rest[j]);
        if rest[j].key == key {
            assert(found_at(rest, key, j));
        }
    }
    let last = after.len() - 1;
    assert(found_at(after, key, last));
    assert forall|i: int, j: int|
        0 <= i < after.len() && 0 <= j < after.len() && (#[trigger] after[i]).key == (
        #[trigger] after[j]).key implies i == j by {
        if i < last {
            assert(after[i] == kept[i]);
        }
        if j < last {
            assert(after[j] == kept[j]);
        }
    }
    let p = place_of(after, key);
    assert(found_at(after, key, p));
    assert(after[p].key == after[last].key);
}

proof fn lemma_without(results: Seq<Found>, key: Seq<u8>)
    requires
        unique_keys(results),
    ensures
        unique_keys(without(results, key)),
        !has_key(without(results, key), key),
        without(results, key).len() <= results.len(),
        has_key(results, key) ==> without(results, key).len() == results.len() - 1,
{
    let rest = without(results, key);
    if has_key(results, key) {
        let p = place_of(results, key);
        assert(found_at(results, key, p));
        assert forall|i: int, j: int|
            0 <= i < rest.len() && 0 <= j < rest.len() && (#[trigger] rest[i]).key == (
            #[trigger] rest[j]).key implies i == j by {
            let a = if i < p {
                i
            } else {
                i + 1
            };
            let b = if j < p {
                j
            } else {
                j + 1
            };
            assert(results[a].key == results[b].key);
        }
        if has_key(rest, key) {
            let i = place_of(rest, key);
            assert(found_at(rest, key, i));
            let a = if i < p {
                i
            } else {
                i + 1
            };
            assert(results[a].key == results[p].key);
        }
    }
}

/// Results that a cache held when it was last used are gone after one or more invalidations, and
/// stay gone: they are not brought back by further ones.
pub proof fn law_invalidated_results_are_gone(before: ResultCache, after: ResultCache, n: nat)
    requires
        0 < n < 0x1_0000_0000_0000_0000,
        before.seen() == before.signal().generation,
        after.seen() == before.seen(),
        after.signal().generation == invalidated(before.signal().generation, n),
    ensures
        after@ == Seq::<Found>::empty(),
{
    law_invalidations_count_on(before.signal().generation, n);
}

/// A mutated key's result is gone, whatever the cache held.
pub proof fn law_written_key_is_evicted(results: Seq<Found>, key: Seq<u8>)
    requires
        unique_keys(results),
    ensures
        !has_key(without(results, key), key),
{
    lemma_without(results, key);
}

} // verus!
