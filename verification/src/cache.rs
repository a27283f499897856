//! Bounded caches of recently used values, and the block hash cache.
use std::collections::HashMap;
use std::sync::Arc;
use vstd::prelude::*;
use vstd::std_specs::cmp::PartialEqSpec;

use crate::hash::{copy_id, same_id, MarfTrieId};

verus! {

/// The first entry from `from` on whose key compares equal to `key`.
pub open spec fn first_match<K: PartialEq, V>(entries: Seq<(K, V)>, key: K, from: int) -> Option<int>
    decreases entries.len() - from,
{
    if from < 0 || from >= entries.len() {
        None
    } else if entries[from].0.eq_spec(&key) {
        Some(from)
    } else {
        first_match(entries, key, from + 1)
    }
}

/// The last entry before `to` whose key compares equal to `key`.
pub open spec fn last_match<K: PartialEq, V>(entries: Seq<(K, V)>, key: K, to: int) -> Option<int>
    decreases to,
{
    if to <= 0 || to > entries.len() {
        None
    } else if entries[to - 1].0.eq_spec(&key) {
        Some(to - 1)
    } else {
        last_match(entries, key, to - 1)
    }
}

/// Whether comparing keys is an equivalence.
pub open spec fn keys_are_equivalent<K: PartialEq>() -> bool {
    &&& forall|a: K| #[trigger] a.eq_spec(&a)
    &&& forall|a: K, b: K| #[trigger] a.eq_spec(&b) ==> b.eq_spec(&a)
    &&& forall|a: K, b: K, c: K|
        #![trigger a.eq_spec(&b), b.eq_spec(&c)]
        a.eq_spec(&b) && b.eq_spec(&c) ==> a.eq_spec(&c)
}

/// Whether no two entries have keys that compare equal.
pub open spec fn distinct_keys<K: PartialEq, V>(entries: Seq<(K, V)>) -> bool {
    forall|i: int, j: int|
        0 <= i < entries.len() && 0 <= j < entries.len() && i != j ==> !(
        #[trigger] entries[i].0.eq_spec(&#[trigger] entries[j].0))
}

pub(crate) proof fn lemma_first_match<K: PartialEq, V>(entries: Seq<(K, V)>, key: K, from: int)
    requires
        0 <= from,
    ensures
        match first_match(entries, key, from) {
            Some(i) => from <= i < entries.len() && entries[i].0.eq_spec(&key),
            None => forall|j: int|
                from <= j < entries.len() ==> !(#[trigger] entries[j]).0.eq_spec(&key),
        },
    decreases entries.len() - from,
{
    if from < entries.len() {
        lemma_first_match(entries, key, from + 1);
    }
}

pub(crate) proof fn lemma_last_match<K: PartialEq, V>(entries: Seq<(K, V)>, key: K, to: int)
    requires
        to <= entries.len(),
    ensures
        match last_match(entries, key, to) {
            Some(i) => 0 <= i < to && entries[i].0.eq_spec(&key),
            None => forall|j: int| 0 <= j < to ==> !(#[trigger] entries[j]).0.eq_spec(&key),
        },
    decreases to,
{
    if to > 0 {
        lemma_last_match(entries, key, to - 1);
    }
}

/// A small fixed-capacity cache in most-recently-used order: the entry at index zero is the most
/// recently used one, and the last entry leaves when a new one finds the cache full.
#[derive(Debug)]
pub struct ArrayLru<K, V, const N: usize> {
    /// Entries in most-recently-used order.
    entries: Vec<(K, V)>,
}

/// Entries after the one at `pos` was used.
pub open spec fn promoted<K, V>(entries: Seq<(K, V)>, pos: int) -> Seq<(K, V)> {
    seq![entries[pos]] + entries.remove(pos)
}

impl<K, V, const N: usize> ArrayLru<K, V, N> {
    #[verifier::type_invariant]
    spec fn bounded(self) -> bool {
        self.entries@.len() <= N
    }
}

impl<K: Eq, V, const N: usize> ArrayLru<K, V, N> {
    /// Entries in most-recently-used order.
    pub closed spec fn view(&self) -> Seq<(K, V)> {
        self.entries@
    }

    /// The entries after an insertion.
    pub open spec fn after_put(entries: Seq<(K, V)>, key: K, value: V) -> Seq<(K, V)> {
        match first_match(entries, key, 0) {
            Some(pos) => seq![(key, value)] + entries.remove(pos),
            None => if entries.len() < N {
                seq![(key, value)] + entries
            } else {
                seq![(key, value)] + entries.drop_last()
            },
        }
    }

    /// Construct an empty fixed-capacity cache.
    pub fn new() -> (cache: Self)
        requires
            N > 0,
        ensures
            cache@ == Seq::<(K, V)>::empty(),
    {
        ArrayLru { entries: Vec::new() }
    }

    fn position(&self, key: &K) -> (pos: Option<usize>)
        requires
            K::obeys_eq_spec(),
        ensures
            match first_match(self@, *key, 0) {
                Some(i) => pos matches Some(p) && p == i && p < self@.len(),
                None => pos is None,
            },
    {
        let mut at: usize = 0;
        while at < self.entries.len()
            invariant
                at <= self.entries@.len(),
                K::obeys_eq_spec(),
                first_match(self@, *key, 0) == first_match(self@, *key, at as int),
            decreases self.entries@.len() - at,
        {
            if self.entries[at].0 == *key {
                return Some(at);
            }
            at = at + 1;
        }
        None
    }

    /// Look up by key; a hit becomes the most recently used entry.
    pub fn get(&mut self, key: &K) -> (value: Option<&V>)
        requires
            K::obeys_eq_spec(),
        ensures
            match first_match(old(self)@, *key, 0) {
                Some(pos) => value == Some(&old(self)@[pos].1) && final(self)@ == promoted(
                    old(self)@,
                    pos,
                ),
                None => value is None && final(self)@ == old(self)@,
            },
    {
        proof {
            use_type_invariant(&*self);
        }
        let pos: usize = match self.position(key) {
            Some(pos) => pos,
            None => return None,
        };
        let mut entries: Vec<(K, V)> = Vec::new();
        std::mem::swap(&mut entries, &mut self.entries);
        let entry = entries.remove(pos);
        entries.insert(0, entry);
        assert(entries@ =~= promoted(old(self)@, pos as int));
        self.entries = entries;
        Some(&self.entries[0].1)
    }

    /// Insert a key-value pair as the most recently used entry, in place of an entry with the same
    /// key or, when the cache is full, of the least recently used one.
    pub fn put(&mut self, key: K, value: V)
        requires
            K::obeys_eq_spec(),
            N > 0,
        ensures
            final(self)@ == Self::after_put(old(self)@, key, value),
    {
        proof {
            use_type_invariant(&*self);
        }
        let found = self.position(&key);
        let mut entries: Vec<(K, V)> = Vec::new();
        std::mem::swap(&mut entries, &mut self.entries);
        match found {
            Some(pos) => {
                let _ = entries.remove(pos);
            },
            None => {
                if entries.len() == N {
                    let _ = entries.pop();
                }
            },
        }
        entries.insert(0, (key, value));
        assert(entries@ =~= Self::after_put(old(self)@, key, value));
        self.entries = entries;
    }

    /// Remove all entries.
    pub fn clear(&mut self)
        ensures
            final(self)@ == Seq::<(K, V)>::empty(),
    {
        self.entries = Vec::new();
    }

    /// Get the number of entries currently in the cache.
    pub fn len(&self) -> (n: usize)
        ensures
            n == self@.len(),
            n <= N,
    {
        proof {
            use_type_invariant(self);
        }
        self.entries.len()
    }

    /// Check if the cache contains the specified key.
    pub fn contains_key(&self, key: &K) -> (found: bool)
        requires
            K::obeys_eq_spec(),
        ensures
            found == (first_match(self@, *key, 0) is Some),
    {
        self.position(key).is_some()
    }
}

/// An entry that was put into a fixed-capacity cache is found, no key is held twice, and the cache
/// never exceeds its capacity.
pub proof fn law_array_lru_put<K: Eq, V, const N: usize>(entries: Seq<(K, V)>, key: K, value: V)
    requires
        keys_are_equivalent::<K>(),
        distinct_keys(entries),
        entries.len() <= N,
        N > 0,
    ensures
        ({
            let after = ArrayLru::<K, V, N>::after_put(entries, key, value);
            &&& first_match(after, key, 0) == Some(0int)
            &&& after[0] == (key, value)
            &&& distinct_keys(after)
            &&& after.len() <= N
        }),
{
    lemma_first_match(entries, key, 0);
    let after = ArrayLru::<K, V, N>::after_put(entries, key, value);
    assert(after[0] == (key, value));
    assert(key.eq_spec(&key));
    assert forall|i: int, j: int|
        0 <= i < after.len() && 0 <= j < after.len() && i != j implies !(
    #[trigger] after[i].0.eq_spec(&#[trigger] after[j].0)) by {
        match first_match(entries, key, 0) {
            Some(pos) => {
                let a = if i == 0 {
                    pos
                } else if i - 1 < pos {
                    i - 1
                } else {
                    i
                };
                let b = if j == 0 {
                    pos
                } else if j - 1 < pos {
                    j - 1
                } else {
                    j
                };
                assert(!entries[a].0.eq_spec(&entries[b].0));
                assert(entries[pos].0.eq_spec(&key));
                assert(key.eq_spec(&entries[pos].0));
                if i != 0 {
                    assert(after[i] == entries[a]);
                }
                if j != 0 {
                    assert(after[j] == entries[b]);
                }
                if i == 0 && after[i].0.eq_spec(&after[j].0) {
                    assert(entries[pos].0.eq_spec(&after[j].0));
                }
                if j == 0 && after[i].0.eq_spec(&after[j].0) {
                    assert(after[i].0.eq_spec(&entries[pos].0));
                }
            },
            None => {
                if i != 0 {
                    assert(after[i] == entries[i - 1]);
                }
                if j != 0 {
                    assert(after[j] == entries[j - 1]);
                }
                if i == 0 && after[i].0.eq_spec(&after[j].0) {
                    assert(after[j].0.eq_spec(&key));
                }
            },
        }
    }
}

/// A bounded cache for a small working set of expensive decoded values, in
/// least-recently-used-first order.
#[derive(Debug)]
pub struct SmallLru<K, V> {
    /// Entries ordered from least to most recently used.
    entries: Vec<(K, V)>,
    /// Maximum number of retained entries; zero disables admission.
    capacity: usize,
}

impl<K, V> SmallLru<K, V> {
    #[verifier::type_invariant]
    spec fn bounded(self) -> bool {
        self.entries@.len() <= self.capacity
    }
}

impl<K: Eq, V> SmallLru<K, V> {
    /// Entries ordered from least to most recently used.
    pub closed spec fn view(&self) -> Seq<(K, V)> {
        self.entries@
    }

    /// Maximum number of retained entries.
    pub closed spec fn limit(&self) -> nat {
        self.capacity as nat
    }

    /// The entries after an insertion.
    pub open spec fn after_put(entries: Seq<(K, V)>, limit: nat, key: K, value: V) -> Seq<(K, V)> {
        if limit == 0 {
            entries
        } else {
            match last_match(entries, key, entries.len() as int) {
                Some(pos) => entries.remove(pos).push((key, value)),
                None => if entries.len() == limit {
                    entries.remove(0).push((key, value))
                } else {
                    entries.push((key, value))
                },
            }
        }
    }

    /// Create an empty cache.
    pub fn new(capacity: usize) -> (cache: Self)
        ensures
            cache@ == Seq::<(K, V)>::empty(),
            cache.limit() == capacity,
    {
        SmallLru { entries: Vec::new(), capacity }
    }

    /// Whether the cache can admit entries.
    pub fn enabled(&self) -> (enabled: bool)
        ensures
            enabled == (self.limit() > 0),
    {
        self.capacity > 0
    }

    fn rposition(&self, key: &K) -> (pos: Option<usize>)
        requires
            K::obeys_eq_spec(),
        ensures
            match last_match(self@, *key, self@.len() as int) {
                Some(i) => pos matches Some(p) && p == i && p < self@.len(),
                None => pos is None,
            },
    {
        let mut to: usize = self.entries.len();
        while to > 0
            invariant
                to <= self.entries@.len(),
                K::obeys_eq_spec(),
                last_match(self@, *key, self@.len() as int) == last_match(self@, *key, to as int),
            decreases to,
        {
            if self.entries[to - 1].0 == *key {
                return Some(to - 1);
            }
            to = to - 1;
        }
        None
    }

    /// Whether a key is present, without changing recency.
    pub fn contains_key(&self, key: &K) -> (found: bool)
        requires
            K::obeys_eq_spec(),
        ensures
            found == (last_match(self@, *key, self@.len() as int) is Some),
    {
        self.rposition(key).is_some()
    }

    /// Get an entry and promote it to most recently used.
    pub fn get(&mut self, key: &K) -> (value: Option<&V>)
        requires
            K::obeys_eq_spec(),
        ensures
            final(self).limit() == old(self).limit(),
            match last_match(old(self)@, *key, old(self)@.len() as int) {
                Some(pos) => value == Some(&old(self)@[pos].1) && final(self)@ == old(self)@.remove(
                    pos,
                ).push(old(self)@[pos]),
                None => value is None && final(self)@ == old(self)@,
            },
    {
        proof {
            use_type_invariant(&*self);
        }
        let pos: usize = match self.rposition(key) {
            Some(pos) => pos,
            None => return None,
        };
        let mut entries: Vec<(K, V)> = Vec::new();
        std::mem::swap(&mut entries, &mut self.entries);
        let entry = entries.remove(pos);
        entries.push(entry);
        self.entries = entries;
        let last: usize = self.entries.len() - 1;
        Some(&self.entries[last].1)
    }

    /// Insert or update an entry, evicting the least recently used when full.
    pub fn put(&mut self, key: K, value: V)
        requires
            K::obeys_eq_spec(),
        ensures
            final(self).limit() == old(self).limit(),
            final(self)@ == Self::after_put(old(self)@, old(self).limit(), key, value),
    {
        proof {
            use_type_invariant(&*self);
        }
        if !self.enabled() {
            return;
        }
        let found = self.rposition(&key);
        let mut entries: Vec<(K, V)> = Vec::new();
        std::mem::swap(&mut entries, &mut self.entries);
        match found {
            Some(pos) => {
                let _ = entries.remove(pos);
            },
            None => {
                if entries.len() == self.capacity {
                    let _ = entries.remove(0);
                }
            },
        }
        entries.push((key, value));
        self.entries = entries;
    }

    /// Remove all entries.
    pub fn clear(&mut self)
        ensures
            final(self)@ == Seq::<(K, V)>::empty(),
            final(self).limit() == old(self).limit(),
    {
        self.entries = Vec::new();
    }

    /// Number of retained entries.
    pub fn len(&self) -> (n: usize)
        ensures
            n == self@.len(),
            n <= self.limit(),
    {
        proof {
            use_type_invariant(self);
        }
        self.entries.len()
    }
}

/// An entry that was put into an enabled cache is found with its value, no key is held twice, and
/// the cache never exceeds its capacity.
pub proof fn law_small_lru_put<K: Eq, V>(entries: Seq<(K, V)>, limit: nat, key: K, value: V)
    requires
        keys_are_equivalent::<K>(),
        distinct_keys(entries),
        entries.len() <= limit,
        limit > 0,
    ensures
        ({
            let after = SmallLru::<K, V>::after_put(entries, limit, key, value);
            &&& after.len() <= limit
            &&& last_match(after, key, after.len() as int) == Some(after.len() - 1)
            &&& after.last() == (key, value)
            &&& distinct_keys(after)
        }),
{
    let total = entries.len() as int;
    lemma_last_match(entries, key, total);
    assert(key.eq_spec(&key));
    let after = SmallLru::<K, V>::after_put(entries, limit, key, value);
    let last = after.len() - 1;
    let gone = match last_match(entries, key, total) {
        Some(pos) => pos,
        None => if total == limit {
            0
        } else {
            total
        },
    };
    assert forall|i: int, j: int|
        0 <= i < after.len() && 0 <= j < after.len() && i != j implies !(
    #[trigger] after[i].0.eq_spec(&#[trigger] after[j].0)) by {
        let a = if i < gone {
            i
        } else {
            i + 1
        };
        let b = if j < gone {
            j
        } else {
            j + 1
        };
        if i < last {
            assert(after[i] == entries[a]);
            assert(!entries[a].0.eq_spec(&key)) by {
                if entries[a].0.eq_spec(&key) && gone < total {
                    assert(key.eq_spec(&entries[gone].0));
                }
            }
        }
        if j < last {
            assert(after[j] == entries[b]);
            assert(!entries[b].0.eq_spec(&key)) by {
                if entries[b].0.eq_spec(&key) && gone < total {
                    assert(key.eq_spec(&entries[gone].0));
                }
            }
            assert(!key.eq_spec(&entries[b].0));
        }
    }
}

/// Recency state and the generation by which admissions that race with an invalidation are
/// rejected.
#[derive(Debug)]
pub struct SharedLru<K, V> {
    /// Changes with every invalidation.
    generation: u64,
    /// Resolved values ordered by recency; values outlive eviction.
    entries: SmallLru<K, Arc<V>>,
}

impl<K: Eq, V> SharedLru<K, V> {
    /// Entries ordered from least to most recently used.
    pub closed spec fn view(&self) -> Seq<(K, Arc<V>)> {
        self.entries@
    }

    /// Maximum number of retained entries.
    pub closed spec fn limit(&self) -> nat {
        self.entries.limit()
    }

    /// The number of invalidations so far, which starts over when it is past what it can count.
    pub closed spec fn epoch(&self) -> u64 {
        self.generation
    }

    /// Create an empty cache.
    pub fn new(capacity: usize) -> (cache: Self)
        ensures
            cache@ == Seq::<(K, Arc<V>)>::empty(),
            cache.limit() == capacity,
            cache.epoch() == 0,
    {
        SharedLru { generation: 0, entries: SmallLru::new(capacity) }
    }

    /// Whether this cache accepts entries.
    pub fn enabled(&self) -> (enabled: bool)
        ensures
            enabled == (self.limit() > 0),
    {
        self.entries.enabled()
    }

    /// Promote a hit and return an independent value handle plus the admission generation.
    pub fn get(&mut self, key: &K) -> (out: (u64, Option<Arc<V>>))
        requires
            K::obeys_eq_spec(),
        ensures
            final(self).limit() == old(self).limit(),
            final(self).epoch() == old(self).epoch(),
            if old(self).limit() == 0 {
                out.0 == 0 && out.1 is None && final(self)@ == old(self)@
            } else {
                &&& out.0 == old(self).epoch()
                &&& match last_match(old(self)@, *key, old(self)@.len() as int) {
                    Some(pos) => out.1 == Some(old(self)@[pos].1) && final(self)@
                        == old(self)@.remove(pos).push(old(self)@[pos]),
                    None => out.1 is None && final(self)@ == old(self)@,
                }
            },
    {
        if !self.enabled() {
            return (0, None);
        }
        let generation: u64 = self.generation;
        match self.entries.get(key) {
            Some(value) => (generation, Some(value.clone())),
            None => (generation, None),
        }
    }

    /// Admit a loaded value only if no invalidation occurred while loading it.
    pub fn put_if_current(&mut self, generation: u64, key: K, value: Arc<V>)
        requires
            K::obeys_eq_spec(),
        ensures
            final(self).limit() == old(self).limit(),
            final(self).epoch() == old(self).epoch(),
            final(self)@ == if old(self).limit() > 0 && old(self).epoch() == generation {
                SmallLru::<K, Arc<V>>::after_put(old(self)@, old(self).limit(), key, value)
            } else {
                old(self)@
            },
    {
        if !self.enabled() {
            return;
        }
        if self.generation == generation {
            self.entries.put(key, value);
        }
    }

    /// Invalidate entries and pending admissions.
    pub fn clear(&mut self)
        ensures
            final(self)@ == Seq::<(K, Arc<V>)>::empty(),
            final(self).limit() == old(self).limit(),
            final(self).epoch() == old(self).epoch().wrapping_add(1),
    {
        self.generation = self.generation.wrapping_add(1);
        self.entries.clear();
    }

    /// Invalidate on a failed or implicitly rolled-back storage transaction.
    pub fn rollback_guard(&self) -> (guard: SharedLruGuard)
        ensures
            !guard.kept(),
    {
        SharedLruGuard { succeeded: false }
    }

    /// End a guarded transaction: the cache is cleared unless the transaction succeeded.
    pub fn release(&mut self, guard: SharedLruGuard)
        ensures
            final(self).limit() == old(self).limit(),
            if guard.kept() {
                final(self)@ == old(self)@ && final(self).epoch() == old(self).epoch()
            } else {
                final(self)@ == Seq::<(K, Arc<V>)>::empty() && final(self).epoch()
                    == old(self).epoch().wrapping_add(1)
            },
    {
        if !guard.succeeded {
            self.clear();
        }
    }

    /// Number of retained entries.
    pub fn len(&self) -> (n: usize)
        ensures
            n == self@.len(),
            n <= self.limit(),
    {
        self.entries.len()
    }
}

/// A count of invalidations after `n` more of them.
pub open spec fn invalidated(epoch: u64, n: nat) -> u64
    decreases n,
{
    if n == 0 {
        epoch
    } else {
        invalidated(epoch, (n - 1) as nat).wrapping_add(1)
    }
}

proof fn lemma_invalidated(epoch: u64, n: nat)
    ensures
        invalidated(epoch, n) == (epoch + n) % 0x1_0000_0000_0000_0000,
    decreases n,
{
    if n > 0 {
        lemma_invalidated(epoch, (n - 1) as nat);
    }
}

/// The count after one or more invalidations is another one, unless there were so many that it
/// started over.
pub proof fn law_invalidations_count_on(epoch: u64, n: nat)
    requires
        0 < n < 0x1_0000_0000_0000_0000,
    ensures
        invalidated(epoch, n) != epoch,
{
    lemma_invalidated(epoch, n);
}

/// A value that was loaded before one or more invalidations is not admitted after them.
pub proof fn law_stale_admission_is_rejected<K: Eq, V>(
    before: SharedLru<K, V>,
    after: SharedLru<K, V>,
    n: nat,
    admitted: SharedLru<K, V>,
    key: K,
    value: Arc<V>,
)
    requires
        0 < n < 0x1_0000_0000_0000_0000,
        after.epoch() == invalidated(before.epoch(), n),
        admitted@ == if after.limit() > 0 && after.epoch() == before.epoch() {
            SmallLru::<K, Arc<V>>::after_put(after@, after.limit(), key, value)
        } else {
            after@
        },
    ensures
        admitted@ == after@,
{
    law_invalidations_count_on(before.epoch(), n);
}

/// Keeps a shared cache only if its storage transaction commits successfully.
#[derive(Debug)]
pub struct SharedLruGuard {
    /// Whether the transaction committed successfully.
    succeeded: bool,
}

impl SharedLruGuard {
    /// Whether the transaction committed successfully.
    pub closed spec fn kept(&self) -> bool {
        self.succeeded
    }

    /// Preserve cached entries after successful commit.
    pub fn succeed(self) -> (guard: Self)
        ensures
            guard.kept(),
    {
        SharedLruGuard { succeeded: true }
    }
}

/// Cache of block hash and block ID lookups; entries are never evicted.
pub struct BlockHashCache<T: MarfTrieId> {
    /// Block identity by local ID.
    hashes: HashMap<u32, T>,
    /// Identities and their local IDs, newest last.
    ids: Vec<(T, u32)>,
}

/// The ID that was stored last under an identity.
pub open spec fn newest_id<T: MarfTrieId>(ids: Seq<(T, u32)>, hash: Seq<u8>) -> Option<u32>
    decreases ids.len(),
{
    if ids.len() == 0 {
        None
    } else if ids.last().0.id_bytes() == hash {
        Some(ids.last().1)
    } else {
        newest_id(ids.drop_last(), hash)
    }
}

impl<T: MarfTrieId> BlockHashCache<T> {
    /// The identity of an ID.
    pub closed spec fn hash_of(&self, id: u32) -> Option<Seq<u8>> {
        if self.hashes@.contains_key(id) {
            Some(self.hashes@[id].id_bytes())
        } else {
            None
        }
    }

    /// The ID that was stored last under an identity.
    pub closed spec fn id_of(&self, hash: Seq<u8>) -> Option<u32> {
        newest_id(self.ids@, hash)
    }

    /// What storing a block changes.
    pub open spec fn stored(before: &Self, after: &Self, id: u32, hash: Seq<u8>) -> bool {
        &&& forall|i: u32| #[trigger]
            after.hash_of(i) == if i == id {
                Some(hash)
            } else {
                before.hash_of(i)
            }
        &&& forall|h: Seq<u8>| #[trigger]
            after.id_of(h) == if h == hash {
                Some(id)
            } else {
                before.id_of(h)
            }
    }

    /// Whether an ID that is found for an identity has that identity, and an identity that is found
    /// has an ID.
    pub open spec fn directions_agree(&self) -> bool {
        &&& forall|h: Seq<u8>| #[trigger]
            self.id_of(h) matches Some(id) ==> self.hash_of(id) == Some(h)
        &&& forall|i: u32| #[trigger]
            self.hash_of(i) matches Some(hash) ==> self.id_of(hash) is Some
    }

    /// Whether identities and IDs lead to one another.
    pub open spec fn one_to_one(&self) -> bool {
        &&& self.directions_agree()
        &&& forall|i: u32| #[trigger]
            self.hash_of(i) matches Some(hash) ==> self.id_of(hash) == Some(i)
    }

    /// An empty cache.
    pub fn new() -> (cache: Self)
        ensures
            forall|i: u32| #[trigger] cache.hash_of(i) is None,
            forall|h: Seq<u8>| #[trigger] cache.id_of(h) is None,
            cache.one_to_one(),
    {
        BlockHashCache { hashes: HashMap::new(), ids: Vec::new() }
    }

    /// Cache a block hash provided its ID.
    pub fn store_block_hash(&mut self, block_id: u32, block_hash: T)
        requires
            old(self).hash_of(block_id) is None,
        ensures
            Self::stored(old(self), final(self), block_id, block_hash.id_bytes()),
    {
        broadcast use vstd::std_specs::hash::group_hash_axioms;

        self.ids.push((copy_id(&block_hash), block_id));
        self.hashes.insert(block_id, block_hash);
        proof {
            assert(self.ids@.drop_last() =~= old(self).ids@);
        }
    }

    /// Get a reference to a block hash, given the ID.
    pub fn ref_block_hash(&self, block_id: u32) -> (hash: Option<&T>)
        ensures
            match self.hash_of(block_id) {
                Some(bytes) => hash matches Some(h) && h.id_bytes() == bytes,
                None => hash is None,
            },
    {
        broadcast use vstd::std_specs::hash::group_hash_axioms;

        self.hashes.get(&block_id)
    }

    /// Get a block ID provided its hash.
    pub fn load_block_id(&self, block_hash: &T) -> (id: Option<u32>)
        ensures
            id == self.id_of(block_hash.id_bytes()),
    {
        let mut to: usize = self.ids.len();
        assert(self.ids@.subrange(0, to as int) =~= self.ids@);
        while to > 0
            invariant
                to <= self.ids@.len(),
                newest_id(self.ids@, block_hash.id_bytes()) == newest_id(
                    self.ids@.subrange(0, to as int),
                    block_hash.id_bytes(),
                ),
            decreases to,
        {
            assert(self.ids@.subrange(0, to as int).drop_last() =~= self.ids@.subrange(0, to - 1));
            if same_id(&self.ids[to - 1].0, block_hash) {
                return Some(self.ids[to - 1].1);
            }
            to = to - 1;
        }
        None
    }

    /// Take in the outcome of a lookup that was made for an uncached ID; a failed lookup changes
    /// nothing.
    pub fn take_in<E>(&mut self, id: u32, found: Result<T, E>) -> (done: Result<(), E>)
        requires
            old(self).hash_of(id) is None,
        ensures
            match found {
                Ok(hash) => done is Ok && Self::stored(
                    old(self),
                    final(self),
                    id,
                    hash.id_bytes(),
                ),
                Err(e) => done == Err::<(), E>(e) && *final(self) == *old(self),
            },
    {
        match found {
            Ok(hash) => {
                self.store_block_hash(id, hash);
                Ok(())
            },
            Err(e) => Err(e),
        }
    }

    /// Get the cached entry for a block hash, given its ID, or, if not found, use `lookup` to get
    /// the corresponding block hash and store it in the cache.
    pub fn get_block_hash_caching<E, F: FnOnce(u32) -> Result<T, E>>(
        &mut self,
        id: u32,
        lookup: F,
    ) -> (out: Result<&T, E>)
        requires
            call_requires(lookup, (id,)),
        ensures
            match old(self).hash_of(id) {
                Some(bytes) => (out matches Ok(hash) && hash.id_bytes() == bytes) && *final(self)
                    == *old(self),
                None => exists|found: Result<T, E>| #[trigger]
                    call_ensures(lookup, (id,), found) && match found {
                        Ok(hash) => (out matches Ok(h) && h.id_bytes() == hash.id_bytes())
                            && Self::stored(old(self), final(self), id, hash.id_bytes()),
                        Err(e) => (out matches Err(x) && x == e) && *final(self) == *old(self),
                    },
            },
    {
        broadcast use vstd::std_specs::hash::group_hash_axioms;

        if !self.hashes.contains_key(&id) {
            let found = lookup(id);
            match self.take_in(id, found) {
                Ok(()) => {},
                Err(e) => return Err(e),
            }
        }
        assert(self.hash_of(id) is Some);
        Ok(self.hashes.get(&id).unwrap())
    }
}

/// The two directions of lookup agree from the start, and no stored block changes that. They are
/// inverse to each other as long as no identity is stored under a second ID.
pub proof fn law_block_hash_directions_agree<T: MarfTrieId>(
    before: &BlockHashCache<T>,
    after: &BlockHashCache<T>,
    id: u32,
    hash: Seq<u8>,
)
    requires
        before.directions_agree(),
        before.hash_of(id) is None,
        BlockHashCache::stored(before, after, id, hash),
    ensures
        after.directions_agree(),
        before.one_to_one() && before.id_of(hash) is None ==> after.one_to_one(),
{
    assert forall|h: Seq<u8>| (#[trigger] after.id_of(h)) is Some implies after.hash_of(
        after.id_of(h)->0,
    ) == Some(h) by {
        if h != hash {
            assert(before.id_of(h) is Some);
        }
    }
    assert forall|i: u32| (#[trigger] after.hash_of(i)) is Some implies after.id_of(
        after.hash_of(i)->0,
    ) is Some by {
        if i != id {
            assert(before.hash_of(i) is Some);
        }
    }
}

} // verus!
