//! What caches keep, and what they give up.
use vstd::prelude::*;

use vstd::std_specs::cmp::PartialEqSpec;

use crate::cache::{
    first_match, last_match, lemma_first_match, lemma_last_match, newest_id, promoted, ArrayLru,
    SmallLru,
};
use crate::hash::MarfTrieId;
use crate::leaf::Leaf;
use crate::result_cache::{
    after_get, after_put, found_at, has_key, place_of, unique_keys, without, Found, ResultCache,
};

verus! {

/// Whether a cache that lists its newest entry first lost at most the entry at a place, and all
/// others follow a new one in their order.
pub open spec fn follow<K, V>(entries: Seq<(K, V)>, after: Seq<(K, V)>, gone: int) -> bool {
    &&& after.len() == 1 + entries.len() - (if gone < entries.len() { 1int } else { 0 })
    &&& forall|i: int| 0 <= i < gone && i < entries.len() ==> after[i + 1] == #[trigger] entries[i]
    &&& forall|i: int| gone < i < entries.len() ==> after[i] == #[trigger] entries[i]
}

/// Whether a cache that lists its newest entry last lost at most the entry at a place, and all
/// others stand before a new one in their order.
pub open spec fn precede<K, V>(entries: Seq<(K, V)>, after: Seq<(K, V)>, gone: int) -> bool {
    &&& after.len() == 1 + entries.len() - (if gone < entries.len() { 1int } else { 0 })
    &&& forall|i: int| 0 <= i < gone && i < entries.len() ==> after[i] == #[trigger] entries[i]
    &&& forall|i: int| gone < i < entries.len() ==> after[i - 1] == #[trigger] entries[i]
}

/// A new entry costs a fixed-size cache the entry under the same key, or else, if it is full, the
/// one that was used least recently. It keeps all others, in their order.
pub proof fn law_array_lru_keeps_recent<K: Eq, V, const N: usize>(
    entries: Seq<(K, V)>,
    key: K,
    value: V,
) -> (gone: int)
    requires
        entries.len() <= N,
        N > 0,
    ensures
        0 <= gone <= entries.len(),
        follow(entries, ArrayLru::<K, V, N>::after_put(entries, key, value), gone),
        ArrayLru::<K, V, N>::after_put(entries, key, value)[0] == (key, value),
        gone < entries.len() ==> entries[gone].0.eq_spec(&key) || (gone == entries.len() - 1
            && entries.len() == N && forall|i: int|
            0 <= i < entries.len() ==> !(#[trigger] entries[i]).0.eq_spec(&key)),
        gone == entries.len() ==> entries.len() < N && forall|i: int|
            0 <= i < entries.len() ==> !(#[trigger] entries[i]).0.eq_spec(&key),
{
    lemma_first_match(entries, key, 0);
    match first_match(entries, key, 0) {
        Some(pos) => pos,
        None => if entries.len() < N {
            entries.len() as int
        } else {
            entries.len() - 1
        },
    }
}

/// The same of a cache of a chosen size; one of no size keeps nothing new.
pub proof fn law_small_lru_keeps_recent<K: Eq, V>(
    entries: Seq<(K, V)>,
    limit: nat,
    key: K,
    value: V,
) -> (gone: int)
    requires
        entries.len() <= limit,
    ensures
        limit == 0 ==> SmallLru::<K, V>::after_put(entries, limit, key, value) == entries,
        limit > 0 ==> {
            let after = SmallLru::<K, V>::after_put(entries, limit, key, value);
            &&& 0 <= gone <= entries.len()
            &&& precede(entries, after, gone)
            &&& after.last() == (key, value)
            &&& gone < entries.len() ==> entries[gone].0.eq_spec(&key) || (gone == 0
                && entries.len() == limit && forall|i: int|
                0 <= i < entries.len() ==> !(#[trigger] entries[i]).0.eq_spec(&key))
            &&& gone == entries.len() ==> entries.len() < limit && forall|i: int|
                0 <= i < entries.len() ==> !(#[trigger] entries[i]).0.eq_spec(&key)
        },
{
    lemma_last_match(entries, key, entries.len() as int);
    match last_match(entries, key, entries.len() as int) {
        Some(pos) => pos,
        None => if entries.len() < limit {
            entries.len() as int
        } else {
            0
        },
    }
}

/// Using an entry makes it the newest and changes nothing else: of two or more entries, it is then
/// not the one that the next new entry costs.
pub proof fn law_used_entry_stays<K: Eq, V, const N: usize>(
    entries: Seq<(K, V)>,
    pos: int,
    key: K,
    value: V,
)
    requires
        0 <= pos < entries.len() <= N,
        N > 1,
        forall|i: int| 0 <= i < entries.len() ==> !(#[trigger] entries[i]).0.eq_spec(&key),
    ensures
        promoted(entries, pos)[0] == entries[pos],
        follow(entries, promoted(entries, pos), pos),
        ArrayLru::<K, V, N>::after_put(promoted(entries, pos), key, value)[1] == entries[pos],
{
    let used = promoted(entries, pos);
    lemma_first_match(used, key, 0);
    match first_match(used, key, 0) {
        Some(at) => {
            let from = if at == 0 {
                pos
            } else if at - 1 < pos {
                at - 1
            } else {
                at
            };
            assert(used[at] == entries[from]);
        },
        None => {},
    }
}

/// A new result costs a cache the result under the same key, or else, if it is full, the oldest one.
/// It keeps all others, in their order.
pub proof fn law_results_keep_recent(
    results: Seq<Found>,
    capacity: nat,
    key: Seq<u8>,
    value: Option<Leaf>,
    i: int,
)
    requires
        unique_keys(results),
        results.len() <= capacity,
        capacity > 0,
        0 <= i < results.len(),
    ensures
        ({
            let after = after_put(results, capacity, key, value);
            &&& after.last() == (Found { key, value })
            &&& results[i].key != key && (i > 0 || results.len() < capacity || has_key(results, key))
                ==> after.contains(results[i])
            &&& !has_key(results, key) && results.len() < capacity ==> after.len() == results.len()
                + 1
            &&& !has_key(results, key) && results.len() == capacity ==> after.len()
                == results.len() && !has_key(after.drop_last(), results[0].key)
            &&& has_key(results, key) ==> after.len() == results.len()
        }),
{
    let after = after_put(results, capacity, key, value);
    let rest = without(results, key);
    if has_key(results, key) {
        let p = place_of(results, key);
        assert(found_at(results, key, p));
        if results[i].key != key {
            let at = if i < p {
                i
            } else {
                i - 1
            };
            assert(after[at] == results[i]);
        }
    } else {
        if results.len() == capacity {
            if i > 0 {
                assert(after[i - 1] == results[i]);
            }
            let others = after.drop_last();
            if has_key(others, results[0].key) {
                let j = place_of(others, results[0].key);
                assert(found_at(others, results[0].key, j));
                assert(others[j] == results[j + 1]);
                assert(results[0].key == results[j + 1].key);
            }
        } else {
            assert(after[i] == results[i]);
        }
    }
}

/// Looking a key up makes its result the newest and changes nothing else.
pub proof fn law_lookup_makes_newest(results: Seq<Found>, key: Seq<u8>, i: int)
    requires
        unique_keys(results),
        0 <= i < results.len(),
    ensures
        after_get(results, key).len() == results.len(),
        after_get(results, key).contains(results[i]),
        results[i].key == key ==> after_get(results, key).last() == results[i],
        !has_key(results, key) ==> after_get(results, key) == results,
{
    let after = after_get(results, key);
    if has_key(results, key) {
        let p = place_of(results, key);
        assert(found_at(results, key, p));
        if i < p {
            assert(after[i] == results[i]);
        } else if i == p {
            assert(after[after.len() - 1] == results[i]);
        } else {
            assert(after[i - 1] == results[i]);
        }
    } else {
        assert(after[i] == results[i]);
        if results[i].key == key {
            assert(found_at(results, key, i));
        }
    }
}

/// Giving up a key's result leaves all others in place.
pub proof fn law_eviction_keeps_others(results: Seq<Found>, key: Seq<u8>, i: int)
    requires
        unique_keys(results),
        0 <= i < results.len(),
        results[i].key != key,
    ensures
        without(results, key).contains(results[i]),
        without(results, key).len() == results.len() - (if has_key(results, key) { 1int } else { 0 }),
{
    if has_key(results, key) {
        let p = place_of(results, key);
        assert(found_at(results, key, p));
        let rest = without(results, key);
        let at = if i < p {
            i
        } else {
            i - 1
        };
        assert(rest[at] == results[i]);
    } else {
        assert(without(results, key)[i] == results[i]);
    }
}

/// Results are used exactly while nothing is being written, by a cache that has room for any.
pub proof fn law_results_rest_while_writing(cache: ResultCache)
    ensures
        cache.signal().writes > 0 ==> !cache.usable(),
        cache.limit() == 0 ==> !cache.usable(),
        cache.limit() > 0 && cache.signal().writes == 0 ==> cache.usable(),
{
}

/// Results that were held before an invalidation that the cache has not seen are not among its
/// results, and otherwise all are.
pub proof fn law_unseen_invalidation_hides_results(cache: ResultCache)
    ensures
        cache.seen() != cache.signal().generation ==> cache@.len() == 0,
        cache.seen() == cache.signal().generation ==> cache@ == cache.held(),
{
}

/// The ID of an identity is the one that was stored last under it; storing another identity does not
/// change it.
pub proof fn law_newest_id_is_stored_last<T: MarfTrieId>(ids: Seq<(T, u32)>, block: T, id: u32, hash: Seq<u8>)
    ensures
        newest_id(ids.push((block, id)), block.id_bytes()) == Some(id),
        hash != block.id_bytes() ==> newest_id(ids.push((block, id)), hash) == newest_id(ids, hash),
        newest_id(Seq::<(T, u32)>::empty(), hash) is None,
        newest_id(ids, hash) matches Some(found) ==> exists|i: int|
            0 <= i < ids.len() && (#[trigger] ids[i]).0.id_bytes() == hash && ids[i].1 == found,
    decreases ids.len(),
{
    assert(ids.push((block, id)).drop_last() =~= ids);
    if ids.len() > 0 {
        let front = ids.drop_last();
        law_newest_id_is_stored_last(front, block, id, hash);
        if ids.last().0.id_bytes() == hash {
            assert(ids[ids.len() - 1].0.id_bytes() == hash);
        } else if newest_id(ids, hash) is Some {
            let found = newest_id(ids, hash)->0;
            let i = choose|i: int|
                0 <= i < front.len() && (#[trigger] front[i]).0.id_bytes() == hash && front[i].1
                    == found;
            assert(ids[i] == front[i]);
        }
    }
}

} // verus!
