use std::collections::VecDeque;
use std::sync::Arc;

use marf_index::cache::{ArrayLru, BlockHashCache, SharedLru, SmallLru};
use marf_index::counters::Counters;
use marf_index::hash::{StacksBlockId, TrieHash};
use marf_index::leaf::TrieLeaf;
use marf_index::result_cache::{ResultCache, ResultCacheControl};
use marf_index::value::MARFValue;

/// Create a logical-only leaf for recency and invalidation tests.
fn leaf(value: u32) -> TrieLeaf {
    TrieLeaf::from_value(&[], MARFValue::from_u32(value))
}

/// Cached absence, eviction, invalidation and slot reuse agree with a simple LRU model.
#[test]
fn indexed_lru_matches_model() {
    let mut cache = ResultCache::new(7, ResultCacheControl::default());
    let mut model: VecDeque<(TrieHash, Option<TrieLeaf>)> = VecDeque::new();
    let mut seed = 71u64;
    for _ in 0..20_000 {
        seed = seed.wrapping_mul(6364136223846793005).wrapping_add(1);
        let key = TrieHash([(seed >> 32) as u8 % 19; 32]);
        let pos = model.iter().position(|(k, _)| *k == key);
        match seed % 4 {
            0 => {
                let expected = pos.map(|p| {
                    let entry = model.remove(p).unwrap();
                    let value = entry.1.clone();
                    model.push_back(entry);
                    value
                });
                assert_eq!(cache.get(&key), expected);
            }
            1 | 2 => {
                let value = if seed % 4 == 1 {
                    Some(leaf(seed as u32))
                } else {
                    None
                };
                if let Some(p) = pos {
                    model.remove(p);
                }
                if model.len() == 7 {
                    model.pop_front();
                }
                model.push_back((key, value.clone()));
                cache.put(key, value);
            }
            _ => {
                if let Some(p) = pos {
                    model.remove(p);
                }
                let guard = cache.begin_write(&key);
                assert_eq!(cache.get(&key), None);
                cache.put(key, None);
                cache.release(guard.succeed());
            }
        }
        assert_eq!(cache.len(), model.len());
        assert!(cache.slot_count() <= 7);
    }
}

/// Failed mutations, rollback guards and clones discard unrelated entries too.
#[test]
fn failed_writes_and_clones_discard_results() {
    let mut cache = ResultCache::new(8, ResultCacheControl::default());
    let a = TrieHash([1; 32]);
    let b = TrieHash([2; 32]);
    cache.put(a, None);
    cache.put(b, Some(leaf(2)));
    let guard = cache.begin_write(&a);
    assert_eq!(cache.get(&b), None);
    cache.release(guard.succeed());
    assert_eq!(cache.get(&b), Some(Some(leaf(2))));
    assert_eq!(cache.fresh_clone().len(), 0);
    let guard = cache.control().guard();
    cache.release(guard);
    assert_eq!(cache.len(), 0);
    assert_eq!(cache.get(&b), None);
    cache.put(b, None);
    let guard = cache.begin_write(&a);
    cache.release(guard);
    assert_eq!(cache.len(), 0);
    cache.put(a, None);
    cache.before_raw_write();
    assert_eq!(cache.len(), 0);
    cache.put(a, None);
    cache.invalidate();
    assert_eq!(cache.get(&a), None);
    let mut disabled = ResultCache::default();
    disabled.put(a, None);
    assert_eq!(disabled.get(&a), None);
}

/// Invalidations between two uses of a cache discard its results however many there are.
#[test]
fn repeated_invalidations_do_not_bring_results_back() {
    let a = TrieHash([1; 32]);
    for count in 1..=5u64 {
        let mut cache = ResultCache::new(8, ResultCacheControl::default());
        cache.put(a, None);
        for _ in 0..count {
            cache.invalidate();
        }
        assert_eq!(cache.control().generation, count);
        assert_eq!(cache.get(&a), None);
        let mut control = ResultCacheControl::default();
        for _ in 0..count {
            let guard = control.guard();
            control.release(guard);
        }
        assert_eq!(control.generation, count);
        let mut shared: SharedLru<u32, u32> = SharedLru::new(2);
        let (generation, _) = shared.get(&1);
        for _ in 0..count {
            let guard = shared.rollback_guard();
            shared.release(guard);
        }
        shared.put_if_current(generation, 1, Arc::new(10));
        assert_eq!(shared.len(), 0);
        assert_eq!(shared.get(&1), (generation + count, None));
    }
}

/// The least recently used entry goes first.
#[test]
fn small_caches_evict_the_least_recently_used() {
    let mut cache: ArrayLru<u32, u32, 2> = ArrayLru::new();
    cache.put(1, 10);
    cache.put(2, 20);
    assert_eq!(cache.get(&1), Some(&10));
    cache.put(3, 30);
    assert_eq!(cache.get(&2), None);
    assert_eq!(cache.get(&1), Some(&10));
    assert_eq!(cache.len(), 2);
    cache.clear();
    assert!(!cache.contains_key(&1));

    let mut cache: SmallLru<u32, u32> = SmallLru::new(2);
    assert!(cache.enabled());
    cache.put(1, 10);
    cache.put(2, 20);
    assert_eq!(cache.get(&1), Some(&10));
    cache.put(3, 30);
    assert!(!cache.contains_key(&2));
    assert_eq!(cache.len(), 2);
    let mut off: SmallLru<u32, u32> = SmallLru::new(0);
    off.put(1, 10);
    assert_eq!(off.get(&1), None);
}

/// Entries of an earlier generation are not admitted.
#[test]
fn shared_caches_reject_stale_entries() {
    let mut cache: SharedLru<u32, u32> = SharedLru::new(2);
    let (generation, none) = cache.get(&1);
    assert!(none.is_none());
    cache.put_if_current(generation, 1, Arc::new(10));
    assert_eq!(cache.get(&1).1.map(|v| *v), Some(10));
    let guard = cache.rollback_guard();
    cache.release(guard);
    assert_eq!(cache.len(), 0);
    cache.put_if_current(generation, 1, Arc::new(11));
    assert_eq!(cache.len(), 0);
    let guard = cache.rollback_guard();
    let (now, _) = cache.get(&1);
    cache.put_if_current(now, 1, Arc::new(12));
    cache.release(guard.succeed());
    assert_eq!(cache.get(&1).1.map(|v| *v), Some(12));
}

/// Block identities are looked up once.
#[test]
fn block_hashes_are_cached_once_found() {
    let mut cache: BlockHashCache<StacksBlockId> = BlockHashCache::new();
    let failed: Result<&StacksBlockId, u8> = cache.get_block_hash_caching(7, |_: u32| Err(9));
    assert!(matches!(failed, Err(9)));
    assert!(cache.ref_block_hash(7).is_none());
    let found: Result<&StacksBlockId, u8> =
        cache.get_block_hash_caching(7, |id: u32| Ok(StacksBlockId([id as u8; 32])));
    assert_eq!(found.unwrap(), &StacksBlockId([7; 32]));
    let again: Result<&StacksBlockId, u8> = cache.get_block_hash_caching(7, |_: u32| Err(1));
    assert_eq!(again.unwrap(), &StacksBlockId([7; 32]));
    assert_eq!(cache.load_block_id(&StacksBlockId([7; 32])), Some(7));
    assert_eq!(cache.load_block_id(&StacksBlockId([8; 32])), None);
}

/// An ID that is found for an identity has that identity, also where the identity has two IDs.
#[test]
fn block_lookups_agree_in_both_directions() {
    let mut cache: BlockHashCache<StacksBlockId> = BlockHashCache::new();
    for id in 0..20u32 {
        cache.store_block_hash(id, StacksBlockId([(id % 15) as u8; 32]));
        for known in 0..=id {
            let hash = StacksBlockId([(known % 15) as u8; 32]);
            assert_eq!(cache.ref_block_hash(known), Some(&hash));
            let found = cache.load_block_id(&hash).unwrap();
            assert_eq!(cache.ref_block_hash(found), Some(&hash));
            assert_eq!(found == known, known >= 15 || known + 15 > id);
        }
    }
}

/// No key is held twice, however often it is put.
#[test]
fn recency_keys_stay_distinct() {
    let mut cache: SmallLru<u32, u32> = SmallLru::new(3);
    for round in 0..50u32 {
        let key = round * 7 % 4;
        cache.put(key, round);
        assert_eq!(cache.get(&key), Some(&round));
        assert!(cache.len() <= 3);
    }
    assert_eq!(cache.len(), 3);
}

/// Counts are taken and start again from nothing.
#[test]
fn counters_are_updated_and_taken() {
    let mut counters = Counters::default();
    counters.update(|mut c: Counters| {
        c.cursor_steps += 3;
        c
    });
    let taken = counters.take();
    assert_eq!(taken.cursor_steps, 3);
    assert_eq!(counters, Counters::default());
}
