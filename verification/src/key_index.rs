//! A hash index from keys to slots.
use rapidhash::RapidHashMap;
use vstd::prelude::*;

verus! {

/// The seeded state of `rapidhash`'s hashers; nothing is said of it.
#[verifier::external_type_specification]
#[verifier::external_body]
pub struct ExRandomState<
    const AVALANCHE: bool,
    const SPONGE: bool,
    const COMPACT: bool,
    const PROTECTED: bool,
>(rapidhash::inner::RandomState<AVALANCHE, SPONGE, COMPACT, PROTECTED>);

/// Slots by key.
pub type KeyIndex = RapidHashMap<[u8; 32], usize>;

/// The slot of each indexed key.
pub uninterp spec fn indexed_slots(index: KeyIndex) -> Map<Seq<u8>, usize>;

/// No key has a slot.
pub open spec fn no_slots() -> Map<Seq<u8>, usize> {
    Map::empty()
}

/// Calls `RapidHashMap::default`, which holds no key.
#[verifier::external_body]
pub(crate) fn new_index() -> (index: KeyIndex)
    ensures
        indexed_slots(index) == no_slots(),
{
    RapidHashMap::default()
}

/// Calls `RapidHashMap::get`: the slot of a key, if the key is indexed.
#[verifier::external_body]
pub(crate) fn slot_of(index: &KeyIndex, key: &[u8; 32]) -> (slot: Option<usize>)
    ensures
        slot == if indexed_slots(*index).contains_key(key@) {
            Some(indexed_slots(*index)[key@])
        } else {
            None
        },
{
    index.get(key).copied()
}

/// Calls `RapidHashMap::insert`: the key is indexed with the slot, and other keys stay as they are.
#[verifier::external_body]
pub(crate) fn insert_slot(index: &mut KeyIndex, key: [u8; 32], slot: usize)
    ensures
        indexed_slots(*final(index)) == indexed_slots(*old(index)).insert(key@, slot),
{
    index.insert(key, slot);
}

/// Calls `RapidHashMap::remove`: the key's slot comes back, and only this key leaves the index.
#[verifier::external_body]
pub(crate) fn remove_slot(index: &mut KeyIndex, key: &[u8; 32]) -> (slot: Option<usize>)
    ensures
        slot == if indexed_slots(*old(index)).contains_key(key@) {
            Some(indexed_slots(*old(index))[key@])
        } else {
            None
        },
        indexed_slots(*final(index)) == indexed_slots(*old(index)).remove(key@),
{
    index.remove(key)
}

/// Calls `RapidHashMap::clear`: no key is left.
#[verifier::external_body]
pub(crate) fn clear_index(index: &mut KeyIndex)
    ensures
        indexed_slots(*final(index)) == no_slots(),
{
    index.clear();
}

} // verus!
