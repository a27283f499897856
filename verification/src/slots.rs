//! Occupied child slots in slot order.
use vstd::prelude::*;

use crate::bitmap::{bitmap_of, count_true, lemma_bitmap_rank, rank};
use crate::node::TriePtr;

verus! {

/// Which slots hold a child.
pub open spec fn occupancy(ptrs: Seq<TriePtr>) -> Seq<bool> {
    Seq::new(ptrs.len(), |i: int| ptrs[i].id != 0)
}

/// The children in slot order.
pub open spec fn occupied(ptrs: Seq<TriePtr>) -> Seq<TriePtr>
    decreases ptrs.len(),
{
    if ptrs.len() == 0 {
        Seq::empty()
    } else if ptrs.last().id != 0 {
        occupied(ptrs.drop_last()).push(ptrs.last())
    } else {
        occupied(ptrs.drop_last())
    }
}

/// Children before `slot`.
pub open spec fn place(ptrs: Seq<TriePtr>, slot: int) -> nat {
    count_true(occupancy(ptrs), slot as nat)
}

proof fn lemma_count_prefix(ptrs: Seq<TriePtr>, n: nat)
    requires
        n < ptrs.len(),
    ensures
        count_true(occupancy(ptrs), n) == count_true(occupancy(ptrs.drop_last()), n),
    decreases n,
{
    if n > 0 {
        lemma_count_prefix(ptrs, (n - 1) as nat);
    }
}

/// There is one child per occupied slot.
pub proof fn lemma_occupied_len(ptrs: Seq<TriePtr>)
    ensures
        occupied(ptrs).len() == place(ptrs, ptrs.len() as int),
        occupied(ptrs).len() <= ptrs.len(),
    decreases ptrs.len(),
{
    if ptrs.len() > 0 {
        let front = ptrs.drop_last();
        lemma_occupied_len(front);
        lemma_count_prefix(ptrs, front.len());
    }
}

/// A slot's child stands at the slot's place.
pub proof fn lemma_occupied_at(ptrs: Seq<TriePtr>, slot: int)
    requires
        0 <= slot < ptrs.len(),
        ptrs[slot].id != 0,
    ensures
        place(ptrs, slot) < occupied(ptrs).len(),
        occupied(ptrs)[place(ptrs, slot) as int] == ptrs[slot],
    decreases ptrs.len(),
{
    let front = ptrs.drop_last();
    lemma_occupied_len(front);
    lemma_count_prefix(ptrs, slot as nat);
    if slot < front.len() {
        lemma_occupied_at(front, slot);
    }
}

/// Every child comes from an occupied slot with that place.
pub proof fn lemma_occupied_source(ptrs: Seq<TriePtr>, index: int) -> (slot: int)
    requires
        0 <= index < occupied(ptrs).len(),
    ensures
        0 <= slot < ptrs.len(),
        ptrs[slot].id != 0,
        place(ptrs, slot) == index,
        occupied(ptrs)[index] == ptrs[slot],
    decreases ptrs.len(),
{
    let front = ptrs.drop_last();
    lemma_occupied_len(front);
    if index < occupied(front).len() {
        let slot = lemma_occupied_source(front, index);
        lemma_count_prefix(ptrs, slot as nat);
        slot
    } else {
        lemma_count_prefix(ptrs, front.len());
        ptrs.len() - 1
    }
}

/// Places are strictly increasing over occupied slots.
pub proof fn lemma_place_monotone(ptrs: Seq<TriePtr>, a: int, b: int)
    requires
        0 <= a <= b <= ptrs.len(),
    ensures
        place(ptrs, a) <= place(ptrs, b),
        a < b && ptrs[a].id != 0 ==> place(ptrs, a) < place(ptrs, b),
    decreases b - a,
{
    if a < b {
        lemma_place_monotone(ptrs, a, b - 1);
    }
}

/// Ranks in the packed occupancy are places.
pub proof fn lemma_rank_is_place(ptrs: Seq<TriePtr>, slot: int)
    requires
        0 <= slot,
    ensures
        rank(bitmap_of(occupancy(ptrs)), slot as nat) == place(ptrs, slot),
{
    lemma_bitmap_rank(occupancy(ptrs), slot as nat);
}

/// Which slots hold a child.
pub fn occupancy_of(ptrs: &[TriePtr]) -> (bits: Vec<bool>)
    ensures
        bits@ == occupancy(ptrs@),
{
    let mut bits: Vec<bool> = Vec::new();
    let mut at: usize = 0;
    while at < ptrs.len()
        invariant
            at <= ptrs.len(),
            bits@.len() == at,
            forall|i: int| 0 <= i < at ==> bits@[i] == (ptrs@[i].id != 0),
        decreases ptrs.len() - at,
    {
        bits.push(!ptrs[at].is_empty());
        at = at + 1;
    }
    assert(bits@ =~= occupancy(ptrs@));
    bits
}

/// The children in slot order.
pub fn occupied_of(ptrs: &[TriePtr]) -> (children: Vec<TriePtr>)
    ensures
        children@ == occupied(ptrs@),
        children@.len() <= ptrs@.len(),
{
    let mut children: Vec<TriePtr> = Vec::new();
    let mut at: usize = 0;
    assert(ptrs@.subrange(0, 0) =~= Seq::<TriePtr>::empty());
    while at < ptrs.len()
        invariant
            at <= ptrs.len(),
            children@ == occupied(ptrs@.subrange(0, at as int)),
        decreases ptrs.len() - at,
    {
        let ptr: TriePtr = ptrs[at];
        if !ptr.is_empty() {
            children.push(ptr);
        }
        at = at + 1;
        assert(ptrs@.subrange(0, at as int).drop_last() =~= ptrs@.subrange(0, at - 1));
    }
    assert(ptrs@.subrange(0, at as int) =~= ptrs@);
    proof {
        lemma_occupied_len(ptrs@);
    }
    children
}

} // verus!
