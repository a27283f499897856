//! What writing operations have to do with one another.
use vstd::prelude::*;

use crate::commitment_laws::collides;
use crate::error::Error;
use crate::direct_hash_index::Tail;
use crate::hash::{MarfTrieId, TrieHash};
use crate::hash_publication::{
    plan_append, reconcile, AppendPlan, Pending, Publication, Reconcile,
};
use crate::index_laws::law_bounded_tail_keeps_slots;
use crate::marf::{steps, Step, StorageStep, WriteState, MARF};
use crate::marf_extend::{
    batch, insert_leaf, insert_leaf_in_batch, insertions, written, InsertPlan,
};
use crate::marf_heights::{
    entry_views, holds, law_recorded_heights_are_found, make_unconfirmed_chain_tip, reserved,
    set_block_heights,
};
use crate::patch::Fault;
use crate::read_storage::{Forest, TrieReadStorage};
use crate::value::MARFValue;

verus! {

/// Inserting an entry writes what a batch of that one entry writes, into the same block, with the same
/// effect on an index of forks; the root is given its ancestors' hashes after it.
pub proof fn law_insert_is_batch_of_one<T: MarfTrieId>(
    state: &WriteState<T>,
    key: &[u8],
    keys: &[Vec<u8>],
    one: InsertPlan<T>,
    all: InsertPlan<T>,
    before: Map<Seq<u8>, Seq<u8>>,
    value: Seq<u8>,
)
    requires
        keys@.len() == 1,
        keys@[0]@ == key@,
        call_ensures(WriteState::<T>::insert, (state, key), Ok::<InsertPlan<T>, Error>(one)),
        call_ensures(
            WriteState::<T>::insert_batch,
            (state, keys),
            Ok::<Option<InsertPlan<T>>, Error>(Some(all)),
        ),
    ensures
        one.block.id_bytes() == all.block.id_bytes(),
        one.invalidate_ancestry == all.invalidate_ancestry,
        written(before, insertions(one.insertions@), seq![value], one.insertions@.len()) == written(
            before,
            insertions(all.insertions@),
            seq![value],
            all.insertions@.len(),
        ),
        insertions(one.insertions@).last().update_skiplist,
        insertions(all.insertions@).last().update_skiplist,
{
    let single = insertions(one.insertions@);
    let several = insertions(all.insertions@);
    let path = TrieHash::digest(key@);
    assert(several == batch(keys@));
    assert(single.len() == 1 && single[0].path == path);
    assert(several.len() == 2 && several[0].path == path && several[1].path == path);
    reveal_with_fuel(written, 3);
    assert(written(before, several, seq![value], 2) =~= written(before, single, seq![value], 1));
}

/// Unconfirmed tips of different blocks differ, unless two different byte strings hash to the same.
pub proof fn law_unconfirmed_tips_differ<T: MarfTrieId>(a: &T, b: &T, x: T, y: T)
    requires
        call_ensures(make_unconfirmed_chain_tip::<T>, (a,), x),
        call_ensures(make_unconfirmed_chain_tip::<T>, (b,), y),
        a.id_bytes().len() == 32,
        b.id_bytes().len() == 32,
        x.id_bytes() == y.id_bytes(),
    ensures
        a.id_bytes() == b.id_bytes() || collides(
            a.id_bytes() + a.id_bytes(),
            b.id_bytes() + b.id_bytes(),
        ),
{
    let p = a.id_bytes() + a.id_bytes();
    let q = b.id_bytes() + b.id_bytes();
    if p == q {
        assert(a.id_bytes() =~= p.take(32));
        assert(b.id_bytes() =~= q.take(32));
    }
}

/// Inserting under a key's path writes what inserting under the key writes, but always invalidates an
/// index of forks, since the key is not known.
pub proof fn law_insert_raw_writes_like_insert<T: MarfTrieId>(
    state: &WriteState<T>,
    key: &[u8],
    path: TrieHash,
    under_key: InsertPlan<T>,
    under_path: InsertPlan<T>,
)
    requires
        path@ == TrieHash::digest(key@),
        call_ensures(WriteState::<T>::insert, (state, key), Ok::<InsertPlan<T>, Error>(under_key)),
        call_ensures(
            WriteState::<T>::insert_raw,
            (state, path),
            Ok::<InsertPlan<T>, Error>(under_path),
        ),
    ensures
        insertions(under_key.insertions@) == insertions(under_path.insertions@),
        under_key.block.id_bytes() == under_path.block.id_bytes(),
        under_path.invalidate_ancestry,
        under_key.invalidate_ancestry ==> reserved(key@),
{
}

/// A leaf is inserted in a batch as it is by itself, but for the root's ancestors' hashes, which it gets
/// by itself alone.
pub proof fn law_leaves_in_batches_leave_the_root<T: MarfTrieId>(
    block: &T,
    path: TrieHash,
    alone: InsertPlan<T>,
    inside: InsertPlan<T>,
    before: Map<Seq<u8>, Seq<u8>>,
    value: Seq<u8>,
)
    requires
        call_ensures(insert_leaf::<T>, (block, path), alone),
        call_ensures(insert_leaf_in_batch::<T>, (block, path), inside),
    ensures
        alone.block.id_bytes() == block.id_bytes(),
        inside.block.id_bytes() == block.id_bytes(),
        written(before, insertions(alone.insertions@), seq![value], 1) == before.insert(path@, value),
        written(before, insertions(inside.insertions@), seq![value], 1) == before.insert(
            path@,
            value,
        ),
        insertions(alone.insertions@).len() == 1 && insertions(alone.insertions@)[0].update_skiplist,
        insertions(inside.insertions@).len() == 1 && !insertions(
            inside.insertions@,
        )[0].update_skiplist,
{
    reveal_with_fuel(written, 2);
}

/// The writer tells the height that the block it is writing was begun at, whatever storage records.
pub proof fn law_open_block_knows_its_height<T: MarfTrieId, S: TrieReadStorage<T>>(
    state: &WriteState<T>,
    storage: &S,
    block: &T,
    current: &T,
    height: u32,
    out: Result<Option<u32>, Error>,
)
    requires
        state@.tip == Some((block.id_bytes(), height)),
        call_ensures(
            WriteState::<T>::get_block_height_of::<S>,
            (state, storage, block, current),
            out,
        ),
    ensures
        out == Ok::<Option<u32>, Error>(Some(height)),
{
}

/// Entries that record a block's height make the block be found at that height, and its parent right
/// below, once the block holds them.
pub proof fn law_recorded_entries_tell_heights<T: MarfTrieId>(
    forest: Forest,
    parent: &T,
    block: &T,
    height: u32,
    entries: Vec<(Vec<u8>, MARFValue)>,
)
    requires
        call_ensures(set_block_heights::<T>, (parent, block, height), entries),
        holds(forest, block.id_bytes(), entry_views(entries@)),
        parent.id_bytes().len() == 32,
        block.id_bytes().len() == 32,
        parent.id_bytes() != block.id_bytes(),
        forest.squash_height() is None,
        forall|target: u32| #[trigger]
            forest.indexed_ancestor(block.id_bytes(), height, target) == Ok::<
                Option<Seq<u8>>,
                Fault,
            >(None),
    ensures
        forest.height(block.id_bytes(), block.id_bytes()) == Ok::<Option<u32>, Fault>(Some(height)),
        height > 0 ==> forest.at_height((height - 1) as u32, block.id_bytes()) == Ok::<
            Option<Seq<u8>>,
            Fault,
        >(Some(parent.id_bytes())),
{
    law_recorded_heights_are_found(forest, parent.id_bytes(), block.id_bytes(), height);
}

/// A batch that failed is not committed, and one that did not is; how it went is passed on.
pub proof fn law_failed_batches_are_not_committed<T: MarfTrieId>(
    marf: &MARF<T>,
    went: Result<(), Error>,
    out: (Result<(), Error>, Vec<StorageStep<T>>),
)
    requires
        call_ensures(MARF::<T>::finish_insert_batch, (marf, went), out),
    ensures
        out.0 == went,
        steps(out.1@).contains(Step::CommitTx) <==> went is Ok,
        steps(out.1@).len() <= 1,
{
    if went is Ok {
        assert(steps(out.1@)[0] == Step::CommitTx);
    }
}

/// A single insertion is committed exactly if the block that was open before could be opened again,
/// even where the insertion itself failed; how that went is passed on.
pub proof fn law_single_insertions_are_committed<T: MarfTrieId>(
    marf: &MARF<T>,
    went: Result<(), Error>,
    restored: Result<(), Error>,
    out: (Result<(), Error>, Vec<StorageStep<T>>),
)
    requires
        call_ensures(MARF::<T>::finish_insert_raw, (marf, went, restored), out),
    ensures
        steps(out.1@).contains(Step::CommitTx) <==> restored is Ok,
        restored is Ok ==> out.0 == went,
        restored matches Err(e) ==> out.0 == Err::<(), Error>(e),
{
    if restored is Ok {
        assert(steps(out.1@)[0] == Step::CommitTx);
    }
}

/// An append is planned exactly for the record behind the committed boundary of the own generation, and
/// starts from slots that fill the space between the boundaries, whether they are at hand or pending.
pub proof fn law_appends_start_at_the_boundary(
    own_token: &[u8],
    publication: &Publication,
    pending: Option<&Pending>,
    tail: &Tail,
    id: u32,
    plan: AppendPlan,
)
    requires
        publication.wf(),
        call_ensures(plan_append, (own_token, Some(publication), pending, tail, id), plan),
    ensures
        plan is Ignore <==> publication.token@ != own_token@ || id != publication.live + 1,
        plan matches AppendPlan::Start(begun) ==> begun@.base == publication.durable && begun@.end()
            == publication.live,
        plan is Continue ==> (pending matches Some(item) && item.durable == publication.durable
            && item.live == publication.live),
        plan is Recover ==> exists|lost: int|
            publication.durable < lost <= publication.live && #[trigger] tail@.slot(lost) is None,
{
    law_bounded_tail_keeps_slots(
        tail@,
        publication.durable as int,
        publication.live as int,
        publication.live as int,
    );
}

/// Appended records are kept exactly if they still fill the space between the boundaries of a live
/// publication of the own generation; they are recovered where only the boundaries moved, and dropped
/// otherwise.
pub proof fn law_records_are_reconciled(
    item: &Pending,
    publication: Option<&Publication>,
    own_token: &[u8],
    active: bool,
    action: Reconcile,
)
    requires
        call_ensures(reconcile, (Some(item), publication, own_token, active), action),
    ensures
        action is Drop <==> !active || publication is None || publication->0.token@ != own_token@,
        action is Keep ==> item.durable == publication->0.durable && item.live
            == publication->0.live,
        action is Recover ==> item.durable != publication->0.durable || item.live
            != publication->0.live,
{
}

} // verus!
