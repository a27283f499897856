//! What an index of hashes gives back of what was put in it.
use vstd::prelude::*;

use crate::ancestry::{
    ancestor_spec, consistent, law_ancestor_matches_parent_walk, parent_walk, skip_height_spec,
    Ancestry,
};
use crate::direct_hash_index::{
    joined, law_slot_keeps_links, published_width, sidecar_bytes, slot_bytes, slot_links,
    slot_start_spec, visible, HashView, Slots, CHECKPOINT_SLOTS,
};
use crate::error::Error;
use crate::hash::{sentinel_bytes, MarfTrieId};
use crate::hash_publication::{
    law_batch_lands_in_slots, new_links, recorded_links, recovered_tail, rest_of_tail, row_header,
    row_slot, Built, Checkpoint, Pending, Publication, TrieRow,
};
use crate::hash_session::{
    appended_record, fills_bounds, recovered_pending, snapshot_tail, Caller, DirectHashIndex,
};
use crate::direct_hash_index::Tail;
use crate::record::NodeRecordFormat;

verus! {

/// Every block whose parent is on record has links, one height above its parent: they lead to the
/// parent, and to where the parents lead at the height that the block's own skips to.
pub proof fn law_child_is_linked_to_parent(
    table: spec_fn(u32) -> Option<Ancestry>,
    id: u32,
    parent: u32,
)
    requires
        consistent(table),
        0 < parent < id,
        table(parent) is Some,
        table(parent)->0.height < u32::MAX,
    ensures
        Ancestry::child_spec(table, id, parent) matches Some(child) && {
            &&& child.height == table(parent)->0.height + 1
            &&& child.parent == parent
            &&& child.skip == parent_walk(table, parent, skip_height_spec(child.height))
        },
{
    let height = (table(parent)->0.height + 1) as u32;
    let before = (height - 1) as u32;
    assert(height & before <= before) by (bit_vector);
    law_ancestor_matches_parent_walk(table, parent, skip_height_spec(height));
}

/// A block that is not on record has no ancestors, and none on record has one above itself; each is
/// at its own height.
pub proof fn law_ancestors_are_at_their_heights(
    table: spec_fn(u32) -> Option<Ancestry>,
    id: u32,
    target: u32,
)
    requires
        consistent(table),
    ensures
        table(id) is None ==> ancestor_spec(table, id, target) is None,
        table(id) matches Some(record) ==> (ancestor_spec(table, id, target) is Some <==> target
            <= record.height),
        ancestor_spec(table, id, target) matches Some(found) ==> table(found) is Some
            && table(found)->0.height == target,
        table(id) matches Some(record) ==> ancestor_spec(table, id, record.height) == Some(id),
{
    if table(id) is Some && target <= table(id)->0.height {
        law_ancestor_matches_parent_walk(table, id, target);
    }
}

/// A new block of a known parent is put on record one height above it, and one of no parent at
/// height zero; one whose links must not be used, or whose parent is unknown, has none.
pub proof fn law_new_blocks_are_linked(
    id: u32,
    parent: Seq<u8>,
    parent_id: u32,
    ids: spec_fn(Seq<u8>) -> Result<Option<u32>, Error>,
    table: spec_fn(u32) -> Option<Ancestry>,
)
    requires
        consistent(table),
    ensures
        new_links(id, true, parent, ids, table) == Ok::<Option<Ancestry>, Error>(None),
        parent == sentinel_bytes() ==> (new_links(id, false, parent, ids, table) matches Ok(
            Some(links),
        ) && links.height == 0),
        parent != sentinel_bytes() && ids(parent) == Ok::<Option<u32>, Error>(None) ==> new_links(
            id,
            false,
            parent,
            ids,
            table,
        ) == Ok::<Option<Ancestry>, Error>(None),
        parent != sentinel_bytes() && ids(parent) == Ok::<Option<u32>, Error>(Some(parent_id)) && 0
            < parent_id < id && table(parent_id) is Some && table(parent_id)->0.height < u32::MAX
            ==> (new_links(id, false, parent, ids, table) matches Ok(Some(links)) && links.height
            == table(parent_id)->0.height + 1 && links.parent == parent_id),
{
    if 0 < parent_id < id && table(parent_id) is Some && table(parent_id)->0.height < u32::MAX {
        law_child_is_linked_to_parent(table, id, parent_id);
    }
}

/// Whether all slots have their width.
pub open spec fn slots_are_wide(slots: Seq<Seq<u8>>) -> bool {
    forall|i: int| 0 <= i < slots.len() ==> (#[trigger] slots[i]).len() == 80
}

/// A view of a file that slots were published in, one after the other, gives each back under its
/// ID, and none under other IDs.
pub proof fn law_published_slots_are_read(
    view: HashView<'_>,
    token: Seq<u8>,
    slots: Seq<Seq<u8>>,
    id: u32,
)
    requires
        view.wf(),
        view.slot_size == 80,
        view.max_id == slots.len(),
        token.len() == 16,
        slots_are_wide(slots),
        view.published() == sidecar_bytes(token) + joined(slots, 80),
    ensures
        view.record(id) == if 0 < id <= slots.len() {
            Some(slots[id - 1])
        } else {
            None
        },
{
    let all = view.published();
    assert(sidecar_bytes(token).len() == 4176);
    if 0 < id <= slots.len() {
        let i = id - 1;
        law_batch_lands_in_slots(0, slots, 80, i);
        let start = slot_start_spec(id, 80) as int;
        assert(start == 4176 + 80 * i);
        assert(all.subrange(start, start + 80) =~= joined(slots, 80).subrange(
            i * 80,
            (i + 1) * 80,
        ));
        assert(slots[i].subrange(0, 80) =~= slots[i]);
        assert(slots[i] + crate::direct_hash_index::zeros(0) =~= slots[i]);
    }
}

/// A reader sees every committed slot once: the durable ones in the file, and the later ones in the
/// tail.
pub proof fn law_committed_slots_are_visible(
    view: HashView<'_>,
    token: Seq<u8>,
    slots: Seq<Seq<u8>>,
    tail: Slots,
    id: u32,
)
    requires
        view.wf(),
        view.slot_size == 80,
        view.max_id == slots.len(),
        token.len() == 16,
        slots_are_wide(slots),
        view.published() == sidecar_bytes(token) + joined(slots, 80),
        tail.base == slots.len(),
    ensures
        visible(&view, tail, id) == if 0 < id <= tail.end() {
            Some((slots + tail.slots)[id - 1])
        } else {
            None
        },
{
    law_published_slots_are_read(view, token, slots, id);
}

/// A file of slots is accepted for every publication that it is long enough for, and for no other;
/// under another token it is accepted for none.
pub proof fn law_publication_is_accepted(
    token: Seq<u8>,
    another: Seq<u8>,
    slots: Seq<Seq<u8>>,
    max_id: u32,
)
    requires
        token.len() == 16,
        another.len() == 16,
        slots_are_wide(slots),
        slots.len() <= u32::MAX,
    ensures
        ({
            let file = sidecar_bytes(token) + joined(slots, 80);
            &&& published_width(file, token, max_id, file.len() as u64) == if max_id <= slots.len() {
                Some(80nat)
            } else {
                None
            }
            &&& another != token ==> published_width(file, another, max_id, file.len() as u64)
                is None
        }),
{
    let file = sidecar_bytes(token) + joined(slots, 80);
    assert(sidecar_bytes(token).len() == 4176);
    if slots.len() > 0 {
        law_batch_lands_in_slots(0, slots, 80, 0);
    }
    assert(file.len() == 4176 + 80 * slots.len());
    assert(file.subrange(8, 24) =~= token);
    assert(file.subrange(0, 8) =~= crate::direct_hash_index::magic());
}

/// The part of a tail between two boundaries holds the tail's slots between them, and no others. A
/// tail that does not reach both has no such part, unless there is nothing between them.
pub proof fn law_bounded_tail_keeps_slots(tail: Slots, durable: int, live: int, id: int)
    requires
        durable <= live,
    ensures
        match tail.bounded(durable, live) {
            Some(part) => {
                &&& part.base == durable
                &&& part.end() == live
                &&& part.slot(id) == if durable < id <= live {
                    tail.slot(id)
                } else {
                    None
                }
                &&& durable < id <= live ==> tail.slot(id) is Some
            },
            None => exists|lost: int| durable < lost <= live && #[trigger] tail.slot(lost) is None,
        },
{
    if tail.bounded(durable, live) is None {
        if tail.base > durable {
            assert(tail.slot(durable + 1) is None);
        } else {
            assert(tail.slot(live) is None);
        }
    }
}

/// A transaction's tail fills the space between its snapshot's boundaries, with the shared slots
/// where those are at hand.
pub proof fn law_snapshot_tail_fills_bounds<R: FnOnce(u32, u32) -> Result<Tail, Error>>(
    shared: Slots,
    durable: u32,
    live: u32,
    recover: R,
    tail: Slots,
    id: int,
)
    requires
        durable <= live,
        fills_bounds(recover),
        snapshot_tail(shared, durable, live, recover, tail),
    ensures
        tail.base == durable,
        tail.end() == live,
        shared.base <= durable && live <= shared.end() && durable < id <= live ==> tail.slot(id)
            == shared.slot(id),
{
    law_bounded_tail_keeps_slots(shared, durable as int, live as int, id);
}

/// Direct slots are read by the session's own connection alone, inside its transaction and while
/// the session is live; then every committed slot is.
pub proof fn law_only_the_live_session_reads(
    index: DirectHashIndex,
    view: Option<&HashView<'_>>,
    caller: Caller,
    id: u32,
)
    ensures
        index.lookup(view, caller, id) is Some ==> {
            &&& view is Some
            &&& index.session is Some
            &&& index.session->0.active
            &&& index.session->0.connection == caller.connection
            &&& !caller.autocommit
        },
        view is Some && index.session is Some && index.session->0.active
            && index.session->0.connection == caller.connection && !caller.autocommit
            ==> index.lookup(view, caller, id) == match view->0.record(id) {
            Some(slot) => Some(slot),
            None => index.tail@.slot(id as int),
        },
{
}

/// A record that is appended becomes the next one, with its block, root and links, and leaves all
/// earlier ones. A batch is handed out as soon as it is full, and holds every record since the
/// durable boundary where the file keeps its ID's slot.
pub proof fn law_appended_record_comes_next(
    before: Pending,
    after: Option<Pending>,
    slot_size: nat,
    block: Seq<u8>,
    root: Seq<u8>,
    links: Option<Ancestry>,
    batch: Result<Option<Checkpoint>, Error>,
    id: u32,
)
    requires
        before.wf(),
        block.len() == 32,
        root.len() == 32,
        links is Some ==> links->0.linked((before.live + 1) as u32),
        before.live < u32::MAX,
        slot_size == 80 || slot_size == 64,
        slots_are_wide(before.tail@.slots),
        appended_record(before, after, slot_size, block, root, Ok(links), batch),
    ensures
        after is Some,
        after->0.wf(),
        after->0.tail@.slot(before.live + 1) matches Some(slot) && {
            &&& slot.subrange(0, 32) == block
            &&& slot.subrange(32, 64) == root
            &&& slot_links((before.live + 1) as u32, slot) == links
        },
        id <= before.live ==> after->0.tail@.slot(id as int) == before.tail@.slot(id as int),
        batch is Ok,
        batch->Ok_0 is Some <==> after->0.live - after->0.durable >= CHECKPOINT_SLOTS,
        batch->Ok_0 matches Some(full) ==> (before.durable < id <= before.live + 1 ==> {
            let at = slot_start_spec(id, slot_size) - full.offset;
            &&& full.durable == before.live + 1
            &&& 0 <= at
            &&& at + slot_size <= full.bytes@.len()
            &&& full.bytes@.subrange(at, at + slot_size) == after->0.tail@.slot(
                id as int,
            )->0.subrange(0, slot_size as int)
        }),
{
    let added = slot_bytes(block, root, links);
    law_slot_keeps_links((before.live + 1) as u32, block, root, links);
    let slots = before.tail@.slots.push(added);
    assert(after->0.tail@.slot(before.live + 1) == Some(added));
    if links is Some {
        crate::ancestry::lemma_encode_len(links->0);
    }
    assert(added.len() == 80);
    assert(slots_are_wide(slots));
    if before.durable < id <= before.live + 1 {
        let i = id - before.durable - 1;
        law_batch_lands_in_slots(before.durable, slots, slot_size, i);
        assert((i + 1) * slot_size == i * slot_size + slot_size) by (nonlinear_arith);
        assert(0 <= i * slot_size) by (nonlinear_arith)
            requires
                0 <= i,
                0 <= slot_size,
        ;
        assert((i + 1) * slot_size <= slots.len() * slot_size) by (nonlinear_arith)
            requires
                i + 1 <= slots.len(),
                0 <= slot_size,
        ;
    }
}

/// Whether a slot holds what a row's header says of its block.
pub open spec fn slot_is_of<T: MarfTrieId>(
    slot: Seq<u8>,
    row: TrieRow<T>,
    format: NodeRecordFormat,
) -> bool {
    &&& row_header(row, format) is Ok
    &&& slot.subrange(0, 32) == row.block.id_bytes()
    &&& slot.subrange(32, 64) == row_header(row, format)->Ok_0.root
}

proof fn lemma_row_slot<T: MarfTrieId>(
    row: TrieRow<T>,
    format: NodeRecordFormat,
    with_links: bool,
    ids: spec_fn(Seq<u8>) -> Result<Option<u32>, Error>,
    table: spec_fn(u32) -> Option<Ancestry>,
)
    requires
        row.block.id_bytes().len() == 32,
        row_slot(row, format, with_links, ids, table) is Ok,
    ensures
        slot_is_of(row_slot(row, format, with_links, ids, table)->Ok_0, row, format),
{
    let slot = row_slot(row, format, with_links, ids, table)->Ok_0;
    let header = row_header(row, format)->Ok_0;
    assert(slot.subrange(0, 32) =~= row.block.id_bytes());
    assert(slot.subrange(32, 64) =~= header.root);
}

proof fn lemma_rest_of_tail<T: MarfTrieId>(
    rows: Seq<TrieRow<T>>,
    at: int,
    before: Slots,
    live: u32,
    format: NodeRecordFormat,
    with_links: bool,
    ids: spec_fn(Seq<u8>) -> Result<Option<u32>, Error>,
    stored: spec_fn(u32) -> Option<Ancestry>,
)
    requires
        0 <= at <= rows.len(),
        forall|i: int| 0 <= i < rows.len() ==> (#[trigger] rows[i]).block.id_bytes().len() == 32,
        rest_of_tail(rows, at, before, live, format, with_links, ids, stored) is Ok,
    ensures
        ({
            let tail = rest_of_tail(rows, at, before, live, format, with_links, ids, stored)->Ok_0;
            &&& tail.base == before.base
            &&& tail.slots.len() == before.slots.len() + rows.len() - at
            &&& forall|i: int|
                0 <= i < before.slots.len() ==> tail.slots[i] == #[trigger] before.slots[i]
            &&& forall|i: int|
                at <= i < rows.len() ==> {
                    &&& (#[trigger] rows[i]).id == before.end() + 1 + (i - at)
                    &&& !rows[i].unconfirmed
                    &&& slot_is_of(tail.slots[before.slots.len() + (i - at)], rows[i], format)
                }
        }),
    decreases rows.len() - at,
{
    if at < rows.len() {
        let table = crate::hash_publication::recorded_links(
            before,
            None,
            before.base as u32,
            stored,
        );
        let slot = row_slot(rows[at], format, with_links, ids, table)->Ok_0;
        lemma_row_slot(rows[at], format, with_links, ids, table);
        let more = Slots { base: before.base, slots: before.slots.push(slot) };
        lemma_rest_of_tail(rows, at + 1, more, live, format, with_links, ids, stored);
        let tail = rest_of_tail(rows, at, before, live, format, with_links, ids, stored)->Ok_0;
        assert forall|i: int| 0 <= i < before.slots.len() implies tail.slots[i]
            == #[trigger] before.slots[i] by {
            assert(more.slots[i] == before.slots[i]);
        }
        assert(more.slots[before.slots.len() as int] == slot);
    }
}

/// A recovered tail holds, under each row's ID, that row's block and the root of its trie; the rows
/// are the confirmed ones between the boundaries, without a gap.
pub proof fn law_recovered_tail_holds_rows<T: MarfTrieId>(
    rows: Seq<TrieRow<T>>,
    durable: u32,
    live: u32,
    format: NodeRecordFormat,
    with_links: bool,
    ids: spec_fn(Seq<u8>) -> Result<Option<u32>, Error>,
    stored: spec_fn(u32) -> Option<Ancestry>,
    i: int,
)
    requires
        forall|i: int| 0 <= i < rows.len() ==> (#[trigger] rows[i]).block.id_bytes().len() == 32,
        recovered_tail(rows, durable, live, format, with_links, ids, stored) is Ok,
        durable < live,
        0 <= i < rows.len(),
    ensures
        rows.len() == live - durable,
        rows[i].id == durable + 1 + i,
        !rows[i].unconfirmed,
        recovered_tail(rows, durable, live, format, with_links, ids, stored)->Ok_0.slot(
            rows[i].id as int,
        ) matches Some(slot) && slot_is_of(slot, rows[i], format),
{
    let none = Slots { base: durable as int, slots: Seq::empty() };
    lemma_rest_of_tail(rows, 0, none, live, format, with_links, ids, stored);
    crate::hash_publication::law_recovered_tail_fills_bounds(
        rows,
        durable,
        live,
        format,
        with_links,
        ids,
        stored,
    );
}

proof fn lemma_rest_is_had<T: MarfTrieId>(
    rows: Seq<TrieRow<T>>,
    at: int,
    before: Slots,
    live: u32,
    format: NodeRecordFormat,
    ids: spec_fn(Seq<u8>) -> Result<Option<u32>, Error>,
    stored: spec_fn(u32) -> Option<Ancestry>,
)
    requires
        0 <= at <= rows.len(),
        before.end() + (rows.len() - at) == live,
        forall|i: int|
            at <= i < rows.len() ==> (#[trigger] rows[i]).id == before.end() + 1 + (i - at)
                && !rows[i].unconfirmed && row_header(rows[i], format) is Ok,
    ensures
        rest_of_tail(rows, at, before, live, format, false, ids, stored) is Ok,
    decreases rows.len() - at,
{
    if at < rows.len() {
        let table = crate::hash_publication::recorded_links(
            before,
            None,
            before.base as u32,
            stored,
        );
        let slot = row_slot(rows[at], format, false, ids, table)->Ok_0;
        let more = Slots { base: before.base, slots: before.slots.push(slot) };
        lemma_rest_is_had(rows, at + 1, more, live, format, ids, stored);
    }
}

/// A tail is recovered from every run of confirmed rows with readable headers that fills the space
/// between its boundaries, if that is less than a batch.
pub proof fn law_tail_is_recovered_from_its_rows<T: MarfTrieId>(
    rows: Seq<TrieRow<T>>,
    durable: u32,
    live: u32,
    format: NodeRecordFormat,
    ids: spec_fn(Seq<u8>) -> Result<Option<u32>, Error>,
    stored: spec_fn(u32) -> Option<Ancestry>,
)
    requires
        durable <= live,
        live - durable < CHECKPOINT_SLOTS,
        rows.len() == live - durable,
        forall|i: int|
            0 <= i < rows.len() ==> (#[trigger] rows[i]).id == durable + 1 + i
                && !rows[i].unconfirmed && row_header(rows[i], format) is Ok,
    ensures
        recovered_tail(rows, durable, live, format, false, ids, stored) is Ok,
{
    let none = Slots { base: durable as int, slots: Seq::empty() };
    lemma_rest_is_had(rows, 0, none, live, format, ids, stored);
}

/// A build writes each row's block and the root of its trie in the row's slot, with the links that
/// it goes on with.
pub proof fn law_build_writes_rows<T: MarfTrieId>(
    built: Built,
    row: TrieRow<T>,
    format: NodeRecordFormat,
    squashed: bool,
    ids: spec_fn(Seq<u8>) -> Result<Option<u32>, Error>,
)
    requires
        built.links.len() > 0,
        consistent(built.table()),
        built.continues(row),
        row.block.id_bytes().len() == 32,
        built.step(row, format, squashed, ids) is Ok,
    ensures
        ({
            let done = built.step(row, format, squashed, ids)->Ok_0;
            &&& slot_is_of(done.0, row, format)
            &&& done.1.max_id() == row.id
            &&& done.1.previous == row.block.id_bytes()
            &&& squashed || row.excluded ==> done.1.table()(row.id) is None
            &&& forall|id: u32| id < row.id ==> #[trigger] done.1.table()(id) == built.table()(id)
        }),
{
    let done = built.step(row, format, squashed, ids)->Ok_0;
    let header = row_header(row, format)->Ok_0;
    assert(done.0.subrange(0, 32) =~= row.block.id_bytes());
    assert(done.0.subrange(32, 64) =~= header.root);
}

/// The links on record are those of the slots: of a committed slot in the tail or in the view, they
/// are what the slot holds, and of another ID what is stored durably below the boundary.
pub proof fn law_links_on_record_are_the_slots(
    tail: Slots,
    view: &HashView<'_>,
    durable: u32,
    stored: spec_fn(u32) -> Option<Ancestry>,
    id: u32,
)
    ensures
        tail.base < id <= tail.end() ==> recorded_links(tail, Some(view), durable, stored)(id)
            == slot_links(id, tail.slots[id - tail.base - 1]),
        !(tail.base < id <= tail.end()) && view.record(id) is Some ==> recorded_links(
            tail,
            Some(view),
            durable,
            stored,
        )(id) == slot_links(id, view.record(id)->0),
        !(tail.base < id <= tail.end()) && 0 < id <= durable ==> recorded_links(
            tail,
            None,
            durable,
            stored,
        )(id) == stored(id),
        !(tail.base < id <= tail.end()) && (id == 0 || id > durable) ==> recorded_links(
            tail,
            None,
            durable,
            stored,
        )(id) is None,
{
}

/// A record is appended with the links of its ID to its parent in a file that has room for links, and
/// with none in one that has not.
pub proof fn law_appended_links_are_of_the_next_id(
    index: DirectHashIndex,
    view: Option<&HashView<'_>>,
    parent: Seq<u8>,
    parent_id: u32,
    ids: spec_fn(Seq<u8>) -> Result<Option<u32>, Error>,
    stored: spec_fn(u32) -> Option<Ancestry>,
)
    requires
        index.appended() is Some,
        index.appended()->0.live < u32::MAX,
    ensures
        index.slot_size != 80 ==> index.append_links(view, Some(parent), false, ids, stored) == Ok::<
            Option<Ancestry>,
            Error,
        >(None),
        index.append_links(view, None, false, ids, stored) == Ok::<Option<Ancestry>, Error>(None),
        ({
            let item = index.appended()->0;
            let table = recorded_links(item.tail@, view, item.durable, stored);
            index.slot_size == 80 && consistent(table) && parent != sentinel_bytes() && ids(parent)
                == Ok::<Option<u32>, Error>(Some(parent_id)) && 0 < parent_id <= item.live && table(
                parent_id,
            ) is Some && table(parent_id)->0.height < u32::MAX ==> (index.append_links(
                view,
                Some(parent),
                false,
                ids,
                stored,
            ) matches Ok(Some(links)) && links.height == table(parent_id)->0.height + 1
                && links.parent == parent_id)
        }),
{
    let item = index.appended()->0;
    let table = recorded_links(item.tail@, view, item.durable, stored);
    if consistent(table) {
        law_new_blocks_are_linked((item.live + 1) as u32, parent, parent_id, ids, table);
    }
}

/// A record is accepted exactly as the next one of the session's own generation: under the ID right
/// behind the committed boundary of a publication with the session's token, and from the caller that
/// may use direct slots.
pub proof fn law_only_the_next_record_is_accepted(
    index: DirectHashIndex,
    publication: &Publication,
    view: &HashView<'_>,
    caller: Caller,
    id: u32,
)
    ensures
        index.accepts(Some(publication), Some(view), caller, id) <==> {
            &&& id == publication.live + 1
            &&& publication.token@ == index.token@
            &&& index.session matches Some(session) && session.active && session.connection
                == caller.connection && !caller.autocommit
        },
        !index.accepts(None, Some(view), caller, id),
        !index.accepts(Some(publication), None, caller, id),
{
}

/// Records that were recovered after a savepoint was rolled back fill the space between the
/// publication's boundaries; where they could not be recovered, nothing changes.
pub proof fn law_recovered_records_fill_bounds<R: FnOnce(u32, u32) -> Result<Tail, Error>>(
    publication: &Publication,
    recover: R,
    before: Pending,
    after: Option<Pending>,
    done: Result<(), Error>,
)
    requires
        fills_bounds(recover),
        recovered_pending(publication, recover, before, after, done),
    ensures
        done is Ok ==> (after matches Some(item) && item.wf() && item.durable == publication.durable
            && item.live == publication.live),
        done is Err ==> after == Some(before),
{
}

/// A build passes over rows that do not come next or are unconfirmed, and goes on as it was; of a row
/// that does come next it writes the slot, or fails and goes on as it was.
pub proof fn law_build_takes_the_next_row<T: MarfTrieId>(
    built: Built,
    row: TrieRow<T>,
    format: NodeRecordFormat,
    squashed: bool,
    ids: spec_fn(Seq<u8>) -> Result<Option<u32>, Error>,
    slot: Result<Option<[u8; 80]>, Error>,
    after: Built,
)
    requires
        built.links.len() > 0,
        consistent(built.table()),
        row.block.id_bytes().len() == 32,
        built.stepped(row, format, squashed, ids, slot, after),
    ensures
        row.unconfirmed || row.id != built.links.len() ==> slot == Ok::<Option<[u8; 80]>, Error>(
            None,
        ) && after == built,
        !row.unconfirmed && row.id == built.links.len() ==> match slot {
            Ok(Some(bytes)) => slot_is_of(bytes@, row, format) && after.links.len()
                == built.links.len() + 1 && after.previous == row.block.id_bytes(),
            Ok(None) => false,
            Err(_) => after == built,
        },
{
    if built.continues(row) && built.step(row, format, squashed, ids) is Ok {
        law_build_writes_rows(built, row, format, squashed, ids);
    }
}

} // verus!
