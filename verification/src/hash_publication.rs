//! Publication of direct hashes: recovery of a committed tail, batched appends, and offline builds.
use vstd::prelude::*;

use crate::ancestry::{agrees, Ancestry};
use crate::blob_layout::{BlobHeader, Header};
use crate::direct_hash_index::{
    joined, links_in, make_slot, slot_bytes, slot_end_for, slot_links, slot_start_spec, HashView,
    Slots, Tail, CHECKPOINT_SLOTS, SLOT,
};
use crate::error::{invalid_input, Corruption, Error, IoErrorKind};
use crate::hash::{sentinel_array, sentinel_bytes, MarfTrieId};
use crate::record::NodeRecordFormat;
use crate::words::{bytes_eq, to_array};

verus! {

/// A stored trie, as the index's rows and files give it.
pub struct TrieRow<T> {
    /// Local ID of the block.
    pub id: u32,
    /// Whether the trie is not yet confirmed.
    pub unconfirmed: bool,
    /// Identity of the block.
    pub block: T,
    /// Length of the external trie, or zero for an inline one.
    pub length: u64,
    /// The trie's first bytes.
    pub prefix: Vec<u8>,
    /// Whether the block's ancestry must not be used.
    pub excluded: bool,
}

/// Whether a lookup of local IDs always answers as the table does.
pub open spec fn finds_ids<T: MarfTrieId, P: Fn(&T) -> Result<Option<u32>, Error>>(
    find: P,
    ids: spec_fn(Seq<u8>) -> Result<Option<u32>, Error>,
) -> bool {
    forall|block: &T, found: Result<Option<u32>, Error>| #[trigger]
        call_ensures(find, (block,), found) ==> found == ids(block.id_bytes())
}

/// The links on record for a local ID: the tail's, the view's, or those stored durably.
pub open spec fn recorded_links(
    tail: Slots,
    view: Option<&HashView<'_>>,
    durable: u32,
    stored: spec_fn(u32) -> Option<Ancestry>,
) -> spec_fn(u32) -> Option<Ancestry> {
    |at: u32|
        match tail.slot(at as int) {
            Some(slot) => slot_links(at, slot),
            None => {
                let viewed = match view {
                    Some(view) => view.record(at),
                    None => None,
                };
                match viewed {
                    Some(slot) => slot_links(at, slot),
                    None => if at == 0 || at > durable {
                        None
                    } else {
                        stored(at)
                    },
                }
            },
        }
}

/// The links of a new block: none where they must not be used or the parent is unknown.
pub open spec fn new_links(
    id: u32,
    excluded: bool,
    parent: Seq<u8>,
    ids: spec_fn(Seq<u8>) -> Result<Option<u32>, Error>,
    table: spec_fn(u32) -> Option<Ancestry>,
) -> Result<Option<Ancestry>, Error> {
    if excluded {
        Ok(None)
    } else if parent == sentinel_bytes() {
        Ok(Some(Ancestry::genesis_spec()))
    } else {
        match ids(parent) {
            Err(e) => Err(e),
            Ok(None) => Ok(None),
            Ok(Some(parent_id)) => Ok(Ancestry::child_spec(table, id, parent_id)),
        }
    }
}

/// Read only authoritative durable bytes or an explicitly recovered tail.
pub fn read_links<S: Fn(u32) -> Option<Ancestry>>(
    stored: &S,
    durable: u32,
    tail: &Tail,
    id: u32,
    view: Option<&HashView<'_>>,
) -> (links: Option<Ancestry>)
    requires
        forall|at: u32| call_requires(*stored, (at,)),
        view is Some ==> view->0.wf(),
    ensures
        forall|table: spec_fn(u32) -> Option<Ancestry>| #[trigger]
            agrees(*stored, table) ==> links == recorded_links(tail@, view, durable, table)(id),
{
    match tail.slot(id) {
        Some(slot) => return links_in(id, &slot),
        None => {},
    }
    match view {
        Some(view) => match view.slot(id) {
            Some(slot) => return links_in(id, &slot),
            None => {},
        },
        None => {},
    }
    if id == 0 || id > durable {
        return None;
    }
    stored(id)
}

/// Reconstruct ancestry from authoritative parent identities, never unsynced file suffixes.
pub fn recover_links<
    T: MarfTrieId,
    P: Fn(&T) -> Result<Option<u32>, Error>,
    S: Fn(u32) -> Option<Ancestry>,
>(
    find: &P,
    stored: &S,
    durable: u32,
    tail: &Tail,
    id: u32,
    parent: &T,
    excluded: bool,
    view: Option<&HashView<'_>>,
) -> (links: Result<Option<Ancestry>, Error>)
    requires
        forall|block: &T| call_requires(*find, (block,)),
        forall|at: u32| call_requires(*stored, (at,)),
        view is Some ==> view->0.wf(),
    ensures
        forall|
            ids: spec_fn(Seq<u8>) -> Result<Option<u32>, Error>,
            table: spec_fn(u32) -> Option<Ancestry>,
        | #[trigger]
            finds_ids(*find, ids) && #[trigger] agrees(*stored, table) ==> links == new_links(
                id,
                excluded,
                parent.id_bytes(),
                ids,
                recorded_links(tail@, view, durable, table),
            ),
{
    if excluded {
        return Ok(None);
    }
    if bytes_eq(parent.as_bytes(), &sentinel_array()) {
        return Ok(Some(Ancestry::genesis()));
    }
    let parent_id: u32 = match find(parent) {
        Ok(Some(parent_id)) => parent_id,
        Ok(None) => return Ok(None),
        Err(e) => return Err(e),
    };
    let read = |at: u32| -> (found: Option<Ancestry>)
        ensures
            forall|table: spec_fn(u32) -> Option<Ancestry>| #[trigger]
                agrees(*stored, table) ==> found == recorded_links(tail@, view, durable, table)(
                    at,
                ),
        { read_links(stored, durable, tail, at, view) };
    let record = Ancestry::child(id, parent_id, read);
    proof {
        assert forall|table: spec_fn(u32) -> Option<Ancestry>| #[trigger]
            agrees(*stored, table) implies record == Ancestry::child_spec(
            recorded_links(tail@, view, durable, table),
            id,
            parent_id,
        ) by {
            assert(agrees(read, recorded_links(tail@, view, durable, table)));
        }
    }
    Ok(record)
}

/// What keeps a row's first bytes from holding a header.
pub open spec fn prefix_fault<T>(row: TrieRow<T>, size: nat) -> Option<Error> {
    if row.length > 0 && row.length < size {
        Some(Error::IOError(IoErrorKind::Invalid(Corruption::TruncatedExternalTrie)))
    } else if row.prefix@.len() < size {
        if row.length > 0 {
            Some(Error::IOError(IoErrorKind::UnexpectedEof))
        } else {
            Some(Error::IOError(IoErrorKind::Invalid(Corruption::TruncatedInlineTrie)))
        }
    } else {
        None
    }
}

/// The header that a row's first bytes hold.
pub open spec fn row_header<T>(row: TrieRow<T>, format: NodeRecordFormat) -> Result<Header, Error> {
    let size: nat = if format is Legacy {
        68
    } else {
        69
    };
    match prefix_fault(row, size) {
        Some(e) => Err(e),
        None => format.header(row.prefix@.subrange(0, size as int)),
    }
}

/// The header that a row's first bytes hold.
pub fn read_row_header<T: MarfTrieId>(row: &TrieRow<T>, format: NodeRecordFormat) -> (header: Result<
    BlobHeader<T>,
    Error,
>)
    ensures
        match row_header(*row, format) {
            Ok(h) => header matches Ok(found) && found@ == h,
            Err(e) => header matches Err(found) && found == e,
        },
{
    let size: usize = format.reader_prefix_len();
    if row.length > 0 && row.length < size as u64 {
        return Err(invalid_input(Corruption::TruncatedExternalTrie));
    }
    if row.prefix.len() < size {
        if row.length > 0 {
            return Err(Error::IOError(IoErrorKind::UnexpectedEof));
        }
        return Err(invalid_input(Corruption::TruncatedInlineTrie));
    }
    BlobHeader::parse_format(format, &row.prefix.as_slice()[0..size])
}

/// The slot that a row is published under.
pub open spec fn row_slot<T: MarfTrieId>(
    row: TrieRow<T>,
    format: NodeRecordFormat,
    with_links: bool,
    ids: spec_fn(Seq<u8>) -> Result<Option<u32>, Error>,
    table: spec_fn(u32) -> Option<Ancestry>,
) -> Result<Seq<u8>, Error> {
    match row_header(row, format) {
        Err(e) => Err(e),
        Ok(header) => if with_links {
            match new_links(row.id, row.excluded, header.parent, ids, table) {
                Err(e) => Err(e),
                Ok(links) => Ok(slot_bytes(row.block.id_bytes(), header.root, links)),
            }
        } else {
            Ok(slot_bytes(row.block.id_bytes(), header.root, None))
        },
    }
}

/// The tail that rows from `at` on add to the slots before them.
pub open spec fn rest_of_tail<T: MarfTrieId>(
    rows: Seq<TrieRow<T>>,
    at: int,
    before: Slots,
    live: u32,
    format: NodeRecordFormat,
    with_links: bool,
    ids: spec_fn(Seq<u8>) -> Result<Option<u32>, Error>,
    stored: spec_fn(u32) -> Option<Ancestry>,
) -> Result<Slots, Error>
    decreases rows.len() - at,
{
    if at < 0 || at >= rows.len() {
        if before.end() == live {
            Ok(before)
        } else {
            Err(Error::IOError(IoErrorKind::Invalid(Corruption::MissingTail)))
        }
    } else if rows[at].id != before.end() + 1 || rows[at].unconfirmed {
        Err(Error::IOError(IoErrorKind::Invalid(Corruption::NoncontiguousTail)))
    } else {
        match row_slot(
            rows[at],
            format,
            with_links,
            ids,
            recorded_links(before, None, before.base as u32, stored),
        ) {
            Err(e) => Err(e),
            Ok(slot) => rest_of_tail(
                rows,
                at + 1,
                Slots { base: before.base, slots: before.slots.push(slot) },
                live,
                format,
                with_links,
                ids,
                stored,
            ),
        }
    }
}

/// The committed tail between two boundaries, from the rows between them.
pub open spec fn recovered_tail<T: MarfTrieId>(
    rows: Seq<TrieRow<T>>,
    durable: u32,
    live: u32,
    format: NodeRecordFormat,
    with_links: bool,
    ids: spec_fn(Seq<u8>) -> Result<Option<u32>, Error>,
    stored: spec_fn(u32) -> Option<Ancestry>,
) -> Result<Slots, Error> {
    let none = Slots { base: durable as int, slots: Seq::empty() };
    if live < durable || live - durable >= CHECKPOINT_SLOTS {
        Err(Error::IOError(IoErrorKind::Invalid(Corruption::InvalidCheckpointBounds)))
    } else if live == durable {
        Ok(none)
    } else {
        rest_of_tail(rows, 0, none, live, format, with_links, ids, stored)
    }
}

/// Reconstruct only the bounded tail from authoritative rows and trie root envelopes.
pub fn recover_tail<
    T: MarfTrieId,
    P: Fn(&T) -> Result<Option<u32>, Error>,
    S: Fn(u32) -> Option<Ancestry>,
>(
    rows: &[TrieRow<T>],
    durable: u32,
    live: u32,
    slot_size: usize,
    format: NodeRecordFormat,
    find: &P,
    stored: &S,
) -> (tail: Result<Tail, Error>)
    requires
        forall|block: &T| call_requires(*find, (block,)),
        forall|at: u32| call_requires(*stored, (at,)),
    ensures
        forall|
            ids: spec_fn(Seq<u8>) -> Result<Option<u32>, Error>,
            table: spec_fn(u32) -> Option<Ancestry>,
        | #[trigger]
            finds_ids(*find, ids) && #[trigger] agrees(*stored, table) ==> match recovered_tail(
                rows@,
                durable,
                live,
                format,
                slot_size == SLOT,
                ids,
                table,
            ) {
                Ok(slots) => tail matches Ok(found) && found@ == slots,
                Err(e) => tail matches Err(found) && found == e,
            },
        tail matches Ok(found) ==> found@.base == durable && found@.end() == live
            && found@.slots.len() < CHECKPOINT_SLOTS,
{
    if live < durable || live - durable >= CHECKPOINT_SLOTS {
        return Err(invalid_input(Corruption::InvalidCheckpointBounds));
    }
    let mut tail = Tail::empty(durable);
    if durable == live {
        return Ok(tail);
    }
    let with_links: bool = slot_size == SLOT;
    let ghost begun = Slots { base: durable as int, slots: Seq::empty() };
    let mut at: usize = 0;
    while at < rows.len()
        invariant
            at <= rows@.len(),
            tail@.base == durable,
            with_links == (slot_size == SLOT),
            begun == (Slots { base: durable as int, slots: Seq::empty() }),
            durable < live,
            live - durable < CHECKPOINT_SLOTS,
            forall|block: &T| call_requires(*find, (block,)),
            forall|at: u32| call_requires(*stored, (at,)),
            forall|
                ids: spec_fn(Seq<u8>) -> Result<Option<u32>, Error>,
                table: spec_fn(u32) -> Option<Ancestry>,
            | #[trigger]
                finds_ids(*find, ids) && #[trigger] agrees(*stored, table) ==> rest_of_tail(
                    rows@,
                    0,
                    begun,
                    live,
                    format,
                    with_links,
                    ids,
                    table,
                ) == rest_of_tail(
                    rows@,
                    at as int,
                    tail@,
                    live,
                    format,
                    with_links,
                    ids,
                    table,
                ),
        decreases rows@.len() - at,
    {
        let row: &TrieRow<T> = &rows[at];
        if row.id as u64 != tail.end() as u64 + 1 || row.unconfirmed {
            return Err(invalid_input(Corruption::NoncontiguousTail));
        }
        let header: BlobHeader<T> = match read_row_header(row, format) {
            Ok(header) => header,
            Err(e) => return Err(e),
        };
        let mut links: Option<Ancestry> = None;
        if with_links {
            links =
            match recover_links(
                find,
                stored,
                durable,
                &tail,
                row.id,
                &header.parent_hash,
                row.excluded,
                None,
            ) {
                Ok(links) => links,
                Err(e) => return Err(e),
            };
        }
        let slot: [u8; 80] = make_slot(&row.block, &header.root_hash, links);
        tail.push(slot);
        at = at + 1;
    }
    if tail.end() != live {
        return Err(invalid_input(Corruption::MissingTail));
    }
    Ok(tail)
}

/// A recovered tail fills the space between its boundaries, and is shorter than a batch.
pub proof fn law_recovered_tail_fills_bounds<T: MarfTrieId>(
    rows: Seq<TrieRow<T>>,
    durable: u32,
    live: u32,
    format: NodeRecordFormat,
    with_links: bool,
    ids: spec_fn(Seq<u8>) -> Result<Option<u32>, Error>,
    stored: spec_fn(u32) -> Option<Ancestry>,
)
    requires
        recovered_tail(rows, durable, live, format, with_links, ids, stored) is Ok,
    ensures
        ({
            let tail = recovered_tail(rows, durable, live, format, with_links, ids, stored)->Ok_0;
            tail.base == durable && tail.end() == live && tail.slots.len() < CHECKPOINT_SLOTS
        }),
{
    if live != durable {
        let none = Slots { base: durable as int, slots: Seq::empty() };
        lemma_rest_fills_bounds(rows, 0, none, live, format, with_links, ids, stored);
    }
}

proof fn lemma_rest_fills_bounds<T: MarfTrieId>(
    rows: Seq<TrieRow<T>>,
    at: int,
    before: Slots,
    live: u32,
    format: NodeRecordFormat,
    with_links: bool,
    ids: spec_fn(Seq<u8>) -> Result<Option<u32>, Error>,
    stored: spec_fn(u32) -> Option<Ancestry>,
)
    requires
        rest_of_tail(rows, at, before, live, format, with_links, ids, stored) is Ok,
    ensures
        ({
            let tail = rest_of_tail(
                rows,
                at,
                before,
                live,
                format,
                with_links,
                ids,
                stored,
            )->Ok_0;
            tail.base == before.base && tail.end() == live
        }),
    decreases rows.len() - at,
{
    if 0 <= at < rows.len() {
        let slot = row_slot(
            rows[at],
            format,
            with_links,
            ids,
            recorded_links(before, None, before.base as u32, stored),
        )->Ok_0;
        lemma_rest_fills_bounds(
            rows,
            at + 1,
            Slots { base: before.base, slots: before.slots.push(slot) },
            live,
            format,
            with_links,
            ids,
            stored,
        );
    }
}

/// Both boundaries of a committed publication, read together.
#[derive(Debug)]
pub struct Publication {
    /// Identity of the file generation.
    pub token: Vec<u8>,
    /// Largest ID in the durable prefix.
    pub durable: u32,
    /// Largest committed ID.
    pub live: u32,
}

impl Publication {
    /// The committed boundary is never below the durable one.
    pub open spec fn wf(&self) -> bool {
        self.durable <= self.live
    }
}

/// Records that a transaction has appended and not yet committed.
#[derive(Debug)]
pub struct Pending {
    /// Largest ID in the durable prefix.
    pub durable: u32,
    /// Largest appended ID.
    pub live: u32,
    /// Records beyond the durable boundary.
    pub tail: Tail,
}

impl Pending {
    /// Whether the records fill the space between the boundaries.
    pub open spec fn wf(&self) -> bool {
        &&& self.tail@.base == self.durable
        &&& self.tail@.end() == self.live
    }
}

/// How an append starts.
#[derive(Debug)]
pub enum AppendPlan {
    /// The publication has another generation or another next ID.
    Ignore,
    /// The records appended so far fit the publication.
    Continue,
    /// The transaction's own tail covers the publication.
    Start(Tail),
    /// The tail has to be recovered from the index.
    Recover,
}

/// Decide how an append starts, from what is published and what the transaction holds.
pub fn plan_append(
    own_token: &[u8],
    publication: Option<&Publication>,
    pending: Option<&Pending>,
    tail: &Tail,
    id: u32,
) -> (plan: AppendPlan)
    requires
        publication is Some ==> publication->0.wf(),
    ensures
        match publication {
            None => plan is Ignore,
            Some(found) => if found.token@ != own_token@ || found.live + 1 != id {
                plan is Ignore
            } else if pending is Some && pending->0.durable == found.durable && pending->0.live
                == found.live {
                plan is Continue
            } else {
                match tail@.bounded(found.durable as int, found.live as int) {
                    Some(part) => plan matches AppendPlan::Start(begun) && begun@ == part,
                    None => plan is Recover,
                }
            },
        },
{
    let found: &Publication = match publication {
        Some(found) => found,
        None => return AppendPlan::Ignore,
    };
    if !bytes_eq(found.token.as_slice(), own_token) || found.live as u64 + 1 != id as u64 {
        return AppendPlan::Ignore;
    }
    match pending {
        Some(item) => if item.durable == found.durable && item.live == found.live {
            return AppendPlan::Continue;
        },
        None => {},
    }
    match tail.bounded(found.durable, found.live) {
        Some(part) => AppendPlan::Start(part),
        None => AppendPlan::Recover,
    }
}

/// A batch of records to be made durable.
#[derive(Debug)]
pub struct Checkpoint {
    /// Where in the file the records go.
    pub offset: u64,
    /// The records.
    pub bytes: Vec<u8>,
    /// The ID that becomes the durable boundary.
    pub durable: u32,
}

impl Pending {
    /// Whether the records fill the space between the boundaries.
    pub fn is_filled(&self) -> (filled: bool)
        ensures
            filled == self.wf(),
    {
        self.tail.base() == self.durable && self.tail.end() == self.live
    }

    /// The records of a transaction that has appended nothing yet.
    pub fn start(durable: u32, live: u32, tail: Tail) -> (item: Self)
        ensures
            item.durable == durable,
            item.live == live,
            item.tail@ == tail@,
    {
        Pending { durable, live, tail }
    }

    /// Append the next record. A full batch is handed out, and has to be durable before
    /// [`Pending::complete`] moves the boundary.
    pub fn append(&mut self, slot: [u8; 80], slot_size: usize) -> (batch: Option<Checkpoint>)
        requires
            old(self).wf(),
            old(self).live < u32::MAX,
            slot_size <= 80,
        ensures
            final(self).durable == old(self).durable,
            final(self).live == old(self).live + 1,
            final(self).tail@ == (Slots {
                base: old(self).tail@.base,
                slots: old(self).tail@.slots.push(slot@),
            }),
            final(self).wf(),
            batch is None <==> final(self).live - final(self).durable < CHECKPOINT_SLOTS,
            batch matches Some(item) ==> {
                &&& item.offset == slot_start_spec(final(self).durable, slot_size as nat)
                    + slot_size
                &&& item.bytes@ == joined(final(self).tail@.slots, slot_size as nat)
                &&& item.durable == final(self).live
            },
    {
        self.tail.push(slot);
        self.live = self.live + 1;
        if self.live - self.durable < CHECKPOINT_SLOTS {
            return None;
        }
        Some(
            Checkpoint {
                offset: slot_end_for(self.durable, slot_size),
                bytes: self.tail.record_bytes(slot_size),
                durable: self.live,
            },
        )
    }

    /// Move the durable boundary behind a batch that was made durable.
    pub fn complete(&mut self)
        ensures
            final(self).wf(),
            final(self).durable == old(self).live,
            final(self).live == old(self).live,
            final(self).tail@.slots.len() == 0,
    {
        self.durable = self.live;
        self.tail = Tail::empty(self.live);
    }
}

/// Every record of a batch lands where the file keeps its ID's slot.
pub proof fn law_batch_lands_in_slots(durable: u32, slots: Seq<Seq<u8>>, slot_size: nat, i: int)
    requires
        0 < slot_size <= 80,
        0 <= i < slots.len(),
        durable + slots.len() <= u32::MAX,
        forall|k: int| 0 <= k < slots.len() ==> #[trigger] slots[k].len() == 80,
    ensures
        joined(slots, slot_size).len() == slots.len() * slot_size,
        joined(slots, slot_size).subrange(i * slot_size, (i + 1) * slot_size)
            == slots[i].subrange(0, slot_size as int),
        slot_start_spec(durable, slot_size) + slot_size + i * slot_size == slot_start_spec(
            (durable + i + 1) as u32,
            slot_size,
        ),
    decreases slots.len(),
{
    lemma_joined_len(slots, slot_size);
    let head = slots.drop_last();
    lemma_joined_len(head, slot_size);
    assert((durable as int + i + 1) * slot_size == durable as int * slot_size + i * slot_size
        + slot_size) by (nonlinear_arith);
    assert((i + 1) * slot_size == i * slot_size + slot_size) by (nonlinear_arith);
    assert(slots.len() * slot_size == head.len() * slot_size + slot_size) by (nonlinear_arith)
        requires
            slots.len() == head.len() + 1,
    ;
    if i == slots.len() - 1 {
        assert(joined(slots, slot_size).subrange(i * slot_size, (i + 1) * slot_size)
            =~= slots[i].subrange(0, slot_size as int));
    } else {
        law_batch_lands_in_slots(durable, head, slot_size, i);
        assert((i + 1) * slot_size <= head.len() * slot_size) by (nonlinear_arith)
            requires
                i + 1 <= head.len(),
                0 <= slot_size,
        ;
        assert(0 <= i * slot_size) by (nonlinear_arith)
            requires
                0 <= i,
                0 <= slot_size,
        ;
        assert(joined(slots, slot_size).subrange(i * slot_size, (i + 1) * slot_size)
            =~= joined(head, slot_size).subrange(i * slot_size, (i + 1) * slot_size));
    }
}

proof fn lemma_joined_len(slots: Seq<Seq<u8>>, slot_size: nat)
    requires
        slot_size <= 80,
        forall|k: int| 0 <= k < slots.len() ==> #[trigger] slots[k].len() == 80,
    ensures
        joined(slots, slot_size).len() == slots.len() * slot_size,
    decreases slots.len(),
{
    if slots.len() > 0 {
        lemma_joined_len(slots.drop_last(), slot_size);
        assert(slots.len() * slot_size == (slots.len() - 1) * slot_size + slot_size)
            by (nonlinear_arith);
    } else {
        assert(0 * slot_size == 0) by (nonlinear_arith);
    }
}

/// What becomes of appended records when the surrounding transaction is about to commit.
#[derive(Clone, Copy, Debug, PartialEq, Eq, Structural)]
pub enum Reconcile {
    /// The records still match the publication.
    Keep,
    /// The publication is gone, of another generation, or revoked.
    Drop,
    /// A rollback moved the boundaries: recover the records.
    Recover,
}

/// Reconcile a savepoint rollback before the surrounding transaction commits.
pub fn reconcile(
    pending: Option<&Pending>,
    publication: Option<&Publication>,
    own_token: &[u8],
    active: bool,
) -> (action: Reconcile)
    ensures
        action == match pending {
            None => Reconcile::Keep,
            Some(item) => match publication {
                None => Reconcile::Drop,
                Some(found) => if found.token@ != own_token@ || !active {
                    Reconcile::Drop
                } else if item.durable == found.durable && item.live == found.live {
                    Reconcile::Keep
                } else {
                    Reconcile::Recover
                },
            },
        },
{
    let item: &Pending = match pending {
        Some(item) => item,
        None => return Reconcile::Keep,
    };
    let found: &Publication = match publication {
        Some(found) => found,
        None => return Reconcile::Drop,
    };
    if !bytes_eq(found.token.as_slice(), own_token) || !active {
        return Reconcile::Drop;
    }
    if item.durable == found.durable && item.live == found.live {
        Reconcile::Keep
    } else {
        Reconcile::Recover
    }
}

/// Share a committed tail, unless a longer one is shared already.
pub fn share_tail(shared: &mut Tail, tail: &Tail, live: u32)
    ensures
        final(shared)@ == if live >= old(shared)@.end() {
            tail@
        } else {
            old(shared)@
        },
{
    if live >= shared.end() {
        *shared = tail.copy();
    }
}

/// The state of an offline build: the links of the slots written so far.
pub struct HashBuild {
    max_id: u32,
    links: Vec<Option<Ancestry>>,
    previous: [u8; 32],
}

/// What an offline build has written so far.
#[verifier::ext_equal]
pub struct Built {
    /// The links of each ID, starting with the unused ID zero.
    pub links: Seq<Option<Ancestry>>,
    /// The identity of the block written last.
    pub previous: Seq<u8>,
}

impl Built {
    /// The largest ID written.
    pub open spec fn max_id(self) -> int {
        self.links.len() - 1
    }

    /// The links by ID.
    pub open spec fn table(self) -> spec_fn(u32) -> Option<Ancestry> {
        |at: u32|
            if at < self.links.len() {
                self.links[at as int]
            } else {
                None
            }
    }

    /// Nothing is written yet.
    pub open spec fn empty() -> Built {
        Built { links: seq![None::<Ancestry>], previous: sentinel_bytes() }
    }

    /// Whether a row comes next.
    pub open spec fn continues<T: MarfTrieId>(self, row: TrieRow<T>) -> bool {
        row.id == self.max_id() + 1 && !row.unconfirmed
    }

    /// The local ID of a parent: that of the block written last needs no lookup.
    pub open spec fn parents(self, ids: spec_fn(Seq<u8>) -> Result<Option<u32>, Error>) -> spec_fn(
        Seq<u8>,
    ) -> Result<Option<u32>, Error> {
        |parent: Seq<u8>|
            if parent == self.previous {
                Ok(Some(self.max_id() as u32))
            } else {
                ids(parent)
            }
    }

    /// The slot of the next row and the state after it.
    pub open spec fn step<T: MarfTrieId>(
        self,
        row: TrieRow<T>,
        format: NodeRecordFormat,
        squashed: bool,
        ids: spec_fn(Seq<u8>) -> Result<Option<u32>, Error>,
    ) -> Result<(Seq<u8>, Built), Error> {
        match row_header(row, format) {
            Err(e) => Err(e),
            Ok(header) => match new_links(
                row.id,
                squashed || row.excluded,
                header.parent,
                self.parents(ids),
                self.table(),
            ) {
                Err(e) => Err(e),
                Ok(links) => Ok(
                    (
                        slot_bytes(row.block.id_bytes(), header.root, links),
                        Built { links: self.links.push(links), previous: row.block.id_bytes() },
                    ),
                ),
            },
        }
    }
}

impl Built {
    /// Whether a step came out as it should: nothing where the row does not come next, an error
    /// that changes nothing, or the row's slot.
    pub open spec fn stepped<T: MarfTrieId>(
        self,
        row: TrieRow<T>,
        format: NodeRecordFormat,
        squashed: bool,
        ids: spec_fn(Seq<u8>) -> Result<Option<u32>, Error>,
        slot: Result<Option<[u8; 80]>, Error>,
        after: Built,
    ) -> bool {
        if !self.continues(row) {
            slot == Ok::<Option<[u8; 80]>, Error>(None) && after == self
        } else {
            match self.step(row, format, squashed, ids) {
                Ok(done) => (slot matches Ok(Some(bytes)) && bytes@ == done.0) && after == done.1,
                Err(e) => slot == Err::<Option<[u8; 80]>, Error>(e) && after == self,
            }
        }
    }
}

impl HashBuild {
    /// What is written so far.
    pub closed spec fn view(&self) -> Built {
        Built { links: self.links@, previous: self.previous@ }
    }

    #[verifier::type_invariant]
    spec fn dense(self) -> bool {
        self.links@.len() == self.max_id + 1
    }

    /// A build that has written nothing.
    pub fn start() -> (build: Self)
        ensures
            build@ == Built::empty(),
    {
        let mut links: Vec<Option<Ancestry>> = Vec::new();
        links.push(None);
        let build = HashBuild { max_id: 0, links, previous: sentinel_array() };
        assert(build@ =~= Built::empty());
        build
    }

    /// The largest ID written.
    pub fn max_id(&self) -> (id: u32)
        ensures
            id == self@.max_id(),
    {
        proof {
            use_type_invariant(self);
        }
        self.max_id
    }

    /// Derive the slot of the next row, or stop at the first hole or unconfirmed row.
    pub fn step<T: MarfTrieId, P: Fn(&T) -> Result<Option<u32>, Error>>(
        &mut self,
        row: &TrieRow<T>,
        format: NodeRecordFormat,
        squashed: bool,
        find: &P,
    ) -> (slot: Result<Option<[u8; 80]>, Error>)
        requires
            forall|block: &T| call_requires(*find, (block,)),
        ensures
            forall|ids: spec_fn(Seq<u8>) -> Result<Option<u32>, Error>| #[trigger]
                finds_ids(*find, ids) ==> old(self)@.stepped(
                    *row,
                    format,
                    squashed,
                    ids,
                    slot,
                    final(self)@,
                ),
    {
        proof {
            use_type_invariant(&*self);
        }
        if row.id as u64 != self.max_id as u64 + 1 || row.unconfirmed {
            return Ok(None);
        }
        let header: BlobHeader<T> = match read_row_header(row, format) {
            Ok(header) => header,
            Err(e) => return Err(e),
        };
        let ghost before = self@;
        let mut record: Option<Ancestry> = None;
        if !squashed && !row.excluded {
            if bytes_eq(header.parent_hash.as_bytes(), &sentinel_array()) {
                record = Some(Ancestry::genesis());
            } else {
                let parent_id: Option<u32> = if bytes_eq(
                    header.parent_hash.as_bytes(),
                    &self.previous,
                ) {
                    Some(self.max_id)
                } else {
                    match find(&header.parent_hash) {
                        Ok(found) => found,
                        Err(e) => return Err(e),
                    }
                };
                match parent_id {
                    Some(parent) => {
                        let known: &Vec<Option<Ancestry>> = &self.links;
                        let read = |at: u32| -> (found: Option<Ancestry>)
                            ensures
                                found == if at < known@.len() {
                                    known@[at as int]
                                } else {
                                    None
                                },
                            {
                                if (at as usize) < known.len() {
                                    known[at as usize]
                                } else {
                                    None
                                }
                            };
                        record = Ancestry::child(row.id, parent, read);
                        proof {
                            assert(agrees(read, before.table()));
                        }
                    },
                    None => {},
                }
            }
        }
        let slot: [u8; 80] = make_slot(&row.block, &header.root_hash, record);
        let mut done = HashBuild::start();
        std::mem::swap(&mut done, self);
        let mut links: Vec<Option<Ancestry>> = done.links;
        links.push(record);
        *self =
        HashBuild {
            max_id: row.id,
            links,
            previous: to_array::<32>(row.block.as_bytes()),
        };
        Ok(Some(slot))
    }
}

/// An offline build's ancestry stays consistent with every slot that it writes, so that its skip
/// links answer every height query as the parents do.
pub proof fn law_build_keeps_ancestry_consistent<T: MarfTrieId>(
    built: Built,
    row: TrieRow<T>,
    format: NodeRecordFormat,
    squashed: bool,
    ids: spec_fn(Seq<u8>) -> Result<Option<u32>, Error>,
)
    requires
        built.links.len() > 0,
        crate::ancestry::consistent(built.table()),
        built.continues(row),
        built.step(row, format, squashed, ids) is Ok,
    ensures
        crate::ancestry::consistent(built.step(row, format, squashed, ids)->Ok_0.1.table()),
{
    let header = row_header(row, format)->Ok_0;
    let table = built.table();
    let links = new_links(
        row.id,
        squashed || row.excluded,
        header.parent,
        built.parents(ids),
        table,
    )->Ok_0;
    let after = built.step(row, format, squashed, ids)->Ok_0.1.table();
    assert forall|at: u32| #[trigger] after(at) == if at == row.id {
        links
    } else {
        table(at)
    } by {}
    crate::ancestry::lemma_new_record_keeps_consistent(table, row.id, links, after);
}

} // verus!
