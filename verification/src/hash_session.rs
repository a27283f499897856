//! The direct hash index inside a managed transaction.
use vstd::prelude::*;

use crate::ancestry::{agrees, Ancestry};
use crate::direct_hash_index::{
    ancestor_slot_spec, find_ancestor_slot, joined, make_slot, reads_slots, slot_bytes,
    slot_start_spec, visible, visible_slot, HashView, Slots, Tail, CHECKPOINT_SLOTS, SLOT,
};
use crate::error::Error;
use crate::hash::{MarfTrieId, TrieHash};
use crate::hash_publication::{
    finds_ids, new_links, plan_append, reconcile, recorded_links, recover_links, share_tail,
    AppendPlan, Checkpoint, Pending, Publication, Reconcile,
};
use crate::words::{bytes_eq, to_array};

verus! {

/// Managed transaction identity and lifetime.
#[derive(Debug)]
pub struct Session {
    /// Connection identity; a different connection must acquire its own snapshot.
    pub connection: usize,
    /// Revoked on explicit reset and all transaction exits, including implicit rollback.
    pub active: bool,
    /// Appended records, dropped on rollback.
    pub pending: Option<Pending>,
}

/// Optional dense-prefix index, with transaction-local read boundaries.
#[derive(Debug)]
pub struct DirectHashIndex {
    /// Publication identity of the file generation.
    pub token: Vec<u8>,
    /// Record width of the file generation.
    pub slot_size: usize,
    /// The transaction's gate.
    pub session: Option<Session>,
    /// Committed non-durable records visible in this transaction's snapshot.
    pub tail: Tail,
}

/// The connection that asks, and whether it is outside any transaction.
#[derive(Clone, Copy, Debug, PartialEq, Eq, Structural)]
pub struct Caller {
    pub connection: usize,
    pub autocommit: bool,
}

/// The tail that a transaction starts with: the shared one where it covers the snapshot, else a
/// recovered one.
pub open spec fn snapshot_tail<R: FnOnce(u32, u32) -> Result<Tail, Error>>(
    shared: Slots,
    durable: u32,
    live: u32,
    recover: R,
    tail: Slots,
) -> bool {
    match shared.bounded(durable as int, live as int) {
        Some(part) => tail == part,
        None => exists|found: Tail| #[trigger]
            call_ensures(recover, (durable, live), Ok::<Tail, Error>(found)) && found@ == tail,
    }
}

/// Whether a tail could not be had.
pub open spec fn snapshot_fails<R: FnOnce(u32, u32) -> Result<Tail, Error>>(
    shared: Slots,
    durable: u32,
    live: u32,
    recover: R,
    e: Error,
) -> bool {
    shared.bounded(durable as int, live as int) is None && call_ensures(
        recover,
        (durable, live),
        Err::<Tail, Error>(e),
    )
}

/// Whether recovered tails fill the space between the boundaries that they are recovered for.
pub open spec fn fills_bounds<R: FnOnce(u32, u32) -> Result<Tail, Error>>(recover: R) -> bool {
    forall|durable: u32, live: u32, found: Tail| #[trigger]
        call_ensures(recover, (durable, live), Ok::<Tail, Error>(found)) ==> found@.base == durable
            && found@.end() == live
}

impl DirectHashIndex {
    /// Whether the records appended so far fill the space between their boundaries.
    pub open spec fn records_fit(&self) -> bool {
        self.appended() is Some ==> self.appended()->0.wf()
    }

    /// Whether a caller may use direct slots: the session is live, on this connection, and inside a
    /// transaction.
    pub open spec fn allows(&self, caller: Caller) -> bool {
        match self.session {
            Some(session) => session.active && session.connection == caller.connection
                && !caller.autocommit,
            None => false,
        }
    }

    /// The slot that a caller may read of an ID.
    pub open spec fn lookup(&self, view: Option<&HashView<'_>>, caller: Caller, id: u32) -> Option<
        Seq<u8>,
    > {
        match view {
            Some(view) => if self.allows(caller) {
                visible(view, self.tail@, id)
            } else {
                None
            },
            None => None,
        }
    }

    /// The slots that a caller may read, by ID.
    pub open spec fn lookups(&self, view: Option<&HashView<'_>>, caller: Caller) -> spec_fn(
        u32,
    ) -> Option<Seq<u8>> {
        |id: u32| self.lookup(view, caller, id)
    }

    /// Whether a caller may use direct slots: the session is live, on this connection, and inside a
    /// transaction.
    pub fn is_allowed(&self, caller: Caller) -> (allowed: bool)
        ensures
            allowed == self.allows(caller),
    {
        match &self.session {
            Some(session) => session.active && session.connection == caller.connection
                && !caller.autocommit,
            None => false,
        }
    }

    /// Read only within this managed transaction's committed immutable prefix.
    pub fn slot(&self, view: Option<&HashView<'_>>, caller: Caller, id: u32) -> (slot: Option<
        [u8; 80],
    >)
        requires
            view is Some ==> view->0.wf(),
        ensures
            match self.lookup(view, caller, id) {
                Some(bytes) => slot matches Some(s) && s@ == bytes,
                None => slot is None,
            },
    {
        if !self.is_allowed(caller) {
            return None;
        }
        match view {
            Some(view) => visible_slot(view, &self.tail, id),
            None => None,
        }
    }

    /// Return a direct hash, with a fallback for newer, unconfirmed, or unindexed IDs.
    pub fn block_hash<T: MarfTrieId, F: FnOnce(u32) -> Result<T, Error>>(
        index: Option<&Self>,
        view: Option<&HashView<'_>>,
        caller: Caller,
        id: u32,
        fallback: F,
    ) -> (hash: Result<T, Error>)
        requires
            view is Some ==> view->0.wf(),
            call_requires(fallback, (id,)),
        ensures
            match index {
                Some(index) => match index.lookup(view, caller, id) {
                    Some(bytes) => hash matches Ok(h) && h.id_bytes() == bytes.subrange(0, 32),
                    None => call_ensures(fallback, (id,), hash),
                },
                None => call_ensures(fallback, (id,), hash),
            },
    {
        match index {
            Some(index) => match index.slot(view, caller, id) {
                Some(slot) => {
                    let bytes: &[u8] = &slot;
                    return Ok(T::from_bytes(to_array::<32>(&bytes[0..32])));
                },
                None => {},
            },
            None => {},
        }
        fallback(id)
    }

    /// Return the immutable slot at an older height on this exact committed fork.
    pub fn ancestor_slot<T: MarfTrieId>(
        &self,
        view: Option<&HashView<'_>>,
        caller: Caller,
        id: u32,
        block: &T,
        height: u32,
        target: u32,
    ) -> (slot: Option<[u8; 80]>)
        requires
            view is Some ==> view->0.wf(),
        ensures
            match ancestor_slot_spec(
                self.lookups(view, caller),
                self.slot_size as nat,
                id,
                block.id_bytes(),
                height,
                target,
            ) {
                Some(bytes) => slot matches Some(s) && s@ == bytes,
                None => slot is None,
            },
    {
        let read = |at: u32| -> (found: Option<[u8; 80]>)
            ensures
                match self.lookup(view, caller, at) {
                    Some(bytes) => found matches Some(s) && s@ == bytes,
                    None => found is None,
                },
            { self.slot(view, caller, at) };
        assert(reads_slots(read, self.lookups(view, caller)));
        find_ancestor_slot(&read, self.slot_size, id, block, height, target)
    }

    /// Resolve an older height on this exact committed block's fork.
    pub fn ancestor_hash<T: MarfTrieId>(
        &self,
        view: Option<&HashView<'_>>,
        caller: Caller,
        id: u32,
        block: &T,
        height: u32,
        target: u32,
    ) -> (hash: Option<T>)
        requires
            view is Some ==> view->0.wf(),
        ensures
            match ancestor_slot_spec(
                self.lookups(view, caller),
                self.slot_size as nat,
                id,
                block.id_bytes(),
                height,
                target,
            ) {
                Some(bytes) => hash matches Some(h) && h.id_bytes() == bytes.subrange(0, 32),
                None => hash is None,
            },
    {
        match self.ancestor_slot(view, caller, id, block, height, target) {
            Some(slot) => {
                let bytes: &[u8] = &slot;
                Some(T::from_bytes(to_array::<32>(&bytes[0..32])))
            },
            None => None,
        }
    }

    /// Read the committed root from the same fork-verified ancestor slot.
    pub fn ancestor_root<T: MarfTrieId>(
        &self,
        view: Option<&HashView<'_>>,
        caller: Caller,
        id: u32,
        block: &T,
        height: u32,
        target: u32,
    ) -> (root: Option<TrieHash>)
        requires
            view is Some ==> view->0.wf(),
        ensures
            match ancestor_slot_spec(
                self.lookups(view, caller),
                self.slot_size as nat,
                id,
                block.id_bytes(),
                height,
                target,
            ) {
                Some(bytes) => root matches Some(r) && r@ == bytes.subrange(32, 64),
                None => root is None,
            },
    {
        match self.ancestor_slot(view, caller, id, block, height, target) {
            Some(slot) => {
                let bytes: &[u8] = &slot;
                Some(TrieHash(to_array::<32>(&bytes[32..64])))
            },
            None => None,
        }
    }

    /// Return the direct root only when its exact block identity also matches.
    pub fn root_hash<T: MarfTrieId>(
        &self,
        view: Option<&HashView<'_>>,
        caller: Caller,
        id: u32,
        block: &T,
    ) -> (root: Option<TrieHash>)
        requires
            view is Some ==> view->0.wf(),
        ensures
            match self.lookup(view, caller, id) {
                Some(bytes) => if bytes.subrange(0, 32) == block.id_bytes() {
                    root matches Some(r) && r@ == bytes.subrange(32, 64)
                } else {
                    root is None
                },
                None => root is None,
            },
    {
        match self.slot(view, caller, id) {
            Some(slot) => {
                let bytes: &[u8] = &slot;
                if !bytes_eq(&bytes[0..32], block.as_bytes()) {
                    return None;
                }
                Some(TrieHash(to_array::<32>(&bytes[32..64])))
            },
            None => None,
        }
    }

    /// Whether a publication is of this generation.
    pub open spec fn owns(&self, publication: Option<&Publication>) -> bool {
        publication is Some && publication->0.token@ == self.token@
    }

    /// Bind to a newly started managed transaction, before any writes or nested savepoints. Says
    /// whether the publication is of this generation, so that the transaction may have a view.
    pub fn begin<R: FnOnce(u32, u32) -> Result<Tail, Error>>(
        &mut self,
        publication: Option<&Publication>,
        connection: usize,
        shared: &mut Tail,
        recover: R,
    ) -> (owned: Result<bool, Error>)
        requires
            publication is Some ==> publication->0.wf(),
            forall|durable: u32, live: u32| call_requires(recover, (durable, live)),
        ensures
            final(self).token == old(self).token,
            final(self).slot_size == old(self).slot_size,
            owned matches Ok(known) ==> {
                &&& known == old(self).owns(publication)
                &&& final(self).session == Some(
                    Session { connection, active: true, pending: None },
                )
            },
            !old(self).owns(publication) ==> {
                &&& owned is Ok
                &&& final(self).tail@ == (Slots { base: 0, slots: Seq::empty() })
                &&& final(shared)@ == old(shared)@
            },
            old(self).owns(publication) ==> {
                let durable = publication->0.durable;
                let live = publication->0.live;
                match owned {
                    Ok(_) => {
                        &&& snapshot_tail(old(shared)@, durable, live, recover, final(self).tail@)
                        &&& final(shared)@ == if live >= old(shared)@.end() {
                            final(self).tail@
                        } else {
                            old(shared)@
                        }
                    },
                    Err(e) => {
                        &&& snapshot_fails(old(shared)@, durable, live, recover, e)
                        &&& final(shared)@ == old(shared)@
                        &&& final(self).session == old(self).session
                        &&& final(self).tail@ == (Slots { base: 0, slots: Seq::empty() })
                    },
                }
            },
    {
        self.tail = Tail::empty(0);
        let mut known: bool = false;
        match publication {
            Some(found) => if bytes_eq(found.token.as_slice(), self.token.as_slice()) {
                known = true;
                self.tail =
                match shared.bounded(found.durable, found.live) {
                    Some(tail) => tail,
                    None => match recover(found.durable, found.live) {
                        Ok(tail) => tail,
                        Err(e) => return Err(e),
                    },
                };
                share_tail(shared, &self.tail, found.live);
            },
            None => {},
        }
        self.session = Some(Session { connection, active: true, pending: None });
        Ok(known)
    }

    /// Revoke the session before a whole-store reset changes local ID meaning.
    pub fn reset(&mut self)
        ensures
            final(self).token == old(self).token,
            final(self).slot_size == old(self).slot_size,
            final(self).tail@ == old(self).tail@,
            match old(self).session {
                Some(session) => final(self).session == Some(
                    Session {
                        connection: session.connection,
                        active: false,
                        pending: session.pending,
                    },
                ),
                None => final(self).session is None,
            },
    {
        match &mut self.session {
            Some(session) => {
                session.active = false;
            },
            None => {},
        }
    }

    /// The records appended so far.
    pub open spec fn appended(&self) -> Option<Pending> {
        match self.session {
            Some(session) => session.pending,
            None => None,
        }
    }

    /// Whether there are appended records, and they fill the space between their boundaries, with
    /// an ID left for the next one.
    pub fn can_finish_append(&self) -> (ready: bool)
        ensures
            ready == (self.appended() is Some && self.appended()->0.wf() && self.appended()->0.live
                < u32::MAX && self.slot_size <= SLOT),
    {
        if self.slot_size > SLOT {
            return false;
        }
        match &self.session {
            Some(session) => match &session.pending {
                Some(item) => item.is_filled() && item.live < u32::MAX,
                None => false,
            },
            None => false,
        }
    }

    /// Whether a record is the next one of this generation's publication, and the caller may append
    /// it.
    pub open spec fn accepts(
        &self,
        publication: Option<&Publication>,
        view: Option<&HashView<'_>>,
        caller: Caller,
        id: u32,
    ) -> bool {
        &&& self.allows(caller)
        &&& view is Some
        &&& self.owns(publication)
        &&& publication->0.live + 1 == id
    }

    /// The slots between the publication's boundaries, as an append starts with them.
    pub open spec fn starts_with<R: FnOnce(u32, u32) -> Result<Tail, Error>>(
        &self,
        publication: &Publication,
        recover: R,
        slots: Slots,
    ) -> bool {
        match self.appended() {
            Some(item) => if item.durable == publication.durable && item.live == publication.live {
                slots == item.tail@
            } else {
                snapshot_tail(self.tail@, publication.durable, publication.live, recover, slots)
            },
            None => snapshot_tail(
                self.tail@,
                publication.durable,
                publication.live,
                recover,
                slots,
            ),
        }
    }

    /// Make the appended records fit the publication before the next one is added. Says whether it
    /// is to be added.
    pub fn start_append<R: FnOnce(u32, u32) -> Result<Tail, Error>>(
        &mut self,
        publication: Option<&Publication>,
        view: Option<&HashView<'_>>,
        caller: Caller,
        id: u32,
        recover: R,
    ) -> (go: Result<bool, Error>)
        requires
            publication is Some ==> publication->0.wf(),
            forall|durable: u32, live: u32| call_requires(recover, (durable, live)),
        ensures
            final(self).token == old(self).token,
            final(self).slot_size == old(self).slot_size,
            final(self).tail@ == old(self).tail@,
            !old(self).accepts(publication, view, caller, id) ==> go == Ok::<bool, Error>(false)
                && final(self).session == old(self).session,
            old(self).accepts(publication, view, caller, id) ==> match go {
                Ok(ready) => {
                    &&& ready
                    &&& final(self).session is Some
                    &&& final(self).session->0.connection == old(self).session->0.connection
                    &&& final(self).session->0.active
                    &&& final(self).appended() is Some
                    &&& final(self).appended()->0.durable == publication->0.durable
                    &&& final(self).appended()->0.live == publication->0.live
                    &&& old(self).starts_with(
                        publication->0,
                        recover,
                        final(self).appended()->0.tail@,
                    )
                },
                Err(e) => {
                    &&& snapshot_fails(
                        old(self).tail@,
                        publication->0.durable,
                        publication->0.live,
                        recover,
                        e,
                    )
                    &&& final(self).session == old(self).session
                },
            },
            old(self).records_fit() && fills_bounds(recover) ==> final(self).records_fit(),
    {
        if !self.is_allowed(caller) || view.is_none() {
            return Ok(false);
        }
        let (durable, live): (u32, u32) = match publication {
            Some(found) => (found.durable, found.live),
            None => return Ok(false),
        };
        let plan: AppendPlan = match &self.session {
            Some(session) => plan_append(
                self.token.as_slice(),
                publication,
                session.pending.as_ref(),
                &self.tail,
                id,
            ),
            None => return Ok(false),
        };
        let tail: Tail = match plan {
            AppendPlan::Ignore => return Ok(false),
            AppendPlan::Continue => return Ok(true),
            AppendPlan::Start(tail) => tail,
            AppendPlan::Recover => match recover(durable, live) {
                Ok(tail) => tail,
                Err(e) => return Err(e),
            },
        };
        match &mut self.session {
            Some(session) => {
                session.pending = Some(Pending::start(durable, live, tail));
            },
            None => {},
        }
        Ok(true)
    }

    /// The links that a record is appended with.
    pub open spec fn append_links(
        &self,
        view: Option<&HashView<'_>>,
        parent: Option<Seq<u8>>,
        excluded: bool,
        ids: spec_fn(Seq<u8>) -> Result<Option<u32>, Error>,
        stored: spec_fn(u32) -> Option<Ancestry>,
    ) -> Result<Option<Ancestry>, Error> {
        if self.slot_size == SLOT && parent is Some {
            let item = self.appended()->0;
            new_links(
                (item.live + 1) as u32,
                excluded,
                parent->0,
                ids,
                recorded_links(item.tail@, view, item.durable, stored),
            )
        } else {
            Ok(None)
        }
    }

    /// Add the next record to those appended, with its ancestry links where they are known. A full
    /// batch is handed out, and has to be durable before [`DirectHashIndex::complete_batch`].
    pub fn finish_append<
        T: MarfTrieId,
        P: Fn(&T) -> Result<Option<u32>, Error>,
        S: Fn(u32) -> Option<Ancestry>,
    >(
        &mut self,
        view: Option<&HashView<'_>>,
        block: &T,
        root: &TrieHash,
        parent: Option<&T>,
        excluded: bool,
        find: &P,
        stored: &S,
    ) -> (batch: Result<Option<Checkpoint>, Error>)
        requires
            old(self).appended() is Some,
            old(self).appended()->0.wf(),
            old(self).appended()->0.live < u32::MAX,
            old(self).slot_size <= SLOT,
            view is Some ==> view->0.wf(),
            forall|block: &T| call_requires(*find, (block,)),
            forall|at: u32| call_requires(*stored, (at,)),
        ensures
            final(self).token == old(self).token,
            final(self).slot_size == old(self).slot_size,
            final(self).tail@ == old(self).tail@,
            final(self).session is Some,
            final(self).session->0.connection == old(self).session->0.connection,
            final(self).session->0.active == old(self).session->0.active,
            final(self).appended() is Some,
            final(self).records_fit(),
            forall|
                ids: spec_fn(Seq<u8>) -> Result<Option<u32>, Error>,
                table: spec_fn(u32) -> Option<Ancestry>,
            | #[trigger]
                finds_ids(*find, ids) && #[trigger] agrees(*stored, table) ==> appended_record(
                    old(self).appended()->0,
                    final(self).appended(),
                    old(self).slot_size as nat,
                    block.id_bytes(),
                    root@,
                    old(self).append_links(
                        view,
                        match parent {
                            Some(parent) => Some(parent.id_bytes()),
                            None => None,
                        },
                        excluded,
                        ids,
                        table,
                    ),
                    batch,
                ),
    {
        let slot_size: usize = self.slot_size;
        match &mut self.session {
            Some(session) => match &mut session.pending {
                Some(item) => {
                    let mut links: Option<Ancestry> = None;
                    match parent {
                        Some(parent) => if slot_size == SLOT {
                            links =
                            match recover_links(
                                find,
                                stored,
                                item.durable,
                                &item.tail,
                                item.live + 1,
                                parent,
                                excluded,
                                view,
                            ) {
                                Ok(links) => links,
                                Err(e) => return Err(e),
                            };
                        },
                        None => {},
                    }
                    let slot: [u8; 80] = make_slot(block, root, links);
                    Ok(item.append(slot, slot_size))
                },
                None => Ok(None),
            },
            None => Ok(None),
        }
    }

    /// Move the durable boundary behind a batch that was made durable.
    pub fn complete_batch(&mut self)
        requires
            old(self).appended() is Some,
        ensures
            final(self).token == old(self).token,
            final(self).slot_size == old(self).slot_size,
            final(self).tail@ == old(self).tail@,
            final(self).session is Some,
            final(self).session->0.connection == old(self).session->0.connection,
            final(self).session->0.active == old(self).session->0.active,
            final(self).appended() is Some,
            final(self).appended()->0.wf(),
            final(self).appended()->0.durable == old(self).appended()->0.live,
            final(self).appended()->0.live == old(self).appended()->0.live,
    {
        match &mut self.session {
            Some(session) => match &mut session.pending {
                Some(item) => item.complete(),
                None => {},
            },
            None => {},
        }
    }

    /// Reconcile a savepoint rollback before the surrounding transaction commits.
    pub fn prepare_commit<R: FnOnce(u32, u32) -> Result<Tail, Error>>(
        &mut self,
        publication: Option<&Publication>,
        recover: R,
    ) -> (done: Result<(), Error>)
        requires
            forall|durable: u32, live: u32| call_requires(recover, (durable, live)),
        ensures
            final(self).token == old(self).token,
            final(self).slot_size == old(self).slot_size,
            final(self).tail@ == old(self).tail@,
            final(self).session is Some == old(self).session is Some,
            final(self).session is Some ==> final(self).session->0.active == old(
                self).session->0.active,
            final(self).session is Some ==> final(self).session->0.connection == old(
                self).session->0.connection,
            match old(self).appended() {
                None => done is Ok && final(self).appended() is None,
                Some(item) => if !old(self).owns(publication) || !old(self).session->0.active {
                    done is Ok && final(self).appended() is None
                } else if item.durable == publication->0.durable && item.live
                    == publication->0.live {
                    done is Ok && final(self).appended() == Some(item)
                } else {
                    recovered_pending(
                        publication->0,
                        recover,
                        item,
                        final(self).appended(),
                        done,
                    )
                },
            },
            old(self).records_fit() && fills_bounds(recover) ==> final(self).records_fit(),
    {
        match &mut self.session {
            Some(session) => match reconcile(
                session.pending.as_ref(),
                publication,
                self.token.as_slice(),
                session.active,
            ) {
                Reconcile::Keep => Ok(()),
                Reconcile::Drop => {
                    session.pending = None;
                    Ok(())
                },
                Reconcile::Recover => match publication {
                    Some(found) => match recover(found.durable, found.live) {
                        Ok(tail) => {
                            session.pending = Some(
                                Pending::start(found.durable, found.live, tail),
                            );
                            Ok(())
                        },
                        Err(e) => Err(e),
                    },
                    None => Ok(()),
                },
            },
            None => Ok(()),
        }
    }

    /// Share prepared records only after the authoritative commit succeeded, and revoke the session.
    pub fn succeed(&mut self, shared: &mut Tail)
        ensures
            final(self).token == old(self).token,
            final(self).slot_size == old(self).slot_size,
            final(self).tail@ == old(self).tail@,
            final(self).appended() is None,
            final(self).session is Some == old(self).session is Some,
            final(self).session is Some ==> !final(self).session->0.active,
            final(self).session is Some ==> final(self).session->0.connection == old(
                self).session->0.connection,
            match old(self).appended() {
                Some(item) => final(shared)@ == if item.live >= old(shared)@.end() {
                    item.tail@
                } else {
                    old(shared)@
                },
                None => final(shared)@ == old(shared)@,
            },
    {
        match &mut self.session {
            Some(session) => {
                session.active = false;
                match &session.pending {
                    Some(item) => share_tail(shared, &item.tail, item.live),
                    None => {},
                }
                session.pending = None;
            },
            None => {},
        }
    }
}

/// Whether the records of a rolled-back savepoint were recovered, or failed to be.
pub open spec fn recovered_pending<R: FnOnce(u32, u32) -> Result<Tail, Error>>(
    publication: &Publication,
    recover: R,
    before: Pending,
    after: Option<Pending>,
    done: Result<(), Error>,
) -> bool {
    match done {
        Ok(()) => {
            &&& after is Some
            &&& after->0.durable == publication.durable
            &&& after->0.live == publication.live
            &&& exists|found: Tail| #[trigger]
                call_ensures(
                    recover,
                    (publication.durable, publication.live),
                    Ok::<Tail, Error>(found),
                ) && found@ == after->0.tail@
        },
        Err(e) => {
            &&& after == Some(before)
            &&& call_ensures(
                recover,
                (publication.durable, publication.live),
                Err::<Tail, Error>(e),
            )
        },
    }
}

/// Whether a record was added with its links, and a full batch handed out; or nothing changed
/// because the links could not be had.
pub open spec fn appended_record(
    before: Pending,
    after: Option<Pending>,
    slot_size: nat,
    block: Seq<u8>,
    root: Seq<u8>,
    links: Result<Option<Ancestry>, Error>,
    batch: Result<Option<Checkpoint>, Error>,
) -> bool {
    match links {
        Err(e) => batch == Err::<Option<Checkpoint>, Error>(e) && after == Some(before),
        Ok(links) => {
            let slots = before.tail@.slots.push(slot_bytes(block, root, links));
            &&& batch is Ok
            &&& after is Some
            &&& after->0.wf()
            &&& after->0.durable == before.durable
            &&& after->0.live == before.live + 1
            &&& after->0.tail@ == (Slots { base: before.tail@.base, slots })
            &&& batch->Ok_0 is None <==> after->0.live - after->0.durable < CHECKPOINT_SLOTS
            &&& batch->Ok_0 is Some ==> {
                let full = batch->Ok_0->0;
                &&& full.offset == slot_start_spec(before.durable, slot_size) + slot_size
                &&& full.bytes@ == joined(slots, slot_size)
                &&& full.durable == after->0.live
            }
        },
    }
}

/// Records appended in a transaction stay unreadable in it: an append changes no lookup.
pub proof fn law_append_is_not_readable(
    before: DirectHashIndex,
    after: DirectHashIndex,
    view: Option<&HashView<'_>>,
    caller: Caller,
    id: u32,
)
    requires
        before.tail@ == after.tail@,
        before.session is Some == after.session is Some,
        before.session is Some ==> before.session->0.active == after.session->0.active
            && before.session->0.connection == after.session->0.connection,
    ensures
        after.lookup(view, caller, id) == before.lookup(view, caller, id),
{
}

/// Where the view's ancestry is consistent, a height query gives the slot that the parents lead to.
pub proof fn law_ancestor_slot_matches_parents(
    table: spec_fn(u32) -> Option<Seq<u8>>,
    id: u32,
    block: Seq<u8>,
    height: u32,
    target: u32,
)
    requires
        crate::ancestry::consistent(crate::direct_hash_index::links_of(table)),
        crate::direct_hash_index::links_of(table)(id) is Some,
        crate::direct_hash_index::links_of(table)(id)->0.height == height,
        table(id)->0.subrange(0, 32) == block,
        target <= height,
    ensures
        ancestor_slot_spec(table, 80, id, block, height, target) == table(
            crate::ancestry::parent_walk(
                crate::direct_hash_index::links_of(table),
                id,
                target,
            ),
        ),
        ancestor_slot_spec(table, 80, id, block, height, target) is Some,
{
    crate::ancestry::law_ancestor_matches_parent_walk(
        crate::direct_hash_index::links_of(table),
        id,
        target,
    );
}

} // verus!
