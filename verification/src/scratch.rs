//! Reusable workspace for decoding, patching and parking nodes between reads.
use vstd::prelude::*;

use crate::branch_view::{BranchParts, BranchView};
use crate::error::{corrupt, Corruption, Error};
use crate::hash::TrieHash;
use crate::leaf::{Leaf, Node, TrieLeaf, TrieNodeType};
use crate::node::{
    clear_ctrl_bits, logical_node_id, Branch, TrieBranch, TrieNodeID, TrieNodePatch,
    TrieNodeTransientMeta, TriePtr,
};
use crate::patch::{Fault, Patch};
use crate::read_node::{PatchChainEntry, ReadNodeBacking, ReadTrieItem, ReadTrieItemKind, ReadTrieNode};
use crate::record::{NodeRecord, NodeRecordFormat, Record};

verus! {

/// What was decoded last.
#[derive(Clone, Copy, Debug, PartialEq, Eq, Structural)]
pub enum CurrentSlot {
    Nothing,
    Node,
    Patch,
}

/// A node that was put aside.
#[derive(Clone, Copy, Debug, PartialEq, Eq, Structural)]
pub struct ParkedNodeHandle {
    slot: usize,
}

impl ParkedNodeHandle {
    /// The place of the node.
    pub closed spec fn view(&self) -> int {
        self.slot as int
    }

    /// The handle of a place.
    pub fn new(slot: usize) -> (handle: Self)
        ensures
            handle@ == slot,
    {
        ParkedNodeHandle { slot }
    }

    /// The place of the node.
    pub fn slot(&self) -> (slot: usize)
        ensures
            slot == self@,
    {
        self.slot
    }
}

/// Workspace for decoding, patching and parking nodes.
#[derive(Debug)]
pub struct MarfReadState {
    /// The current node, if one was decoded last.
    pub node: Option<TrieNodeType>,
    /// The newest patch.
    pub patch_slot: Option<TrieNodePatch>,
    /// Input buffer kept between reads.
    pub node_bytes: Vec<u8>,
    /// Buffer for patch chains kept between reads.
    pub patch_chain_buf: Vec<PatchChainEntry>,
    /// Nodes put aside.
    pub parked: Vec<TrieNodeType>,
    /// What was decoded last.
    pub current: CurrentSlot,
}

impl Default for MarfReadState {
    fn default() -> (state: Self)
        ensures
            state.wf(),
            state.current is Nothing,
            state.patch_slot is None,
            state.parked@.len() == 0,
            state.node_bytes@.len() == 0,
            state.patch_chain_buf@.len() == 0,
    {
        MarfReadState {
            node: None,
            patch_slot: None,
            node_bytes: Vec::new(),
            patch_chain_buf: Vec::new(),
            parked: Vec::new(),
            current: CurrentSlot::Nothing,
        }
    }
}

/// The branch after the first `n` patches of a chain were applied, as block `cur` sees it.
pub open spec fn chain_applied(
    branch: Branch,
    patches: Seq<PatchChainEntry>,
    cur: u32,
    n: nat,
) -> Option<Branch>
    decreases n,
{
    if n == 0 {
        Some(branch)
    } else {
        match chain_applied(branch, patches, cur, (n - 1) as nat) {
            None => None,
            Some(part) => patches[n - 1].patch@.apply(part, patches[n - 1].block_id, cur),
        }
    }
}

proof fn lemma_chain_fails(
    branch: Branch,
    patches: Seq<PatchChainEntry>,
    cur: u32,
    n: nat,
    total: nat,
)
    requires
        n <= total,
        chain_applied(branch, patches, cur, n) is None,
    ensures
        chain_applied(branch, patches, cur, total) is None,
        chain_part(branch, patches, cur, total) == chain_part(branch, patches, cur, n),
    decreases total,
{
    if n < total {
        lemma_chain_fails(branch, patches, cur, n, (total - 1) as nat);
    }
}

/// The branch after as many of the first `n` patches of a chain were applied as could be, and as
/// much of the one that could not.
pub open spec fn chain_part(
    branch: Branch,
    patches: Seq<PatchChainEntry>,
    cur: u32,
    n: nat,
) -> Branch
    decreases n,
{
    match chain_applied(branch, patches, cur, n) {
        Some(part) => part,
        None => if n == 0 {
            branch
        } else {
            match chain_applied(branch, patches, cur, (n - 1) as nat) {
                Some(part) => {
                    let entry = patches[n - 1];
                    entry.patch@.applied_part(part, entry.block_id, cur, entry.patch@.diff.len())
                },
                None => chain_part(branch, patches, cur, (n - 1) as nat),
            }
        },
    }
}

/// Whether node bodies of a type can be decoded into the workspace.
pub open spec fn has_body(id: TrieNodeID) -> bool {
    id.is_branch() || id is Leaf || id is ValueLeaf
}

/// Whether a patch slot holds a patch that was emptied for reuse.
pub open spec fn is_emptied(slot: Option<TrieNodePatch>) -> bool {
    slot matches Some(patch) && patch@ == Patch::none()
}

/// The capacity of a list of pointers, by `Vec::capacity`: as many pointers as it holds, or more.
/// How many more is up to the allocator.
#[verifier::external_body]
fn room(ptrs: &Vec<TriePtr>) -> (capacity: usize)
    ensures
        capacity >= ptrs@.len(),
{
    ptrs.capacity()
}

/// What decoding a node body of a type behind a marker gives.
pub open spec fn body_spec(id: TrieNodeID, marker: u8, payload: Seq<u8>) -> Result<
    (Node, nat),
    Error,
> {
    if !has_body(id) {
        Err(Error::CorruptionError(Corruption::UnsupportedNodeBody))
    } else if id.is_branch() {
        match Branch::load(id, marker, payload) {
            Ok((branch, used)) => Ok((Node::Branch(branch), used)),
            Err(e) => Err(e),
        }
    } else {
        match Leaf::load(marker, payload) {
            Ok((leaf, used)) => Ok((Node::Leaf(leaf), used)),
            Err(e) => Err(e),
        }
    }
}

impl MarfReadState {
    /// Whether all held nodes have parts that fit their types, and the current one exists.
    pub open spec fn wf(&self) -> bool {
        &&& self.node is Some ==> (self.node->0)@.wf()
        &&& self.current is Node ==> self.node is Some
        &&& forall|i: int| 0 <= i < self.parked@.len() ==> (#[trigger] self.parked@[i])@.wf()
    }

    /// An empty workspace.
    pub fn new() -> (state: Self)
        ensures
            state.wf(),
            state.current is Nothing,
            state.patch_slot is None,
            state.parked@.len() == 0,
            state.node_bytes@.len() == 0,
            state.patch_chain_buf@.len() == 0,
    {
        Self::default()
    }

    /// Take the input buffer, leaving an empty one.
    pub fn take_node_bytes(&mut self) -> (bytes: Vec<u8>)
        ensures
            bytes@ == old(self).node_bytes@,
            final(self).node_bytes@.len() == 0,
            final(self).node == old(self).node,
            final(self).patch_slot == old(self).patch_slot,
            final(self).parked == old(self).parked,
            final(self).current == old(self).current,
            final(self).patch_chain_buf == old(self).patch_chain_buf,
    {
        let mut bytes: Vec<u8> = Vec::new();
        std::mem::swap(&mut bytes, &mut self.node_bytes);
        bytes
    }

    /// Return an input buffer for reuse.
    pub fn restore_node_bytes(&mut self, bytes: Vec<u8>)
        ensures
            final(self).node_bytes@ == bytes@,
            final(self).node == old(self).node,
            final(self).patch_slot == old(self).patch_slot,
            final(self).parked == old(self).parked,
            final(self).current == old(self).current,
            final(self).patch_chain_buf == old(self).patch_chain_buf,
    {
        self.node_bytes = bytes;
    }

    /// Take the patch chain buffer, cleared, leaving an empty one: entries left in it are dropped.
    pub fn take_patch_chain_buf(&mut self) -> (buf: Vec<PatchChainEntry>)
        ensures
            buf@.len() == 0,
            final(self).patch_chain_buf@.len() == 0,
            final(self).node == old(self).node,
            final(self).patch_slot == old(self).patch_slot,
            final(self).parked == old(self).parked,
            final(self).current == old(self).current,
            final(self).node_bytes == old(self).node_bytes,
    {
        let mut buf: Vec<PatchChainEntry> = Vec::new();
        std::mem::swap(&mut buf, &mut self.patch_chain_buf);
        buf.clear();
        buf
    }

    /// Return the patch chain buffer for reuse; its entries are dropped. The roomiest of their
    /// patches, emptied, takes the place of the newest patch if it has more room than that one has:
    /// always where there is no newest patch and an entry's patch has children. Otherwise it depends
    /// on the allocator.
    pub fn restore_patch_chain_buf(&mut self, buf: Vec<PatchChainEntry>)
        ensures
            final(self).patch_chain_buf@.len() == 0,
            final(self).node == old(self).node,
            final(self).parked == old(self).parked,
            final(self).current == old(self).current,
            final(self).node_bytes == old(self).node_bytes,
            final(self).patch_slot == old(self).patch_slot || (buf@.len() > 0 && is_emptied(
                final(self).patch_slot,
            )),
            old(self).patch_slot is None && (exists|i: int|
                0 <= i < buf@.len() && (#[trigger] buf@[i]).patch.ptr_diff@.len() > 0)
                ==> is_emptied(final(self).patch_slot),
    {
        let mut buf = buf;
        let ghost entries = buf@;
        let mut most: usize = match &self.patch_slot {
            Some(patch) => room(&patch.ptr_diff),
            None => 0,
        };
        let mut roomiest: Option<usize> = None;
        let mut at: usize = 0;
        while at < buf.len()
            invariant
                at <= buf@.len(),
                buf@ == entries,
                roomiest is Some ==> roomiest->0 < buf@.len(),
                old(self).patch_slot is None && roomiest is None ==> most == 0,
                roomiest is None ==> forall|i: int|
                    0 <= i < at ==> (#[trigger] entries[i]).patch.ptr_diff@.len() <= most,
            decreases buf@.len() - at,
        {
            let found: usize = room(&buf[at].patch.ptr_diff);
            if found > most {
                most = found;
                roomiest = Some(at);
            }
            at = at + 1;
        }
        if let Some(index) = roomiest {
            let mut entry = buf.swap_remove(index);
            entry.patch.ptr = TriePtr::default();
            entry.patch.ptr_diff.clear();
            self.patch_slot = Some(entry.patch);
            assert((self.patch_slot->0)@ =~= Patch::none());
        }
        buf.clear();
        self.patch_chain_buf = buf;
    }

    /// Forget what was decoded last.
    pub fn clear_current_node(&mut self)
        requires
            old(self).wf(),
        ensures
            final(self).wf(),
            final(self).current is Nothing,
            final(self).node is None,
            final(self).patch_slot == old(self).patch_slot,
            final(self).parked == old(self).parked,
            final(self).node_bytes == old(self).node_bytes,
            final(self).patch_chain_buf == old(self).patch_chain_buf,
    {
        self.current = CurrentSlot::Nothing;
        self.node = None;
    }

    /// Drop all nodes put aside.
    pub fn clear_parked_nodes(&mut self)
        requires
            old(self).wf(),
        ensures
            final(self).wf(),
            final(self).parked@.len() == 0,
            final(self).node == old(self).node,
            final(self).patch_slot == old(self).patch_slot,
            final(self).current == old(self).current,
            final(self).node_bytes == old(self).node_bytes,
            final(self).patch_chain_buf == old(self).patch_chain_buf,
    {
        self.parked.clear();
    }

    /// A node put aside.
    pub fn get_parked_ref(&self, handle: ParkedNodeHandle) -> (node: &TrieNodeType)
        requires
            handle@ < self.parked@.len(),
        ensures
            *node == self.parked@[handle@],
    {
        &self.parked[handle.slot()]
    }

    /// Put an owned node aside.
    pub fn park_owned_node(&mut self, node: TrieNodeType) -> (handle: ParkedNodeHandle)
        requires
            old(self).wf(),
            node@.wf(),
        ensures
            final(self).wf(),
            final(self).parked@ == old(self).parked@.push(node),
            handle@ == old(self).parked@.len(),
            final(self).node == old(self).node,
            final(self).patch_slot == old(self).patch_slot,
            final(self).current == old(self).current,
            final(self).node_bytes == old(self).node_bytes,
            final(self).patch_chain_buf == old(self).patch_chain_buf,
    {
        let slot: usize = self.parked.len();
        self.parked.push(node);
        ParkedNodeHandle::new(slot)
    }

    /// Put the current node aside; nothing is current afterwards.
    pub fn park_current_node(&mut self) -> (out: Result<ParkedNodeHandle, Error>)
        requires
            old(self).wf(),
        ensures
            final(self).wf(),
            final(self).current is Nothing,
            final(self).patch_slot == old(self).patch_slot,
            final(self).node_bytes == old(self).node_bytes,
            final(self).patch_chain_buf == old(self).patch_chain_buf,
            match old(self).current {
                CurrentSlot::Nothing => out == Err::<ParkedNodeHandle, Error>(
                    Error::CorruptionError(Corruption::NothingToPark),
                ) && final(self).parked == old(self).parked,
                CurrentSlot::Patch => out == Err::<ParkedNodeHandle, Error>(
                    Error::CorruptionError(Corruption::CannotParkPatch),
                ) && final(self).parked == old(self).parked,
                CurrentSlot::Node => out matches Ok(handle) && handle@ == old(self).parked@.len()
                    && final(self).parked@ == old(self).parked@.push(old(self).node->0),
            },
    {
        let current = self.current;
        self.current = CurrentSlot::Nothing;
        match current {
            CurrentSlot::Nothing => Err(corrupt(Corruption::NothingToPark)),
            CurrentSlot::Patch => Err(corrupt(Corruption::CannotParkPatch)),
            CurrentSlot::Node => match self.node.take() {
                Some(node) => Ok(self.park_owned_node(node)),
                None => Err(corrupt(Corruption::NothingToPark)),
            },
        }
    }

    /// The current node.
    pub fn get_ref(&self) -> (node: &TrieNodeType)
        requires
            self.wf(),
            self.current is Node,
        ensures
            *node == self.node->0,
            node@.wf(),
    {
        self.node.as_ref().unwrap()
    }

    /// Transient state of the current node, if it is a branch.
    pub fn transient_meta(&self) -> (meta: Option<TrieNodeTransientMeta>)
        requires
            self.wf(),
        ensures
            meta == if self.current is Node {
                (self.node->0).meta()
            } else {
                None
            },
    {
        if self.current != CurrentSlot::Node {
            return None;
        }
        match &self.node {
            Some(node) => node.transient_meta(),
            None => None,
        }
    }

    /// Make an owned node the current one.
    pub fn store(&mut self, node: TrieNodeType)
        requires
            old(self).wf(),
            node@.wf(),
        ensures
            final(self).wf(),
            final(self).current is Node,
            final(self).node == Some(node),
            final(self).patch_slot == old(self).patch_slot,
            final(self).parked == old(self).parked,
            final(self).node_bytes == old(self).node_bytes,
            final(self).patch_chain_buf == old(self).patch_chain_buf,
    {
        self.current = CurrentSlot::Node;
        self.node = Some(node);
    }

    /// The newest patch.
    pub fn patch(&self) -> (patch: &TrieNodePatch)
        requires
            self.patch_slot is Some,
        ensures
            *patch == self.patch_slot->0,
    {
        self.patch_slot.as_ref().unwrap()
    }

    /// Take the newest patch. What was decoded last stays so: a patch that was taken cannot be put
    /// aside either.
    pub fn take_patch(&mut self) -> (patch: TrieNodePatch)
        requires
            old(self).wf(),
            old(self).patch_slot is Some,
        ensures
            patch == old(self).patch_slot->0,
            final(self).patch_slot is None,
            final(self).node == old(self).node,
            final(self).parked == old(self).parked,
            final(self).node_bytes == old(self).node_bytes,
            final(self).patch_chain_buf == old(self).patch_chain_buf,
            final(self).current == old(self).current,
            final(self).wf(),
    {
        self.patch_slot.take().unwrap()
    }

    /// Apply a chain of patches to the current node, oldest first, as block `cur_block_id` sees
    /// it.  A chain that cannot be applied leaves what could be applied of it in the node.
    pub fn apply_patches_in_place(&mut self, patches: &[PatchChainEntry], cur_block_id: u32) -> (done:
        Result<(), Error>)
        requires
            old(self).wf(),
            old(self).current !is Nothing,
            old(self).current is Node && old(self).node->0 is Branch ==> (
            old(self).node->0->Branch_0).meta.patch_depth + patches.len() <= usize::MAX,
        ensures
            final(self).wf(),
            final(self).current == old(self).current,
            final(self).patch_slot == old(self).patch_slot,
            final(self).parked == old(self).parked,
            final(self).node_bytes == old(self).node_bytes,
            final(self).patch_chain_buf == old(self).patch_chain_buf,
            match (old(self).current, old(self).node) {
                (CurrentSlot::Node, Some(TrieNodeType::Branch(branch))) => match chain_applied(
                    branch@,
                    patches@,
                    cur_block_id,
                    patches@.len(),
                ) {
                    Some(patched) => {
                        &&& done is Ok
                        &&& final(self).node matches Some(TrieNodeType::Branch(after))
                        &&& after@ == patched
                        &&& after.meta.patch_depth == branch.meta.patch_depth + patches@.len()
                        &&& after.meta.cow_ptr == branch.meta.cow_ptr
                        &&& after.meta.last_patch_source == if patches@.len() > 0 {
                            Some((patches@.last().block_id, patches@.last().ptr))
                        } else {
                            branch.meta.last_patch_source
                        }
                    },
                    None => {
                        &&& done == Err::<(), Error>(
                            Error::CorruptionError(Corruption::PatchNotApplicable),
                        )
                        &&& final(self).node matches Some(TrieNodeType::Branch(after))
                        &&& after@ == chain_part(branch@, patches@, cur_block_id, patches@.len())
                        &&& after.meta == branch.meta
                    },
                },
                _ => done == Err::<(), Error>(Error::CorruptionError(Corruption::CannotPatchNode))
                    && final(self).node == old(self).node,
            },
    {
        if self.current != CurrentSlot::Node {
            return Err(corrupt(Corruption::CannotPatchNode));
        }
        let mut patched: TrieBranch = match self.node.take() {
            Some(TrieNodeType::Branch(branch)) => branch,
            other => {
                self.node = other;
                return Err(corrupt(Corruption::CannotPatchNode));
            },
        };
        let ghost before = patched@;
        let ghost meta = patched.meta;
        let mut n: usize = 0;
        while n < patches.len()
            invariant
                n <= patches@.len(),
                patched@.wf(),
                patched.meta == meta,
                chain_applied(before, patches@, cur_block_id, n as nat) == Some(patched@),
                self.current == old(self).current,
                self.patch_slot == old(self).patch_slot,
                self.parked == old(self).parked,
                self.node_bytes == old(self).node_bytes,
                self.patch_chain_buf == old(self).patch_chain_buf,
                old(self).wf(),
                old(self).current is Node,
                old(self).node matches Some(TrieNodeType::Branch(b)) && b@ == before && b.meta
                    == meta,
            decreases patches@.len() - n,
        {
            let entry = &patches[n];
            if !entry.patch.apply_to(&mut patched, entry.block_id, cur_block_id) {
                proof {
                    lemma_chain_fails(
                        before,
                        patches@,
                        cur_block_id,
                        (n + 1) as nat,
                        patches@.len(),
                    );
                }
                self.node = Some(TrieNodeType::Branch(patched));
                return Err(corrupt(Corruption::PatchNotApplicable));
            }
            n = n + 1;
        }
        patched.meta.patch_depth = patched.meta.patch_depth + patches.len();
        if patches.len() > 0 {
            let last = &patches[patches.len() - 1];
            patched.meta.last_patch_source = Some((last.block_id, last.ptr));
        }
        self.node = Some(TrieNodeType::Branch(patched));
        Ok(())
    }

    /// Decode a node body of a type behind a marker into the workspace.
    pub fn decode_node_from_parts(&mut self, id: TrieNodeID, marker: u8, payload: &[u8]) -> (used:
        Result<usize, Error>)
        requires
            old(self).wf(),
        ensures
            final(self).wf(),
            final(self).patch_slot == old(self).patch_slot,
            final(self).parked == old(self).parked,
            final(self).node_bytes == old(self).node_bytes,
            final(self).patch_chain_buf == old(self).patch_chain_buf,
            match body_spec(id, marker, payload@) {
                Ok((node, len)) => used matches Ok(n) && n == len && n <= payload.len()
                    && final(self).current is Node && (final(self).node->0)@ == node && (
                final(self).node->0).is_fresh(),
                Err(e) => used == Err::<usize, Error>(e) && final(self).current is Nothing,
            },
    {
        self.clear_current_node();
        if id.capacity() != 0 {
            match TrieBranch::from_parts(id, marker, payload) {
                Ok((branch, used)) => {
                    self.store(TrieNodeType::Branch(branch));
                    Ok(used)
                },
                Err(e) => Err(e),
            }
        } else if id == TrieNodeID::Leaf || id == TrieNodeID::ValueLeaf {
            match TrieLeaf::from_parts(marker, payload) {
                Ok((leaf, used)) => {
                    self.store(TrieNodeType::Leaf(leaf));
                    Ok(used)
                },
                Err(e) => Err(e),
            }
        } else {
            Err(corrupt(Corruption::UnsupportedNodeBody))
        }
    }

    /// Decode a marker and a node body of a type into the workspace. A type without such a body is
    /// refused, and what was decoded last stays.
    pub fn decode_node_from_slice(&mut self, id: TrieNodeID, bytes: &[u8]) -> (used: Result<
        usize,
        Error,
    >)
        requires
            old(self).wf(),
        ensures
            final(self).wf(),
            final(self).patch_slot == old(self).patch_slot,
            final(self).parked == old(self).parked,
            final(self).node_bytes == old(self).node_bytes,
            final(self).patch_chain_buf == old(self).patch_chain_buf,
            if !has_body(id) {
                used == Err::<usize, Error>(Error::CorruptionError(Corruption::UnsupportedNodeBody))
                    && *final(self) == *old(self)
            } else if bytes@.len() == 0 {
                used == Err::<usize, Error>(Error::CorruptionError(Corruption::MissingMarker))
                    && final(self).current is Nothing
            } else {
                match body_spec(id, bytes@[0], bytes@.subrange(1, bytes@.len() as int)) {
                    Ok((node, len)) => used matches Ok(n) && n == len + 1 && final(self).current
                        is Node && (final(self).node->0)@ == node && (
                    final(self).node->0).is_fresh(),
                    Err(e) => used == Err::<usize, Error>(e) && final(self).current is Nothing,
                }
            },
    {
        if id.capacity() == 0 && id != TrieNodeID::Leaf && id != TrieNodeID::ValueLeaf {
            return Err(corrupt(Corruption::UnsupportedNodeBody));
        }
        if bytes.len() == 0 {
            self.clear_current_node();
            return Err(corrupt(Corruption::MissingMarker));
        }
        match self.decode_node_from_parts(id, bytes[0], &bytes[1..bytes.len()]) {
            Ok(used) => Ok(used + 1),
            Err(e) => Err(e),
        }
    }

    /// Decode a patch behind a marker into the workspace. The newest patch is overwritten also where
    /// that fails; what its slot then holds is not stated.
    pub fn decode_patch_from_parts(&mut self, marker: u8, payload: &[u8]) -> (used: Result<
        usize,
        Error,
    >)
        requires
            old(self).wf(),
        ensures
            final(self).wf(),
            final(self).parked == old(self).parked,
            final(self).node_bytes == old(self).node_bytes,
            final(self).patch_chain_buf == old(self).patch_chain_buf,
            match Patch::load(marker, payload@) {
                Ok((patch, len)) => used matches Ok(n) && n == len && n <= payload.len()
                    && final(self).current is Patch && final(self).patch_slot is Some && (
                final(self).patch_slot->0)@ == patch,
                Err(e) => used == Err::<usize, Error>(e) && final(self).current is Nothing
                    && final(self).patch_slot is Some,
            },
    {
        self.clear_current_node();
        match TrieNodePatch::from_parts(marker, payload) {
            Ok((patch, used)) => {
                self.patch_slot = Some(patch);
                self.current = CurrentSlot::Patch;
                Ok(used)
            },
            Err(e) => {
                self.patch_slot = Some(TrieNodePatch::empty());
                Err(e)
            },
        }
    }

    /// Decode a marker and a patch into the workspace. The newest patch is overwritten also where
    /// that fails; what its slot then holds is not stated.
    pub fn decode_patch_from_slice(&mut self, bytes: &[u8]) -> (used: Result<usize, Error>)
        requires
            old(self).wf(),
        ensures
            final(self).wf(),
            final(self).parked == old(self).parked,
            final(self).node_bytes == old(self).node_bytes,
            final(self).patch_chain_buf == old(self).patch_chain_buf,
            match Patch::decode(bytes@) {
                Ok((patch, len)) => used matches Ok(n) && n == len && final(self).current is Patch
                    && final(self).patch_slot is Some && (final(self).patch_slot->0)@ == patch,
                Err(e) => used == Err::<usize, Error>(e) && final(self).current is Nothing
                    && final(self).patch_slot is Some,
            },
    {
        if bytes.len() == 0 {
            self.clear_current_node();
            self.patch_slot = Some(TrieNodePatch::empty());
            return Err(corrupt(Corruption::MissingMarker));
        }
        match self.decode_patch_from_parts(bytes[0], &bytes[1..bytes.len()]) {
            Ok(used) => Ok(used + 1),
            Err(e) => Err(e),
        }
    }
}

/// What a record holds: a node or a patch.
pub enum Item {
    Node(Node),
    Patch(Patch),
}

impl Record {
    /// What the record holds when a parent names a type, and the record bytes that it takes.
    #[verifier::opaque]
    pub open spec fn item(self, expected_id: u8) -> Result<(Item, nat), Error> {
        match self.logical() {
            None => Err(Error::CorruptionError(Corruption::BadNodeId)),
            Some(TrieNodeID::Patch) => match Patch::load(self.marker, self.payload) {
                Ok((patch, used)) => Ok((Item::Patch(patch), self.prefix_len + used)),
                Err(e) => Err(e),
            },
            Some(logical) => if logical.code() != clear_ctrl_bits(logical_node_id(expected_id)) {
                Err(Error::CorruptionError(Corruption::UnexpectedNodeId))
            } else if self.format.number() > 0 && logical !is Leaf {
                match BranchParts::parse(self.format, logical, self.payload) {
                    Err(e) => Err(e),
                    Ok(parts) => match parts.to_branch() {
                        Err(e) => Err(e),
                        Ok(branch) => Ok(
                            (Item::Node(Node::Branch(branch)), self.prefix_len + parts.length()),
                        ),
                    },
                }
            } else {
                match body_spec(logical, self.marker, self.payload) {
                    Ok((node, used)) => Ok((Item::Node(node), self.prefix_len + used)),
                    Err(e) => Err(e),
                }
            },
        }
    }

    /// Whether a record that cannot be decoded is refused before the workspace is made ready for it:
    /// it is not what the parent names, or a branch that is decoded without it.
    pub open spec fn refused_early(self, expected_id: u8) -> bool {
        match self.logical() {
            None => true,
            Some(TrieNodeID::Patch) => false,
            Some(logical) => logical.code() != clear_ctrl_bits(logical_node_id(expected_id)) || (
            self.format.number() > 0 && logical !is Leaf),
        }
    }
}

/// Whether the workspace holds an item as what was decoded last.
pub open spec fn holds(state: &MarfReadState, item: Item) -> bool {
    match item {
        Item::Node(node) => state.current is Node && state.node is Some && (state.node->0)@ == node
            && (state.node->0).is_fresh(),
        Item::Patch(patch) => state.current is Patch && state.patch_slot is Some && (
        state.patch_slot->0)@ == patch,
    }
}

impl<'a> NodeRecord<'a> {
    /// Decode into reusable slots, returning the full physical record length consumed.
    pub fn decode_into_scratch(&self, expected_id: u8, scratch: &mut MarfReadState) -> (used: Result<
        usize,
        Error,
    >)
        requires
            old(scratch).wf(),
            self.prefix_len + self.payload.len() <= usize::MAX,
        ensures
            final(scratch).wf(),
            final(scratch).parked == old(scratch).parked,
            final(scratch).node_bytes == old(scratch).node_bytes,
            final(scratch).patch_chain_buf == old(scratch).patch_chain_buf,
            self@.logical() != Some(TrieNodeID::Patch) ==> final(scratch).patch_slot == old(
                scratch,
            ).patch_slot,
            match self@.item(expected_id) {
                Ok((item, len)) => used matches Ok(n) && n == len && n <= self.prefix_len
                    + self.payload.len() && holds(final(scratch), item),
                Err(e) => used == Err::<usize, Error>(e) && if self@.refused_early(expected_id) {
                    *final(scratch) == *old(scratch)
                } else {
                    final(scratch).current is Nothing
                },
            },
    {
        proof {
            reveal(Record::item);
        }
        let logical: TrieNodeID = match TrieNodeID::from_u8(
            clear_ctrl_bits(logical_node_id(self.marker)),
        ) {
            Some(id) => id,
            None => return Err(corrupt(Corruption::BadNodeId)),
        };
        if logical == TrieNodeID::Patch {
            return match scratch.decode_patch_from_parts(self.marker, self.payload) {
                Ok(used) => Ok(self.prefix_len + used),
                Err(e) => Err(e),
            };
        }
        if logical.as_u8() != clear_ctrl_bits(logical_node_id(expected_id)) {
            return Err(corrupt(Corruption::UnexpectedNodeId));
        }
        if self.format.is_type_first() && logical != TrieNodeID::Leaf {
            let view = match BranchView::parse(self.format, logical, self.payload) {
                Ok(view) => view,
                Err(e) => return Err(e),
            };
            return match view.to_owned_node() {
                Ok(branch) => {
                    scratch.store(TrieNodeType::Branch(branch));
                    Ok(self.prefix_len + view.byte_len())
                },
                Err(e) => Err(e),
            };
        }
        match scratch.decode_node_from_parts(logical, self.marker, self.payload) {
            Ok(used) => Ok(self.prefix_len + used),
            Err(e) => Err(e),
        }
    }
}

/// Build a read result from what was decoded last.
fn build_read_trie_item<'a>(hash: Option<TrieHash>, scratch: &'a MarfReadState) -> (item:
    ReadTrieItem<'a>)
    requires
        scratch.wf(),
        scratch.current !is Nothing,
        scratch.current is Patch ==> scratch.patch_slot is Some,
    ensures
        item.hash == hash,
        match scratch.current {
            CurrentSlot::Patch => item.kind matches ReadTrieItemKind::Patch(patch) && *patch
                == scratch.patch_slot->0,
            _ => item.kind matches ReadTrieItemKind::Node(read) && read.wf() && read.hash == hash
                && read.backing == ReadNodeBacking::VolatileDecoded(&scratch.node->0)
                && read.kept_meta() is None,
        },
{
    if scratch.current == CurrentSlot::Patch {
        ReadTrieItem::from_patch(scratch.patch(), hash)
    } else {
        ReadTrieItem::from_node(ReadTrieNode::from_state_borrowed(scratch.get_ref(), hash))
    }
}

/// Whether a read item is what a record holds.
pub open spec fn item_reads(read: ReadTrieItem<'_>, hash: Option<Seq<u8>>, item: Item) -> bool {
    &&& match read.hash {
        Some(found) => hash == Some(found@),
        None => hash is None,
    }
    &&& match item {
        Item::Patch(patch) => read.kind matches ReadTrieItemKind::Patch(found) && found@ == patch,
        Item::Node(node) => read.kind matches ReadTrieItemKind::Node(found) && found.wf()
            && found.backing.node() == Ok::<Node, Fault>(node) && found.hash == read.hash
            && found.owned_meta() == TrieNodeTransientMeta::none(),
    }
}

/// Decode mapped or buffered bytes using an explicitly selected physical envelope.
pub fn read_trie_item_from_slice_format<'a>(
    bytes: &[u8],
    ptr_id: u8,
    format: NodeRecordFormat,
    scratch: &'a mut MarfReadState,
) -> (out: Result<(ReadTrieItem<'a>, usize), Error>)
    requires
        old(scratch).wf(),
    ensures
        match format.parsed(bytes@) {
            Err(e) => out matches Err(found) && found == e,
            Ok(record) => match record.item(ptr_id) {
                Err(e) => out matches Err(found) && found == e,
                Ok((item, len)) => out matches Ok((read, used)) && item_reads(
                    read,
                    record.hash,
                    item,
                ) && used == len && used <= bytes@.len(),
            },
        },
{
    let record = match format.parse(bytes) {
        Ok(record) => record,
        Err(e) => return Err(e),
    };
    match record.decode_into_scratch(ptr_id, scratch) {
        Ok(used) => Ok((build_read_trie_item(record.hash, scratch), used)),
        Err(e) => Err(e),
    }
}

/// Read a trie item in the historical envelope from a byte slice.
pub fn read_trie_item_from_slice<'a>(bytes: &[u8], ptr_id: u8, scratch: &'a mut MarfReadState) -> (out:
    Result<(ReadTrieItem<'a>, usize), Error>)
    requires
        old(scratch).wf(),
    ensures
        match NodeRecordFormat::Legacy.parsed(bytes@) {
            Err(e) => out matches Err(found) && found == e,
            Ok(record) => match record.item(ptr_id) {
                Err(e) => out matches Err(found) && found == e,
                Ok((item, len)) => out matches Ok((read, used)) && item_reads(
                    read,
                    record.hash,
                    item,
                ) && used == len && used <= bytes@.len(),
            },
        },
{
    read_trie_item_from_slice_format(bytes, ptr_id, NodeRecordFormat::Legacy, scratch)
}

/// The bytes that a bounded read for a record of a type gets to see.
pub open spec fn window(bytes: Seq<u8>, bound: nat) -> Seq<u8> {
    if bytes.len() <= bound {
        bytes
    } else {
        bytes.subrange(0, bound as int)
    }
}

/// Read a physical record at the head of a stream, looking no further than a record of the
/// expected type can reach; the bytes consumed tell where the stream goes on.
pub fn read_trie_item_at_head_ref_format<'a>(
    stream: &[u8],
    ptr_id: u8,
    format: NodeRecordFormat,
    scratch: &'a mut MarfReadState,
) -> (out: Result<(ReadTrieItem<'a>, usize), Error>)
    requires
        old(scratch).wf(),
    ensures
        match format.record_bound(ptr_id) {
            Err(e) => out matches Err(found) && found == e,
            Ok(bound) => match format.parsed(window(stream@, bound)) {
                Err(e) => out matches Err(found) && found == e,
                Ok(record) => match record.item(ptr_id) {
                    Err(e) => out matches Err(found) && found == e,
                    Ok((item, len)) => out matches Ok((read, used)) && item_reads(
                        read,
                        record.hash,
                        item,
                    ) && used == len && used <= stream@.len(),
                },
            },
        },
{
    let bound: usize = match format.max_record_len(ptr_id) {
        Ok(bound) => bound,
        Err(e) => return Err(e),
    };
    let end: usize = if stream.len() <= bound { stream.len() } else { bound };
    let seen = &stream[0..end];
    assert(seen@ =~= window(stream@, bound as nat));
    read_trie_item_from_slice_format(seen, ptr_id, format, scratch)
}

/// Read a record in the historical envelope at the head of a stream.
pub fn read_trie_item_at_head_ref<'a>(stream: &[u8], ptr_id: u8, scratch: &'a mut MarfReadState) -> (out:
    Result<(ReadTrieItem<'a>, usize), Error>)
    requires
        old(scratch).wf(),
    ensures
        match NodeRecordFormat::Legacy.record_bound(ptr_id) {
            Err(e) => out matches Err(found) && found == e,
            Ok(bound) => match NodeRecordFormat::Legacy.parsed(window(stream@, bound)) {
                Err(e) => out matches Err(found) && found == e,
                Ok(record) => match record.item(ptr_id) {
                    Err(e) => out matches Err(found) && found == e,
                    Ok((item, len)) => out matches Ok((read, used)) && item_reads(
                        read,
                        record.hash,
                        item,
                    ) && used == len && used <= stream@.len(),
                },
            },
        },
{
    read_trie_item_at_head_ref_format(stream, ptr_id, NodeRecordFormat::Legacy, scratch)
}

} // verus!
