//! Copying nodes of ancestor tries forward into a trie that is being written.
use vstd::prelude::*;

use crate::cursor::{Position, ReadTrieNodeCursorStep, TrieCursor};
use crate::error::{corrupt, Corruption, Error};
use crate::hash::{copy_id, sha512_256_of, MarfTrieId, TrieHash};
use crate::leaf::{Leaf, Node, TrieLeaf, TrieNodeType};
use crate::marf_read::{not_found, open_ancestor};
use crate::node::{clear_backptr, is_backptr, set_backptr, Branch, TrieCowPtr, TriePtr};
use crate::node_codec::get_leaf_hash;
use crate::patch::{bad, fault_of, Fault};
use crate::read_storage::{shows, Forest, TrieReadStorage};

verus! {

/// A child pointer of a block, as a later block points to the same child.
pub open spec fn copied_ptr(ptr: TriePtr, block_id: u32) -> TriePtr {
    if ptr.id == 0 || is_backptr(ptr.id) {
        ptr
    } else {
        TriePtr { id: set_backptr(ptr.id), back_block: block_id, ..ptr }
    }
}

/// Child pointers of a block, as a later block points to the same children.
pub open spec fn copied_ptrs(ptrs: Seq<TriePtr>, block_id: u32) -> Seq<TriePtr> {
    Seq::new(ptrs.len(), |i: int| copied_ptr(ptrs[i], block_id))
}

/// A node of a block, as a later block holds it.
pub open spec fn copied(node: Node, block_id: u32) -> Node {
    match node {
        Node::Branch(branch) => Node::Branch(
            Branch { ptrs: copied_ptrs(branch.ptrs, block_id), ..branch },
        ),
        Node::Leaf(leaf) => node,
    }
}

/// The hash that a copied node is stored with: leaves have theirs, and branches get theirs when
/// their trie is sealed.
pub open spec fn copied_hash(node: Node) -> Seq<u8> {
    match node {
        Node::Branch(_) => TrieHash::empty_bytes(),
        Node::Leaf(leaf) => sha512_256_of(leaf.commitment()),
    }
}

/// Turn pointers to children in the same trie into back-pointers to that trie.
pub fn node_copy_update_ptrs(ptrs: &mut Vec<TriePtr>, block_id: u32)
    ensures
        final(ptrs)@ == copied_ptrs(old(ptrs)@, block_id),
{
    let ghost before = ptrs@;
    let mut i: usize = 0;
    while i < ptrs.len()
        invariant
            i <= ptrs@.len(),
            ptrs@.len() == before.len(),
            forall|k: int|
                0 <= k < before.len() ==> ptrs@[k] == if k < i {
                    copied_ptr(before[k], block_id)
                } else {
                    before[k]
                },
        decreases ptrs@.len() - i,
    {
        let ptr: TriePtr = ptrs[i];
        if !ptr.is_empty() && !is_backptr(ptr.id) {
            ptrs.set(
                i,
                TriePtr { id: set_backptr(ptr.id), chr: ptr.chr, ptr: ptr.ptr, back_block: block_id },
            );
        }
        i = i + 1;
    }
    assert(ptrs@ =~= copied_ptrs(before, block_id));
}

/// Copy a node forward from an ancestor trie by converting its inline children into back-pointers.
pub fn node_copy_update(node: &mut TrieNodeType, block_id: u32) -> (hash: TrieHash)
    requires
        old(node)@.wf(),
        old(node)@ matches Node::Leaf(leaf) ==> leaf.data is Some,
    ensures
        final(node)@ == copied(old(node)@, block_id),
        final(node)@.wf(),
        final(node).meta() == old(node).meta(),
        hash@ == copied_hash(old(node)@),
{
    match node {
        TrieNodeType::Leaf(leaf) => get_leaf_hash(leaf),
        TrieNodeType::Branch(branch) => {
            let ghost before = branch@;
            node_copy_update_ptrs(&mut branch.ptrs, block_id);
            assert(branch@ =~= (Branch { ptrs: copied_ptrs(before.ptrs, block_id), ..before }));
            TrieHash::empty()
        },
    }
}

impl Forest {
    /// The node of an ancestor trie that a back-pointer leads to, with its value if it is a leaf,
    /// and the block whose trie it is in.
    pub open spec fn fetched(self, child: TriePtr) -> Result<(Node, Seq<u8>), Fault> {
        match self.ancestor_block(child) {
            Err(fault) => Err(fault),
            Ok(name) => match self.node(name, child.local()) {
                Err(fault) => Err(fault),
                Ok(Node::Leaf(leaf)) => match self.value(leaf) {
                    Err(fault) => Err(fault),
                    Ok(value) => Ok((Node::Leaf(Leaf { data: Some(value), ..leaf }), name)),
                },
                Ok(node) => Ok((node, name)),
            },
        }
    }
}

/// Whether a copy is marked with where it came from: the back-pointer, and the block it leads to.
/// Leaves carry no mark.
pub open spec fn marked(node: TrieNodeType, source: (TriePtr, Seq<u8>)) -> bool {
    node.meta() matches Some(meta) ==> meta.cow_ptr matches Some(from) && from.is_of(
        source.1,
        source.0,
    )
}

/// A node that was copied forward, its hash, and the block that it was copied from.
#[derive(Debug)]
pub struct CopiedChild<T> {
    pub node: TrieNodeType,
    pub hash: TrieHash,
    pub source_block_hash: T,
}

/// Find the child that a back-pointer leads to, and make the copy of it that a later trie holds.
pub fn node_child_copy<T: MarfTrieId, S: TrieReadStorage<T>>(storage: &S, child: &TriePtr) -> (out: Result<
    CopiedChild<T>,
    Error,
>)
    ensures
        out is Ok ==> out->Ok_0.node@.wf() && marked(
            out->Ok_0.node,
            (*child, out->Ok_0.source_block_hash.id_bytes()),
        ),
        forall|forest: Forest| #[trigger]
            shows(storage, forest) ==> match forest.fetched(*child) {
                Ok((node, name)) => out matches Ok(copy) && copy.node@ == copied(
                    node,
                    child.back_block,
                ) && copy.hash@ == copied_hash(node) && copy.source_block_hash.id_bytes() == name,
                Err(fault) => out matches Err(e) && fault_of(e) == fault,
            },
{
    let name: T = match open_ancestor(storage, child) {
        Ok(name) => name,
        Err(e) => return Err(e),
    };
    let mut node: TrieNodeType = match storage.read_node(&name, &child.from_backptr()) {
        Ok(node) => node,
        Err(e) => return Err(e),
    };
    match node {
        TrieNodeType::Leaf(leaf) => {
            let mut leaf: TrieLeaf = leaf;
            let value = match storage.resolve_leaf_value(&leaf) {
                Ok(value) => value,
                Err(e) => return Err(e),
            };
            leaf.data = Some(value);
            leaf.check();
            node = TrieNodeType::Leaf(leaf);
        },
        TrieNodeType::Branch(branch) => {
            let mut branch = branch;
            branch.meta.cow_ptr = Some(
                TrieCowPtr { block_hash: copy_id(&name).to_bytes(), ptr: *child },
            );
            node = TrieNodeType::Branch(branch);
        },
    }
    let hash = node_copy_update(&mut node, child.back_block);
    Ok(CopiedChild { node, hash, source_block_hash: name })
}

/// A trie that is being written: its nodes, which pointers name by their places, and their hashes.
#[derive(Debug)]
pub struct OpenTrie<T> {
    pub block: T,
    pub nodes: Vec<(TrieNodeType, TrieHash)>,
}

impl<T: MarfTrieId> OpenTrie<T> {
    /// The nodes and their hashes.
    pub open spec fn view(&self) -> Seq<(Node, Seq<u8>)> {
        Seq::new(self.nodes@.len(), |i: int| (self.nodes@[i].0@, self.nodes@[i].1@))
    }

    /// Whether all nodes have the slots of their types.
    pub open spec fn wf(&self) -> bool {
        forall|i: int| 0 <= i < self.nodes@.len() ==> (#[trigger] self.nodes@[i]).0@.wf()
    }

    /// The node that a pointer of this trie leads to.
    pub fn read_node(&self, ptr: &TriePtr) -> (node: Option<&TrieNodeType>)
        ensures
            match node {
                Some(found) => ptr.ptr < self@.len() && found@ == self@[ptr.ptr as int].0 && (self.wf()
                    ==> found@.wf()),
                None => ptr.ptr >= self@.len(),
            },
    {
        if ptr.ptr < self.nodes.len() as u64 {
            let at: usize = ptr.ptr as usize;
            Some(&self.nodes[at].0)
        } else {
            None
        }
    }

    /// Add a node; the place that pointers name it by.
    pub fn write_node(&mut self, node: TrieNodeType, hash: TrieHash) -> (place: Result<u32, Error>)
        requires
            old(self).wf(),
            node@.wf(),
        ensures
            final(self).wf(),
            final(self).block == old(self).block,
            if old(self)@.len() > u32::MAX {
                place == Err::<u32, Error>(Error::OverflowError) && *final(self) == *old(self)
            } else {
                place == Ok::<u32, Error>(old(self)@.len() as u32) && final(self)@ == old(self)@.push(
                    (node@, hash@),
                ) && final(self).nodes@ == old(self).nodes@.push((node, hash))
            },
    {
        let place: usize = self.nodes.len();
        if place as u64 > u32::MAX as u64 {
            return Err(Error::OverflowError);
        }
        let ghost entry = (node@, hash@);
        self.nodes.push((node, hash));
        assert(self@ =~= old(self)@.push(entry));
        Ok(place as u32)
    }
}

/// Where a walk that copies on its way ended: the outcome, the trie's nodes, and the position.
pub struct CowWalk {
    pub outcome: Result<(), Fault>,
    pub nodes: Seq<(Node, Seq<u8>)>,
    pub at: Position,
}

impl Forest {
    /// A walk down a trie that is being written, visiting at most `fuel` nodes: children that live
    /// in ancestor tries are copied to the end of this one and entered there.
    pub open spec fn cow_walk(
        self,
        block: Seq<u8>,
        nodes: Seq<(Node, Seq<u8>)>,
        at: Position,
        fuel: nat,
    ) -> CowWalk
        decreases fuel,
    {
        let ptr = at.ptrs.last();
        if fuel == 0 {
            CowWalk { outcome: Err(bad(Corruption::TrieCycle)), nodes, at }
        } else if ptr.ptr >= nodes.len() {
            CowWalk { outcome: Err(not_found()), nodes, at }
        } else {
            let node = nodes[ptr.ptr as int].0;
            let next = at.after(node, block);
            match at.step(node) {
                ReadTrieNodeCursorStep::Next(_) => self.cow_walk(
                    block,
                    nodes,
                    next,
                    (fuel - 1) as nat,
                ),
                ReadTrieNodeCursorStep::EndOfPath { is_leaf } => CowWalk {
                    outcome: if !is_leaf || clear_backptr(ptr.id) != 1 {
                        Err(bad(Corruption::NonLeafAtEndOfPath))
                    } else {
                        Ok(())
                    },
                    nodes,
                    at: next,
                },
                ReadTrieNodeCursorStep::FollowBackptr(child) => match self.fetched(child) {
                    Err(fault) => CowWalk { outcome: Err(fault), nodes, at: next },
                    Ok((found, name)) => if nodes.len() > u32::MAX {
                        CowWalk {
                            outcome: Err(Fault::Error(Error::OverflowError)),
                            nodes,
                            at: next,
                        }
                    } else {
                        self.cow_walk(
                            block,
                            nodes.push((copied(found, child.back_block), copied_hash(found))),
                            next.repaired(
                                TriePtr {
                                    id: clear_backptr(child.id),
                                    chr: child.chr,
                                    ptr: nodes.len() as u64,
                                    back_block: 0,
                                },
                                name,
                            ),
                            (fuel - 1) as nat,
                        )
                    },
                },
                _ => CowWalk { outcome: Ok(()), nodes, at: next },
            }
        }
    }
}

impl Forest {
    /// Where the nodes come from that a copying walk adds, in their order: the back-pointer that it
    /// follows, and the block that it leads to.
    pub open spec fn cow_sources(
        self,
        block: Seq<u8>,
        nodes: Seq<(Node, Seq<u8>)>,
        at: Position,
        fuel: nat,
    ) -> Seq<(TriePtr, Seq<u8>)>
        decreases fuel,
    {
        let ptr = at.ptrs.last();
        if fuel == 0 || ptr.ptr >= nodes.len() {
            Seq::empty()
        } else {
            let node = nodes[ptr.ptr as int].0;
            let next = at.after(node, block);
            match at.step(node) {
                ReadTrieNodeCursorStep::Next(_) => self.cow_sources(
                    block,
                    nodes,
                    next,
                    (fuel - 1) as nat,
                ),
                ReadTrieNodeCursorStep::FollowBackptr(child) => match self.fetched(child) {
                    Err(_) => Seq::empty(),
                    Ok((found, name)) => if nodes.len() > u32::MAX {
                        Seq::empty()
                    } else {
                        seq![(child, name)] + self.cow_sources(
                            block,
                            nodes.push((copied(found, child.back_block), copied_hash(found))),
                            next.repaired(
                                TriePtr {
                                    id: clear_backptr(child.id),
                                    chr: child.chr,
                                    ptr: nodes.len() as u64,
                                    back_block: 0,
                                },
                                name,
                            ),
                            (fuel - 1) as nat,
                        )
                    },
                },
                _ => Seq::empty(),
            }
        }
    }
}

/// Whether a trie kept its nodes and added marked copies from these sources.
pub open spec fn grown(
    before: Seq<(TrieNodeType, TrieHash)>,
    after: Seq<(TrieNodeType, TrieHash)>,
    sources: Seq<(TriePtr, Seq<u8>)>,
) -> bool {
    &&& after.len() == before.len() + sources.len()
    &&& forall|i: int| 0 <= i < before.len() ==> #[trigger] after[i] == before[i]
    &&& forall|i: int|
        before.len() <= i < after.len() ==> marked(
            (#[trigger] after[i]).0,
            sources[i - before.len()],
        )
}

/// Walk down a trie that is being written, copying nodes of prior tries into it on the way. The
/// walk ends at the path's leaf or where the path leaves the trie.
pub fn walk_cow<T: MarfTrieId, S: TrieReadStorage<T>>(
    storage: &S,
    trie: &mut OpenTrie<T>,
    root_ptr: TriePtr,
    path: &TrieHash,
) -> (out: Result<TrieCursor<T>, Error>)
    requires
        old(trie).wf(),
    ensures
        final(trie).wf(),
        final(trie).block.id_bytes() == old(trie).block.id_bytes(),
        out matches Ok(cursor) ==> cursor.wf(),
        forall|forest: Forest| #[trigger]
            shows(storage, forest) ==> ({
                let walk = forest.cow_walk(
                    old(trie).block.id_bytes(),
                    old(trie)@,
                    Position::start(path@, root_ptr),
                    33,
                );
                &&& final(trie)@ == walk.nodes
                &&& grown(
                    old(trie).nodes@,
                    final(trie).nodes@,
                    forest.cow_sources(
                        old(trie).block.id_bytes(),
                        old(trie)@,
                        Position::start(path@, root_ptr),
                        33,
                    ),
                )
                &&& match walk.outcome {
                    Ok(()) => out matches Ok(cursor) && cursor@ == walk.at,
                    Err(fault) => out matches Err(e) && fault_of(e) == fault,
                }
            }),
{
    let mut cursor: TrieCursor<T> = TrieCursor::new(path, root_ptr);
    let ghost block = trie.block.id_bytes();
    let ghost before = trie@;
    let ghost start = cursor@;
    let ghost mut done: Seq<(TriePtr, Seq<u8>)> = Seq::empty();
    let mut visits: usize = 0;
    assert forall|forest: Forest| #[trigger] shows(storage, forest) implies forest.cow_sources(
        block,
        before,
        start,
        33,
    ) == done + forest.cow_sources(block, before, start, 33) by {
        assert(done + forest.cow_sources(block, before, start, 33) =~= forest.cow_sources(
            block,
            before,
            start,
            33,
        ));
    }
    while visits < 33
        invariant
            visits <= 33,
            trie.wf(),
            trie.block.id_bytes() == block,
            block == old(trie).block.id_bytes(),
            before == old(trie)@,
            start == Position::start(path@, root_ptr),
            cursor.wf(),
            cursor.last_error is None,
            cursor.node_path_index == 0,
            forall|forest: Forest| #[trigger]
                shows(storage, forest) ==> forest.cow_walk(block, before, start, 33)
                    == forest.cow_walk(block, trie@, cursor@, (33 - visits) as nat),
            grown(old(trie).nodes@, trie.nodes@, done),
            forall|forest: Forest| #[trigger]
                shows(storage, forest) ==> forest.cow_sources(block, before, start, 33) == done
                    + forest.cow_sources(block, trie@, cursor@, (33 - visits) as nat),
        decreases 33 - visits,
    {
        let ptr: TriePtr = cursor.ptr();
        let step = match trie.read_node(&ptr) {
            Some(node) => cursor.walk_step(node, &trie.block),
            None => return Err(Error::NotFoundError),
        };
        match step {
            ReadTrieNodeCursorStep::Next(_) => {},
            ReadTrieNodeCursorStep::EndOfPath { is_leaf } => {
                if !is_leaf || clear_backptr(ptr.id) != 1 {
                    return Err(corrupt(Corruption::NonLeafAtEndOfPath));
                }
                return Ok(cursor);
            },
            ReadTrieNodeCursorStep::Diverged => return Ok(cursor),
            ReadTrieNodeCursorStep::ChrNotFound => return Ok(cursor),
            ReadTrieNodeCursorStep::FollowBackptr(child) => {
                let copy = match node_child_copy(storage, &child) {
                    Ok(copy) => copy,
                    Err(e) => return Err(e),
                };
                let ghost source = (child, copy.source_block_hash.id_bytes());
                let place: u32 = match trie.write_node(copy.node, copy.hash) {
                    Ok(place) => place,
                    Err(e) => return Err(e),
                };
                let ptr: TriePtr = TriePtr::new(clear_backptr(child.id), child.chr, place as u64);
                cursor.repair_backptr_finish(&ptr, copy.source_block_hash);
                proof {
                    let more = done.push(source);
                    assert forall|forest: Forest| #[trigger]
                        shows(storage, forest) implies forest.cow_sources(block, before, start, 33)
                        == more + forest.cow_sources(
                        block,
                        trie@,
                        cursor@,
                        (33 - visits - 1) as nat,
                    ) by {
                        let rest = forest.cow_sources(
                            block,
                            trie@,
                            cursor@,
                            (33 - visits - 1) as nat,
                        );
                        assert(done + (seq![source] + rest) =~= more + rest);
                    }
                    done = more;
                }
            },
        }
        visits = visits + 1;
    }
    Err(corrupt(Corruption::TrieCycle))
}

/// A walk that copies only ever adds to the trie: what it held stays in place.
pub proof fn law_cow_walk_keeps_nodes(
    forest: Forest,
    block: Seq<u8>,
    nodes: Seq<(Node, Seq<u8>)>,
    at: Position,
    fuel: nat,
)
    ensures
        ({
            let walk = forest.cow_walk(block, nodes, at, fuel);
            &&& nodes.len() <= walk.nodes.len() <= nodes.len() + fuel
            &&& walk.nodes.subrange(0, nodes.len() as int) == nodes
        }),
    decreases fuel,
{
    let ptr = at.ptrs.last();
    let walk = forest.cow_walk(block, nodes, at, fuel);
    assert(nodes.subrange(0, nodes.len() as int) =~= nodes);
    if fuel > 0 && ptr.ptr < nodes.len() {
        let node = nodes[ptr.ptr as int].0;
        let next = at.after(node, block);
        match at.step(node) {
            ReadTrieNodeCursorStep::Next(_) => {
                law_cow_walk_keeps_nodes(forest, block, nodes, next, (fuel - 1) as nat);
            },
            ReadTrieNodeCursorStep::FollowBackptr(child) => {
                match forest.fetched(child) {
                    Ok((found, name)) => {
                        if nodes.len() <= u32::MAX {
                            let more = nodes.push(
                                (copied(found, child.back_block), copied_hash(found)),
                            );
                            let then = next.repaired(
                                TriePtr {
                                    id: clear_backptr(child.id),
                                    chr: child.chr,
                                    ptr: nodes.len() as u64,
                                    back_block: 0,
                                },
                                name,
                            );
                            law_cow_walk_keeps_nodes(forest, block, more, then, (fuel - 1) as nat);
                            assert(walk.nodes.subrange(0, more.len() as int) == more);
                            assert forall|i: int| 0 <= i < nodes.len() implies walk.nodes[i]
                                == nodes[i] by {
                                assert(walk.nodes.subrange(0, more.len() as int)[i] == more[i]);
                            }
                            assert(walk.nodes.subrange(0, nodes.len() as int) =~= nodes);
                        }
                    },
                    Err(_) => {},
                }
            },
            _ => {},
        }
    }
}

} // verus!
