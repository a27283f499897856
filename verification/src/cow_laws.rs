//! What a walk that copies on its way and lookups by path say of each other.
use vstd::prelude::*;

use crate::cow::{copied, copied_hash, copied_ptr, copied_ptrs, CowWalk};
use crate::cursor::{Entry, Position, ReadTrieNodeCursorStep};
use crate::error::{Corruption, Error};
use crate::leaf::{Leaf, Node};
use crate::marf_read::{leaf_at_end, not_found};
use crate::node::{clear_backptr, is_backptr, slot_for, Branch, TriePtr};
use crate::patch::{bad, Fault};
use crate::read_storage::Forest;

verus! {

/// Whether two pointers lead to the same place in a trie.
pub open spec fn same_place(a: TriePtr, b: TriePtr) -> bool {
    a.id == b.id && a.ptr == b.ptr && a.chr == b.chr
}

impl Forest {
    /// Whether the place that a pointer names decides what it leads to in a trie, whatever origin
    /// the pointer is annotated with.
    pub open spec fn places_decide(self) -> bool {
        forall|block: Seq<u8>, a: TriePtr, b: TriePtr|
            same_place(a, b) ==> #[trigger] self.node(block, a) == #[trigger] self.node(block, b)
    }

    /// Whether the trie of a block is made of these nodes.
    pub open spec fn trie_is(self, block: Seq<u8>, nodes: Seq<(Node, Seq<u8>)>) -> bool {
        forall|ptr: TriePtr| #[trigger]
            self.node(block, ptr) == if ptr.ptr < nodes.len() {
                Ok::<Node, Fault>(nodes[ptr.ptr as int].0)
            } else {
                Err::<Node, Fault>(not_found())
            }
    }

    /// Whether every leaf has a value.
    pub open spec fn values_resolve(self) -> bool {
        forall|leaf: Leaf| (#[trigger] self.value(leaf)) is Ok
    }

    /// Whether a leaf is another one as it was read, or with its value filled in.
    pub open spec fn same_leaf(self, copy: Leaf, leaf: Leaf) -> bool {
        copy == leaf || (self.value(leaf) matches Ok(value) && copy == (Leaf {
            data: Some(value),
            ..leaf
        }))
    }

    /// Whether a node that a trie holds is a copy of a node of the block with an ID.
    pub open spec fn is_copy(self, held: Node, source: Node, id: u32) -> bool {
        match source {
            Node::Branch(_) => held == copied(source, id),
            Node::Leaf(leaf) => held matches Node::Leaf(copy) && self.same_leaf(copy, leaf),
        }
    }

    /// Whether a walk that copied on its way ended as a lookup did: at the leaf that the lookup
    /// found, or where the path leaves the trie if the lookup found nothing.
    pub open spec fn ends_alike(self, walk: CowWalk, lookup: Result<Leaf, Fault>) -> bool {
        match lookup {
            Ok(leaf) => {
                let end = walk.at.ptrs.last();
                &&& walk.at.error is None
                &&& end.ptr < walk.nodes.len()
                &&& walk.nodes[end.ptr as int].0 matches Node::Leaf(copy)
                &&& self.same_leaf(copy, leaf)
            },
            Err(fault) => fault == not_found() && walk.at.error is Some,
        }
    }

    /// Whether a walk that copied on its way and a lookup agree. Where there is room for the copies
    /// and every leaf has a value, the walk fails only if the lookup does.
    pub open spec fn agrees(self, walk: CowWalk, room: bool, lookup: Result<Leaf, Fault>) -> bool {
        match walk.outcome {
            Ok(()) => self.ends_alike(walk, lookup),
            Err(_) => room && self.values_resolve() ==> lookup is Err,
        }
    }
}

impl Forest {
    /// The leaf that a walk standing at a node of a block's trie ends at, visiting at most `fuel`
    /// nodes, this one among them.
    pub open spec fn leaf_through(self, node: Node, block: Seq<u8>, at: Position, fuel: nat) -> Result<
        Leaf,
        Fault,
    > {
        let next = at.after(node, block);
        if fuel == 0 {
            Err(bad(Corruption::TrieCycle))
        } else {
            match at.step(node) {
                ReadTrieNodeCursorStep::Next(_) => self.leaf_from(block, next, (fuel - 1) as nat),
                ReadTrieNodeCursorStep::EndOfPath { .. } => leaf_at_end(at.ptrs.last(), node),
                ReadTrieNodeCursorStep::FollowBackptr(child) => match self.ancestor_block(child) {
                    Err(fault) => Err(fault),
                    Ok(name) => self.leaf_from(
                        name,
                        next.repaired(child.local(), name),
                        (fuel - 1) as nat,
                    ),
                },
                _ => Err(not_found()),
            }
        }
    }
}

impl Forest {
    /// What is left of a walk that copies, from a back-pointer on.
    spec fn cow_follow(
        self,
        block: Seq<u8>,
        nodes: Seq<(Node, Seq<u8>)>,
        next: Position,
        child: TriePtr,
        fuel: nat,
    ) -> CowWalk {
        match self.fetched(child) {
            Err(fault) => CowWalk { outcome: Err(fault), nodes, at: next },
            Ok((found, name)) => if nodes.len() > u32::MAX {
                CowWalk { outcome: Err(Fault::Error(Error::OverflowError)), nodes, at: next }
            } else {
                self.cow_walk(
                    block,
                    nodes.push((copied(found, child.back_block), copied_hash(found))),
                    next.repaired(
                        TriePtr {
                            id: clear_backptr(child.id),
                            chr: child.chr,
                            ptr: nodes.len() as u64,
                            back_block: 0,
                        },
                        name,
                    ),
                    fuel,
                )
            },
        }
    }
}

/// Walking on from a stored node is walking on from where it is stored.
pub proof fn law_leaf_through_is_leaf_from(forest: Forest, block: Seq<u8>, at: Position, fuel: nat)
    requires
        forest.node(block, at.ptrs.last()) is Ok,
    ensures
        forest.leaf_through(forest.node(block, at.ptrs.last())->Ok_0, block, at, fuel)
            == forest.leaf_from(block, at, fuel),
{
}

/// What a walk finds depends on the rest of its path and on the place of the last pointer only.
proof fn lemma_alike(forest: Forest, block: Seq<u8>, a: Position, b: Position, fuel: nat)
    requires
        forest.places_decide(),
        a.path == b.path,
        a.index == b.index,
        a.ptrs.len() > 0,
        b.ptrs.len() > 0,
        same_place(a.ptrs.last(), b.ptrs.last()),
    ensures
        forest.leaf_from(block, a, fuel) == forest.leaf_from(block, b, fuel),
    decreases fuel, 1int,
{
    assert(forest.node(block, a.ptrs.last()) == forest.node(block, b.ptrs.last()));
    if fuel > 0 {
        match forest.node(block, a.ptrs.last()) {
            Err(_) => {},
            Ok(node) => lemma_through_alike(forest, node, block, a, b, fuel),
        }
    }
}

/// Walking on from a node depends on the rest of the path and on the type of the last pointer only.
proof fn lemma_through_alike(
    forest: Forest,
    node: Node,
    block: Seq<u8>,
    a: Position,
    b: Position,
    fuel: nat,
)
    requires
        forest.places_decide(),
        a.path == b.path,
        a.index == b.index,
        a.ptrs.len() > 0,
        b.ptrs.len() > 0,
        a.ptrs.last().id == b.ptrs.last().id,
    ensures
        forest.leaf_through(node, block, a, fuel) == forest.leaf_through(node, block, b, fuel),
    decreases fuel, 0int,
{
    if fuel > 0 {
        assert(a.rest() == b.rest());
        assert(a.entry(node.path()) == b.entry(node.path()));
        let next_a = a.after(node, block);
        let next_b = b.after(node, block);
        match a.step(node) {
            ReadTrieNodeCursorStep::Next(child) => {
                assert(next_a.ptrs.last() == child && next_b.ptrs.last() == child);
                lemma_alike(forest, block, next_a, next_b, (fuel - 1) as nat);
            },
            ReadTrieNodeCursorStep::FollowBackptr(child) => {
                match forest.ancestor_block(child) {
                    Err(_) => {},
                    Ok(name) => {
                        let far_a = next_a.repaired(child.local(), name);
                        let far_b = next_b.repaired(child.local(), name);
                        assert(far_a.ptrs.last() == far_b.ptrs.last());
                        lemma_alike(forest, name, far_a, far_b, (fuel - 1) as nat);
                    },
                }
            },
            _ => {},
        }
    }
}

proof fn lemma_copied_slot(ptrs: Seq<TriePtr>, block_id: u32, chr: u8, from: int)
    ensures
        slot_for(copied_ptrs(ptrs, block_id), chr, from) == slot_for(ptrs, chr, from),
        slot_for(ptrs, chr, from) matches Some(slot) ==> 0 <= slot < ptrs.len() && ptrs[slot].id != 0,
    decreases ptrs.len() - from,
{
    if 0 <= from < ptrs.len() {
        lemma_copied_slot(ptrs, block_id, chr, from + 1);
    }
}

/// A branch that was copied forward leads to the same leaves as the branch that it was copied
/// from, wherever in a path it stands: lookups do not notice copies.
pub proof fn law_copied_branch_reads_same(
    forest: Forest,
    branch: Branch,
    block_id: u32,
    source: Seq<u8>,
    block: Seq<u8>,
    at: Position,
    fuel: nat,
)
    requires
        forest.places_decide(),
        branch.wf(),
        forest.name(block_id) == Ok::<Seq<u8>, Fault>(source),
        forest.opens(source) is Ok,
    ensures
        forest.leaf_through(copied(Node::Branch(branch), block_id), block, at, fuel)
            == forest.leaf_through(Node::Branch(branch), source, at, fuel),
{
    let node = Node::Branch(branch);
    let copy = copied(node, block_id);
    match at.entry(branch.path) {
        Entry::Chr(chr) => {
            lemma_copied_slot(branch.ptrs, block_id, chr, 0);
            match node.walk(chr) {
                None => {},
                Some(ptr) => {
                    let child = copied_ptr(ptr, block_id);
                    assert(copy.walk(chr) == Some(child));
                    let beyond = at.after(node, source);
                    let next = at.after(copy, block);
                    if fuel > 0 && !is_backptr(ptr.id) {
                        let there = next.repaired(child.local(), source);
                        assert(there.ptrs.last() == child.local() && beyond.ptrs.last() == ptr);
                        lemma_alike(forest, source, there, beyond, (fuel - 1) as nat);
                    } else if fuel > 0 {
                        match forest.ancestor_block(ptr) {
                            Err(_) => {},
                            Ok(name) => {
                                let there = next.repaired(ptr.local(), name);
                                let beyond = beyond.repaired(ptr.local(), name);
                                assert(there.ptrs.last() == ptr.local());
                                assert(beyond.ptrs.last() == ptr.local());
                                lemma_alike(forest, name, there, beyond, (fuel - 1) as nat);
                            },
                        }
                    }
                },
            }
        },
        _ => {},
    }
}

/// A block whose trie is the copy of its parent's root holds what its parent holds: every lookup
/// ends alike in both.
pub proof fn law_new_block_holds_what_its_parent_holds(
    forest: Forest,
    parent: Seq<u8>,
    parent_id: u32,
    root: Branch,
    block: Seq<u8>,
    hash: Seq<u8>,
    path: Seq<u8>,
)
    requires
        forest.places_decide(),
        root.wf(),
        forest.name(parent_id) == Ok::<Seq<u8>, Fault>(parent),
        forest.opens(parent) is Ok,
        forest.opens(block) is Ok,
        forest.node(parent, forest.root(parent)) == Ok::<Node, Fault>(Node::Branch(root)),
        forest.trie_is(block, seq![(copied(Node::Branch(root), parent_id), hash)]),
        forest.root(block).ptr == 0,
        forest.root(block).id == forest.root(parent).id,
    ensures
        forest.walk(block, path) == forest.walk(parent, path),
{
    let here = Position::start(path, forest.root(block));
    let there = Position::start(path, forest.root(parent));
    assert(forest.node(block, forest.root(block)) == Ok::<Node, Fault>(
        copied(Node::Branch(root), parent_id),
    ));
    assert(here.ptrs.last() == forest.root(block) && there.ptrs.last() == forest.root(parent));
    law_leaf_through_is_leaf_from(forest, block, here, 33);
    law_leaf_through_is_leaf_from(forest, parent, there, 33);
    law_copied_branch_reads_same(forest, root, parent_id, parent, block, here, 33);
    lemma_through_alike(forest, Node::Branch(root), parent, here, there, 33);
}

/// Following a back-pointer with a copy agrees with looking behind it.
proof fn lemma_follow(
    forest: Forest,
    block: Seq<u8>,
    nodes: Seq<(Node, Seq<u8>)>,
    next: Position,
    child: TriePtr,
    name: Seq<u8>,
    beyond: Position,
    fuel: nat,
)
    requires
        forest.places_decide(),
        forest.nodes_are_wf(),
        forest.ancestor_block(child) == Ok::<Seq<u8>, Fault>(name),
        beyond.path == next.path,
        beyond.index == next.index,
        beyond.ptrs.len() > 0,
        same_place(beyond.ptrs.last(), child.local()),
    ensures
        forest.agrees(
            forest.cow_follow(block, nodes, next, child, fuel),
            nodes.len() + fuel <= u32::MAX,
            forest.leaf_from(name, beyond, fuel),
        ),
    decreases fuel, 1int,
{
    assert(forest.node(name, beyond.ptrs.last()) == forest.node(name, child.local()));
    match forest.fetched(child) {
        Err(_) => {
            match forest.node(name, child.local()) {
                Ok(Node::Leaf(leaf)) => assert(forest.value(leaf) is Err),
                _ => {},
            }
        },
        Ok((found, _)) => {
            let source = forest.node(name, child.local())->Ok_0;
            let held = copied(found, child.back_block);
            assert(forest.is_copy(held, source, child.back_block));
            if nodes.len() <= u32::MAX {
                let more = nodes.push((held, copied_hash(found)));
                let place = TriePtr {
                    id: clear_backptr(child.id),
                    chr: child.chr,
                    ptr: nodes.len() as u64,
                    back_block: 0,
                };
                let there = next.repaired(place, name);
                assert(there.ptrs.last() == place);
                assert(more[place.ptr as int].0 == held);
                lemma_copying(forest, block, more, there, source, name, child.back_block, fuel);
                lemma_through_alike(forest, source, name, there, beyond, fuel);
            }
        },
    }
}

/// A walk that stands at a copy agrees with a lookup that stands at the node that was copied.
proof fn lemma_copying(
    forest: Forest,
    block: Seq<u8>,
    nodes: Seq<(Node, Seq<u8>)>,
    at: Position,
    source: Node,
    name: Seq<u8>,
    id: u32,
    fuel: nat,
)
    requires
        forest.places_decide(),
        forest.nodes_are_wf(),
        source.wf(),
        at.error is None,
        at.ptrs.len() > 0,
        at.ptrs.last().ptr < nodes.len(),
        forest.is_copy(nodes[at.ptrs.last().ptr as int].0, source, id),
        forest.name(id) == Ok::<Seq<u8>, Fault>(name),
        forest.opens(name) is Ok,
    ensures
        forest.agrees(
            forest.cow_walk(block, nodes, at, fuel),
            nodes.len() + fuel <= u32::MAX + 1,
            forest.leaf_through(source, name, at, fuel),
        ),
    decreases fuel, 0int,
{
    if fuel > 0 {
        let held = nodes[at.ptrs.last().ptr as int].0;
        assert(held.path() == source.path());
        match source {
            Node::Leaf(_) => {},
            Node::Branch(branch) => {
                match at.entry(branch.path) {
                    Entry::Chr(chr) => {
                        lemma_copied_slot(branch.ptrs, id, chr, 0);
                        match source.walk(chr) {
                            None => {},
                            Some(ptr) => {
                                let child = copied_ptr(ptr, id);
                                assert(held.walk(chr) == Some(child));
                                let next = at.after(held, block);
                                let beyond = at.after(source, name);
                                if is_backptr(ptr.id) {
                                    match forest.ancestor_block(ptr) {
                                        Err(_) => {},
                                        Ok(far) => {
                                            let beyond = beyond.repaired(ptr.local(), far);
                                            assert(beyond.ptrs.last() == ptr.local());
                                            lemma_follow(
                                                forest,
                                                block,
                                                nodes,
                                                next,
                                                child,
                                                far,
                                                beyond,
                                                (fuel - 1) as nat,
                                            );
                                        },
                                    }
                                } else {
                                    assert(beyond.ptrs.last() == ptr);
                                    lemma_follow(
                                        forest,
                                        block,
                                        nodes,
                                        next,
                                        child,
                                        name,
                                        beyond,
                                        (fuel - 1) as nat,
                                    );
                                }
                            },
                        }
                    },
                    _ => {},
                }
            },
        }
    }
}

proof fn lemma_cow_agrees(
    forest: Forest,
    block: Seq<u8>,
    nodes: Seq<(Node, Seq<u8>)>,
    at: Position,
    fuel: nat,
)
    requires
        forest.places_decide(),
        forest.nodes_are_wf(),
        forest.trie_is(block, nodes),
        at.error is None,
        at.ptrs.len() > 0,
    ensures
        forest.agrees(
            forest.cow_walk(block, nodes, at, fuel),
            nodes.len() + fuel <= u32::MAX,
            forest.leaf_from(block, at, fuel),
        ),
    decreases fuel,
{
    let ptr = at.ptrs.last();
    assert(forest.node(block, ptr) == if ptr.ptr < nodes.len() {
        Ok::<Node, Fault>(nodes[ptr.ptr as int].0)
    } else {
        Err::<Node, Fault>(not_found())
    });
    if fuel > 0 && ptr.ptr < nodes.len() {
        let node = nodes[ptr.ptr as int].0;
        let next = at.after(node, block);
        match at.step(node) {
            ReadTrieNodeCursorStep::Next(_) => {
                lemma_cow_agrees(forest, block, nodes, next, (fuel - 1) as nat);
            },
            ReadTrieNodeCursorStep::FollowBackptr(child) => {
                match forest.ancestor_block(child) {
                    Err(_) => {},
                    Ok(name) => {
                        let beyond = next.repaired(child.local(), name);
                        assert(beyond.ptrs.last() == child.local());
                        lemma_follow(
                            forest,
                            block,
                            nodes,
                            next,
                            child,
                            name,
                            beyond,
                            (fuel - 1) as nat,
                        );
                    },
                }
            },
            _ => {},
        }
    }
}

/// A walk that copies nodes into a trie on its way ends at the leaf that a lookup of the same path
/// finds, or where the path leaves the trie if there is none: copying does not change what a block
/// holds.
pub proof fn law_cow_walk_finds_what_lookups_find(
    forest: Forest,
    block: Seq<u8>,
    nodes: Seq<(Node, Seq<u8>)>,
    root_ptr: TriePtr,
    path: Seq<u8>,
)
    requires
        forest.places_decide(),
        forest.nodes_are_wf(),
        forest.trie_is(block, nodes),
    ensures
        ({
            let walk = forest.cow_walk(block, nodes, Position::start(path, root_ptr), 33);
            let lookup = forest.leaf_from(block, Position::start(path, root_ptr), 33);
            match walk.outcome {
                Ok(()) => forest.ends_alike(walk, lookup),
                Err(_) => forest.values_resolve() && nodes.len() + 33 <= u32::MAX ==> lookup is Err,
            }
        }),
{
    lemma_cow_agrees(forest, block, nodes, Position::start(path, root_ptr), 33);
}

/// The nodes that a copying walk adds are copies of what its sources lead to, in their order: each of
/// the node that a followed back-pointer leads to, as this block holds it.
pub proof fn law_added_nodes_are_copies_of_sources(
    forest: Forest,
    block: Seq<u8>,
    nodes: Seq<(Node, Seq<u8>)>,
    at: Position,
    fuel: nat,
    i: int,
)
    ensures
        ({
            let walk = forest.cow_walk(block, nodes, at, fuel);
            let sources = forest.cow_sources(block, nodes, at, fuel);
            &&& walk.nodes.len() == nodes.len() + sources.len()
            &&& 0 <= i < sources.len() ==> (forest.fetched(sources[i].0) matches Ok((found, name))
                && name == sources[i].1 && walk.nodes[nodes.len() + i] == (
                copied(found, sources[i].0.back_block),
                copied_hash(found),
            ) && is_backptr(sources[i].0.id))
        }),
    decreases fuel,
{
    let ptr = at.ptrs.last();
    if fuel > 0 && ptr.ptr < nodes.len() {
        let node = nodes[ptr.ptr as int].0;
        let next = at.after(node, block);
        match at.step(node) {
            ReadTrieNodeCursorStep::Next(_) => {
                law_added_nodes_are_copies_of_sources(
                    forest,
                    block,
                    nodes,
                    next,
                    (fuel - 1) as nat,
                    i,
                );
            },
            ReadTrieNodeCursorStep::FollowBackptr(child) => {
                match forest.fetched(child) {
                    Ok((found, name)) => {
                        if nodes.len() <= u32::MAX {
                            let more = nodes.push(
                                (copied(found, child.back_block), copied_hash(found)),
                            );
                            let there = next.repaired(
                                TriePtr {
                                    id: clear_backptr(child.id),
                                    chr: child.chr,
                                    ptr: nodes.len() as u64,
                                    back_block: 0,
                                },
                                name,
                            );
                            law_added_nodes_are_copies_of_sources(
                                forest,
                                block,
                                more,
                                there,
                                (fuel - 1) as nat,
                                i - 1,
                            );
                            crate::cow::law_cow_walk_keeps_nodes(
                                forest,
                                block,
                                more,
                                there,
                                (fuel - 1) as nat,
                            );
                            let walk = forest.cow_walk(block, nodes, at, fuel);
                            assert(walk.nodes.subrange(0, more.len() as int)[nodes.len() as int]
                                == more[nodes.len() as int]);
                        }
                    },
                    Err(_) => {},
                }
            },
            _ => {},
        }
    }
}

} // verus!
