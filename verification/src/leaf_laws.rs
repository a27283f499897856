//! What a traversal of leaves and lookups by path say of each other.
use vstd::prelude::*;

use crate::cursor::{common, Entry, Position, ReadTrieNodeCursorStep};
use crate::leaf::{Leaf, Node};
use crate::leaf_walk::{queued, FoundLeaf, Visit};
use crate::node::{is_backptr, lemma_slot_for, Branch, TriePtr};
use crate::patch::Fault;
use crate::proof_laws::own_edges;
use crate::read_storage::Forest;

verus! {

/// Whether every child that a node lists is the one found along its byte.
pub open spec fn children_found(node: Node) -> bool {
    forall|i: int|
        0 <= i < node.ptrs().len() && (#[trigger] node.ptrs()[i]).id != 0 ==> node.walk(
            node.ptrs()[i].chr,
        ) == Some(node.ptrs()[i])
}

impl Forest {
    /// Whether the children that nodes list are the ones found along their bytes.
    pub open spec fn children_agree(self) -> bool {
        forall|block: Seq<u8>, ptr: TriePtr| #[trigger]
            self.node(block, ptr) matches Ok(node) ==> children_found(node)
    }

    /// Whether leaves that hold their values are read as holding them.
    pub open spec fn values_agree(self) -> bool {
        forall|leaf: Leaf|
            leaf.data is Some ==> #[trigger] self.value(leaf) == Ok::<Seq<u8>, Fault>(
                leaf.data->0,
            )
    }

    /// Whether nodes are what the pointers to them say, and lead to the children that they list.
    pub open spec fn tidy(self) -> bool {
        &&& self.nodes_are_wf()
        &&& self.types_agree()
        &&& self.edges_agree()
        &&& self.children_agree()
        &&& self.values_agree()
    }
}

/// A walk that stands at a pointer with `index` bytes of its path behind it.
pub open spec fn standing(path: Seq<u8>, index: int, ptr: TriePtr) -> Position {
    Position { path, index, within: 0, ptrs: seq![ptr], blocks: Seq::empty(), error: None }
}

/// What a walk finds depends on the rest of its path and on the last pointer only, and not on how
/// many nodes it may visit, as long as they are enough for the rest of its path.
proof fn lemma_same_walk(
    forest: Forest,
    block: Seq<u8>,
    a: Position,
    b: Position,
    more: nat,
    less: nat,
)
    requires
        a.path == b.path,
        a.path.len() == 32,
        a.index == b.index,
        0 <= a.index <= 32,
        a.ptrs.len() > 0,
        b.ptrs.len() > 0,
        a.ptrs.last() == b.ptrs.last(),
        more > 32 - a.index,
        less > 32 - a.index,
    ensures
        forest.leaf_from(block, a, more) == forest.leaf_from(block, b, less),
    decreases more,
{
    let ptr = a.ptrs.last();
    match forest.node(block, ptr) {
        Err(_) => {},
        Ok(node) => {
            assert(a.rest() == b.rest());
            lemma_common_all(node.path(), a.rest());
            assert(a.entry(node.path()) == b.entry(node.path()));
            let next_a = a.after(node, block);
            let next_b = b.after(node, block);
            match a.step(node) {
                ReadTrieNodeCursorStep::Next(child) => {
                    assert(next_a.ptrs.last() == child && next_b.ptrs.last() == child);
                    lemma_same_walk(
                        forest,
                        block,
                        next_a,
                        next_b,
                        (more - 1) as nat,
                        (less - 1) as nat,
                    );
                },
                ReadTrieNodeCursorStep::FollowBackptr(child) => {
                    match forest.ancestor_block(child) {
                        Err(_) => {},
                        Ok(name) => {
                            let far_a = next_a.repaired(child.local(), name);
                            let far_b = next_b.repaired(child.local(), name);
                            assert(far_a.ptrs.last() == child.local());
                            assert(far_b.ptrs.last() == child.local());
                            lemma_same_walk(
                                forest,
                                name,
                                far_a,
                                far_b,
                                (more - 1) as nat,
                                (less - 1) as nat,
                            );
                        },
                    }
                },
                _ => {},
            }
        },
    }
}

impl Forest {
    /// The leaf that a path leads to through a node that is still to be visited.
    pub open spec fn leaf_below(self, visit: Visit, path: Seq<u8>) -> Result<Leaf, Fault> {
        let index = visit.prefix.len();
        let fuel = (33 - index) as nat;
        if is_backptr(visit.ptr.id) {
            match self.ancestor_block(visit.ptr) {
                Err(fault) => Err(fault),
                Ok(name) => self.leaf_from(
                    name,
                    standing(path, index as int, visit.ptr.local()),
                    fuel,
                ),
            }
        } else {
            self.leaf_from(visit.block, standing(path, index as int, visit.ptr), fuel)
        }
    }

    /// Whether a path leads through a node that is still to be visited to a leaf with a value.
    pub open spec fn gives(self, visit: Visit, path: Seq<u8>, value: Seq<u8>) -> bool {
        &&& visit.prefix.len() <= path.len()
        &&& path.subrange(0, visit.prefix.len() as int) == visit.prefix
        &&& self.leaf_below(visit, path) matches Ok(leaf) && self.value(leaf) == Ok::<
            Seq<u8>,
            Fault,
        >(value)
    }

    /// Whether a path leads through one of some nodes to a leaf with a value.
    pub open spec fn some_gives(self, stack: Seq<Visit>, path: Seq<u8>, value: Seq<u8>) -> bool {
        exists|k: int| 0 <= k < stack.len() && self.gives(#[trigger] stack[k], path, value)
    }
}

/// Segments that the rest of a path starts with have all their bytes in common with it.
proof fn lemma_common_all(segment: Seq<u8>, rest: Seq<u8>)
    ensures
        common(segment, rest) <= segment.len(),
        common(segment, rest) == segment.len() <==> segment.len() <= rest.len() && rest.subrange(
            0,
            segment.len() as int,
        ) == segment,
    decreases segment.len(),
{
    if segment.len() == 0 {
        assert(rest.subrange(0, 0) =~= segment);
    } else if rest.len() > 0 && segment[0] == rest[0] {
        lemma_common_all(segment.drop_first(), rest.drop_first());
        if segment.len() <= rest.len() {
            let head = rest.subrange(0, segment.len() as int);
            assert(head.drop_first() =~= rest.drop_first().subrange(0, segment.len() - 1));
            if head == segment {
                assert(head.drop_first() =~= segment.drop_first());
            }
            if head.drop_first() == segment.drop_first() {
                assert(head =~= segment) by {
                    assert forall|i: int| 0 <= i < segment.len() implies head[i] == segment[i] by {
                        if i > 0 {
                            assert(head.drop_first()[i - 1] == segment.drop_first()[i - 1]);
                        }
                    }
                }
            }
        }
    } else if segment.len() <= rest.len() {
        if rest.subrange(0, segment.len() as int) == segment {
            assert(rest.subrange(0, segment.len() as int)[0] == segment[0]);
        }
    }
}

/// What entering a segment leads to, by the bytes of the path.
proof fn lemma_entry(path: Seq<u8>, prefix: Seq<u8>, ptr: TriePtr, segment: Seq<u8>)
    requires
        path.len() == 32,
        prefix.len() <= 32,
        path.subrange(0, prefix.len() as int) == prefix,
    ensures
        ({
            let full = prefix + segment;
            let at = standing(path, prefix.len() as int, ptr);
            let follows = full.len() <= 32 && path.subrange(0, full.len() as int) == full;
            match at.entry(segment) {
                Entry::End => prefix.len() == 32 || (full == path),
                Entry::Diverged => prefix.len() < 32 && !follows,
                Entry::Chr(chr) => full.len() < 32 && follows && chr == path[full.len() as int],
            }
        }),
        prefix.len() < 32 && prefix + segment == path ==> standing(
            path,
            prefix.len() as int,
            ptr,
        ).entry(segment) is End,
        (prefix + segment).len() < 32 && path.subrange(0, (prefix + segment).len() as int) == prefix
            + segment ==> standing(path, prefix.len() as int, ptr).entry(segment) == Entry::Chr(
            path[(prefix + segment).len() as int],
        ),
{
    let full = prefix + segment;
    let at = standing(path, prefix.len() as int, ptr);
    let rest = at.rest();
    lemma_common_all(segment, rest);
    if full.len() <= 32 {
        let head = path.subrange(0, full.len() as int);
        assert(head =~= prefix + rest.subrange(0, segment.len() as int)) by {
            assert forall|i: int| 0 <= i < prefix.len() implies head[i] == prefix[i] by {
                assert(path.subrange(0, prefix.len() as int)[i] == prefix[i]);
            }
        }
        if rest.subrange(0, segment.len() as int) == segment {
            assert(head == full);
        }
        if head == full {
            assert(rest.subrange(0, segment.len() as int) =~= segment) by {
                assert forall|i: int| 0 <= i < segment.len() implies rest[i] == segment[i] by {
                    assert(head[prefix.len() + i] == full[prefix.len() + i]);
                }
            }
        }
        if full.len() == 32 {
            assert(head =~= path);
        }
    }
}

/// The child of a branch that a traversal visits.
pub open spec fn child_visit(branch: Branch, prefix: Seq<u8>, block: Seq<u8>, i: int) -> Visit {
    Visit { ptr: branch.ptrs[i], prefix: prefix.push(branch.ptrs[i].chr), block }
}

/// A path that leads through a branch leads through one of its children.
proof fn lemma_branch_gives(
    forest: Forest,
    visit: Visit,
    branch: Branch,
    block: Seq<u8>,
    path: Seq<u8>,
    value: Seq<u8>,
)
    requires
        forest.tidy(),
        path.len() == 32,
        forest.target(visit.block, visit.ptr) == Ok::<(Node, Seq<u8>), Fault>(
            (Node::Branch(branch), block),
        ),
    ensures
        forest.gives(visit, path, value) <==> exists|i: int|
            0 <= i < branch.ptrs.len() && (#[trigger] branch.ptrs[i]).id != 0 && forest.gives(
                child_visit(branch, visit.prefix + branch.path, block, i),
                path,
                value,
            ),
{
    let node = Node::Branch(branch);
    let full = visit.prefix + branch.path;
    let ptr = if is_backptr(visit.ptr.id) {
        visit.ptr.local()
    } else {
        visit.ptr
    };
    assert(forest.node(block, ptr) == Ok::<Node, Fault>(node));
    assert(node.wf());
    assert(children_found(node));
    assert(own_edges(node));
    let index = visit.prefix.len();
    let fits = index <= 32 && path.subrange(0, index as int) == visit.prefix;
    if fits {
        lemma_entry(path, visit.prefix, ptr, branch.path);
    }
    if forest.gives(visit, path, value) {
        let at = standing(path, index as int, ptr);
        let next = at.after(node, block);
        assert(forest.leaf_from(block, at, (33 - index) as nat) is Ok);
        let chr = path[full.len() as int];
        assert(at.entry(branch.path) == Entry::Chr(chr));
        lemma_slot_for(branch.ptrs, chr, 0);
        let slot = branch.find(chr)->0;
        let child = branch.ptrs[slot];
        assert(node.walk(chr) == Some(child));
        assert(child.chr == chr);
        assert(0 <= slot < branch.ptrs.len() && child.id != 0);
        let below = child_visit(branch, full, block, slot);
        assert(path.subrange(0, below.prefix.len() as int) =~= below.prefix) by {
            assert(path.subrange(0, full.len() as int) == full);
            assert forall|i: int| 0 <= i < full.len() implies path[i] == full[i] by {
                assert(path.subrange(0, full.len() as int)[i] == full[i]);
            }
        }
        lemma_common_all(branch.path, at.rest());
        lemma_child_walk(forest, at, node, block, child, below, path);
        assert(forest.gives(below, path, value));
    }
    if exists|i: int|
        0 <= i < branch.ptrs.len() && (#[trigger] branch.ptrs[i]).id != 0 && forest.gives(
            child_visit(branch, full, block, i),
            path,
            value,
        ) {
        let i = choose|i: int|
            0 <= i < branch.ptrs.len() && (#[trigger] branch.ptrs[i]).id != 0 && forest.gives(
                child_visit(branch, full, block, i),
                path,
                value,
            );
        let below = child_visit(branch, full, block, i);
        let child = branch.ptrs[i];
        let head = path.subrange(0, below.prefix.len() as int);
        assert(head == below.prefix);
        assert(node.ptrs()[i] == child);
        assert(node.walk(child.chr) == Some(child));
        assert forall|k: int| 0 <= k < full.len() implies path[k] == full[k] by {
            assert(head[k] == below.prefix[k]);
        }
        assert(path[full.len() as int] == child.chr) by {
            assert(head[full.len() as int] == below.prefix[full.len() as int]);
        }
        assert(path.subrange(0, full.len() as int) =~= full);
        assert(path.subrange(0, index as int) =~= visit.prefix) by {
            assert forall|k: int| 0 <= k < index implies path[k] == visit.prefix[k] by {
                assert(full[k] == visit.prefix[k]);
            }
        }
        lemma_entry(path, visit.prefix, ptr, branch.path);
        let at = standing(path, index as int, ptr);
        lemma_common_all(branch.path, at.rest());
        lemma_child_walk(forest, at, node, block, child, below, path);
        assert(forest.gives(visit, path, value));
    }
}

/// A walk that stands at a branch goes on as a walk that stands at the child that it takes.
proof fn lemma_child_walk(
    forest: Forest,
    at: Position,
    node: Node,
    block: Seq<u8>,
    child: TriePtr,
    below: Visit,
    path: Seq<u8>,
)
    requires
        path.len() == 32,
        at == standing(path, at.index, at.ptrs.last()),
        0 <= at.index,
        forest.node(block, at.ptrs.last()) == Ok::<Node, Fault>(node),
        at.entry(node.path()) == Entry::Chr(child.chr),
        common(node.path(), at.rest()) == node.path().len(),
        node.walk(child.chr) == Some(child),
        below.ptr == child,
        below.block == block,
        below.prefix.len() == at.index + node.path().len() + 1,
        below.prefix.len() <= 32,
    ensures
        forest.leaf_from(block, at, (33 - at.index) as nat) == forest.leaf_below(below, path),
{
    let next = at.after(node, block);
    let fuel = (32 - at.index) as nat;
    let index = below.prefix.len();
    if is_backptr(child.id) {
        match forest.ancestor_block(child) {
            Err(_) => {},
            Ok(name) => {
                let far = next.repaired(child.local(), name);
                assert(far.ptrs.last() == child.local());
                lemma_same_walk(
                    forest,
                    name,
                    far,
                    standing(path, index as int, child.local()),
                    fuel,
                    (33 - index) as nat,
                );
            },
        }
    } else {
        assert(next.ptrs.last() == child);
        lemma_same_walk(
            forest,
            block,
            next,
            standing(path, index as int, child),
            fuel,
            (33 - index) as nat,
        );
    }
}

/// The only path that leads through a leaf is the leaf's own.
proof fn lemma_leaf_gives(
    forest: Forest,
    visit: Visit,
    leaf: Leaf,
    block: Seq<u8>,
    path: Seq<u8>,
    value: Seq<u8>,
)
    requires
        forest.tidy(),
        path.len() == 32,
        (visit.prefix + leaf.path).len() == 32,
        forest.target(visit.block, visit.ptr) == Ok::<(Node, Seq<u8>), Fault>(
            (Node::Leaf(leaf), block),
        ),
        forest.walked_value(leaf) is Ok,
    ensures
        forest.gives(visit, path, value) <==> path == visit.prefix + leaf.path
            && forest.walked_value(leaf) == Ok::<Seq<u8>, Fault>(value),
{
    let node = Node::Leaf(leaf);
    let full = visit.prefix + leaf.path;
    let ptr = if is_backptr(visit.ptr.id) {
        visit.ptr.local()
    } else {
        visit.ptr
    };
    assert(forest.node(block, ptr) == Ok::<Node, Fault>(node));
    assert(ptr.id == node.id().code());
    assert(ptr.id == 1);
    assert(forest.value(leaf) == forest.walked_value(leaf));
    let index = visit.prefix.len();
    let at = standing(path, index as int, ptr);
    if path.subrange(0, index as int) == visit.prefix {
        lemma_entry(path, visit.prefix, ptr, leaf.path);
        if index == 32 {
            assert(path.subrange(0, 32) =~= path);
            assert(leaf.path =~= Seq::<u8>::empty());
            assert(full =~= path);
        }
        if full == path {
            assert(forest.leaf_from(block, at, (33 - index) as nat) == Ok::<Leaf, Fault>(leaf));
        }
    } else if path == full {
        assert(path.subrange(0, index as int) =~= visit.prefix);
    }
}

/// The nodes to be visited after a branch are those from before, and its children.
proof fn lemma_queued(
    stack: Seq<Visit>,
    branch: Branch,
    prefix: Seq<u8>,
    block: Seq<u8>,
    n: nat,
    forest: Forest,
    path: Seq<u8>,
    value: Seq<u8>,
)
    requires
        n <= branch.ptrs.len(),
    ensures
        forest.some_gives(queued(stack, branch.ptrs, prefix, block, n), path, value) <==> (
        forest.some_gives(stack, path, value) || exists|i: int|
            0 <= i < n && (#[trigger] branch.ptrs[i]).id != 0 && forest.gives(
                child_visit(branch, prefix, block, i),
                path,
                value,
            )),
    decreases n,
{
    if n > 0 {
        lemma_queued(stack, branch, prefix, block, (n - 1) as nat, forest, path, value);
        let before = queued(stack, branch.ptrs, prefix, block, (n - 1) as nat);
        let after = queued(stack, branch.ptrs, prefix, block, n);
        let last = child_visit(branch, prefix, block, n - 1);
        if branch.ptrs[n - 1].id != 0 {
            assert(after == before.push(last));
            if forest.some_gives(before, path, value) {
                let k = choose|k: int|
                    0 <= k < before.len() && forest.gives(#[trigger] before[k], path, value);
                assert(after[k] == before[k]);
            }
            if forest.gives(last, path, value) {
                assert(after[before.len() as int] == last);
                assert(branch.ptrs[n - 1].id != 0);
            }
            if forest.some_gives(after, path, value) {
                let k = choose|k: int|
                    0 <= k < after.len() && forest.gives(#[trigger] after[k], path, value);
                if k < before.len() {
                    assert(before[k] == after[k]);
                    assert(forest.some_gives(before, path, value));
                } else {
                    assert(branch.ptrs[n - 1].id != 0);
                }
            }
        }
    }
}

/// A traversal that comes to its end has found what it had found before, and what the nodes that
/// were still to be visited lead to.
proof fn lemma_walked(
    forest: Forest,
    stack: Seq<Visit>,
    found: Seq<FoundLeaf>,
    fuel: nat,
    path: Seq<u8>,
    value: Seq<u8>,
)
    requires
        forest.tidy(),
        path.len() == 32,
        forest.walked(stack, found, fuel) is Ok,
    ensures
        forest.walked(stack, found, fuel)->Ok_0.contains((path, value)) <==> (found.contains(
            (path, value),
        ) || forest.some_gives(stack, path, value)),
    decreases fuel,
{
    if stack.len() > 0 {
        let visit = stack.last();
        let below = stack.drop_last();
        let (node, block) = forest.target(visit.block, visit.ptr)->Ok_0;
        let (rest, more) = forest.processed(node, visit.prefix, block, below, found)->Ok_0;
        lemma_walked(forest, rest, more, (fuel - 1) as nat, path, value);
        assert(forest.some_gives(stack, path, value) <==> forest.some_gives(below, path, value)
            || forest.gives(visit, path, value)) by {
            if forest.some_gives(stack, path, value) {
                let k = choose|k: int|
                    0 <= k < stack.len() && forest.gives(#[trigger] stack[k], path, value);
                if k < below.len() {
                    assert(below[k] == stack[k]);
                }
            }
            if forest.some_gives(below, path, value) {
                let k = choose|k: int|
                    0 <= k < below.len() && forest.gives(#[trigger] below[k], path, value);
                assert(stack[k] == below[k]);
            }
            if forest.gives(visit, path, value) {
                assert(stack[stack.len() - 1] == visit);
            }
        }
        match node {
            Node::Leaf(leaf) => {
                lemma_leaf_gives(forest, visit, leaf, block, path, value);
                let own = (visit.prefix + leaf.path, forest.walked_value(leaf)->Ok_0);
                assert(more == found.push(own));
                assert(more.contains((path, value)) <==> found.contains((path, value)) || own == (
                    path,
                    value,
                )) by {
                    if more.contains((path, value)) {
                        let k = more.index_of((path, value));
                        if k < found.len() {
                            assert(found[k] == more[k]);
                        }
                    }
                    if found.contains((path, value)) {
                        let k = found.index_of((path, value));
                        assert(more[k] == found[k]);
                    }
                    assert(more[found.len() as int] == own);
                }
            },
            Node::Branch(branch) => {
                let full = visit.prefix + branch.path;
                lemma_branch_gives(forest, visit, branch, block, path, value);
                lemma_queued(below, branch, full, block, branch.ptrs.len(), forest, path, value);
            },
        }
    } else {
        if forest.some_gives(stack, path, value) {
            let k = choose|k: int|
                0 <= k < stack.len() && forest.gives(#[trigger] stack[k], path, value);
        }
    }
}

/// A traversal of a block's leaves that succeeds finds exactly what lookups find: a path with a
/// value, if and only if the path leads to the value.
pub proof fn law_traversal_finds_what_lookups_find(
    forest: Forest,
    block: Seq<u8>,
    path: Seq<u8>,
    value: Seq<u8>,
)
    requires
        forest.tidy(),
        path.len() == 32,
        forest.leaves(block) is Ok,
    ensures
        forest.leaves(block)->Ok_0.contains((path, value)) <==> forest.lookup(block, path) == Ok::<
            Option<Seq<u8>>,
            Fault,
        >(Some(value)),
{
    let root = forest.root(block);
    let start = Visit { ptr: root, prefix: Seq::empty(), block };
    let stack = seq![start];
    let node = forest.node(block, root)->Ok_0;
    let none = Seq::<FoundLeaf>::empty();
    assert(root.id == node.id().code());
    assert(!is_backptr(root.id));
    assert(stack.drop_last() =~= Seq::<Visit>::empty());
    assert(forest.walked(stack, none, (u64::MAX + 1) as nat) == forest.leaves(block));
    lemma_walked(forest, stack, none, (u64::MAX + 1) as nat, path, value);
    assert(forest.some_gives(stack, path, value) <==> forest.gives(start, path, value)) by {
        if forest.gives(start, path, value) {
            assert(stack[0] == start);
        }
    }
    assert(path.subrange(0, 0) =~= start.prefix);
    assert(standing(path, 0, root) =~= Position::start(path, root));
    assert(forest.leaf_below(start, path) == forest.walk(block, path));
}

} // verus!
