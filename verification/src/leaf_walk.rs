//! Traversal of all leaves that are visible at a block.
use vstd::prelude::*;

use crate::error::{corrupt, Corruption, Error};
use crate::hash::{copy_id, MarfTrieId, TrieHash};
use crate::leaf::{Leaf, Node, TrieLeaf, TrieNodeType};
use crate::marf_read::open_ancestor;
use crate::node::{is_backptr, TriePtr};
use crate::patch::{bad, fault_of, Fault};
use crate::read_storage::{shows, Forest, TrieReadStorage};
use crate::value::MARFValue;
use crate::words::{push_bytes, to_array};

verus! {

/// A node that is still to be visited: the pointer to it, the path before it, and the block whose
/// trie the pointer is in.
#[verifier::ext_equal]
pub struct Visit {
    pub ptr: TriePtr,
    pub prefix: Seq<u8>,
    pub block: Seq<u8>,
}

/// A node that is still to be visited.
pub struct PendingVisit<T> {
    pub ptr: TriePtr,
    pub prefix: Vec<u8>,
    pub block: T,
}

impl<T: MarfTrieId> PendingVisit<T> {
    /// What is to be visited.
    pub open spec fn view(&self) -> Visit {
        Visit { ptr: self.ptr, prefix: self.prefix@, block: self.block.id_bytes() }
    }
}

/// What is to be visited.
pub open spec fn visits<T: MarfTrieId>(stack: Seq<PendingVisit<T>>) -> Seq<Visit> {
    Seq::new(stack.len(), |i: int| stack[i]@)
}

/// The full path of a leaf and its value.
pub type FoundLeaf = (Seq<u8>, Seq<u8>);

/// Leaves that were found.
pub open spec fn found_views(found: Seq<(TrieHash, MARFValue)>) -> Seq<FoundLeaf> {
    Seq::new(found.len(), |i: int| (found[i].0@, found[i].1@))
}

/// A stack with the first `n` children of a branch on top.
pub open spec fn queued(
    stack: Seq<Visit>,
    ptrs: Seq<TriePtr>,
    prefix: Seq<u8>,
    block: Seq<u8>,
    n: nat,
) -> Seq<Visit>
    decreases n,
{
    if n == 0 {
        stack
    } else {
        let before = queued(stack, ptrs, prefix, block, (n - 1) as nat);
        let ptr = ptrs[n - 1];
        if ptr.id == 0 {
            before
        } else {
            before.push(Visit { ptr, prefix: prefix.push(ptr.chr), block })
        }
    }
}

impl Forest {
    /// The node that a pointer leads to, and the block whose trie it is in.
    pub open spec fn target(self, block: Seq<u8>, ptr: TriePtr) -> Result<(Node, Seq<u8>), Fault> {
        if is_backptr(ptr.id) {
            match self.ancestor_block(ptr) {
                Err(fault) => Err(fault),
                Ok(name) => match self.node(name, ptr.local()) {
                    Err(fault) => Err(fault),
                    Ok(node) => Ok((node, name)),
                },
            }
        } else {
            match self.node(block, ptr) {
                Err(fault) => Err(fault),
                Ok(node) => Ok((node, block)),
            }
        }
    }

    /// The value of a leaf in a traversal: the one it holds, or the one its locator leads to.
    pub open spec fn walked_value(self, leaf: Leaf) -> Result<Seq<u8>, Fault> {
        match leaf.data {
            Some(value) => Ok(value),
            None => if leaf.extent is None {
                Err(bad(Corruption::HashlessLeafWithoutValue))
            } else {
                self.value(leaf)
            },
        }
    }

    /// The stack and the leaves found, after a node was processed.
    pub open spec fn processed(
        self,
        node: Node,
        prefix: Seq<u8>,
        block: Seq<u8>,
        stack: Seq<Visit>,
        found: Seq<FoundLeaf>,
    ) -> Result<(Seq<Visit>, Seq<FoundLeaf>), Fault> {
        let full = prefix + node.path();
        match node {
            Node::Leaf(leaf) => if full.len() != 32 {
                Err(bad(Corruption::InvalidLeafPathLength))
            } else {
                match self.walked_value(leaf) {
                    Err(fault) => Err(fault),
                    Ok(value) => Ok((stack, found.push((full, value)))),
                }
            },
            Node::Branch(branch) => Ok(
                (queued(stack, branch.ptrs, full, block, branch.ptrs.len()), found),
            ),
        }
    }

    /// The leaves that a traversal ends with that still has a stack to visit, and visits at most
    /// `fuel` nodes more.
    pub open spec fn walked(self, stack: Seq<Visit>, found: Seq<FoundLeaf>, fuel: nat) -> Result<
        Seq<FoundLeaf>,
        Fault,
    >
        decreases fuel,
    {
        if stack.len() == 0 {
            Ok(found)
        } else if fuel == 0 {
            Err(bad(Corruption::TrieCycle))
        } else {
            let visit = stack.last();
            match self.target(visit.block, visit.ptr) {
                Err(fault) => Err(fault),
                Ok((node, block)) => match self.processed(
                    node,
                    visit.prefix,
                    block,
                    stack.drop_last(),
                    found,
                ) {
                    Err(fault) => Err(fault),
                    Ok((rest, more)) => self.walked(rest, more, (fuel - 1) as nat),
                },
            }
        }
    }

    /// All leaves that are visible at a block, with their full paths.
    pub open spec fn leaves(self, block: Seq<u8>) -> Result<Seq<FoundLeaf>, Fault> {
        match self.history(block) {
            Err(fault) => Err(fault),
            Ok(()) => match self.opens(block) {
                Err(fault) => Err(fault),
                Ok(()) => match self.node(block, self.root(block)) {
                    Err(fault) => Err(fault),
                    Ok(root) => match self.processed(
                        root,
                        Seq::empty(),
                        block,
                        Seq::empty(),
                        Seq::empty(),
                    ) {
                        Err(fault) => Err(fault),
                        Ok((stack, found)) => self.walked(stack, found, u64::MAX as nat),
                    },
                },
            },
        }
    }
}

/// Read a node referenced by a pointer, following back-pointers when necessary.
pub fn read_node_for_ptr<T: MarfTrieId, S: TrieReadStorage<T>>(storage: &S, block: &T, ptr: &TriePtr) -> (out:
    Result<(TrieNodeType, T), Error>)
    ensures
        out is Ok ==> (out->Ok_0).0@.wf(),
        forall|forest: Forest| #[trigger]
            shows(storage, forest) ==> match forest.target(block.id_bytes(), *ptr) {
                Ok((node, name)) => out matches Ok((found, at)) && found@ == node && at.id_bytes()
                    == name,
                Err(fault) => out matches Err(e) && fault_of(e) == fault,
            },
{
    if is_backptr(ptr.id) {
        let name: T = match open_ancestor(storage, ptr) {
            Ok(name) => name,
            Err(e) => return Err(e),
        };
        match storage.read_node(&name, &ptr.from_backptr()) {
            Ok(node) => Ok((node, name)),
            Err(e) => Err(e),
        }
    } else {
        match storage.read_node(block, ptr) {
            Ok(node) => Ok((node, copy_id(block))),
            Err(e) => Err(e),
        }
    }
}

/// The value of a leaf in a traversal.
fn walked_value<T: MarfTrieId, S: TrieReadStorage<T>>(storage: &S, leaf: &TrieLeaf) -> (value: Result<
    MARFValue,
    Error,
>)
    ensures
        forall|forest: Forest| #[trigger]
            shows::<T, S>(storage, forest) ==> match forest.walked_value(leaf@) {
                Ok(bytes) => value matches Ok(found) && found@ == bytes,
                Err(fault) => value matches Err(e) && fault_of(e) == fault,
            },
{
    match leaf.data {
        Some(value) => Ok(value),
        None => {
            if leaf.extent.is_none() {
                return Err(corrupt(Corruption::HashlessLeafWithoutValue));
            }
            storage.resolve_leaf_value(leaf)
        },
    }
}

/// Process one node of a traversal: a leaf is added to those found, and a branch's children are put
/// on the stack. Says whether the node was a leaf.
fn process_leaf_walk_node<T: MarfTrieId, S: TrieReadStorage<T>>(
    storage: &S,
    node: &TrieNodeType,
    prefix: Vec<u8>,
    block: &T,
    stack: &mut Vec<PendingVisit<T>>,
    found: &mut Vec<(TrieHash, MARFValue)>,
) -> (out: Result<bool, Error>)
    requires
        node@.wf(),
    ensures
        forall|forest: Forest| #[trigger]
            shows(storage, forest) ==> match forest.processed(
                node@,
                prefix@,
                block.id_bytes(),
                visits(old(stack)@),
                found_views(old(found)@),
            ) {
                Ok((rest, more)) => out == Ok::<bool, Error>(node@ is Leaf) && visits(final(stack)@)
                    == rest && found_views(final(found)@) == more,
                Err(fault) => out matches Err(e) && fault_of(e) == fault,
            },
{
    let mut full = prefix;
    push_bytes(&mut full, node.path_bytes());
    match node {
        TrieNodeType::Leaf(leaf) => {
            if full.len() != 32 {
                return Err(corrupt(Corruption::InvalidLeafPathLength));
            }
            let path = TrieHash(to_array::<32>(full.as_slice()));
            let value = match walked_value::<T, S>(storage, leaf) {
                Ok(value) => value,
                Err(e) => return Err(e),
            };
            found.push((path, value));
            assert(found_views(found@) =~= found_views(old(found)@).push((full@, value@)));
            Ok(true)
        },
        TrieNodeType::Branch(branch) => {
            let ptrs = branch.ptrs.as_slice();
            let mut i: usize = 0;
            let ghost start = visits(stack@);
            while i < ptrs.len()
                invariant
                    i <= ptrs.len(),
                    visits(stack@) == queued(start, ptrs@, full@, block.id_bytes(), i as nat),
                decreases ptrs.len() - i,
            {
                let ptr: TriePtr = ptrs[i];
                if !ptr.is_empty() {
                    let mut child: Vec<u8> = Vec::new();
                    push_bytes(&mut child, full.as_slice());
                    child.push(ptr.chr);
                    let ghost before = visits(stack@);
                    let visit = PendingVisit { ptr, prefix: child, block: copy_id(block) };
                    assert(visit@ =~= Visit {
                        ptr,
                        prefix: full@.push(ptr.chr),
                        block: block.id_bytes(),
                    });
                    stack.push(visit);
                    assert(visits(stack@) =~= before.push(visit@));
                }
                i = i + 1;
            }
            Ok(false)
        },
    }
}

/// Walk all leaves of the trie at a block, yielding full paths and values.
///
/// Follows back-pointers to resolve nodes that live in earlier blocks, so the leaves are the
/// complete state visible at the block.
pub fn for_each_leaf<T: MarfTrieId, S: TrieReadStorage<T>>(storage: &S, block_hash: &T) -> (out: Result<
    Vec<(TrieHash, MARFValue)>,
    Error,
>)
    ensures
        forall|forest: Forest| #[trigger]
            shows(storage, forest) ==> match forest.leaves(block_hash.id_bytes()) {
                Ok(leaves) => out matches Ok(found) && found_views(found@) == leaves,
                Err(fault) => out matches Err(e) && fault_of(e) == fault,
            },
{
    match storage.check_historical_read_allowed(block_hash) {
        Ok(()) => {},
        Err(e) => return Err(e),
    }
    match storage.open_block(block_hash) {
        Ok(()) => {},
        Err(e) => return Err(e),
    }
    let root_ptr: TriePtr = storage.root_trieptr(block_hash);
    let root: TrieNodeType = match storage.read_node(block_hash, &root_ptr) {
        Ok(root) => root,
        Err(e) => return Err(e),
    };
    let mut stack: Vec<PendingVisit<T>> = Vec::new();
    let mut found: Vec<(TrieHash, MARFValue)> = Vec::new();
    assert(visits(stack@) =~= Seq::<Visit>::empty());
    assert(found_views(found@) =~= Seq::<FoundLeaf>::empty());
    match process_leaf_walk_node(storage, &root, Vec::new(), block_hash, &mut stack, &mut found) {
        Ok(_) => {},
        Err(e) => return Err(e),
    }
    let mut left: u64 = u64::MAX;
    while stack.len() > 0
        invariant
            forall|forest: Forest| #[trigger]
                shows(storage, forest) ==> forest.leaves(block_hash.id_bytes()) == forest.walked(
                    visits(stack@),
                    found_views(found@),
                    left as nat,
                ),
        decreases left,
    {
        if left == 0 {
            return Err(corrupt(Corruption::TrieCycle));
        }
        let ghost before = visits(stack@);
        let visit: PendingVisit<T> = match stack.pop() {
            Some(visit) => visit,
            None => return Ok(found),
        };
        assert(before.last() == visit@);
        assert(visits(stack@) =~= before.drop_last());
        let (node, block) = match read_node_for_ptr(storage, &visit.block, &visit.ptr) {
            Ok(read) => read,
            Err(e) => return Err(e),
        };
        match process_leaf_walk_node(storage, &node, visit.prefix, &block, &mut stack, &mut found) {
            Ok(_) => {},
            Err(e) => return Err(e),
        }
        left = left - 1;
    }
    Ok(found)
}

} // verus!
