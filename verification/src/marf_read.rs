//! Lookups across the tries of a fork.
use vstd::prelude::*;

use crate::cursor::{Position, ReadTrieNodeCursorStep, TrieCursor};
use crate::error::{corrupt, Corruption, Error};
use crate::hash::{copy_id, MarfTrieId, TrieHash};
use crate::leaf::{Leaf, Node, TrieLeaf, TrieNodeType};
use crate::node::{clear_backptr, TriePtr};
use crate::patch::{bad, fault_of, Fault};
use crate::read_storage::{shows, Forest, TrieReadStorage};
use crate::result_cache::{
    after_get, after_put, found_at, has_key, place_of, value_view, without, Found, ResultCache,
};
use crate::value::MARFValue;

verus! {

/// Where a walk inside one trie ended.
#[derive(Debug)]
pub enum TrieLeafOrBackptr {
    Leaf { ptr: TriePtr, leaf: TrieLeaf },
    Backptr(TriePtr),
}

/// Where a walk inside one trie ended.
pub enum LeafOrBackptr {
    Leaf { ptr: TriePtr, leaf: Leaf },
    Backptr(TriePtr),
}

impl TrieLeafOrBackptr {
    /// Where the walk ended.
    pub open spec fn view(&self) -> LeafOrBackptr {
        match self {
            TrieLeafOrBackptr::Leaf { ptr, leaf } => LeafOrBackptr::Leaf { ptr: *ptr, leaf: leaf@ },
            TrieLeafOrBackptr::Backptr(ptr) => LeafOrBackptr::Backptr(*ptr),
        }
    }
}

/// The leaf that a walk ends at, when its path is consumed.
pub open spec fn leaf_at_end(ptr: TriePtr, node: Node) -> Result<Leaf, Fault> {
    if clear_backptr(ptr.id) != 1 {
        Err(bad(Corruption::NonLeafAtEndOfPath))
    } else {
        match node {
            Node::Leaf(leaf) => Ok(leaf),
            Node::Branch(_) => Err(bad(Corruption::PathReachedNonLeaf)),
        }
    }
}

/// No such key.
pub open spec fn not_found() -> Fault {
    Fault::Error(Error::NotFoundError)
}

impl Forest {
    /// Where a walk that visits at most `fuel` nodes of a block's trie ends.
    pub open spec fn segment(self, block: Seq<u8>, at: Position, fuel: nat) -> (
        Result<LeafOrBackptr, Fault>,
        Position,
    )
        decreases fuel,
    {
        let ptr = at.ptrs.last();
        if fuel == 0 {
            (Err(bad(Corruption::TrieCycle)), at)
        } else {
            match self.node(block, ptr) {
                Err(fault) => (Err(fault), at),
                Ok(node) => {
                    let next = at.after(node, block);
                    match at.step(node) {
                        ReadTrieNodeCursorStep::Next(_) => self.segment(
                            block,
                            next,
                            (fuel - 1) as nat,
                        ),
                        ReadTrieNodeCursorStep::EndOfPath { .. } => (
                            match leaf_at_end(ptr, node) {
                                Ok(leaf) => Ok(LeafOrBackptr::Leaf { ptr, leaf }),
                                Err(fault) => Err(fault),
                            },
                            next,
                        ),
                        ReadTrieNodeCursorStep::FollowBackptr(child) => (
                            Ok(LeafOrBackptr::Backptr(child)),
                            next,
                        ),
                        _ => (Err(not_found()), next),
                    }
                },
            }
        }
    }

    /// The leaf that a walk that visits at most `fuel` nodes ends at, across the tries that
    /// back-pointers lead to.
    pub open spec fn leaf_from(self, block: Seq<u8>, at: Position, fuel: nat) -> Result<Leaf, Fault>
        decreases fuel,
    {
        let ptr = at.ptrs.last();
        if fuel == 0 {
            Err(bad(Corruption::TrieCycle))
        } else {
            match self.node(block, ptr) {
                Err(fault) => Err(fault),
                Ok(node) => {
                    let next = at.after(node, block);
                    match at.step(node) {
                        ReadTrieNodeCursorStep::Next(_) => self.leaf_from(
                            block,
                            next,
                            (fuel - 1) as nat,
                        ),
                        ReadTrieNodeCursorStep::EndOfPath { .. } => leaf_at_end(ptr, node),
                        ReadTrieNodeCursorStep::FollowBackptr(child) => match self.ancestor_block(
                            child,
                        ) {
                            Err(fault) => Err(fault),
                            Ok(name) => self.leaf_from(
                                name,
                                next.repaired(child.local(), name),
                                (fuel - 1) as nat,
                            ),
                        },
                        _ => Err(not_found()),
                    }
                },
            }
        }
    }

    /// The block that a back-pointer leads to.
    pub open spec fn ancestor_block(self, ptr: TriePtr) -> Result<Seq<u8>, Fault> {
        match self.name(ptr.back_block) {
            Err(fault) => Err(fault),
            Ok(name) => match self.opens(name) {
                Err(fault) => Err(fault),
                Ok(()) => Ok(name),
            },
        }
    }

    /// The leaf that a path leads to in a block.
    pub open spec fn walk(self, block: Seq<u8>, path: Seq<u8>) -> Result<Leaf, Fault> {
        match self.opens(block) {
            Err(fault) => Err(fault),
            Ok(()) => self.leaf_from(block, Position::start(path, self.root(block)), 33),
        }
    }

    /// The leaf that a path leads to in a block, if the block's own state is retained.
    pub open spec fn path_leaf(self, block: Seq<u8>, path: Seq<u8>) -> Result<Leaf, Fault> {
        match self.history(block) {
            Err(fault) => Err(fault),
            Ok(()) => self.walk(block, path),
        }
    }

    /// The leaf that a path leads to in a block, or its absence.
    pub open spec fn leaf(self, block: Seq<u8>, path: Seq<u8>) -> Result<Option<Leaf>, Fault> {
        match self.path_leaf(block, path) {
            Ok(leaf) => Ok(Some(leaf)),
            Err(fault) => if fault == not_found() {
                Ok(None)
            } else {
                Err(fault)
            },
        }
    }

    /// The leaf that a path leads to in a block, or its absence, where an earlier answer may be at
    /// hand. Whether the block's own state is retained is asked in either case.
    pub open spec fn remembered_leaf(
        self,
        block: Seq<u8>,
        path: Seq<u8>,
        remembered: Option<Option<Leaf>>,
    ) -> Result<Option<Leaf>, Fault> {
        match remembered {
            Some(value) => match self.history(block) {
                Err(fault) => Err(fault),
                Ok(()) => Ok(value),
            },
            None => self.leaf(block, path),
        }
    }

    /// Whether remembered results are what the walks of a block give.
    pub open spec fn confirms(self, block: Seq<u8>, results: Seq<Found>) -> bool {
        forall|i: int|
            0 <= i < results.len() ==> self.leaf(block, (#[trigger] results[i]).key) == Ok::<
                Option<Leaf>,
                Fault,
            >(results[i].value)
    }

    /// The value that a path leads to in a block, or its absence.
    pub open spec fn lookup(self, block: Seq<u8>, path: Seq<u8>) -> Result<Option<Seq<u8>>, Fault> {
        match self.leaf(block, path) {
            Err(fault) => Err(fault),
            Ok(None) => Ok(None),
            Ok(Some(leaf)) => match self.value(leaf) {
                Ok(value) => Ok(Some(value)),
                Err(fault) => Err(fault),
            },
        }
    }
}

/// Walk a block's trie from the root until the path reaches a leaf or crosses a back-pointer.
pub fn walk_to_leaf_or_backptr<T: MarfTrieId, S: TrieReadStorage<T>>(
    storage: &S,
    block: &T,
    path: &TrieHash,
    cursor: &mut TrieCursor<T>,
) -> (found: Result<TrieLeafOrBackptr, Error>)
    ensures
        final(cursor).wf(),
        found is Ok ==> final(cursor).index > 0,
        forall|forest: Forest| #[trigger]
            shows(storage, forest) ==> ({
                let outcome = forest.segment(
                    block.id_bytes(),
                    Position::start(path@, forest.root(block.id_bytes())),
                    33,
                );
                &&& final(cursor)@ == outcome.1
                &&& match outcome.0 {
                    Ok(end) => found matches Ok(f) && f@ == end,
                    Err(fault) => found matches Err(e) && fault_of(e) == fault,
                }
            }),
{
    let root_ptr: TriePtr = storage.root_trieptr(block);
    cursor.reset(path, root_ptr);
    let ghost start = cursor@;
    let mut visits: usize = 0;
    while visits < 33
        invariant
            visits <= 33,
            cursor.wf(),
            cursor.last_error is None,
            cursor.node_path_index == 0,
            start == Position::start(path@, root_ptr),
            forall|forest: Forest| #[trigger]
                shows(storage, forest) ==> forest.root(block.id_bytes()) == root_ptr
                    && forest.segment(block.id_bytes(), start, 33) == forest.segment(
                    block.id_bytes(),
                    cursor@,
                    (33 - visits) as nat,
                ),
        decreases 33 - visits,
    {
        let ptr: TriePtr = cursor.ptr();
        let node: TrieNodeType = match storage.read_node(block, &ptr) {
            Ok(node) => node,
            Err(e) => return Err(e),
        };
        let ghost before = cursor@;
        let step = cursor.walk_step(&node, block);
        match step {
            ReadTrieNodeCursorStep::Next(_) => {},
            ReadTrieNodeCursorStep::EndOfPath { .. } => {
                if clear_backptr(ptr.id) != 1 {
                    return Err(corrupt(Corruption::NonLeafAtEndOfPath));
                }
                return match node {
                    TrieNodeType::Leaf(leaf) => Ok(TrieLeafOrBackptr::Leaf { ptr, leaf }),
                    TrieNodeType::Branch(_) => Err(corrupt(Corruption::PathReachedNonLeaf)),
                };
            },
            ReadTrieNodeCursorStep::FollowBackptr(child) => return Ok(
                TrieLeafOrBackptr::Backptr(child),
            ),
            ReadTrieNodeCursorStep::Diverged => return Err(Error::NotFoundError),
            ReadTrieNodeCursorStep::ChrNotFound => return Err(Error::NotFoundError),
        }
        visits = visits + 1;
    }
    Err(corrupt(Corruption::TrieCycle))
}

/// Open the block that a back-pointer leads to.
pub fn open_ancestor<T: MarfTrieId, S: TrieReadStorage<T>>(storage: &S, ptr: &TriePtr) -> (block: Result<
    T,
    Error,
>)
    ensures
        forall|forest: Forest| #[trigger]
            shows(storage, forest) ==> match forest.ancestor_block(*ptr) {
                Ok(name) => block matches Ok(b) && b.id_bytes() == name,
                Err(fault) => block matches Err(e) && fault_of(e) == fault,
            },
{
    let block: T = match storage.get_block_from_local_id(ptr.back_block) {
        Ok(block) => block,
        Err(e) => return Err(e),
    };
    match storage.open_block(&block) {
        Ok(()) => Ok(block),
        Err(e) => Err(e),
    }
}

/// Walk down from a block, resolving back-pointers to previous tries.
pub fn walk<T: MarfTrieId, S: TrieReadStorage<T>>(storage: &S, block_hash: &T, path: &TrieHash) -> (leaf:
    Result<TrieLeaf, Error>)
    ensures
        forall|forest: Forest| #[trigger]
            shows(storage, forest) ==> match forest.walk(block_hash.id_bytes(), path@) {
                Ok(l) => leaf matches Ok(found) && found@ == l,
                Err(fault) => leaf matches Err(e) && fault_of(e) == fault,
            },
{
    match storage.open_block(block_hash) {
        Ok(()) => {},
        Err(e) => return Err(e),
    }
    let root_ptr: TriePtr = storage.root_trieptr(block_hash);
    let mut cursor: TrieCursor<T> = TrieCursor::new(path, root_ptr);
    let mut block: T = copy_id(block_hash);
    let ghost start = cursor@;
    let mut visits: usize = 0;
    while visits < 33
        invariant
            visits <= 33,
            cursor.wf(),
            cursor.last_error is None,
            cursor.node_path_index == 0,
            forall|forest: Forest| #[trigger]
                shows(storage, forest) ==> forest.walk(block_hash.id_bytes(), path@)
                    == forest.leaf_from(block.id_bytes(), cursor@, (33 - visits) as nat),
        decreases 33 - visits,
    {
        let ptr: TriePtr = cursor.ptr();
        let node: TrieNodeType = match storage.read_node(&block, &ptr) {
            Ok(node) => node,
            Err(e) => return Err(e),
        };
        match cursor.walk_step(&node, &block) {
            ReadTrieNodeCursorStep::Next(_) => {},
            ReadTrieNodeCursorStep::EndOfPath { .. } => {
                if clear_backptr(ptr.id) != 1 {
                    return Err(corrupt(Corruption::NonLeafAtEndOfPath));
                }
                return match node {
                    TrieNodeType::Leaf(leaf) => Ok(leaf),
                    TrieNodeType::Branch(_) => Err(corrupt(Corruption::PathReachedNonLeaf)),
                };
            },
            ReadTrieNodeCursorStep::FollowBackptr(child) => {
                let next: T = match open_ancestor(storage, &child) {
                    Ok(next) => next,
                    Err(e) => return Err(e),
                };
                cursor.repair_backptr_finish(&child.from_backptr(), copy_id(&next));
                block = next;
            },
            ReadTrieNodeCursorStep::Diverged => return Err(Error::NotFoundError),
            ReadTrieNodeCursorStep::ChrNotFound => return Err(Error::NotFoundError),
        }
        visits = visits + 1;
    }
    Err(corrupt(Corruption::TrieCycle))
}

/// The leaf that a path leads to in a block, if the block's own state is retained.
pub fn get_path<T: MarfTrieId, S: TrieReadStorage<T>>(storage: &S, block_hash: &T, path: &TrieHash) -> (leaf:
    Result<TrieLeaf, Error>)
    ensures
        forall|forest: Forest| #[trigger]
            shows(storage, forest) ==> match forest.path_leaf(block_hash.id_bytes(), path@) {
                Ok(l) => leaf matches Ok(found) && found@ == l,
                Err(fault) => leaf matches Err(e) && fault_of(e) == fault,
            },
{
    match storage.check_historical_read_allowed(block_hash) {
        Ok(()) => walk(storage, block_hash, path),
        Err(e) => Err(e),
    }
}

/// Resolve a complete leaf, or its absence.
pub fn get_leaf_by_path<T: MarfTrieId, S: TrieReadStorage<T>>(
    storage: &S,
    block_hash: &T,
    path: &TrieHash,
) -> (leaf: Result<Option<TrieLeaf>, Error>)
    ensures
        forall|forest: Forest| #[trigger]
            shows(storage, forest) ==> match forest.leaf(block_hash.id_bytes(), path@) {
                Ok(Some(l)) => leaf matches Ok(Some(found)) && found@ == l,
                Ok(None) => leaf == Ok::<Option<TrieLeaf>, Error>(None),
                Err(fault) => leaf matches Err(e) && fault_of(e) == fault,
            },
{
    match get_path(storage, block_hash, path) {
        Ok(leaf) => Ok(Some(leaf)),
        Err(Error::NotFoundError) => Ok(None),
        Err(e) => Err(e),
    }
}

/// Whether a leaf or its absence, or the reason that there is none, is what a forest answers.
pub open spec fn is_answer(
    leaf: Result<Option<TrieLeaf>, Error>,
    answer: Result<Option<Leaf>, Fault>,
) -> bool {
    match answer {
        Ok(value) => leaf matches Ok(found) && value_view(found) == value,
        Err(fault) => leaf matches Err(e) && fault_of(e) == fault,
    }
}

/// Resolve a complete leaf, or its absence, where an earlier read of the path in the block may have
/// left its answer. Reads below a squashed store's retained boundary are rejected all the same.
pub fn get_remembered_leaf<T: MarfTrieId, S: TrieReadStorage<T>>(
    storage: &S,
    block_hash: &T,
    path: &TrieHash,
    remembered: Option<Option<TrieLeaf>>,
) -> (leaf: Result<Option<TrieLeaf>, Error>)
    ensures
        forall|forest: Forest| #[trigger]
            shows(storage, forest) ==> is_answer(
                leaf,
                forest.remembered_leaf(
                    block_hash.id_bytes(),
                    path@,
                    match remembered {
                        Some(value) => Some(value_view(value)),
                        None => None,
                    },
                ),
            ),
        remembered is Some && leaf is Ok ==> leaf->Ok_0 == remembered->0,
{
    match remembered {
        Some(value) => match storage.check_historical_read_allowed(block_hash) {
            Ok(()) => Ok(value),
            Err(e) => Err(e),
        },
        None => get_leaf_by_path(storage, block_hash, path),
    }
}

/// Resolve a complete leaf, or its absence, through the results that are remembered of a block. A
/// walk's answer is remembered in turn; a failure is not.
pub fn get_leaf_through_results<T: MarfTrieId, S: TrieReadStorage<T>>(
    results: &mut ResultCache,
    storage: &S,
    block_hash: &T,
    path: &TrieHash,
) -> (leaf: Result<Option<TrieLeaf>, Error>)
    requires
        old(results).wf(),
    ensures
        final(results).wf(),
        final(results).limit() == old(results).limit(),
        final(results).signal() == old(results).signal(),
        final(results)@ == if !old(results).usable() {
            old(results)@
        } else if has_key(old(results)@, path@) {
            after_get(old(results)@, path@)
        } else if leaf is Ok {
            after_put(old(results)@, old(results).limit(), path@, value_view(leaf->Ok_0))
        } else {
            old(results)@
        },
        forall|forest: Forest| #[trigger]
            shows(storage, forest) ==> is_answer(
                leaf,
                forest.remembered_leaf(
                    block_hash.id_bytes(),
                    path@,
                    if old(results).usable() && has_key(old(results)@, path@) {
                        Some(old(results)@[place_of(old(results)@, path@)].value)
                    } else {
                        None
                    },
                ),
            ),
{
    match results.get(path) {
        Some(value) => get_remembered_leaf(storage, block_hash, path, Some(value)),
        None => {
            let leaf = get_leaf_by_path(storage, block_hash, path);
            match &leaf {
                Ok(Some(found)) => results.put(TrieHash(path.0), Some(found.clone())),
                Ok(None) => results.put(TrieHash(path.0), None),
                Err(_) => {},
            }
            leaf
        },
    }
}

/// A remembered answer is the walk's answer, if the walk gave it and the block's own state is still
/// retained; and reading through results that agree with the walks leaves results that do.
pub proof fn law_remembered_results_agree(
    forest: Forest,
    block: Seq<u8>,
    path: Seq<u8>,
    results: Seq<Found>,
    capacity: nat,
)
    requires
        forest.confirms(block, results),
        forest.history(block) != Err::<(), Fault>(not_found()),
        capacity > 0,
    ensures
        has_key(results, path) ==> forest.remembered_leaf(
            block,
            path,
            Some(results[place_of(results, path)].value),
        ) == forest.leaf(block, path),
        forest.confirms(block, after_get(results, path)),
        forest.leaf(block, path) matches Ok(value) ==> forest.confirms(
            block,
            after_put(results, capacity, path, value),
        ),
        forest.confirms(block, Seq::empty()),
{
    if has_key(results, path) {
        let i = place_of(results, path);
        assert(found_at(results, path, i));
        assert(results[i].key == path);
    }
    let rest = without(results, path);
    assert(forest.confirms(block, rest));
    if rest.len() == capacity {
        assert(forest.confirms(block, rest.remove(0)));
    }
}

/// Resolve a logical value, or its absence.
pub fn get_by_path<T: MarfTrieId, S: TrieReadStorage<T>>(
    storage: &S,
    block_hash: &T,
    path: &TrieHash,
) -> (value: Result<Option<MARFValue>, Error>)
    ensures
        forall|forest: Forest| #[trigger]
            shows(storage, forest) ==> match forest.lookup(block_hash.id_bytes(), path@) {
                Ok(Some(v)) => value matches Ok(Some(found)) && found@ == v,
                Ok(None) => value == Ok::<Option<MARFValue>, Error>(None),
                Err(fault) => value matches Err(e) && fault_of(e) == fault,
            },
{
    match get_leaf_by_path(storage, block_hash, path) {
        Ok(Some(leaf)) => match storage.resolve_leaf_value(&leaf) {
            Ok(value) => Ok(Some(value)),
            Err(e) => Err(e),
        },
        Ok(None) => Ok(None),
        Err(e) => Err(e),
    }
}

/// Resolve the hash of a key to its logical value, or its absence.
pub fn get_by_hash<T: MarfTrieId, S: TrieReadStorage<T>>(
    storage: &S,
    block_hash: &T,
    path: &TrieHash,
) -> (value: Result<Option<MARFValue>, Error>)
    ensures
        forall|forest: Forest| #[trigger]
            shows(storage, forest) ==> match forest.lookup(block_hash.id_bytes(), path@) {
                Ok(Some(v)) => value matches Ok(Some(found)) && found@ == v,
                Ok(None) => value == Ok::<Option<MARFValue>, Error>(None),
                Err(fault) => value matches Err(e) && fault_of(e) == fault,
            },
{
    get_by_path(storage, block_hash, path)
}

/// A walk is never cut short: it reports a cycle only where the forest itself answers so.
pub proof fn law_walks_end(forest: Forest, block: Seq<u8>, at: Position, fuel: nat)
    requires
        at.wf(),
        at.path.len() == 32,
        fuel > 32 - at.index,
        forall|b: Seq<u8>, ptr: TriePtr| #[trigger]
            forest.node(b, ptr) != Err::<Node, Fault>(bad(Corruption::TrieCycle)),
        forall|ptr: TriePtr| #[trigger]
            forest.ancestor_block(ptr) != Err::<Seq<u8>, Fault>(bad(Corruption::TrieCycle)),
    ensures
        forest.leaf_from(block, at, fuel) != Err::<Leaf, Fault>(bad(Corruption::TrieCycle)),
    decreases fuel,
{
    let ptr = at.ptrs.last();
    match forest.node(block, ptr) {
        Err(fault) => {},
        Ok(node) => {
            let next = at.after(node, block);
            match at.step(node) {
                ReadTrieNodeCursorStep::Next(_) => {
                    crate::cursor::law_child_steps_advance(at, node, block);
                    law_walks_end(forest, block, next, (fuel - 1) as nat);
                },
                ReadTrieNodeCursorStep::FollowBackptr(child) => {
                    crate::cursor::law_child_steps_advance(at, node, block);
                    match forest.ancestor_block(child) {
                        Err(fault) => {},
                        Ok(name) => law_walks_end(
                            forest,
                            name,
                            next.repaired(child.local(), name),
                            (fuel - 1) as nat,
                        ),
                    }
                },
                _ => {},
            }
        },
    }
}

} // verus!
