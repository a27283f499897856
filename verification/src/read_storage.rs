//! Read access to stored tries.
//!
//! A storage backend answers queries about blocks and their tries. What is stated of a lookup holds
//! for every backend whose answers are those of one forest of tries, whatever that forest is.
use vstd::prelude::*;

use crate::error::Error;
use crate::hash::{MarfTrieId, TrieHash};
use crate::leaf::{Leaf, Node, TrieLeaf, TrieNodeType};
use crate::merkle_proof::hash_views;
use crate::node::TriePtr;
use crate::patch::{fault_of, Fault};
use crate::value::MARFValue;

verus! {

/// A question to a storage backend.
pub enum Query {
    /// Whether a block's trie can be opened.
    Open { block: Seq<u8> },
    /// Whether a block's own state is retained.
    History { block: Seq<u8> },
    /// The pointer to the root of a block's trie.
    Root { block: Seq<u8> },
    /// The hash of a block's root.
    RootHash { block: Seq<u8> },
    /// The node at a pointer of a block's trie.
    Node { block: Seq<u8>, ptr: TriePtr },
    /// The hashes of the children that pointers of a block's trie lead to.
    Children { block: Seq<u8>, ptrs: Seq<TriePtr> },
    /// The root hashes of a block's ancestors, at distances that double.
    Ancestors { block: Seq<u8> },
    /// The identity of a local block ID.
    Name { id: u32 },
    /// The value of a leaf.
    Value { leaf: Leaf },
    /// The height up to which only the last state is retained.
    SquashHeight,
    /// The height of a block whose own state is not retained.
    SquashedHeight { block: Seq<u8> },
    /// The block at a height whose own state is not retained.
    SquashedBlock { height: u32 },
    /// The root hash of the block at a height whose own state is not retained.
    SquashedRoot { height: u32 },
    /// The ancestor of a block at a lower height, where an index of forks knows it.
    Ancestor { block: Seq<u8>, height: u32, target: u32 },
}

/// The answer to a question.
pub enum Answer {
    Done(Result<(), Fault>),
    Ptr(TriePtr),
    Node(Result<Node, Fault>),
    Hashes(Result<Seq<Seq<u8>>, Fault>),
    Bytes(Result<Seq<u8>, Fault>),
    MaybeBytes(Result<Option<Seq<u8>>, Fault>),
    Height(Result<Option<u32>, Fault>),
    Limit(Option<u32>),
}

/// What an outcome says, with its failure.
pub open spec fn done_answer(r: Result<(), Error>) -> Answer {
    Answer::Done(
        match r {
            Ok(()) => Ok(()),
            Err(e) => Err(fault_of(e)),
        },
    )
}

/// What a node that was read says.
pub open spec fn node_answer(r: Result<TrieNodeType, Error>) -> Answer {
    Answer::Node(
        match r {
            Ok(node) => Ok(node@),
            Err(e) => Err(fault_of(e)),
        },
    )
}

/// What hashes that were read say.
pub open spec fn hashes_answer(r: Result<Vec<TrieHash>, Error>) -> Answer {
    Answer::Hashes(
        match r {
            Ok(hashes) => Ok(hash_views(hashes@)),
            Err(e) => Err(fault_of(e)),
        },
    )
}

/// What a hash that was read says.
pub open spec fn hash_answer(r: Result<TrieHash, Error>) -> Answer {
    Answer::Bytes(
        match r {
            Ok(hash) => Ok(hash@),
            Err(e) => Err(fault_of(e)),
        },
    )
}

/// What an identity says.
pub open spec fn name_answer<T: MarfTrieId>(r: Result<T, Error>) -> Answer {
    Answer::Bytes(
        match r {
            Ok(id) => Ok(id.id_bytes()),
            Err(e) => Err(fault_of(e)),
        },
    )
}

/// What a value says.
pub open spec fn value_answer(r: Result<MARFValue, Error>) -> Answer {
    Answer::Bytes(
        match r {
            Ok(value) => Ok(value@),
            Err(e) => Err(fault_of(e)),
        },
    )
}

/// What an identity that may be absent says.
pub open spec fn block_answer<T: MarfTrieId>(r: Result<Option<T>, Error>) -> Answer {
    Answer::MaybeBytes(
        match r {
            Ok(Some(id)) => Ok(Some(id.id_bytes())),
            Ok(None) => Ok(None),
            Err(e) => Err(fault_of(e)),
        },
    )
}

/// What a hash that may be absent says.
pub open spec fn root_answer(r: Result<Option<TrieHash>, Error>) -> Answer {
    Answer::MaybeBytes(
        match r {
            Ok(Some(hash)) => Ok(Some(hash@)),
            Ok(None) => Ok(None),
            Err(e) => Err(fault_of(e)),
        },
    )
}

/// What a height that may be absent says.
pub open spec fn height_answer(r: Result<Option<u32>, Error>) -> Answer {
    Answer::Height(
        match r {
            Ok(height) => Ok(height),
            Err(e) => Err(fault_of(e)),
        },
    )
}

/// Read-only access to persisted trie storage.
pub trait TrieReadStorage<T: MarfTrieId>: Sized {
    /// Whether the backend may answer so.
    spec fn may(&self, query: Query, answer: Answer) -> bool;

    /// Check that a block's trie can be opened.
    fn open_block(&self, block: &T) -> (done: Result<(), Error>)
        ensures
            self.may(Query::Open { block: block.id_bytes() }, done_answer(done)),
    ;

    /// Reject reads below a squashed store's retained boundary.
    fn check_historical_read_allowed(&self, block: &T) -> (done: Result<(), Error>)
        ensures
            self.may(Query::History { block: block.id_bytes() }, done_answer(done)),
    ;

    /// The pointer to the root of a block's trie.
    fn root_trieptr(&self, block: &T) -> (ptr: TriePtr)
        ensures
            self.may(Query::Root { block: block.id_bytes() }, Answer::Ptr(ptr)),
    ;

    /// The hash of a block's root.
    fn read_root_hash(&self, block: &T) -> (hash: Result<TrieHash, Error>)
        ensures
            self.may(Query::RootHash { block: block.id_bytes() }, hash_answer(hash)),
    ;

    /// Read a node of a block's trie. A node that is read has the slots of its type.
    fn read_node(&self, block: &T, ptr: &TriePtr) -> (node: Result<TrieNodeType, Error>)
        ensures
            self.may(Query::Node { block: block.id_bytes(), ptr: *ptr }, node_answer(node)),
            node is Ok ==> node->Ok_0@.wf(),
    ;

    /// The hashes of the children that pointers of a block's trie lead to, one for each pointer.
    fn children_hashes(&self, block: &T, ptrs: &[TriePtr]) -> (hashes: Result<Vec<TrieHash>, Error>)
        ensures
            self.may(
                Query::Children { block: block.id_bytes(), ptrs: ptrs@ },
                hashes_answer(hashes),
            ),
            hashes is Ok ==> hashes->Ok_0@.len() == ptrs@.len(),
    ;

    /// The root hashes of a block's ancestors, at distances that double.
    fn ancestor_hashes(&self, block: &T) -> (hashes: Result<Vec<TrieHash>, Error>)
        ensures
            self.may(Query::Ancestors { block: block.id_bytes() }, hashes_answer(hashes)),
    ;

    /// Resolve a local block ID.
    fn get_block_from_local_id(&self, id: u32) -> (block: Result<T, Error>)
        ensures
            self.may(Query::Name { id }, name_answer(block)),
    ;

    /// The logical value of a leaf, read where only its locator is known.
    fn resolve_leaf_value(&self, leaf: &TrieLeaf) -> (value: Result<MARFValue, Error>)
        ensures
            self.may(Query::Value { leaf: leaf@ }, value_answer(value)),
    ;

    /// The height up to which only the last state is retained, if the store is squashed.
    fn squash_height(&self) -> (height: Option<u32>)
        ensures
            self.may(Query::SquashHeight, Answer::Limit(height)),
    ;

    /// The height of a block whose own state is not retained.
    fn squashed_block_height(&self, block: &T) -> (height: Result<Option<u32>, Error>)
        ensures
            self.may(Query::SquashedHeight { block: block.id_bytes() }, height_answer(height)),
    ;

    /// The block at a height whose own state is not retained.
    fn squashed_block_hash_by_height(&self, height: u32) -> (block: Result<Option<T>, Error>)
        ensures
            self.may(Query::SquashedBlock { height }, block_answer(block)),
    ;

    /// The root hash of the block at a height whose own state is not retained.
    fn squashed_block_root_hash_by_height(&self, height: u32) -> (root: Result<
        Option<TrieHash>,
        Error,
    >)
        ensures
            self.may(Query::SquashedRoot { height }, root_answer(root)),
    ;

    /// Resolve an ancestor from optional fork metadata; absence requests normal trie traversal.
    fn indexed_ancestor(&self, block: &T, height: u32, target: u32) -> (ancestor: Result<
        Option<T>,
        Error,
    >)
        ensures
            self.may(
                Query::Ancestor { block: block.id_bytes(), height, target },
                block_answer(ancestor),
            ),
    ;
}

/// Stored tries, as their answers to all questions.
pub struct Forest {
    pub answer: spec_fn(Query) -> Answer,
}

impl Forest {
    /// Whether a block's trie can be opened.
    pub open spec fn opens(self, block: Seq<u8>) -> Result<(), Fault> {
        (self.answer)(Query::Open { block })->Done_0
    }

    /// Whether a block's own state is retained.
    pub open spec fn history(self, block: Seq<u8>) -> Result<(), Fault> {
        (self.answer)(Query::History { block })->Done_0
    }

    /// The pointer to the root of a block's trie.
    pub open spec fn root(self, block: Seq<u8>) -> TriePtr {
        (self.answer)(Query::Root { block })->Ptr_0
    }

    /// The hash of a block's root.
    pub open spec fn root_hash(self, block: Seq<u8>) -> Result<Seq<u8>, Fault> {
        (self.answer)(Query::RootHash { block })->Bytes_0
    }

    /// The node at a pointer of a block's trie.
    pub open spec fn node(self, block: Seq<u8>, ptr: TriePtr) -> Result<Node, Fault> {
        (self.answer)(Query::Node { block, ptr })->Node_0
    }

    /// The hashes of the children that pointers of a block's trie lead to.
    pub open spec fn children(self, block: Seq<u8>, ptrs: Seq<TriePtr>) -> Result<
        Seq<Seq<u8>>,
        Fault,
    > {
        (self.answer)(Query::Children { block, ptrs })->Hashes_0
    }

    /// The root hashes of a block's ancestors.
    pub open spec fn ancestors(self, block: Seq<u8>) -> Result<Seq<Seq<u8>>, Fault> {
        (self.answer)(Query::Ancestors { block })->Hashes_0
    }

    /// The identity of a local block ID.
    pub open spec fn name(self, id: u32) -> Result<Seq<u8>, Fault> {
        (self.answer)(Query::Name { id })->Bytes_0
    }

    /// The value of a leaf.
    pub open spec fn value(self, leaf: Leaf) -> Result<Seq<u8>, Fault> {
        (self.answer)(Query::Value { leaf })->Bytes_0
    }

    /// The height up to which only the last state is retained.
    pub open spec fn squash_height(self) -> Option<u32> {
        (self.answer)(Query::SquashHeight)->Limit_0
    }

    /// The height of a block whose own state is not retained.
    pub open spec fn squashed_height(self, block: Seq<u8>) -> Result<Option<u32>, Fault> {
        (self.answer)(Query::SquashedHeight { block })->Height_0
    }

    /// The block at a height whose own state is not retained.
    pub open spec fn squashed_block(self, height: u32) -> Result<Option<Seq<u8>>, Fault> {
        (self.answer)(Query::SquashedBlock { height })->MaybeBytes_0
    }

    /// The root hash of the block at a height whose own state is not retained.
    pub open spec fn squashed_root(self, height: u32) -> Result<Option<Seq<u8>>, Fault> {
        (self.answer)(Query::SquashedRoot { height })->MaybeBytes_0
    }

    /// The ancestor of a block at a lower height, where an index of forks knows it.
    pub open spec fn indexed_ancestor(self, block: Seq<u8>, height: u32, target: u32) -> Result<
        Option<Seq<u8>>,
        Fault,
    > {
        (self.answer)(Query::Ancestor { block, height, target })->MaybeBytes_0
    }
}

/// Whether a backend only ever answers as a forest does.
pub open spec fn shows<T: MarfTrieId, S: TrieReadStorage<T>>(storage: &S, forest: Forest) -> bool {
    forall|query: Query, answer: Answer| #[trigger]
        storage.may(query, answer) ==> (forest.answer)(query) == answer
}

} // verus!
