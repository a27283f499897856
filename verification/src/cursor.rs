//! Walking a path through tries.
use vstd::prelude::*;

use crate::error::{CursorError, Error};
use crate::hash::{copy_id, MarfTrieId, TrieHash};
use crate::leaf::{Node, TrieNodeType};
use crate::node::{is_backptr, TriePtr};
use crate::patch::fault_of;
use crate::read_node::ReadTrieNode;

verus! {

/// Result of a single step of a walk.
#[derive(Debug, Clone, Copy, PartialEq, Eq, Structural)]
pub enum ReadTrieNodeCursorStep {
    /// Followed a child pointer: continue walking there.
    Next(TriePtr),
    /// Consumed all path bytes: the walk is complete.
    EndOfPath { is_leaf: bool },
    /// The path differs from the node's path segment: no such key.
    Diverged,
    /// No child exists for the next path byte: no such key.
    ChrNotFound,
    /// The child lives in an ancestor trie, which the caller must open.
    FollowBackptr(TriePtr),
}

/// Where a walk stands.
#[derive(Debug)]
pub struct TrieCursor<T> {
    /// The path to walk.
    pub path: TrieHash,
    /// Path bytes consumed so far.
    pub index: usize,
    /// Bytes of the current node's path segment consumed so far.
    pub node_path_index: usize,
    /// Pointers taken, starting with the root's.
    pub node_ptrs: Vec<TriePtr>,
    /// The block of each pointer taken after the root's.
    pub block_hashes: Vec<T>,
    /// What stopped the walk, if anything did.
    pub last_error: Option<CursorError>,
}

/// Where a walk stands.
#[verifier::ext_equal]
pub struct Position {
    pub path: Seq<u8>,
    pub index: int,
    pub within: int,
    pub ptrs: Seq<TriePtr>,
    pub blocks: Seq<Seq<u8>>,
    pub error: Option<CursorError>,
}

/// How many bytes two sequences have in common at their starts.
pub open spec fn common(a: Seq<u8>, b: Seq<u8>) -> nat
    decreases a.len(),
{
    if a.len() == 0 || b.len() == 0 || a[0] != b[0] {
        0
    } else {
        1 + common(a.drop_first(), b.drop_first())
    }
}

/// Sequences that agree up to some point, and there end or differ, have that much in common.
proof fn lemma_common(a: Seq<u8>, b: Seq<u8>, n: int)
    requires
        0 <= n <= a.len(),
        n <= b.len(),
        forall|i: int| 0 <= i < n ==> a[i] == b[i],
        n == a.len() || n == b.len() || a[n] != b[n],
    ensures
        common(a, b) == n,
    decreases n,
{
    if n > 0 {
        assert(a[0] == b[0]);
        assert forall|i: int| 0 <= i < n - 1 implies a.drop_first()[i] == b.drop_first()[i] by {
            assert(a[i + 1] == b[i + 1]);
        }
        lemma_common(a.drop_first(), b.drop_first(), n - 1);
    }
}

/// What entering a node's path segment leads to.
pub enum Entry {
    /// The path ends here.
    End,
    /// The path differs from the segment.
    Diverged,
    /// The next byte of the path.
    Chr(u8),
}

impl Position {
    /// The start of a walk.
    pub open spec fn start(path: Seq<u8>, root: TriePtr) -> Position {
        Position {
            path,
            index: 0,
            within: 0,
            ptrs: seq![root],
            blocks: Seq::empty(),
            error: None,
        }
    }

    /// Whether the walk is inside its path, with a block for each pointer after the root's.
    pub open spec fn wf(self) -> bool {
        &&& 0 <= self.index <= self.path.len()
        &&& self.ptrs.len() == self.blocks.len() + 1
    }

    /// The rest of the path.
    pub open spec fn rest(self) -> Seq<u8> {
        self.path.subrange(self.index, self.path.len() as int)
    }

    /// What entering a node's path segment leads to.
    pub open spec fn entry(self, segment: Seq<u8>) -> Entry {
        if self.index >= self.path.len() {
            Entry::End
        } else if common(segment, self.rest()) < segment.len() {
            Entry::Diverged
        } else if self.index + segment.len() >= self.path.len() {
            Entry::End
        } else {
            Entry::Chr(self.path[self.index + segment.len()])
        }
    }

    /// Where the walk stands after entering a node's path segment.
    pub open spec fn entered(self, segment: Seq<u8>) -> Position {
        if self.index >= self.path.len() {
            self
        } else {
            let n = common(segment, self.rest());
            Position {
                index: if self.entry(segment) is Chr {
                    self.index + n + 1
                } else {
                    self.index + n
                },
                within: self.within + n,
                error: if self.entry(segment) is Diverged {
                    Some(CursorError::PathDiverged)
                } else {
                    self.error
                },
                ..self
            }
        }
    }

    /// Where the walk stands after taking a child of the node that it entered.
    pub open spec fn taken(self, child: Option<TriePtr>, block: Seq<u8>) -> Position {
        match child {
            None => Position { error: Some(CursorError::ChrNotFound), ..self },
            Some(ptr) => if ptr.id >= 128 {
                Position { error: Some(CursorError::BackptrEncountered(ptr)), ..self }
            } else {
                Position {
                    within: 0,
                    ptrs: self.ptrs.push(ptr),
                    blocks: self.blocks.push(block),
                    ..self
                }
            },
        }
    }

    /// Where the walk stands after the child of an ancestor trie was found.
    pub open spec fn repaired(self, ptr: TriePtr, block: Seq<u8>) -> Position {
        Position {
            within: 0,
            ptrs: self.ptrs.push(ptr),
            blocks: self.blocks.push(block),
            error: None,
            ..self
        }
    }
}

/// The step that taking a child is.
pub open spec fn child_step(child: Option<TriePtr>) -> ReadTrieNodeCursorStep {
    match child {
        None => ReadTrieNodeCursorStep::ChrNotFound,
        Some(ptr) => if ptr.id >= 128 {
            ReadTrieNodeCursorStep::FollowBackptr(ptr)
        } else {
            ReadTrieNodeCursorStep::Next(ptr)
        },
    }
}

impl Position {
    /// The step from a node.
    pub open spec fn step(self, node: Node) -> ReadTrieNodeCursorStep {
        match self.entry(node.path()) {
            Entry::End => ReadTrieNodeCursorStep::EndOfPath { is_leaf: node is Leaf },
            Entry::Diverged => ReadTrieNodeCursorStep::Diverged,
            Entry::Chr(chr) => child_step(node.walk(chr)),
        }
    }

    /// Where the walk stands after the step from a node.
    pub open spec fn after(self, node: Node, block: Seq<u8>) -> Position {
        match self.entry(node.path()) {
            Entry::Chr(chr) => self.entered(node.path()).taken(node.walk(chr), block),
            _ => self.entered(node.path()),
        }
    }
}

/// A step as a lookup reports it: the next pointer, the end of the path, or why there is none.
pub open spec fn reported(step: ReadTrieNodeCursorStep) -> Result<Option<TriePtr>, Error> {
    match step {
        ReadTrieNodeCursorStep::Next(ptr) => Ok(Some(ptr)),
        ReadTrieNodeCursorStep::EndOfPath { .. } => Ok(None),
        ReadTrieNodeCursorStep::Diverged => Err(Error::CursorError(CursorError::PathDiverged)),
        ReadTrieNodeCursorStep::ChrNotFound => Err(Error::CursorError(CursorError::ChrNotFound)),
        ReadTrieNodeCursorStep::FollowBackptr(ptr) => Err(
            Error::CursorError(CursorError::BackptrEncountered(ptr)),
        ),
    }
}

/// The bytes of identities.
pub open spec fn id_views<T: MarfTrieId>(ids: Seq<T>) -> Seq<Seq<u8>> {
    Seq::new(ids.len(), |i: int| ids[i].id_bytes())
}

impl<T: MarfTrieId> TrieCursor<T> {
    /// Where the walk stands.
    pub open spec fn view(&self) -> Position {
        Position {
            path: self.path@,
            index: self.index as int,
            within: self.node_path_index as int,
            ptrs: self.node_ptrs@,
            blocks: id_views(self.block_hashes@),
            error: self.last_error,
        }
    }

    /// Whether the walk can go on.
    pub open spec fn wf(&self) -> bool {
        &&& self@.wf()
        &&& self.node_path_index <= 32
    }

    /// Start a walk at a root.
    pub fn new(path: &TrieHash, root_ptr: TriePtr) -> (cursor: Self)
        ensures
            cursor@ == Position::start(path@, root_ptr),
            cursor.wf(),
    {
        let mut node_ptrs: Vec<TriePtr> = Vec::new();
        node_ptrs.push(root_ptr);
        let cursor = TrieCursor {
            path: *path,
            index: 0,
            node_path_index: 0,
            node_ptrs,
            block_hashes: Vec::new(),
            last_error: None,
        };
        assert(cursor@ =~= Position::start(path@, root_ptr));
        cursor
    }

    /// Start another walk.
    pub fn reset(&mut self, path: &TrieHash, root_ptr: TriePtr)
        ensures
            final(self)@ == Position::start(path@, root_ptr),
            final(self).wf(),
    {
        *self = Self::new(path, root_ptr);
    }

    /// The last pointer taken.
    pub fn ptr(&self) -> (ptr: TriePtr)
        requires
            self.wf(),
        ensures
            ptr == self@.ptrs.last(),
    {
        self.node_ptrs[self.node_ptrs.len() - 1]
    }

    /// The last path byte walked.
    pub fn chr(&self) -> (chr: Option<u8>)
        requires
            self.wf(),
        ensures
            chr == if self@.index > 0 {
                Some(self@.path[self@.index - 1])
            } else {
                None
            },
    {
        if self.index > 0 {
            Some(self.path.0[self.index - 1])
        } else {
            None
        }
    }

    /// Enter a node's path segment: the next byte of the path, or how the walk ended.
    fn enter(&mut self, segment: &[u8]) -> (entry: Entry)
        requires
            old(self).wf(),
            old(self).node_path_index == 0,
        ensures
            final(self).wf(),
            final(self)@ == old(self)@.entered(segment@),
            entry == old(self)@.entry(segment@),
    {
        if self.index >= 32 {
            return Entry::End;
        }
        let path: [u8; 32] = self.path.0;
        let ghost rest = old(self)@.rest();
        let mut n: usize = 0;
        while n < segment.len() && self.index + n < 32 && segment[n] == path[self.index + n]
            invariant
                n <= segment@.len(),
                self.index + n <= 32,
                *self == *old(self),
                path@ == self@.path,
                rest == self@.path.subrange(self.index as int, 32),
                forall|i: int| 0 <= i < n ==> segment@[i] == rest[i],
            decreases segment@.len() - n,
        {
            assert(rest[n as int] == path@[self.index + n]);
            n = n + 1;
        }
        proof {
            if n < segment@.len() && self.index + n < 32 {
                assert(rest[n as int] == path@[self.index + n]);
            }
            lemma_common(segment@, rest, n as int);
        }
        self.index = self.index + n;
        self.node_path_index = self.node_path_index + n;
        if n < segment.len() {
            self.last_error = Some(CursorError::PathDiverged);
            return Entry::Diverged;
        }
        if self.index >= 32 {
            return Entry::End;
        }
        let chr: u8 = path[self.index];
        self.index = self.index + 1;
        Entry::Chr(chr)
    }

    /// Take a child of the node that was entered.
    fn take(&mut self, child: Option<TriePtr>, block: &T) -> (step: ReadTrieNodeCursorStep)
        requires
            old(self).wf(),
        ensures
            final(self).wf(),
            final(self)@ == old(self)@.taken(child, block.id_bytes()),
            step == child_step(child),
    {
        match child {
            None => {
                self.last_error = Some(CursorError::ChrNotFound);
                ReadTrieNodeCursorStep::ChrNotFound
            },
            Some(ptr) => {
                if is_backptr(ptr.id) {
                    self.last_error = Some(CursorError::BackptrEncountered(ptr));
                    ReadTrieNodeCursorStep::FollowBackptr(ptr)
                } else {
                    self.node_path_index = 0;
                    self.node_ptrs.push(ptr);
                    self.block_hashes.push(copy_id(block));
                    assert(self@.blocks =~= old(self)@.blocks.push(block.id_bytes()));
                    ReadTrieNodeCursorStep::Next(ptr)
                }
            },
        }
    }

    /// Take the step from a decoded node.
    pub fn walk_step(&mut self, node: &TrieNodeType, block: &T) -> (step: ReadTrieNodeCursorStep)
        requires
            old(self).wf(),
            old(self).last_error is None,
            old(self).node_path_index == 0,
            node@.wf(),
        ensures
            final(self).wf(),
            step == old(self)@.step(node@),
            final(self)@ == old(self)@.after(node@, block.id_bytes()),
    {
        match self.enter(node.path_bytes()) {
            Entry::End => ReadTrieNodeCursorStep::EndOfPath { is_leaf: node.is_leaf() },
            Entry::Diverged => ReadTrieNodeCursorStep::Diverged,
            Entry::Chr(chr) => self.take(node.walk(chr), block),
        }
    }

    /// Take the step from a decoded node, reporting why there is no next pointer.
    pub fn walk(&mut self, node: &TrieNodeType, block: &T) -> (next: Result<Option<TriePtr>, Error>)
        requires
            old(self).wf(),
            old(self).last_error is None,
            old(self).node_path_index == 0,
            node@.wf(),
        ensures
            final(self).wf(),
            next == reported(old(self)@.step(node@)),
            final(self)@ == old(self)@.after(node@, block.id_bytes()),
    {
        report(self.walk_step(node, block))
    }

    /// Take the step from a read node, decoding no more of it than the step needs.
    pub fn walk_read(&mut self, read: &mut ReadTrieNode<'_>, block: &T) -> (next: Result<
        Option<TriePtr>,
        Error,
    >)
        requires
            old(self).wf(),
            old(self).last_error is None,
            old(self).node_path_index == 0,
            old(read).wf(),
        ensures
            final(self).wf(),
            final(read).wf(),
            final(read).hash == old(read).hash,
            final(read).patch_depth == old(read).patch_depth,
            final(read).backing == old(read).backing,
            final(read).kept_meta() == old(read).kept_meta(),
            match old(read).backing.path() {
                Err(fault) => (next matches Err(e) && fault_of(e) == fault) && final(self)@ == old(
                    self)@,
                Ok(segment) => match old(self)@.entry(segment) {
                    Entry::End => next == Ok::<Option<TriePtr>, Error>(None) && final(self)@
                        == old(self)@.entered(segment),
                    Entry::Diverged => next == Err::<Option<TriePtr>, Error>(
                        Error::CursorError(CursorError::PathDiverged),
                    ) && final(self)@ == old(self)@.entered(segment),
                    Entry::Chr(chr) => match old(read).backing.child(chr) {
                        Err(fault) => (next matches Err(e) && fault_of(e) == fault) && final(self)@
                            == old(self)@.entered(segment),
                        Ok(child) => next == reported(child_step(child)) && final(self)@ == old(
                            self)@.entered(segment).taken(child, block.id_bytes()),
                    },
                },
            },
    {
        let entry: Entry = match read.path_bytes() {
            Ok(segment) => self.enter(segment),
            Err(e) => return Err(e),
        };
        match entry {
            Entry::End => Ok(None),
            Entry::Diverged => Err(Error::CursorError(CursorError::PathDiverged)),
            Entry::Chr(chr) => match read.walk(chr) {
                Ok(child) => report(self.take(child, block)),
                Err(e) => Err(e),
            },
        }
    }

    /// Go on behind a back-pointer whose child was found in an ancestor trie.
    pub fn repair_backptr_finish(&mut self, ptr: &TriePtr, block_hash: T)
        requires
            old(self).wf(),
            old(self).last_error matches Some(CursorError::BackptrEncountered(_)),
        ensures
            final(self).wf(),
            final(self)@ == old(self)@.repaired(*ptr, block_hash.id_bytes()),
    {
        let ghost name = block_hash.id_bytes();
        self.last_error = None;
        self.node_path_index = 0;
        self.node_ptrs.push(*ptr);
        self.block_hashes.push(block_hash);
        assert(self@.blocks =~= old(self)@.blocks.push(name));
    }
}

fn report(step: ReadTrieNodeCursorStep) -> (next: Result<Option<TriePtr>, Error>)
    ensures
        next == reported(step),
{
    match step {
        ReadTrieNodeCursorStep::Next(ptr) => Ok(Some(ptr)),
        ReadTrieNodeCursorStep::EndOfPath { .. } => Ok(None),
        ReadTrieNodeCursorStep::Diverged => Err(Error::CursorError(CursorError::PathDiverged)),
        ReadTrieNodeCursorStep::ChrNotFound => Err(Error::CursorError(CursorError::ChrNotFound)),
        ReadTrieNodeCursorStep::FollowBackptr(ptr) => Err(
            Error::CursorError(CursorError::BackptrEncountered(ptr)),
        ),
    }
}

/// Every step to a child consumes a byte of the path.
pub proof fn law_child_steps_advance(at: Position, node: Node, block: Seq<u8>)
    requires
        at.wf(),
        at.step(node) is Next || at.step(node) is FollowBackptr,
    ensures
        at.index < at.after(node, block).index <= at.path.len(),
{
    lemma_common_bound(node.path(), at.rest());
}

proof fn lemma_common_bound(a: Seq<u8>, b: Seq<u8>)
    ensures
        common(a, b) <= a.len(),
        common(a, b) <= b.len(),
    decreases a.len(),
{
    if a.len() > 0 && b.len() > 0 && a[0] == b[0] {
        lemma_common_bound(a.drop_first(), b.drop_first());
    }
}

} // verus!
