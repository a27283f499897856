//! How walks follow their paths, and what lookups answer where they cannot.
use vstd::prelude::*;

use crate::cursor::{common, reported, Position, ReadTrieNodeCursorStep};
use crate::error::{CursorError, Error};
use crate::leaf::{Leaf, Node};
use crate::marf_heights::Kinship;
use crate::marf_read::{leaf_at_end, not_found};
use crate::node::{clear_backptr, is_backptr, TrieNodeID, TriePtr};
use crate::patch::Fault;
use crate::read_storage::Forest;

verus! {

/// Two byte strings agree on as many bytes as they have in common, and differ in the next one.
pub proof fn law_common_is_longest_agreement(a: Seq<u8>, b: Seq<u8>)
    ensures
        common(a, b) <= a.len(),
        common(a, b) <= b.len(),
        a.take(common(a, b) as int) == b.take(common(a, b) as int),
        common(a, b) < a.len() && common(a, b) < b.len() ==> a[common(a, b) as int] != b[common(
            a,
            b,
        ) as int],
    decreases a.len(),
{
    let n = common(a, b) as int;
    if a.len() > 0 && b.len() > 0 && a[0] == b[0] {
        let x = a.drop_first();
        let y = b.drop_first();
        law_common_is_longest_agreement(x, y);
        assert(common(a, b) == 1 + common(x, y));
        assert forall|i: int| 0 <= i < n implies a[i] == b[i] by {
            if i > 0 {
                assert(x.take(n - 1)[i - 1] == y.take(n - 1)[i - 1]);
                assert(x[i - 1] == a[i] && y[i - 1] == b[i]);
            }
        }
        if n < a.len() && n < b.len() {
            assert(x[n - 1] == a[n] && y[n - 1] == b[n]);
        }
    }
    assert(a.take(n) =~= b.take(n));
}

/// A step of a walk follows its path: it leads to a child along the byte behind the node's path
/// segment, if that segment is what the path goes on with; it ends where the segment is all that is
/// left of the path, and fails where the path goes on otherwise or there is no such child. A child
/// of an ancestor trie is reported, and not entered.
pub proof fn law_steps_follow_path(at: Position, node: Node, block: Seq<u8>)
    requires
        at.wf(),
    ensures
        ({
            let next = at.after(node, block);
            let end = at.index + node.path().len() as int;
            let matched = end < at.path.len() && at.path.subrange(at.index, end) == node.path();
            &&& next.path == at.path
            &&& at.index <= next.index <= at.path.len()
            &&& match at.step(node) {
                ReadTrieNodeCursorStep::Next(ptr) => {
                    &&& matched
                    &&& node.walk(at.path[end]) == Some(ptr)
                    &&& !is_backptr(ptr.id)
                    &&& next.index == end + 1
                    &&& next.ptrs == at.ptrs.push(ptr)
                    &&& next.blocks == at.blocks.push(block)
                    &&& next.within == 0
                    &&& next.error == at.error
                },
                ReadTrieNodeCursorStep::FollowBackptr(ptr) => {
                    &&& matched
                    &&& node.walk(at.path[end]) == Some(ptr)
                    &&& is_backptr(ptr.id)
                    &&& next.index == end + 1
                    &&& next.ptrs == at.ptrs
                    &&& next.blocks == at.blocks
                    &&& next.error == Some(CursorError::BackptrEncountered(ptr))
                },
                ReadTrieNodeCursorStep::ChrNotFound => {
                    &&& matched
                    &&& node.walk(at.path[end]) is None
                    &&& next.ptrs == at.ptrs
                    &&& next.error == Some(CursorError::ChrNotFound)
                },
                ReadTrieNodeCursorStep::Diverged => {
                    &&& at.index < at.path.len()
                    &&& end > at.path.len() || at.path.subrange(at.index, end) != node.path()
                    &&& next.ptrs == at.ptrs
                    &&& next.error == Some(CursorError::PathDiverged)
                },
                ReadTrieNodeCursorStep::EndOfPath { is_leaf } => {
                    &&& is_leaf == (node is Leaf)
                    &&& at.index == at.path.len() || at.rest() == node.path()
                    &&& next.index == at.path.len()
                    &&& next.ptrs == at.ptrs
                    &&& next.error == at.error
                },
            }
        }),
{
    let segment = node.path();
    let rest = at.rest();
    let n = segment.len() as int;
    law_common_is_longest_agreement(segment, rest);
    if at.index < at.path.len() && common(segment, rest) == segment.len() {
        assert(segment.take(n) =~= segment);
        assert(rest.take(n) =~= at.path.subrange(at.index, at.index + n));
        if at.index + n >= at.path.len() {
            assert(rest.take(n) =~= rest);
        }
    }
    if at.index < at.path.len() && common(segment, rest) < segment.len() {
        let k = common(segment, rest) as int;
        let end = at.index + n;
        if end <= at.path.len() {
            assert(k < rest.len());
            assert(at.path.subrange(at.index, end)[k] == rest[k]);
        }
    }
}

/// What a walk reports of a step is what it remembers of it: a step that fails leaves its reason,
/// and one that does not leaves the reason there was.
pub proof fn law_walks_remember_why_they_failed(at: Position, node: Node, block: Seq<u8>)
    ensures
        match reported(at.step(node)) {
            Err(Error::CursorError(why)) => at.after(node, block).error == Some(why),
            Err(_) => false,
            Ok(Some(ptr)) => at.after(node, block).error == at.error && at.after(
                node,
                block,
            ).ptrs.last() == ptr,
            Ok(None) => at.after(node, block).error == at.error && at.after(node, block).ptrs
                == at.ptrs,
        },
{
}

/// Of a block whose own state is not retained, nothing is read, whether or not an earlier answer is
/// at hand: every lookup fails for that reason.
pub proof fn law_unretained_state_is_not_read(
    forest: Forest,
    block: Seq<u8>,
    path: Seq<u8>,
    remembered: Option<Option<Leaf>>,
    fault: Fault,
)
    requires
        forest.history(block) == Err::<(), Fault>(fault),
        fault != not_found(),
    ensures
        forest.leaf(block, path) == Err::<Option<Leaf>, Fault>(fault),
        forest.lookup(block, path) == Err::<Option<Seq<u8>>, Fault>(fault),
        forest.remembered_leaf(block, path, remembered) == Err::<Option<Leaf>, Fault>(fault),
{
}

/// Of a retained block that cannot be opened, every lookup fails for that reason; that there is no
/// such block is no failure.
pub proof fn law_unopened_block_is_not_read(
    forest: Forest,
    block: Seq<u8>,
    path: Seq<u8>,
    fault: Fault,
)
    requires
        forest.history(block) is Ok,
        forest.opens(block) == Err::<(), Fault>(fault),
    ensures
        fault != not_found() ==> forest.lookup(block, path) == Err::<Option<Seq<u8>>, Fault>(fault),
        fault == not_found() ==> forest.lookup(block, path) == Ok::<Option<Seq<u8>>, Fault>(None),
{
}

/// The root hash of a block: the one that squashing kept for the block's height, if it kept one,
/// and otherwise the one of the block's own trie, which then has to open.
pub proof fn law_kept_roots_come_first(
    forest: Forest,
    block: Seq<u8>,
    height: u32,
    root: Seq<u8>,
)
    ensures
        forest.squashed_height(block) == Ok::<Option<u32>, Fault>(Some(height))
            && forest.squashed_root(height) == Ok::<Option<Seq<u8>>, Fault>(Some(root))
            ==> forest.root_at(block) == Ok::<Seq<u8>, Fault>(root),
        forest.squashed_height(block) == Ok::<Option<u32>, Fault>(Some(height))
            && forest.squashed_root(height) == Ok::<Option<Seq<u8>>, Fault>(None)
            && forest.opens(block) is Ok ==> forest.root_at(block) == forest.root_hash(block),
        forest.squashed_height(block) == Ok::<Option<u32>, Fault>(None) && forest.opens(block) is Ok
            ==> forest.root_at(block) == forest.root_hash(block),
        forest.squashed_height(block) == Ok::<Option<u32>, Fault>(None)
            ==> (forest.opens(block) matches Err(fault) ==> forest.root_at(block) == Err::<
            Seq<u8>,
            Fault,
        >(fault)),
{
}

/// A block of the squashed range still knows its own height, and the heights of others that
/// squashing recorded: its unreadable state does not keep them from being told.
pub proof fn law_squashed_blocks_know_heights(
    forest: Forest,
    block: Seq<u8>,
    other: Seq<u8>,
    height: u32,
    limit: u32,
)
    requires
        other != block,
        forest.history(block) == Err::<(), Fault>(
            Fault::Error(
                Error::HistoricalReadInSquashedRange { block_height: height, squash_height: limit },
            ),
        ),
    ensures
        forest.height(block, block) == Ok::<Option<u32>, Fault>(Some(height)),
        forest.height(other, block) == forest.squashed_height(other),
{
}

/// A walk whose path is consumed ends at a leaf exactly if its last pointer says so and leads to one.
pub proof fn law_walks_end_at_leaves(ptr: TriePtr, node: Node)
    ensures
        leaf_at_end(ptr, node) is Ok <==> clear_backptr(ptr.id) == TrieNodeID::Leaf.code()
            && node is Leaf,
        leaf_at_end(ptr, node) matches Ok(leaf) ==> node == Node::Leaf(leaf),
{
}

/// A block is of another fork where the height that it is recorded at is that of another block; where
/// it is found at its height it is an ancestor, and answers as it opens. Every block is of its own
/// fork.
pub proof fn law_forks_are_told_by_heights(
    forest: Forest,
    block: Seq<u8>,
    current: Seq<u8>,
    height: u32,
    found: Seq<u8>,
)
    ensures
        forest.kinship(current, current) == Kinship::Ancestor(Ok(())),
        block != current && forest.height(block, current) == Ok::<Option<u32>, Fault>(Some(height))
            && forest.at_height(height, current) == Ok::<Option<Seq<u8>>, Fault>(Some(found))
            ==> forest.kinship(block, current) == if found == block {
            Kinship::Ancestor(forest.opens(block))
        } else {
            Kinship::Stranger
        },
        block != current && forest.height(block, current) == Ok::<Option<u32>, Fault>(None)
            ==> forest.kinship(block, current) == Kinship::Stranger,
{
}

} // verus!
