//! What proofs made from consistent tries guarantee.
use vstd::prelude::*;

use crate::cursor::{common, Position, ReadTrieNodeCursorStep};
use crate::hash::{sha512_256_of, TrieHash};
use crate::leaf::{Leaf, Node};
use crate::marf_read::LeafOrBackptr;
use crate::merkle_proof::{
    alternates, branch_hash, filled, flat, head_hash, junction_end, junction_hash, leads_on, placed,
    proof_ptrs_bytes, proves, rooted, segment_end, segment_hash, segment_path, shunt_end, shunt_hash, starts_with, step_hash,
    step_path, tail_hash, ProofPtr, Step,
};
use crate::node::{clear_backptr, slot_for, Branch, TriePtr};
use crate::node_codec::ptrs_commitment;
use crate::patch::Fault;
use crate::proof_build::{
    assembled, doublings, law_stride_bounds, other_hashes, proof_hashes, stride, without,
    Level,
};
use crate::read_storage::Forest;

verus! {

impl Forest {
    /// The hash of a node of a block's trie.
    pub open spec fn node_hash(self, block: Seq<u8>, ptr: TriePtr) -> Option<Seq<u8>> {
        match self.node(block, ptr) {
            Ok(Node::Leaf(leaf)) => match self.value(leaf) {
                Ok(value) => Some(sha512_256_of(Leaf { data: Some(value), ..leaf }.commitment())),
                Err(_) => None,
            },
            Ok(Node::Branch(branch)) => match self.children(block, branch.ptrs) {
                Ok(hashes) => match self.proof_node(branch) {
                    Ok(shown) => Some(sha512_256_of(shown.commitment() + flat(hashes))),
                    Err(_) => None,
                },
                Err(_) => None,
            },
            Err(_) => None,
        }
    }
}

proof fn lemma_proof_ptrs(forest: Forest, ptrs: Seq<TriePtr>, at: int, before: Seq<ProofPtr>)
    requires
        0 <= at <= ptrs.len(),
        before.len() == at,
        forall|i: int|
            0 <= i < at ==> (#[trigger] before[i]).id == ptrs[i].id && before[i].chr == ptrs[i].chr,
        forest.proof_ptrs(ptrs, at, before) is Ok,
    ensures
        ({
            let shown = forest.proof_ptrs(ptrs, at, before)->Ok_0;
            &&& shown.len() == ptrs.len()
            &&& forall|i: int|
                0 <= i < ptrs.len() ==> (#[trigger] shown[i]).id == ptrs[i].id && shown[i].chr
                    == ptrs[i].chr
        }),
    decreases ptrs.len() - at,
{
    if at < ptrs.len() {
        lemma_proof_ptrs(forest, ptrs, at + 1, before.push(forest.proof_ptr(ptrs[at])->Ok_0));
    }
}

proof fn lemma_other_hashes_extend(
    ptrs: Seq<TriePtr>,
    all: Seq<Seq<u8>>,
    chr: u8,
    at: int,
    before: Seq<Seq<u8>>,
)
    ensures
        ({
            let hashes = other_hashes(ptrs, all, chr, at, before);
            &&& before.len() <= hashes.len()
            &&& forall|i: int| 0 <= i < before.len() ==> #[trigger] hashes[i] == before[i]
        }),
    decreases ptrs.len() - at,
{
    if 0 <= at < ptrs.len() {
        if ptrs[at].id == 0 {
            lemma_other_hashes_extend(ptrs, all, chr, at + 1, before.push(TrieHash::empty_bytes()));
        } else if ptrs[at].chr != chr {
            lemma_other_hashes_extend(ptrs, all, chr, at + 1, before.push(all[at]));
        } else {
            lemma_other_hashes_extend(ptrs, all, chr, at + 1, before);
        }
    }
}

/// Filling in the hash of the child along a byte restores the hashes of all children.
proof fn lemma_filled_restores(
    ptrs: Seq<TriePtr>,
    shown: Seq<ProofPtr>,
    all: Seq<Seq<u8>>,
    chr: u8,
    hash: Seq<u8>,
    at: int,
    before: Seq<Seq<u8>>,
    hashes: Seq<Seq<u8>>,
)
    requires
        0 <= at <= ptrs.len(),
        shown.len() == ptrs.len(),
        all.len() == ptrs.len(),
        forall|i: int|
            0 <= i < ptrs.len() ==> (#[trigger] shown[i]).id == ptrs[i].id && shown[i].chr
                == ptrs[i].chr,
        forall|i: int|
            0 <= i < ptrs.len() ==> ((#[trigger] ptrs[i]).id == 0 ==> all[i]
                == TrieHash::empty_bytes()) && (ptrs[i].id != 0 && ptrs[i].chr == chr ==> all[i]
                == hash),
        other_hashes(ptrs, all, chr, at, before) == hashes,
    ensures
        filled(shown, chr, hash, hashes, at, before.len() as int, all.subrange(0, at)) == Some(all),
    decreases ptrs.len() - at,
{
    if at == ptrs.len() {
        assert(all.subrange(0, at) =~= all);
    } else {
        assert(shown[at].id == ptrs[at].id && shown[at].chr == ptrs[at].chr);
        assert(all.subrange(0, at + 1) =~= all.subrange(0, at).push(all[at]));
        if ptrs[at].id != 0 && ptrs[at].chr == chr {
            lemma_filled_restores(ptrs, shown, all, chr, hash, at + 1, before, hashes);
        } else {
            let more = before.push(all[at]);
            lemma_other_hashes_extend(ptrs, all, chr, at + 1, more);
            assert(hashes[before.len() as int] == more[before.len() as int]);
            lemma_filled_restores(ptrs, shown, all, chr, hash, at + 1, more, hashes);
        }
    }
}

/// The step that a proof shows of a branch hashes to the branch's hash, given the hash of the child
/// that the proof goes through.
pub proof fn law_branch_step_restores_hash(
    forest: Forest,
    branch: Branch,
    all: Seq<Seq<u8>>,
    chr: u8,
    hash: Seq<u8>,
)
    requires
        all.len() == branch.ptrs.len(),
        forall|i: int|
            0 <= i < branch.ptrs.len() ==> ((#[trigger] branch.ptrs[i]).id == 0 ==> all[i]
                == TrieHash::empty_bytes()) && (branch.ptrs[i].id != 0 && branch.ptrs[i].chr == chr
                ==> all[i] == hash),
        proof_hashes(branch.ptrs, all, chr) is Ok,
        forest.proof_node(branch) is Ok,
    ensures
        branch_hash(
            forest.proof_node(branch)->Ok_0,
            chr,
            hash,
            proof_hashes(branch.ptrs, all, chr)->Ok_0,
        ) == Some(sha512_256_of((forest.proof_node(branch)->Ok_0).commitment() + flat(all))),
{
    let shown = forest.proof_node(branch)->Ok_0;
    lemma_proof_ptrs(forest, branch.ptrs, 0, Seq::empty());
    lemma_filled_restores(
        branch.ptrs,
        shown.ptrs,
        all,
        chr,
        hash,
        0,
        Seq::empty(),
        proof_hashes(branch.ptrs, all, chr)->Ok_0,
    );
    assert(all.subrange(0, 0) =~= Seq::<Seq<u8>>::empty());
}

/// Putting a hash back where it was taken from restores the hashes.
pub proof fn law_placed_restores_hashes(hashes: Seq<Seq<u8>>, place: int)
    requires
        0 <= place < hashes.len(),
    ensures
        placed(hashes[place], place + 1, without(hashes, place)) == Some(hashes),
{
    assert(without(hashes, place).insert(place, hashes[place]) =~= hashes);
}

proof fn lemma_segment_hash_window(
    a: Seq<Step>,
    i: int,
    b: Seq<Step>,
    j: int,
    n: int,
    hash: Seq<u8>,
)
    requires
        0 <= n,
        forall|k: int| 0 <= k < n ==> a[i + k] == #[trigger] b[j + k],
    ensures
        segment_hash(a, i, i + n, hash) == segment_hash(b, j, j + n, hash),
    decreases n,
{
    if n > 0 {
        assert(a[i + 0] == b[j + 0]);
        match step_hash(a[i], hash) {
            Some(next) => {
                assert forall|k: int| 0 <= k < n - 1 implies a[i + 1 + k] == #[trigger] b[j + 1 + k] by {
                    assert(a[i + (k + 1)] == b[j + (k + 1)]);
                }
                lemma_segment_hash_window(a, i + 1, b, j + 1, n - 1, next);
            },
            None => {},
        }
    }
}

proof fn lemma_segment_path_window(a: Seq<Step>, i: int, b: Seq<Step>, j: int, n: int)
    requires
        0 <= n,
        forall|k: int| 0 <= k < n ==> a[i + k] == #[trigger] b[j + k],
    ensures
        segment_path(a, i, i + n) == segment_path(b, j, j + n),
    decreases n,
{
    if n > 0 {
        assert(a[i + (n - 1)] == b[j + (n - 1)]);
        lemma_segment_path_window(a, i, b, j, n - 1);
    }
}

proof fn lemma_tail_hash_window(a: Seq<Step>, i: int, b: Seq<Step>, j: int, n: int, hash: Seq<u8>)
    requires
        0 <= n,
        forall|k: int| 0 <= k < n ==> a[i + k] == #[trigger] b[j + k],
    ensures
        tail_hash(a, i, i + n, hash) == tail_hash(b, j, j + n, hash),
    decreases n,
{
    if n > 0 {
        assert(a[i + 0] == b[j + 0]);
        match shunt_hash(a[i], hash) {
            Some(next) => {
                assert forall|k: int| 0 <= k < n - 1 implies a[i + 1 + k] == #[trigger] b[j + 1 + k] by {
                    assert(a[i + (k + 1)] == b[j + (k + 1)]);
                }
                lemma_tail_hash_window(a, i + 1, b, j + 1, n - 1, next);
            },
            None => {},
        }
    }
}

/// The last of several shunts is taken last.
proof fn lemma_tail_hash_last(steps: Seq<Step>, at: int, to: int, hash: Seq<u8>)
    requires
        at < to,
    ensures
        tail_hash(steps, at, to, hash) == match tail_hash(steps, at, to - 1, hash) {
            Some(next) => shunt_hash(steps[to - 1], next),
            None => None,
        },
    decreases to - at,
{
    if at < to - 1 {
        match shunt_hash(steps[at], hash) {
            Some(next) => lemma_tail_hash_last(steps, at + 1, to, next),
            None => {},
        }
    } else {
        assert(tail_hash(steps, at, to - 1, hash) == Some(hash));
        match shunt_hash(steps[at], hash) {
            Some(next) => {
                assert(tail_hash(steps, to, to, next) == Some(next));
            },
            None => {},
        }
    }
}

/// Whether every child of a node is found along its own byte.
pub open spec fn own_edges(node: Node) -> bool {
    forall|chr: u8| #[trigger] node.walk(chr) matches Some(child) ==> child.chr == chr
}

impl Forest {
    /// Whether pointers lead down a block's trie from its root along a path, so that `index` bytes of the path
    /// are behind the last of them.
    pub open spec fn on_path(self, block: Seq<u8>, path: Seq<u8>, ptrs: Seq<TriePtr>, index: int) -> bool
        decreases ptrs.len(),
    {
        if ptrs.len() == 0 {
            false
        } else if ptrs.len() == 1 {
            index == 0 && ptrs[0] == self.root(block)
        } else {
            let last = ptrs.last();
            match self.node(block, ptrs.drop_last().last()) {
                Ok(Node::Branch(branch)) => {
                    let start = index - 1 - branch.path.len();
                    &&& 0 <= start
                    &&& index <= path.len()
                    &&& path.subrange(start, index - 1) == branch.path
                    &&& path[index - 1] == last.chr
                    &&& branch.walk(last.chr) == Some(last)
                    &&& last.id < 128
                    &&& self.on_path(block, path, ptrs.drop_last(), start)
                },
                _ => false,
            }
        }
    }

    /// Whether every child of a branch is found along its own byte.
    pub open spec fn edges_agree(self) -> bool {
        forall|block: Seq<u8>, ptr: TriePtr| #[trigger]
            self.node(block, ptr) is Ok ==> own_edges(self.node(block, ptr)->Ok_0)
    }

    /// Whether stored children's hashes are those of the children: a constant for empty slots, the
    /// ancestor's identity for back-pointers, and the child's own hash otherwise.
    pub open spec fn child_hashes_agree(self) -> bool {
        forall|block: Seq<u8>, ptr: TriePtr|
            #[trigger] self.node(block, ptr) matches Ok(Node::Branch(branch)) ==> self.children(
                block,
                branch.ptrs,
            ) matches Ok(hashes) ==> self.hashes_fit(block, branch.ptrs, hashes)
    }

    /// Whether hashes are those of children.
    pub open spec fn hashes_fit(self, block: Seq<u8>, ptrs: Seq<TriePtr>, hashes: Seq<Seq<u8>>) -> bool {
        hashes.len() == ptrs.len() && forall|i: int|
            0 <= i < ptrs.len() ==> self.child_hash_agrees(block, #[trigger] ptrs[i], hashes[i])
    }

    /// Whether a hash is that of a child.
    pub open spec fn child_hash_agrees(self, block: Seq<u8>, ptr: TriePtr, hash: Seq<u8>) -> bool {
        if ptr.id == 0 {
            hash == TrieHash::empty_bytes()
        } else if ptr.id >= 128 {
            self.name(ptr.back_block) matches Ok(name) ==> hash == name
        } else {
            self.node_hash(block, ptr) matches Some(own) ==> hash == own
        }
    }
}

proof fn lemma_common_prefix(a: Seq<u8>, b: Seq<u8>)
    ensures
        common(a, b) <= a.len(),
        common(a, b) <= b.len(),
        common(a, b) == a.len() ==> b.subrange(0, a.len() as int) == a,
    decreases a.len(),
{
    if a.len() > 0 && b.len() > 0 && a[0] == b[0] {
        lemma_common_prefix(a.drop_first(), b.drop_first());
        if common(a, b) == a.len() {
            let tail = b.drop_first().subrange(0, a.len() - 1);
            assert(tail == a.drop_first());
            assert forall|i: int| 0 <= i < a.len() implies b.subrange(0, a.len() as int)[i] == a[i] by {
                if i > 0 {
                    assert(tail[i - 1] == a.drop_first()[i - 1]);
                }
            }
            assert(b.subrange(0, a.len() as int) =~= a);
        }
    } else {
        assert(b.subrange(0, 0) =~= Seq::<u8>::empty());
        if a.len() == 0 {
            assert(a =~= Seq::<u8>::empty());
        }
    }
}

impl Forest {
    /// Whether a walk inside a block's trie ended where its pointers lead, with `index` bytes of the
    /// path behind the last node.
    pub open spec fn ends_on_path(
        self,
        block: Seq<u8>,
        at: Position,
        found: LeafOrBackptr,
        index: int,
    ) -> bool {
        &&& self.on_path(block, at.path, at.ptrs, index)
        &&& 0 <= index <= at.path.len()
        &&& match found {
            LeafOrBackptr::Leaf { ptr, leaf } => {
                &&& ptr == at.ptrs.last()
                &&& clear_backptr(ptr.id) == 1
                &&& self.node(block, ptr) == Ok::<Node, Fault>(Node::Leaf(leaf))
                &&& index < at.path.len() ==> leaf.path == at.path.subrange(
                    index,
                    at.path.len() as int,
                )
            },
            LeafOrBackptr::Backptr(child) => {
                &&& child.id >= 128
                &&& self.node(block, at.ptrs.last()) matches Ok(Node::Branch(branch)) && {
                    &&& at.index == index + branch.path.len() + 1
                    &&& at.index <= at.path.len()
                    &&& at.path.subrange(index, at.index - 1) == branch.path
                    &&& branch.walk(at.path[at.index - 1]) == Some(child)
                }
            },
        }
    }
}

/// A walk inside a trie ends where its pointers lead.
proof fn lemma_walk_ends_on_path(forest: Forest, block: Seq<u8>, at: Position, fuel: nat)
    requires
        forest.edges_agree(),
        0 <= at.index <= at.path.len(),
        forest.on_path(block, at.path, at.ptrs, at.index),
        forest.segment(block, at, fuel).0 is Ok,
    ensures
        forest.segment(block, at, fuel).1.path == at.path,
        forest.segment(block, at, fuel).1.ptrs.first() == at.ptrs.first(),
        exists|index: int| #[trigger]
            forest.ends_on_path(
                block,
                forest.segment(block, at, fuel).1,
                forest.segment(block, at, fuel).0->Ok_0,
                index,
            ),
    decreases fuel,
{
    let ptr = at.ptrs.last();
    let node = forest.node(block, ptr)->Ok_0;
    let next = at.after(node, block);
    let (found, end) = forest.segment(block, at, fuel);
    lemma_common_prefix(node.path(), at.rest());
    let len = node.path().len() as int;
    if at.index < at.path.len() && common(node.path(), at.rest()) == len {
        assert(at.rest().subrange(0, len) =~= at.path.subrange(at.index, at.index + len));
    }
    match at.step(node) {
        ReadTrieNodeCursorStep::Next(child) => {
            assert(own_edges(node));
            let chr = at.path[at.index + len];
            assert(node.walk(chr) == Some(child));
            assert(next.ptrs.drop_last() =~= at.ptrs);
            assert(forest.on_path(block, next.path, next.ptrs, next.index));
            lemma_walk_ends_on_path(forest, block, next, (fuel - 1) as nat);
            assert(next.ptrs.first() == at.ptrs.first());
        },
        ReadTrieNodeCursorStep::EndOfPath { .. } => {
            assert(forest.ends_on_path(block, end, found->Ok_0, at.index));
        },
        ReadTrieNodeCursorStep::FollowBackptr(child) => {
            assert(forest.ends_on_path(block, end, found->Ok_0, at.index));
        },
        _ => {},
    }
}

/// How many slots from `at` on hold a child along a byte.
spec fn along(ptrs: Seq<TriePtr>, chr: u8, at: int) -> nat
    decreases ptrs.len() - at,
{
    if at < 0 || at >= ptrs.len() {
        0
    } else {
        along(ptrs, chr, at + 1) + if ptrs[at].id != 0 && ptrs[at].chr == chr {
            1nat
        } else {
            0
        }
    }
}

proof fn lemma_other_hashes_len(
    ptrs: Seq<TriePtr>,
    all: Seq<Seq<u8>>,
    chr: u8,
    at: int,
    before: Seq<Seq<u8>>,
)
    requires
        0 <= at <= ptrs.len(),
    ensures
        other_hashes(ptrs, all, chr, at, before).len() + along(ptrs, chr, at) == before.len()
            + ptrs.len() - at,
    decreases ptrs.len() - at,
{
    if at < ptrs.len() {
        if ptrs[at].id == 0 {
            lemma_other_hashes_len(ptrs, all, chr, at + 1, before.push(TrieHash::empty_bytes()));
        } else if ptrs[at].chr != chr {
            lemma_other_hashes_len(ptrs, all, chr, at + 1, before.push(all[at]));
        } else {
            lemma_other_hashes_len(ptrs, all, chr, at + 1, before);
        }
    }
}

proof fn lemma_along_counts(ptrs: Seq<TriePtr>, chr: u8, at: int, i: int, j: int)
    requires
        0 <= at <= i <= j < ptrs.len(),
        ptrs[i].id != 0 && ptrs[i].chr == chr,
        ptrs[j].id != 0 && ptrs[j].chr == chr,
    ensures
        along(ptrs, chr, at) >= if i < j {
            2nat
        } else {
            1
        },
    decreases ptrs.len() - at,
{
    if at < i {
        lemma_along_counts(ptrs, chr, at + 1, i, j);
    } else if i < j {
        lemma_along_counts(ptrs, chr, at + 1, j, j);
    }
}

/// A branch's step hashes to the branch's hash, given the hash of the child that the walk went to.
proof fn lemma_step_restores_hash(
    forest: Forest,
    block: Seq<u8>,
    ptr: TriePtr,
    child: TriePtr,
    hash: Seq<u8>,
)
    requires
        forest.child_hashes_agree(),
        forest.node(block, ptr) matches Ok(Node::Branch(branch)) && branch.walk(child.chr) == Some(
            child,
        ),
        forest.node(block, ptr)->Ok_0.wf(),
        forest.segment_step(block, ptr, child.chr) is Ok,
        if child.id >= 128 {
            forest.name(child.back_block) == Ok::<Seq<u8>, Fault>(hash)
        } else {
            forest.node_hash(block, child) == Some(hash)
        },
    ensures
        step_hash(forest.segment_step(block, ptr, child.chr)->Ok_0, hash) == forest.node_hash(
            block,
            ptr,
        ),
        forest.node_hash(block, ptr) is Some,
{
    let branch = forest.node(block, ptr)->Ok_0->Branch_0;
    let all = forest.children(block, branch.ptrs)->Ok_0;
    let chr = child.chr;
    let slot = branch.find(chr)->0;
    assert(forest.hashes_fit(block, branch.ptrs, all));
    lemma_slot_in_range(branch, chr);
    lemma_other_hashes_len(branch.ptrs, all, chr, 0, Seq::empty());
    assert forall|i: int|
        0 <= i < branch.ptrs.len() implies ((#[trigger] branch.ptrs[i]).id == 0 ==> all[i]
        == TrieHash::empty_bytes()) && (branch.ptrs[i].id != 0 && branch.ptrs[i].chr == chr ==> all[i]
        == hash) by {
        assert(forest.child_hash_agrees(block, branch.ptrs[i], all[i]));
        if branch.ptrs[i].id != 0 && branch.ptrs[i].chr == chr {
            assert(forest.child_hash_agrees(block, branch.ptrs[slot], all[slot]));
            if i < slot {
                lemma_along_counts(branch.ptrs, chr, 0, i, slot);
            } else if slot < i {
                lemma_along_counts(branch.ptrs, chr, 0, slot, i);
            }
        }
    }
    law_branch_step_restores_hash(forest, branch, all, chr, hash);
}

proof fn lemma_slot_in_range(branch: Branch, chr: u8)
    requires
        branch.wf(),
        branch.find(chr) is Some,
    ensures
        0 <= branch.find(chr)->0 < branch.ptrs.len(),
        branch.ptrs[branch.find(chr)->0].id != 0,
{
    if branch.id is Node4 || branch.id is Node16 {
        lemma_slot_for_range(branch.ptrs, chr, 0);
    }
}

proof fn lemma_slot_for_range(ptrs: Seq<TriePtr>, chr: u8, from: int)
    ensures
        slot_for(ptrs, chr, from) matches Some(slot) ==> 0 <= slot < ptrs.len() && ptrs[slot].id != 0,
    decreases ptrs.len() - from,
{
    if 0 <= from < ptrs.len() {
        lemma_slot_for_range(ptrs, chr, from + 1);
    }
}

proof fn lemma_segment_steps_behind(
    forest: Forest,
    block: Seq<u8>,
    ptrs: Seq<TriePtr>,
    chr: u8,
    before: Seq<Step>,
)
    ensures
        forest.segment_steps(block, ptrs, chr, before) == match forest.segment_steps(
            block,
            ptrs,
            chr,
            Seq::empty(),
        ) {
            Ok(steps) => Ok::<Seq<Step>, Fault>(before + steps),
            Err(fault) => Err::<Seq<Step>, Fault>(fault),
        },
    decreases ptrs.len(),
{
    if ptrs.len() == 0 {
        assert(before + Seq::<Step>::empty() =~= before);
    } else {
        match forest.segment_step(block, ptrs.last(), chr) {
            Err(_) => {},
            Ok(step) => {
                let rest = ptrs.drop_last();
                let next = ptrs.last().chr;
                lemma_segment_steps_behind(forest, block, rest, next, before.push(step));
                lemma_segment_steps_behind(forest, block, rest, next, Seq::<Step>::empty().push(step));
                match forest.segment_steps(block, rest, next, Seq::empty()) {
                    Ok(steps) => {
                        assert(before.push(step) + steps =~= before + (Seq::<Step>::empty().push(step)
                            + steps));
                    },
                    Err(_) => {},
                }
            },
        }
    }
}

proof fn lemma_segment_path_first(steps: Seq<Step>, from: int, to: int)
    requires
        from < to,
        segment_path(steps, from + 1, to) is Some,
        step_path(steps[from]) is Some,
    ensures
        segment_path(steps, from, to) == Some(
            segment_path(steps, from + 1, to)->0 + step_path(steps[from])->0,
        ),
    decreases to - from,
{
    if from + 1 < to {
        lemma_segment_path_first(steps, from, to - 1);
        let a = step_path(steps[to - 1])->0;
        let b = segment_path(steps, from + 1, to - 1)->0;
        let c = step_path(steps[from])->0;
        assert(a + (b + c) =~= (a + b) + c);
    } else {
        let c = step_path(steps[from])->0;
        assert(segment_path(steps, from, to - 1) == Some(Seq::<u8>::empty()));
        assert(c + Seq::<u8>::empty() =~= Seq::<u8>::empty() + c);
    }
}

/// The steps that a proof shows of a walk inside one trie hash to the hash of the trie's root node,
/// and spell the part of the path that the walk went along.
proof fn lemma_segment_leads_to_root(
    forest: Forest,
    block: Seq<u8>,
    path: Seq<u8>,
    ptrs: Seq<TriePtr>,
    index: int,
    chr: u8,
    hash: Seq<u8>,
)
    requires
        forest.child_hashes_agree(),
        forest.nodes_are_wf(),
        forest.on_path(block, path, ptrs, index),
        forest.segment_steps(block, ptrs, chr, Seq::empty()) is Ok,
        forest.node_hash(block, ptrs.last()) is Some,
        step_hash(forest.segment_step(block, ptrs.last(), chr)->Ok_0, hash) == forest.node_hash(
            block,
            ptrs.last(),
        ),
    ensures
        ({
            let steps = forest.segment_steps(block, ptrs, chr, Seq::empty())->Ok_0;
            let first = forest.segment_step(block, ptrs.last(), chr);
            &&& steps.len() == ptrs.len()
            &&& first == Ok::<Step, Fault>(steps[0])
            &&& forall|k: int| 0 <= k < steps.len() ==> !(#[trigger] steps[k] is Shunt)
            &&& forest.node_hash(block, ptrs.first()) is Some
            &&& segment_hash(steps, 0, steps.len() as int, hash) == forest.node_hash(
                block,
                ptrs.first(),
            )
            &&& segment_path(steps, 0, steps.len() as int) == Some(
                path.subrange(0, index) + step_path(steps[0])->0,
            )
            &&& forest.node(block, ptrs.first()) matches Ok(Node::Branch(root)) ==> steps.last()
                is Branch && steps.last()->capacity == root.id.slots()
        }),
    decreases ptrs.len(),
{
    let steps = forest.segment_steps(block, ptrs, chr, Seq::empty())->Ok_0;
    let step = forest.segment_step(block, ptrs.last(), chr)->Ok_0;
    let rest = ptrs.drop_last();
    let next = ptrs.last().chr;
    lemma_segment_steps_behind(forest, block, rest, next, Seq::<Step>::empty().push(step));
    let below = forest.segment_steps(block, rest, next, Seq::empty())->Ok_0;
    assert(steps == Seq::<Step>::empty().push(step) + below);
    let own = forest.node_hash(block, ptrs.last())->0;
    if ptrs.len() == 1 {
        assert(below =~= Seq::<Step>::empty());
        assert(steps =~= seq![step]);
        assert(segment_hash(steps, 1, 1, own) == Some(own));
        assert(segment_path(steps, 0, 0) == Some(Seq::<u8>::empty()));
        let part = step_path(step)->0;
        assert(part + Seq::<u8>::empty() =~= path.subrange(0, 0) + part);
    } else {
        let branch = forest.node(block, rest.last())->Ok_0->Branch_0;
        let start = index - 1 - branch.path.len() as int;
        let n = below.len() as int;
        lemma_step_restores_hash(forest, block, rest.last(), ptrs.last(), own);
        lemma_segment_leads_to_root(forest, block, path, rest, start, next, own);
        assert forall|k: int| 0 <= k < n implies steps[1 + k] == #[trigger] below[0 + k] by {}
        lemma_segment_hash_window(steps, 1, below, 0, n, own);
        lemma_segment_path_window(steps, 1, below, 0, n);
        lemma_segment_path_first(steps, 0, n + 1);
        assert(step_path(below[0])->0 == branch.path + seq![next]);
        assert(path.subrange(0, start) + (branch.path + seq![next]) =~= path.subrange(0, index)) by {
            assert forall|i: int| 0 <= i < index implies (path.subrange(0, start) + (branch.path
                + seq![next]))[i] == path.subrange(0, index)[i] by {
                if start <= i < index - 1 {
                    assert(path.subrange(start, index - 1)[i - start] == branch.path[i - start]);
                }
            }
        }
        assert forall|k: int| 0 <= k < steps.len() implies !(#[trigger] steps[k] is Shunt) by {
            if k > 0 {
                assert(!(below[k - 1] is Shunt));
            }
        }
        assert(rest.first() == ptrs.first());
        assert(steps.last() == below.last());
    }
}

impl Forest {
    /// Whether nodes have the slots of their types.
    pub open spec fn nodes_are_wf(self) -> bool {
        forall|block: Seq<u8>, ptr: TriePtr|
            #[trigger] self.node(block, ptr) matches Ok(node) ==> node.wf()
    }
}

impl Forest {
    /// Whether a block's root hash commits to its root node and to its ancestors' root hashes.
    pub open spec fn root_agrees(self, block: Seq<u8>) -> bool {
        self.root_hash(block) matches Ok(root) ==> self.ancestors(block) matches Ok(hashes)
            ==> self.node_hash(block, self.root(block)) matches Some(own) ==> root == if hashes.len()
            == 0 {
            own
        } else {
            TrieHash::digest(flat(seq![own] + hashes))
        }
    }

    /// Whether the ancestor that a block at height `height` keeps the root hash of, for blocks at
    /// least `distance` below it, is the one that many blocks below it.
    pub open spec fn ancestor_agrees(self, block: Seq<u8>, height: u32, distance: nat) -> bool {
        self.ancestors(block) matches Ok(hashes) ==> self.at_height(
            (height - stride(distance)) as u32,
            block,
        ) matches Ok(Some(below)) ==> doublings(distance) < hashes.len() && self.root_hash(below)
            == Ok::<Seq<u8>, Fault>(hashes[doublings(distance) as int])
    }

    /// Whether the block at a height of a fork knows its own height, and the fork below it.
    pub open spec fn fork_agrees(self, block: Seq<u8>, height: u32) -> bool {
        self.at_height(height, block) matches Ok(Some(below)) ==> self.height(below, below) == Ok::<
            Option<u32>,
            Fault,
        >(Some(height)) && forall|lower: u32|
            lower <= height ==> #[trigger] self.at_height(lower, below) == self.at_height(
                lower,
                block,
            )
    }

    /// Whether what a block at a height knows of its ancestors agrees.
    pub open spec fn ancestry_agrees(self, block: Seq<u8>, height: u32) -> bool {
        &&& forall|distance: nat|
            0 < distance <= height ==> #[trigger] self.ancestor_agrees(block, height, distance)
        &&& forall|lower: u32| lower <= height ==> #[trigger] self.fork_agrees(block, lower)
    }

    /// Whether root hashes commit to root nodes and ancestors.
    pub open spec fn roots_agree(self) -> bool {
        forall|block: Seq<u8>| #[trigger] self.root_hash(block) is Ok ==> self.root_agrees(block)
    }

    /// Whether what blocks know of their ancestors agrees.
    pub open spec fn forks_agree(self) -> bool {
        forall|block: Seq<u8>| #[trigger]
            self.height(block, block) matches Ok(Some(height)) ==> self.ancestry_agrees(block, height)
    }
}

/// A step with a place among ancestors.
pub open spec fn linking(step: Step) -> bool {
    step is Shunt && step->idx >= 1
}

proof fn lemma_shunt_restores_root(
    forest: Forest,
    block: Seq<u8>,
    hashes: Seq<Seq<u8>>,
    place: int,
    own: Seq<u8>,
    root: Seq<u8>,
)
    requires
        0 <= place < hashes.len(),
        root == TrieHash::digest(flat(seq![own] + hashes)),
    ensures
        shunt_hash(
            Step::Shunt { idx: place + 2, hashes: seq![own] + without(hashes, place) },
            hashes[place],
        ) == Some(root),
        junction_hash(
            Step::Shunt { idx: place + 1, hashes: without(hashes, place) },
            own,
            hashes[place],
        ) == Some(root),
{
    let all = seq![own] + hashes;
    law_placed_restores_hashes(hashes, place);
    law_placed_restores_hashes(all, place + 1);
    assert(without(all, place + 1) =~= seq![own] + without(hashes, place));
}

/// The shunts that link a block to an ancestor lead from the ancestor's root hash to the block's,
/// in reverse order.
proof fn lemma_shunts_lead_back(
    forest: Forest,
    block: Seq<u8>,
    current: u32,
    ancestor: u32,
    name: Seq<u8>,
    target: Seq<u8>,
    before: Seq<Step>,
)
    requires
        forest.forks_agree(),
        forest.roots_agree(),
        ancestor < current,
        forest.height(block, block) == Ok::<Option<u32>, Fault>(Some(current)),
        forest.at_height(ancestor, block) == Ok::<Option<Seq<u8>>, Fault>(Some(name)),
        forest.root_hash(name) == Ok::<Seq<u8>, Fault>(target),
        forest.shunts_back(block, current, ancestor, target, before) is Ok,
        before.len() == 0 ==> forest.node_hash(block, forest.root(block)) is Some,
    ensures
        ({
            let all = forest.shunts_back(block, current, ancestor, target, before)->Ok_0;
            let n = all.len() - before.len();
            let back = all.subrange(before.len() as int, all.len() as int).reverse();
            &&& n > 0
            &&& all.subrange(0, before.len() as int) == before
            &&& forall|k: int| 0 <= k < n ==> linking(#[trigger] back[k])
            &&& forest.root_hash(block) is Ok
            &&& if before.len() > 0 {
                tail_hash(back, 0, n, target) == Some(forest.root_hash(block)->Ok_0)
            } else {
                tail_hash(back, 0, n - 1, target) matches Some(below) && junction_hash(
                    back[n - 1],
                    forest.node_hash(block, forest.root(block))->0,
                    below,
                ) == Some(forest.root_hash(block)->Ok_0)
            }
        }),
    decreases current,
{
    let all = forest.shunts_back(block, current, ancestor, target, before)->Ok_0;
    let n = all.len() - before.len();
    let back = all.subrange(before.len() as int, all.len() as int).reverse();
    let hashes = forest.ancestors(block)->Ok_0;
    let distance = (current - ancestor) as nat;
    let place = doublings(distance) as int;
    law_stride_bounds(distance);
    let next = (current - stride(distance)) as u32;
    let below = forest.at_height(next, block)->Ok_0->0;
    let step = forest.shunt_step(block, hashes, place, before.len() == 0)->Ok_0;
    let more = before.push(step);
    assert(forest.ancestry_agrees(block, current));
    assert(forest.ancestor_agrees(block, current, distance));
    assert(forest.fork_agrees(block, next));
    assert(forest.root_agrees(block));
    let own = if before.len() == 0 {
        forest.node_hash(block, forest.root(block))->0
    } else {
        forest.root_node_hash(block)->Ok_0
    };
    assert(forest.node_hash(block, forest.root(block)) == Some(own));
    let root = forest.root_hash(block)->Ok_0;
    lemma_shunt_restores_root(forest, block, hashes, place, own, root);
    assert(hashes[place] == forest.root_hash(below)->Ok_0);
    if hashes.contains(target) {
        assert(all == more);
        assert(all.subrange(0, before.len() as int) =~= before);
        assert(back =~= seq![step]);
        lemma_tail_hash_last(back, 0, 1, target);
        assert(tail_hash(back, 0, 0, target) == Some(target));
    } else {
        if next == ancestor {
            assert(hashes.contains(hashes[place]));
        }
        assert(forest.at_height(ancestor, below) == forest.at_height(ancestor, block));
        lemma_shunts_lead_back(forest, below, next, ancestor, name, target, more);
        let rest = all.subrange(more.len() as int, all.len() as int).reverse();
        let m = rest.len() as int;
        assert(all.subrange(0, before.len() as int) =~= before) by {
            assert forall|i: int| 0 <= i < before.len() implies all[i] == before[i] by {
                assert(all.subrange(0, more.len() as int)[i] == more[i]);
            }
        }
        assert(all[before.len() as int] == step) by {
            assert(all.subrange(0, more.len() as int)[before.len() as int]
                == more[before.len() as int]);
        }
        assert(back =~= rest.push(step));
        assert forall|k: int| 0 <= k < n implies linking(#[trigger] back[k]) by {
            if k < m {
                assert(linking(rest[k]));
            }
        }
        assert forall|k: int| 0 <= k < m implies back[0 + k] == #[trigger] rest[0 + k] by {}
        lemma_tail_hash_window(back, 0, rest, 0, m, target);
        lemma_tail_hash_last(back, 0, n, target);
    }
}

proof fn lemma_segment_end_is(steps: Seq<Step>, at: int, to: int)
    requires
        0 <= at <= to <= steps.len(),
        forall|k: int| at <= k < to ==> !(#[trigger] steps[k] is Shunt),
        to < steps.len() ==> steps[to] is Shunt,
    ensures
        segment_end(steps, at) == to,
    decreases to - at,
{
    if at < to {
        assert(!(steps[at] is Shunt));
        lemma_segment_end_is(steps, at + 1, to);
    }
}

proof fn lemma_shunt_end_is(steps: Seq<Step>, at: int, to: int)
    requires
        0 <= at <= to <= steps.len(),
        forall|k: int| at <= k < to ==> linking(#[trigger] steps[k]),
        to < steps.len() ==> !(steps[to] is Shunt),
    ensures
        shunt_end(steps, at) == to,
        junction_end(steps, at) == to,
    decreases to - at,
{
    if at < to {
        assert(linking(steps[at]));
        lemma_shunt_end_is(steps, at + 1, to);
    }
}

/// Whether the hashes of a proof lead to a root hash.
pub open spec fn leads_to(
    steps: Seq<Step>,
    root: Seq<u8>,
    blocks: spec_fn(Seq<u8>) -> Option<Seq<u8>>,
) -> bool {
    let end = segment_end(steps, 1);
    match segment_hash(steps, 0, end, Seq::empty()) {
        None => false,
        Some(node_root) => match head_hash(steps[end], node_root) {
            None => false,
            Some(trie) => if end + 1 >= steps.len() {
                root == trie
            } else {
                match blocks(trie) {
                    None => false,
                    Some(block) => !(steps[end + 1] is Shunt) && leads_on(
                        steps,
                        end + 1,
                        trie,
                        block,
                        root,
                        blocks,
                    ),
                }
            },
        },
    }
}

/// Whether steps can follow the shunts of a level.
spec fn goes_on(rest: Seq<Step>) -> bool {
    rest.len() == 0 || !(rest[0] is Shunt)
}

/// Whether a start of a proof, with steps behind it, shows a value at a path and leads to the root
/// hash of a block, as far as the steps behind it lead on from there. Its last segment leads along
/// a prefix of the path.
spec fn carried(
    start: Seq<Step>,
    rest: Seq<Step>,
    path: Seq<u8>,
    prefix: Seq<u8>,
    value: Seq<u8>,
    trie: Seq<u8>,
    block: Seq<u8>,
    blocks: spec_fn(Seq<u8>) -> Option<Seq<u8>>,
) -> bool {
    let steps = start + rest;
    let at = start.len() as int;
    &&& steps[0] is Leaf
    &&& steps[0]->leaf.data == Some(value)
    &&& segment_path(steps, 0, segment_end(steps, 1)) == Some(path)
    &&& alternates(steps, at, prefix) ==> alternates(steps, 0, path)
    &&& forall|root: Seq<u8>|
        leads_on(steps, at, trie, block, root, blocks) ==> #[trigger] leads_to(steps, root, blocks)
}

/// Whether a start of a proof shows a value at a path and leads to the root hash of a block.
#[verifier::opaque]
spec fn carries(
    start: Seq<Step>,
    path: Seq<u8>,
    prefix: Seq<u8>,
    value: Seq<u8>,
    trie: Seq<u8>,
    block: Seq<u8>,
    blocks: spec_fn(Seq<u8>) -> Option<Seq<u8>>,
) -> bool {
    start.len() > 0 && forall|rest: Seq<Step>| #[trigger]
        goes_on(rest) ==> carried(start, rest, path, prefix, value, trie, block, blocks)
}

/// Whether a level of a proof shows a value at a path in a trie with a root hash.
#[verifier::opaque]
spec fn grounds(level: Level, path: Seq<u8>, value: Seq<u8>, root: Seq<u8>) -> bool {
    let n = level.segment.len() as int;
    &&& n > 0
    &&& forall|k: int| 0 <= k < n ==> !(#[trigger] level.segment[k] is Shunt)
    &&& level.segment[0] is Leaf
    &&& level.segment[0]->leaf.data == Some(value)
    &&& segment_path(level.segment, 0, n) == Some(path)
    &&& rooted(level.segment, n)
    &&& level.shunt.len() == 1
    &&& level.shunt[0] is Shunt
    &&& segment_hash(level.segment, 0, n, Seq::empty()) matches Some(own) && head_hash(
        level.shunt[0],
        own,
    ) == Some(root)
}

/// Whether a level of a proof that leads along a prefix links a block below to a trie with a root
/// hash.
#[verifier::opaque]
spec fn links(level: Level, prefix: Seq<u8>, below: Seq<u8>, below_root: Seq<u8>, root: Seq<u8>) -> bool {
    let n = level.segment.len() as int;
    let m = level.shunt.len() as int;
    &&& n > 0
    &&& m > 0
    &&& forall|k: int| 0 <= k < n ==> !(#[trigger] level.segment[k] is Shunt)
    &&& forall|k: int| 0 <= k < m ==> linking(#[trigger] level.shunt[k])
    &&& segment_path(level.segment, 0, n) == Some(prefix)
    &&& rooted(level.segment, n)
    &&& segment_hash(level.segment, 0, n, below) matches Some(own) && (tail_hash(
        level.shunt,
        0,
        m - 1,
        below_root,
    ) matches Some(last) && junction_hash(level.shunt[m - 1], own, last) == Some(root))
}

proof fn lemma_grounds_carries(
    level: Level,
    path: Seq<u8>,
    value: Seq<u8>,
    root: Seq<u8>,
    block: Seq<u8>,
    blocks: spec_fn(Seq<u8>) -> Option<Seq<u8>>,
)
    requires
        grounds(level, path, value, root),
        blocks(root) == Some(block),
    ensures
        carries(level.segment + level.shunt, path, path, value, root, block, blocks),
{
    reveal(carries);
    reveal(grounds);
    let start = level.segment + level.shunt;
    let n = level.segment.len() as int;
    assert forall|rest: Seq<Step>| #[trigger] goes_on(rest) implies carried(
        start,
        rest,
        path,
        path,
        value,
        root,
        block,
        blocks,
    ) by {
        let steps = start + rest;
        assert forall|k: int| 0 <= k < n implies steps[0 + k] == #[trigger] level.segment[0 + k] by {}
        assert forall|k: int| 1 <= k < n implies !(#[trigger] steps[k] is Shunt) by {
            assert(!(level.segment[k] is Shunt));
        }
        assert(steps[n] == level.shunt[0]);
        assert(steps[n - 1] == level.segment[n - 1]);
        lemma_segment_end_is(steps, 1, n);
        lemma_segment_path_window(steps, 0, level.segment, 0, n);
        lemma_segment_hash_window(steps, 0, level.segment, 0, n, Seq::empty());
        if rest.len() > 0 {
            assert(steps[n + 1] == rest[0]);
        }
        assert(shunt_end(steps, n + 1) == n + 1);
        assert(path.subrange(0, path.len() as int) =~= path);
        assert forall|end: Seq<u8>|
            leads_on(steps, n + 1, root, block, end, blocks) implies #[trigger] leads_to(
            steps,
            end,
            blocks,
        ) by {}
    }
}

proof fn lemma_links_carries(
    start: Seq<Step>,
    level: Level,
    path: Seq<u8>,
    longer: Seq<u8>,
    prefix: Seq<u8>,
    value: Seq<u8>,
    below: Seq<u8>,
    below_root: Seq<u8>,
    root: Seq<u8>,
    block: Seq<u8>,
    blocks: spec_fn(Seq<u8>) -> Option<Seq<u8>>,
)
    requires
        carries(start, path, longer, value, below_root, below, blocks),
        links(level, prefix, below, below_root, root),
        starts_with(longer, prefix),
        blocks(root) == Some(block),
    ensures
        carries(start + (level.segment + level.shunt), path, prefix, value, root, block, blocks),
{
    reveal(carries);
    reveal(links);
    let more = level.segment + level.shunt;
    let whole = start + more;
    let at = start.len() as int;
    let n = level.segment.len() as int;
    let m = level.shunt.len() as int;
    assert forall|rest: Seq<Step>| #[trigger] goes_on(rest) implies carried(
        whole,
        rest,
        path,
        prefix,
        value,
        root,
        block,
        blocks,
    ) by {
        let steps = whole + rest;
        assert(steps =~= start + (more + rest));
        assert((more + rest)[0] == level.segment[0]);
        assert(goes_on(more + rest));
        assert(carried(start, more + rest, path, longer, value, below_root, below, blocks));
        assert forall|k: int| 0 <= k < n implies steps[at + k] == #[trigger] level.segment[0 + k] by {}
        assert forall|k: int| 0 <= k < m implies steps[at + n + k] == #[trigger] level.shunt[0
            + k] by {}
        assert forall|k: int| at + 1 <= k < at + n implies !(#[trigger] steps[k] is Shunt) by {
            assert(!(level.segment[k - at] is Shunt));
        }
        assert forall|k: int| at + n <= k < at + n + m implies linking(#[trigger] steps[k]) by {
            assert(linking(level.shunt[k - at - n]));
        }
        if rest.len() > 0 {
            assert(steps[at + n + m] == rest[0]);
        }
        assert(linking(steps[at + n]));
        assert(steps[at + n - 1] == level.segment[n - 1]);
        lemma_segment_end_is(steps, at + 1, at + n);
        lemma_shunt_end_is(steps, at + n, at + n + m);
        lemma_shunt_end_is(steps, at + n + 1, at + n + m);
        lemma_segment_path_window(steps, at, level.segment, 0, n);
        lemma_segment_hash_window(steps, at, level.segment, 0, n, below);
        assert forall|k: int| 0 <= k < m - 1 implies steps[at + n + k] == #[trigger] level.shunt[0
            + k] by {}
        lemma_tail_hash_window(steps, at + n, level.shunt, 0, m - 1, below_root);
        assert(steps[at + n + m - 1] == level.shunt[m - 1]);
        assert(alternates(steps, at + n + m, prefix) ==> alternates(steps, at, longer));
        assert forall|end: Seq<u8>|
            leads_on(steps, at + n + m, root, block, end, blocks) implies #[trigger] leads_to(
            steps,
            end,
            blocks,
        ) by {
            assert(leads_on(steps, at, below_root, below, end, blocks));
        }
        assert(whole.len() == at + n + m);
    }
}

/// A start of a proof that leads to a block's root hash is a proof from that block.
proof fn lemma_carries_proves(
    steps: Seq<Step>,
    path: Seq<u8>,
    prefix: Seq<u8>,
    value: Seq<u8>,
    root: Seq<u8>,
    block: Seq<u8>,
    blocks: spec_fn(Seq<u8>) -> Option<Seq<u8>>,
)
    requires
        carries(steps, path, prefix, value, root, block, blocks),
    ensures
        proves(steps, path, value, root, blocks),
{
    reveal(carries);
    let none = Seq::<Step>::empty();
    assert(goes_on(none));
    assert(steps + none =~= steps);
    assert(carried(steps, none, path, prefix, value, root, block, blocks));
    assert(leads_on(steps, steps.len() as int, root, block, root, blocks));
    assert(leads_to(steps, root, blocks));
}

impl Forest {
    /// Whether a block that records the height of another has it as its ancestor there.
    pub open spec fn heights_agree(self) -> bool {
        forall|name: Seq<u8>, block: Seq<u8>|
            #[trigger] self.height(name, block) matches Ok(Some(height)) ==> self.height(
                block,
                block,
            ) matches Ok(Some(own)) ==> height <= own && self.at_height(height, block) == Ok::<
                Option<Seq<u8>>,
                Fault,
            >(Some(name))
    }

    /// Whether no trie points back to itself.
    pub open spec fn leads_back(self, block: Seq<u8>, ptrs: Seq<TriePtr>) -> bool {
        forall|i: int|
            0 <= i < ptrs.len() && (#[trigger] ptrs[i]).id >= 128 ==> self.name(ptrs[i].back_block)
                != Ok::<Seq<u8>, Fault>(block)
    }

    /// Whether back-pointers lead to other tries than their own.
    pub open spec fn backptrs_lead_back(self) -> bool {
        forall|block: Seq<u8>, ptr: TriePtr|
            #[trigger] self.node(block, ptr) matches Ok(node) ==> self.leads_back(block, node.ptrs())
    }

    /// Whether pointers name the types of the nodes that they lead to.
    pub open spec fn types_agree(self) -> bool {
        forall|block: Seq<u8>, ptr: TriePtr|
            #[trigger] self.node(block, ptr) matches Ok(node) ==> ptr.id == node.id().code()
    }

    /// Whether the path of a leaf completes the path that leads to it.
    pub open spec fn leaves_complete_paths(self) -> bool {
        forall|block: Seq<u8>, path: Seq<u8>, ptrs: Seq<TriePtr>, index: int|
            #[trigger] self.on_path(block, path, ptrs, index) && path.len() == 32 ==> (self.node(
                block,
                ptrs.last(),
            ) matches Ok(Node::Leaf(leaf)) ==> index + leaf.path.len() == 32)
    }

    /// Whether roots are 256-slot branches.
    pub open spec fn roots_are_full(self) -> bool {
        forall|block: Seq<u8>|
            #[trigger] self.node(block, self.root(block)) matches Ok(node) ==> node.id() is Node256
    }

    /// How many bytes of a path lead through a block's own trie: all of them to a leaf, and fewer to
    /// a back-pointer.
    pub open spec fn reach(self, block: Seq<u8>, path: Seq<u8>) -> int {
        match self.segment(block, Position::start(path, self.root(block)), 33) {
            (Ok(LeafOrBackptr::Backptr(_)), at) => at.index,
            _ => path.len() as int,
        }
    }

    /// Whether a path leads at least as far through the trie that a back-pointer leads to as through
    /// the trie that points back.
    pub open spec fn goes_further(self, block: Seq<u8>, path: Seq<u8>) -> bool {
        self.segment(block, Position::start(path, self.root(block)), 33).0 matches Ok(
            LeafOrBackptr::Backptr(child),
        ) ==> self.name(child.back_block) matches Ok(next) ==> self.reach(block, path)
            <= self.reach(next, path)
    }

    /// Whether paths lead at least as far through the tries that back-pointers lead to.
    pub open spec fn backptrs_go_further(self) -> bool {
        forall|block: Seq<u8>, path: Seq<u8>|
            path.len() == 32 ==> #[trigger] self.goes_further(block, path)
    }

    /// Whether every root hash names its block.
    pub open spec fn roots_are_named(self, blocks: spec_fn(Seq<u8>) -> Option<Seq<u8>>) -> bool {
        forall|block: Seq<u8>|
            #[trigger] self.root_hash(block) matches Ok(root) ==> blocks(root) == Some(block)
    }

    /// Whether tries, their hashes and their ancestry fit together, and root hashes name blocks.
    pub open spec fn consistent(self, blocks: spec_fn(Seq<u8>) -> Option<Seq<u8>>) -> bool {
        &&& self.nodes_are_wf()
        &&& self.types_agree()
        &&& self.edges_agree()
        &&& self.leaves_complete_paths()
        &&& self.child_hashes_agree()
        &&& self.roots_agree()
        &&& self.heights_agree()
        &&& self.forks_agree()
        &&& self.backptrs_lead_back()
        &&& self.backptrs_go_further()
        &&& self.roots_are_full()
        &&& self.roots_are_named(blocks)
    }
}

/// The level of the trie that holds the leaf shows the leaf's value.
proof fn lemma_leaf_level_grounds(
    forest: Forest,
    block: Seq<u8>,
    at: Position,
    ptr: TriePtr,
    leaf: Leaf,
    index: int,
    value: Seq<u8>,
    blocks: spec_fn(Seq<u8>) -> Option<Seq<u8>>,
)
    requires
        forest.consistent(blocks),
        at.path.len() == 32,
        at.ptrs.first() == forest.root(block),
        forest.ends_on_path(block, at, LeafOrBackptr::Leaf { ptr, leaf }, index),
        forest.value(leaf) == Ok::<Seq<u8>, Fault>(value),
        forest.level(block, at, ptr) is Ok,
        forest.root_hash(block) is Ok,
    ensures
        grounds(
            forest.level(block, at, ptr)->Ok_0,
            at.path,
            value,
            forest.root_hash(block)->Ok_0,
        ),
{
    reveal(grounds);
    let chr = at.path[at.index - 1];
    let level = forest.level(block, at, ptr)->Ok_0;
    let step = forest.segment_step(block, ptr, chr)->Ok_0;
    assert(forest.node(block, ptr) == Ok::<Node, Fault>(Node::Leaf(leaf)));
    assert(ptr.id == 1);
    lemma_segment_steps_behind(
        forest,
        block,
        at.ptrs.drop_last(),
        ptr.chr,
        Seq::<Step>::empty().push(step),
    );
    lemma_segment_leads_to_root(forest, block, at.path, at.ptrs, index, chr, Seq::empty());
    assert(forest.root_agrees(block));
    assert(at.path.subrange(0, index) + leaf.path =~= at.path) by {
        if index < 32 {
            assert(leaf.path == at.path.subrange(index, 32));
        }
    }
}

/// The level of a trie that points back links the trie that it points to.
proof fn lemma_backptr_level_links(
    forest: Forest,
    block: Seq<u8>,
    at: Position,
    child: TriePtr,
    index: int,
    next: Seq<u8>,
    blocks: spec_fn(Seq<u8>) -> Option<Seq<u8>>,
)
    requires
        forest.consistent(blocks),
        at.path.len() == 32,
        at.ptrs.first() == forest.root(block),
        forest.ends_on_path(block, at, LeafOrBackptr::Backptr(child), index),
        forest.name(child.back_block) == Ok::<Seq<u8>, Fault>(next),
        forest.level(block, at, child) is Ok,
    ensures
        forest.root_hash(block) is Ok,
        forest.root_hash(next) is Ok,
        links(
            forest.level(block, at, child)->Ok_0,
            at.path.subrange(0, at.index),
            next,
            forest.root_hash(next)->Ok_0,
            forest.root_hash(block)->Ok_0,
        ),
{
    reveal(links);
    let chr = at.path[at.index - 1];
    let last = at.ptrs.last();
    let level = forest.level(block, at, child)->Ok_0;
    let branch = forest.node(block, last)->Ok_0->Branch_0;
    let step = forest.segment_step(block, last, chr)->Ok_0;
    assert(own_edges(forest.node(block, last)->Ok_0));
    assert(forest.node(block, last)->Ok_0.walk(chr) == Some(child));
    assert(child.chr == chr);
    lemma_segment_steps_behind(
        forest,
        block,
        at.ptrs.drop_last(),
        last.chr,
        Seq::<Step>::empty().push(step),
    );
    lemma_step_restores_hash(forest, block, last, child, next);
    lemma_segment_leads_to_root(forest, block, at.path, at.ptrs, index, chr, next);
    assert(at.path.subrange(0, index) + (branch.path + seq![chr]) =~= at.path.subrange(0, at.index)) by {
        assert forall|i: int| 0 <= i < at.index implies (at.path.subrange(0, index) + (branch.path
            + seq![chr]))[i] == at.path.subrange(0, at.index)[i] by {
            if index <= i < at.index - 1 {
                assert(at.path.subrange(index, at.index - 1)[i - index] == branch.path[i - index]);
            }
        }
    }
    let prefix = at.path.subrange(0, at.index);
    assert(at.path.subrange(0, prefix.len() as int) =~= prefix);
    // The ancestor is below the block.
    let slot = branch.find(chr)->0;
    lemma_slot_in_range(branch, chr);
    assert(forest.leads_back(block, forest.node(block, last)->Ok_0.ptrs()));
    assert(branch.ptrs[slot] == child);
    assert(next != block);
    let target = forest.root_hash(next)->Ok_0;
    let ancestor = forest.height(next, block)->Ok_0->0;
    let current = forest.height(block, block)->Ok_0->0;
    assert(forest.at_height(ancestor, block) == Ok::<Option<Seq<u8>>, Fault>(Some(next)));
    assert(forest.at_height(current, block) == Ok::<Option<Seq<u8>>, Fault>(Some(block)));
    assert(ancestor < current);
    lemma_shunts_lead_back(forest, block, current, ancestor, next, target, Seq::empty());
    let all = forest.shunts_back(block, current, ancestor, target, Seq::empty())->Ok_0;
    assert(all.subrange(0, all.len() as int) =~= all);
}

proof fn lemma_assembled_first(levels: Seq<Level>)
    requires
        levels.len() > 0,
    ensures
        assembled(levels) == assembled(levels.drop_first()) + (levels.first().segment
            + levels.first().shunt),
    decreases levels.len(),
{
    let first = levels.first().segment + levels.first().shunt;
    if levels.len() == 1 {
        assert(levels.drop_last() =~= Seq::<Level>::empty());
        assert(levels.drop_first() =~= Seq::<Level>::empty());
        reveal_with_fuel(assembled, 2);
        assert(levels.last() == levels.first());
        assert(assembled(levels) =~= Seq::<Step>::empty() + first);
    } else {
        lemma_assembled_first(levels.drop_last());
        let last = levels.last();
        let middle = assembled(levels.drop_last().drop_first());
        assert(levels.drop_first().drop_last() =~= levels.drop_last().drop_first());
        assert(levels.drop_first().last() == last);
        assert(levels.drop_last().first() == levels.first());
        assert(last.segment + last.shunt + (middle + first) =~= (last.segment + last.shunt + middle)
            + first);
    }
}

/// The levels of a proof from a block on lead to the block's root hash.
proof fn lemma_levels_carry(
    forest: Forest,
    block: Seq<u8>,
    path: Seq<u8>,
    value: Seq<u8>,
    before: Seq<Level>,
    fuel: nat,
    blocks: spec_fn(Seq<u8>) -> Option<Seq<u8>>,
)
    requires
        forest.consistent(blocks),
        path.len() == 32,
        forest.root_hash(block) is Ok,
        forest.proof_levels(block, path, value, before, fuel) is Ok,
    ensures
        ({
            let levels = forest.proof_levels(block, path, value, before, fuel)->Ok_0;
            let own = levels.subrange(before.len() as int, levels.len() as int);
            &&& before.len() < levels.len()
            &&& levels.subrange(0, before.len() as int) == before
            &&& 0 <= forest.reach(block, path) <= path.len()
            &&& carries(
                assembled(own),
                path,
                path.subrange(0, forest.reach(block, path)),
                value,
                forest.root_hash(block)->Ok_0,
                block,
                blocks,
            )
        }),
    decreases fuel,
{
    let levels = forest.proof_levels(block, path, value, before, fuel)->Ok_0;
    let own = levels.subrange(before.len() as int, levels.len() as int);
    let start = Position::start(path, forest.root(block));
    let (found, at) = forest.segment(block, start, 33);
    let root = forest.root_hash(block)->Ok_0;
    assert(forest.on_path(block, path, start.ptrs, 0));
    lemma_walk_ends_on_path(forest, block, start, 33);
    let end = found->Ok_0;
    let index = choose|index: int| #[trigger] forest.ends_on_path(block, at, end, index);
    assert(start.ptrs.first() == forest.root(block));
    match end {
        LeafOrBackptr::Leaf { ptr, leaf } => {
            assert(forest.node(block, ptr) == Ok::<Node, Fault>(Node::Leaf(leaf)));
            assert(ptr.id == 1);
            let level = forest.level(block, at, ptr)->Ok_0;
            lemma_leaf_level_grounds(forest, block, at, ptr, leaf, index, value, blocks);
            lemma_grounds_carries(level, path, value, root, block, blocks);
            assert(path.subrange(0, path.len() as int) =~= path);
            assert(levels == before.push(level));
            assert(levels.subrange(0, before.len() as int) =~= before);
            assert(own =~= seq![level]);
            lemma_assembled_first(own);
            assert(own.drop_first() =~= Seq::<Level>::empty());
            assert(assembled(own) =~= level.segment + level.shunt);
        },
        LeafOrBackptr::Backptr(child) => {
            assert(forest.node(block, at.ptrs.last()) is Ok);
            assert(at.ptrs.last().id != 1);
            let level = forest.level(block, at, child)->Ok_0;
            let next = forest.name(child.back_block)->Ok_0;
            let more = before.push(level);
            lemma_backptr_level_links(forest, block, at, child, index, next, blocks);
            lemma_levels_carry(forest, next, path, value, more, (fuel - 1) as nat, blocks);
            let deeper = levels.subrange(more.len() as int, levels.len() as int);
            let longer = path.subrange(0, forest.reach(next, path));
            let prefix = path.subrange(0, forest.reach(block, path));
            assert(forest.goes_further(block, path));
            assert(longer.subrange(0, prefix.len() as int) =~= prefix);
            lemma_links_carries(
                assembled(deeper),
                level,
                path,
                longer,
                prefix,
                value,
                next,
                forest.root_hash(next)->Ok_0,
                root,
                block,
                blocks,
            );
            assert forall|i: int| 0 <= i < more.len() implies levels[i] == more[i] by {
                assert(levels.subrange(0, more.len() as int)[i] == more[i]);
            }
            assert(levels.subrange(0, before.len() as int) =~= before);
            assert(own.first() == level);
            assert(own.drop_first() =~= deeper);
            lemma_assembled_first(own);
        },
    }
}

/// A proof that is made from consistent tries verifies: it shows that its path leads to its value
/// from the root hash of the block that it was made for.
pub proof fn law_made_proofs_verify(
    forest: Forest,
    block: Seq<u8>,
    path: Seq<u8>,
    value: Seq<u8>,
    blocks: spec_fn(Seq<u8>) -> Option<Seq<u8>>,
)
    requires
        forest.consistent(blocks),
        path.len() == 32,
        forest.root_hash(block) is Ok,
        forest.proof_of(block, path, value) is Ok,
    ensures
        proves(
            forest.proof_of(block, path, value)->Ok_0,
            path,
            value,
            forest.root_hash(block)->Ok_0,
            blocks,
        ),
{
    let fuel: nat = 0x1_0000_0000;
    let none = Seq::<Level>::empty();
    let levels = forest.proof_levels(block, path, value, none, fuel)->Ok_0;
    lemma_levels_carry(forest, block, path, value, none, fuel, blocks);
    assert(levels.subrange(0, levels.len() as int) =~= levels);
    lemma_carries_proves(
        assembled(levels),
        path,
        path.subrange(0, forest.reach(block, path)),
        value,
        forest.root_hash(block)->Ok_0,
        block,
        blocks,
    );
}

proof fn lemma_proof_ptrs_exact(forest: Forest, ptrs: Seq<TriePtr>, at: int, before: Seq<ProofPtr>)
    requires
        0 <= at <= ptrs.len(),
        before.len() == at,
        forall|i: int|
            0 <= i < at ==> forest.proof_ptr(ptrs[i]) == Ok::<ProofPtr, Fault>(#[trigger] before[i]),
        forest.proof_ptrs(ptrs, at, before) is Ok,
    ensures
        ({
            let shown = forest.proof_ptrs(ptrs, at, before)->Ok_0;
            &&& shown.len() == ptrs.len()
            &&& forall|i: int|
                0 <= i < ptrs.len() ==> forest.proof_ptr(ptrs[i]) == Ok::<ProofPtr, Fault>(
                    #[trigger] shown[i],
                )
        }),
    decreases ptrs.len() - at,
{
    if at < ptrs.len() {
        lemma_proof_ptrs_exact(forest, ptrs, at + 1, before.push(forest.proof_ptr(ptrs[at])->Ok_0));
    }
}

proof fn lemma_shown_bytes(
    forest: Forest,
    ptrs: Seq<TriePtr>,
    shown: Seq<ProofPtr>,
    table: spec_fn(u32) -> Seq<u8>,
)
    requires
        shown.len() == ptrs.len(),
        forall|i: int|
            0 <= i < ptrs.len() ==> forest.proof_ptr(ptrs[i]) == Ok::<ProofPtr, Fault>(
                #[trigger] shown[i],
            ),
        forall|id: u32| #[trigger] forest.name(id) matches Ok(name) ==> table(id) == name,
    ensures
        proof_ptrs_bytes(shown) == ptrs_commitment(ptrs, table),
    decreases ptrs.len(),
{
    if ptrs.len() > 0 {
        lemma_shown_bytes(forest, ptrs.drop_last(), shown.drop_last(), table);
        assert(forest.proof_ptr(ptrs[ptrs.len() - 1]) == Ok::<ProofPtr, Fault>(
            shown[shown.len() - 1],
        ));
        assert(TrieHash::zero_bytes() =~= Seq::new(32, |i: int| 0u8));
    }
}

/// A proof commits to the same bytes of a branch as the branch's own hash does, so that proofs
/// verify against stored hashes.
pub proof fn law_proof_commits_like_branch(
    forest: Forest,
    branch: Branch,
    table: spec_fn(u32) -> Seq<u8>,
)
    requires
        forest.proof_node(branch) is Ok,
        forall|id: u32| #[trigger] forest.name(id) matches Ok(name) ==> table(id) == name,
    ensures
        (forest.proof_node(branch)->Ok_0).commitment() == branch.commitment(table),
{
    let shown = forest.proof_node(branch)->Ok_0;
    lemma_proof_ptrs_exact(forest, branch.ptrs, 0, Seq::empty());
    lemma_shown_bytes(forest, branch.ptrs, shown.ptrs, table);
}

/// A value that is read together with its proof is the one that a plain read gives, and the proof
/// verifies.
pub proof fn law_values_come_with_proofs(
    forest: Forest,
    block: Seq<u8>,
    path: Seq<u8>,
    blocks: spec_fn(Seq<u8>) -> Option<Seq<u8>>,
)
    requires
        forest.consistent(blocks),
        path.len() == 32,
        forest.root_hash(block) is Ok,
        forest.value_with_proof(block, path) matches Ok(Some(_)),
    ensures
        ({
            let (value, steps) = forest.value_with_proof(block, path)->Ok_0->0;
            &&& forest.lookup(block, path) == Ok::<Option<Seq<u8>>, Fault>(Some(value))
            &&& proves(steps, path, value, forest.root_hash(block)->Ok_0, blocks)
        }),
{
    let (value, steps) = forest.value_with_proof(block, path)->Ok_0->0;
    law_made_proofs_verify(forest, block, path, value, blocks);
}

/// A proof shows one value under one path only, whatever root hashes it is held against.
pub proof fn law_proof_shows_one_value(
    steps: Seq<Step>,
    path: Seq<u8>,
    value: Seq<u8>,
    root: Seq<u8>,
    other_path: Seq<u8>,
    other_value: Seq<u8>,
    other_root: Seq<u8>,
    blocks: spec_fn(Seq<u8>) -> Option<Seq<u8>>,
)
    requires
        proves(steps, path, value, root, blocks),
        proves(steps, other_path, other_value, other_root, blocks),
    ensures
        path == other_path,
        value == other_value,
{
}

} // verus!
