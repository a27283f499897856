//! Making merkle proofs of inclusion.
use vstd::prelude::*;

use crate::cursor::{Position, TrieCursor};
use crate::error::{corrupt, Corruption, Error};
use crate::hash::{copy_id, hash_bytes, sha512_256_of, MarfTrieId, TrieHash};
use crate::leaf::{Leaf, Node, TrieLeaf, TrieNodeType};
use crate::marf_heights::{get_block_at_height, get_block_height_miner_tip};
use crate::marf_read::{
    get_by_path, not_found, walk_to_leaf_or_backptr, LeafOrBackptr, TrieLeafOrBackptr,
};
use crate::merkle_proof::{
    flat, hash_views, lemma_flat_hashes, step_views, ProofNode, ProofPtr, ProofTrieNode,
    ProofTriePtr, Step, TrieMerkleProof, TrieMerkleProofType,
};
use crate::node::{is_backptr, Branch, TrieBranch, TrieNodeID, TriePtr};
use crate::patch::{bad, fault_of, Fault};
use crate::read_storage::{shows, Forest, TrieReadStorage};
use crate::value::MARFValue;
use crate::words::{bytes_eq, push_bytes};

verus! {

impl Forest {
    /// A child pointer, as a proof names its block.
    pub open spec fn proof_ptr(self, ptr: TriePtr) -> Result<ProofPtr, Fault> {
        if ptr.id >= 128 {
            match self.name(ptr.back_block) {
                Ok(name) => Ok(ProofPtr { id: ptr.id, chr: ptr.chr, back_block: name }),
                Err(fault) => Err(fault),
            }
        } else {
            Ok(ProofPtr { id: ptr.id, chr: ptr.chr, back_block: TrieHash::zero_bytes() })
        }
    }

    /// Child pointers from `at` on behind others, as a proof names their blocks.
    pub open spec fn proof_ptrs(self, ptrs: Seq<TriePtr>, at: int, before: Seq<ProofPtr>) -> Result<
        Seq<ProofPtr>,
        Fault,
    >
        decreases ptrs.len() - at,
    {
        if at < 0 || at >= ptrs.len() {
            Ok(before)
        } else {
            match self.proof_ptr(ptrs[at]) {
                Ok(ptr) => self.proof_ptrs(ptrs, at + 1, before.push(ptr)),
                Err(fault) => Err(fault),
            }
        }
    }

    /// A branch, as a proof shows it.
    pub open spec fn proof_node(self, branch: Branch) -> Result<ProofNode, Fault> {
        match self.proof_ptrs(branch.ptrs, 0, Seq::empty()) {
            Ok(ptrs) => Ok(ProofNode { id: branch.id.code(), path: branch.path, ptrs }),
            Err(fault) => Err(fault),
        }
    }
}

/// The hashes of the children other than the one along `chr`, from slot `at` on behind others.
pub open spec fn other_hashes(
    ptrs: Seq<TriePtr>,
    all: Seq<Seq<u8>>,
    chr: u8,
    at: int,
    before: Seq<Seq<u8>>,
) -> Seq<Seq<u8>>
    decreases ptrs.len() - at,
{
    if at < 0 || at >= ptrs.len() {
        before
    } else if ptrs[at].id == 0 {
        other_hashes(ptrs, all, chr, at + 1, before.push(TrieHash::empty_bytes()))
    } else if ptrs[at].chr != chr {
        other_hashes(ptrs, all, chr, at + 1, before.push(all[at]))
    } else {
        other_hashes(ptrs, all, chr, at + 1, before)
    }
}

/// The hashes of the children other than the one along `chr`, if there is exactly one such.
pub open spec fn proof_hashes(ptrs: Seq<TriePtr>, all: Seq<Seq<u8>>, chr: u8) -> Result<
    Seq<Seq<u8>>,
    Fault,
> {
    let hashes = other_hashes(ptrs, all, chr, 0, Seq::empty());
    if hashes.len() + 1 == ptrs.len() {
        Ok(hashes)
    } else {
        Err(not_found())
    }
}

impl Forest {
    /// The proof step of a visited node, above the child along `chr`.
    pub open spec fn segment_step(self, block: Seq<u8>, ptr: TriePtr, chr: u8) -> Result<
        Step,
        Fault,
    > {
        match self.node(block, ptr) {
            Err(fault) => Err(fault),
            Ok(node) => match self.children(block, node.ptrs()) {
                Err(fault) => Err(fault),
                Ok(all) => match node {
                    Node::Leaf(leaf) => match self.value(leaf) {
                        Err(fault) => Err(fault),
                        Ok(value) => Ok(
                            Step::Leaf { chr, leaf: Leaf { data: Some(value), ..leaf } },
                        ),
                    },
                    Node::Branch(branch) => match proof_hashes(branch.ptrs, all, chr) {
                        Err(fault) => Err(fault),
                        Ok(hashes) => match self.proof_node(branch) {
                            Err(fault) => Err(fault),
                            Ok(shown) => Ok(
                                Step::Branch {
                                    chr,
                                    node: shown,
                                    hashes,
                                    capacity: branch.id.slots(),
                                },
                            ),
                        },
                    },
                },
            },
        }
    }

    /// The proof steps of the nodes that pointers lead to, from the last up to the root, behind
    /// others.
    pub open spec fn segment_steps(
        self,
        block: Seq<u8>,
        ptrs: Seq<TriePtr>,
        chr: u8,
        before: Seq<Step>,
    ) -> Result<Seq<Step>, Fault>
        decreases ptrs.len(),
    {
        if ptrs.len() == 0 {
            Ok(before)
        } else {
            match self.segment_step(block, ptrs.last(), chr) {
                Err(fault) => Err(fault),
                Ok(step) => self.segment_steps(
                    block,
                    ptrs.drop_last(),
                    ptrs.last().chr,
                    before.push(step),
                ),
            }
        }
    }
}

/// An array of hashes.
pub fn hash_array<const N: usize>(hashes: &[TrieHash]) -> (out: [TrieHash; N])
    requires
        hashes@.len() == N,
    ensures
        out@ == hashes@,
{
    let mut out: [TrieHash; N] = [TrieHash([0u8; 32]);N];
    let mut at: usize = 0;
    while at < N
        invariant
            at <= N,
            hashes@.len() == N,
            out@.len() == N,
            forall|i: int| 0 <= i < at ==> out@[i] == hashes@[i],
        decreases N - at,
    {
        out[at] = hashes[at];
        at = at + 1;
    }
    assert(out@ =~= hashes@);
    out
}

impl<T: MarfTrieId> ProofTriePtr<T> {
    /// A child pointer, as a proof names its block.
    fn try_from_trie_ptr<S: TrieReadStorage<T>>(other: &TriePtr, storage: &S) -> (ptr: Result<
        Self,
        Error,
    >)
        ensures
            forall|forest: Forest| #[trigger]
                shows(storage, forest) ==> match forest.proof_ptr(*other) {
                    Ok(p) => ptr matches Ok(found) && found@ == p,
                    Err(fault) => ptr matches Err(e) && fault_of(e) == fault,
                },
    {
        let back_block: T = if is_backptr(other.id) {
            match storage.get_block_from_local_id(other.back_block) {
                Ok(block) => block,
                Err(e) => return Err(e),
            }
        } else {
            T::from_bytes(TrieHash::zero().0)
        };
        Ok(ProofTriePtr { id: other.id, chr: other.chr, back_block })
    }
}

impl<T: MarfTrieId> ProofTrieNode<T> {
    /// A branch, as a proof shows it.
    fn try_from_parts<S: TrieReadStorage<T>>(branch: &TrieBranch, storage: &S) -> (node: Result<
        Self,
        Error,
    >)
        ensures
            node is Ok ==> node->Ok_0@.ptrs.len() == branch@.ptrs.len(),
            node is Ok ==> node->Ok_0@.path == branch@.path,
            forall|forest: Forest| #[trigger]
                shows(storage, forest) ==> match forest.proof_node(branch@) {
                    Ok(n) => node matches Ok(found) && found@ == n,
                    Err(fault) => node matches Err(e) && fault_of(e) == fault,
                },
    {
        let mut ptrs: Vec<ProofTriePtr<T>> = Vec::new();
        let mut at: usize = 0;
        let ghost all = branch@.ptrs;
        assert(ptr_views(ptrs@) =~= Seq::<ProofPtr>::empty());
        while at < branch.ptrs.len()
            invariant
                at <= branch.ptrs@.len(),
                ptrs@.len() == at,
                all == branch.ptrs@,
                forall|forest: Forest| #[trigger]
                    shows(storage, forest) ==> forest.proof_ptrs(all, 0, Seq::empty())
                        == forest.proof_ptrs(all, at as int, ptr_views(ptrs@)),
            decreases branch.ptrs@.len() - at,
        {
            let ghost before = ptr_views(ptrs@);
            match ProofTriePtr::try_from_trie_ptr(&branch.ptrs[at], storage) {
                Ok(ptr) => {
                    let ghost said = ptr@;
                    ptrs.push(ptr);
                    assert(ptr_views(ptrs@) =~= before.push(said));
                },
                Err(e) => return Err(e),
            }
            at = at + 1;
        }
        let mut path: Vec<u8> = Vec::new();
        push_bytes(&mut path, branch.path.as_slice());
        let node = ProofTrieNode { id: branch.id(), path, ptrs };
        assert(node@.ptrs =~= ptr_views(node.ptrs@));
        assert(node@.path =~= branch@.path);
        Ok(node)
    }
}

/// What child pointers of a proof say.
pub open spec fn ptr_views<T: MarfTrieId>(ptrs: Seq<ProofTriePtr<T>>) -> Seq<ProofPtr> {
    Seq::new(ptrs.len(), |i: int| ptrs[i]@)
}

impl<T: MarfTrieId> TrieMerkleProof<T> {
    /// The hashes of the children other than the one along `chr`.
    pub fn make_proof_hashes_for_ptrs(ptrs: &[TriePtr], all_hashes: &[TrieHash], chr: u8) -> (hashes:
        Result<Vec<TrieHash>, Error>)
        requires
            all_hashes@.len() == ptrs@.len(),
        ensures
            match proof_hashes(ptrs@, hash_views(all_hashes@), chr) {
                Ok(h) => hashes matches Ok(found) && hash_views(found@) == h,
                Err(fault) => hashes matches Err(e) && fault_of(e) == fault,
            },
            hashes is Ok ==> hashes->Ok_0@.len() + 1 == ptrs@.len(),
    {
        let mut hashes: Vec<TrieHash> = Vec::new();
        let mut at: usize = 0;
        let ghost all = hash_views(all_hashes@);
        assert(hash_views(hashes@) =~= Seq::<Seq<u8>>::empty());
        while at < ptrs.len()
            invariant
                at <= ptrs@.len(),
                hashes@.len() <= at,
                all_hashes@.len() == ptrs@.len(),
                all == hash_views(all_hashes@),
                other_hashes(ptrs@, all, chr, 0, Seq::empty()) == other_hashes(
                    ptrs@,
                    all,
                    chr,
                    at as int,
                    hash_views(hashes@),
                ),
            decreases ptrs@.len() - at,
        {
            let ghost before = hash_views(hashes@);
            if ptrs[at].id == 0 {
                hashes.push(TrieHash::empty());
                assert(hash_views(hashes@) =~= before.push(TrieHash::empty_bytes()));
            } else if ptrs[at].chr != chr {
                hashes.push(all_hashes[at]);
                assert(hash_views(hashes@) =~= before.push(all[at as int]));
            }
            at = at + 1;
        }
        assert(hash_views(hashes@).len() == hashes@.len());
        if ptrs.len() == 0 || hashes.len() != ptrs.len() - 1 {
            return Err(Error::NotFoundError);
        }
        Ok(hashes)
    }

    /// Given a pointer to the currently-visited node and the byte of the previous node, make a proof
    /// step: all the children's hashes except for the one that corresponds to the previous node.
    fn ptr_to_segment_proof_node<S: TrieReadStorage<T>>(
        storage: &S,
        block: &T,
        ptr: &TriePtr,
        prev_chr: u8,
    ) -> (step: Result<TrieMerkleProofType<T>, Error>)
        ensures
            forall|forest: Forest| #[trigger]
                shows(storage, forest) ==> match forest.segment_step(
                    block.id_bytes(),
                    *ptr,
                    prev_chr,
                ) {
                    Ok(s) => step matches Ok(found) && found@ == s,
                    Err(fault) => step matches Err(e) && fault_of(e) == fault,
                },
    {
        let node: TrieNodeType = match storage.read_node(block, ptr) {
            Ok(node) => node,
            Err(e) => return Err(e),
        };
        let all_hashes: Vec<TrieHash> = match storage.children_hashes(block, node.ptrs()) {
            Ok(hashes) => hashes,
            Err(e) => return Err(e),
        };
        match node {
            TrieNodeType::Leaf(leaf) => match storage.resolve_leaf_value(&leaf) {
                Ok(value) => {
                    let resolved = TrieLeaf {
                        path: leaf.path,
                        data: Some(value),
                        extent: leaf.extent,
                        inline: leaf.inline,
                    };
                    assert(resolved@ =~= Leaf { data: Some(value@), ..leaf@ });
                    Ok(TrieMerkleProofType::Leaf((prev_chr, resolved)))
                },
                Err(e) => Err(e),
            },
            TrieNodeType::Branch(branch) => {
                let hashes: Vec<TrieHash> = match Self::make_proof_hashes_for_ptrs(
                    branch.ptrs.as_slice(),
                    all_hashes.as_slice(),
                    prev_chr,
                ) {
                    Ok(hashes) => hashes,
                    Err(e) => return Err(e),
                };
                let shown: ProofTrieNode<T> = match ProofTrieNode::try_from_parts(
                    &branch,
                    storage,
                ) {
                    Ok(shown) => shown,
                    Err(e) => return Err(e),
                };
                let kept: &[TrieHash] = hashes.as_slice();
                if branch.ptrs.len() == 4 {
                    Ok(TrieMerkleProofType::Node4((prev_chr, shown, hash_array::<3>(kept))))
                } else if branch.ptrs.len() == 16 {
                    Ok(TrieMerkleProofType::Node16((prev_chr, shown, hash_array::<15>(kept))))
                } else if branch.ptrs.len() == 48 {
                    Ok(TrieMerkleProofType::Node48((prev_chr, shown, hash_array::<47>(kept))))
                } else {
                    Ok(TrieMerkleProofType::Node256((prev_chr, shown, hash_array::<255>(kept))))
                }
            },
        }
    }

    /// Given a list of pointers of one trie, from its root on, make a segment of a proof.
    pub fn make_segment_proof<S: TrieReadStorage<T>>(
        storage: &S,
        block: &T,
        ptrs: &[TriePtr],
        starting_chr: u8,
    ) -> (segment: Result<Vec<TrieMerkleProofType<T>>, Error>)
        ensures
            forall|forest: Forest| #[trigger]
                shows(storage, forest) ==> match forest.segment_steps(
                    block.id_bytes(),
                    ptrs@,
                    starting_chr,
                    Seq::empty(),
                ) {
                    Ok(s) => segment matches Ok(found) && step_views(found@) == s,
                    Err(fault) => segment matches Err(e) && fault_of(e) == fault,
                },
    {
        let mut steps: Vec<TrieMerkleProofType<T>> = Vec::new();
        let mut chr: u8 = starting_chr;
        let mut left: usize = ptrs.len();
        let ghost name = block.id_bytes();
        assert(ptrs@.subrange(0, left as int) =~= ptrs@);
        assert(step_views(steps@) =~= Seq::<Step>::empty());
        while left > 0
            invariant
                left <= ptrs@.len(),
                name == block.id_bytes(),
                forall|forest: Forest| #[trigger]
                    shows(storage, forest) ==> forest.segment_steps(
                        name,
                        ptrs@,
                        starting_chr,
                        Seq::empty(),
                    ) == forest.segment_steps(
                        name,
                        ptrs@.subrange(0, left as int),
                        chr,
                        step_views(steps@),
                    ),
            decreases left,
        {
            let ptr: TriePtr = ptrs[left - 1];
            let ghost part = ptrs@.subrange(0, left as int);
            assert(part.last() == ptr);
            assert(part.drop_last() =~= ptrs@.subrange(0, left - 1));
            let ghost before = step_views(steps@);
            match Self::ptr_to_segment_proof_node(storage, block, &ptr, chr) {
                Ok(step) => {
                    let ghost said = step@;
                    steps.push(step);
                    assert(step_views(steps@) =~= before.push(said));
                },
                Err(e) => return Err(e),
            }
            chr = ptr.chr;
            left = left - 1;
        }
        Ok(steps)
    }
}

/// The exponent of the largest power of two in a number.
pub open spec fn doublings(n: nat) -> nat
    decreases n,
{
    if n < 2 {
        0
    } else {
        1 + doublings(n / 2)
    }
}

/// The largest power of two in a number.
pub open spec fn stride(n: nat) -> nat
    decreases n,
{
    if n < 2 {
        1
    } else {
        2 * stride(n / 2)
    }
}

/// The largest power of two in a number is no more than it, and more than half of it.
pub proof fn law_stride_bounds(n: nat)
    requires
        n > 0,
    ensures
        0 < stride(n) <= n,
        n < 2 * stride(n),
    decreases n,
{
    if n >= 2 {
        law_stride_bounds(n / 2);
    }
}

/// The place of the farthest ancestor that is not beyond `distance`, and its distance.
fn farthest(distance: u32) -> (found: (usize, u32))
    requires
        distance > 0,
    ensures
        found.0 == doublings(distance as nat),
        found.1 == stride(distance as nat),
        found.0 < 32,
        0 < found.1 <= distance,
    decreases distance,
{
    if distance < 2 {
        (0, 1)
    } else {
        let (place, step) = farthest(distance / 2);
        proof {
            law_stride_bounds(distance as nat);
            lemma_doublings_bound((distance / 2) as nat);
        }
        (place + 1, step * 2)
    }
}

proof fn lemma_doublings_bound(n: nat)
    requires
        n < 0x8000_0000,
    ensures
        doublings(n) < 31,
{
    reveal_with_fuel(doublings, 32);
}

/// Hashes without the one at a place, if there is one.
pub open spec fn without(hashes: Seq<Seq<u8>>, place: int) -> Seq<Seq<u8>> {
    if 0 <= place < hashes.len() {
        hashes.remove(place)
    } else {
        hashes
    }
}

impl Forest {
    /// The hash of a block's root node, without its ancestors.
    pub open spec fn root_node_hash(self, block: Seq<u8>) -> Result<Seq<u8>, Fault> {
        match self.node(block, self.root(block)) {
            Err(fault) => Err(fault),
            Ok(node) => if node.id() != TrieNodeID::Node256 {
                Err(bad(Corruption::InvalidRootType))
            } else {
                match self.children(block, node.ptrs()) {
                    Err(fault) => Err(fault),
                    Ok(hashes) => match self.proof_node(node->Branch_0) {
                        Err(fault) => Err(fault),
                        Ok(shown) => Ok(sha512_256_of(shown.commitment() + flat(hashes))),
                    },
                }
            },
        }
    }

    /// The shunt from a block to its ancestor at a place: behind the first shunt, the block's own
    /// root node comes before its ancestors.
    pub open spec fn shunt_step(
        self,
        block: Seq<u8>,
        hashes: Seq<Seq<u8>>,
        place: int,
        first: bool,
    ) -> Result<Step, Fault> {
        if first {
            Ok(Step::Shunt { idx: place + 1, hashes: without(hashes, place) })
        } else {
            match self.root_node_hash(block) {
                Err(fault) => Err(fault),
                Ok(root) => Ok(
                    Step::Shunt { idx: place + 2, hashes: seq![root] + without(hashes, place) },
                ),
            }
        }
    }

    /// Shunts that lead to a block, once the block is open.
    pub open spec fn shunts_to(self, block: Seq<u8>, steps: Seq<Step>) -> Result<Seq<Step>, Fault> {
        match self.opens(block) {
            Err(fault) => Err(fault),
            Ok(()) => Ok(steps),
        }
    }

    /// The shunts from a block at height `current` back to an ancestor, behind others. The block
    /// that they lead to is opened last.
    pub open spec fn shunts_back(
        self,
        block: Seq<u8>,
        current: u32,
        ancestor: u32,
        target: Seq<u8>,
        before: Seq<Step>,
    ) -> Result<Seq<Step>, Fault>
        decreases current,
    {
        if current <= ancestor {
            self.shunts_to(block, before)
        } else {
            match self.opens(block) {
                Err(fault) => Err(fault),
                Ok(()) => match self.root_hash(block) {
                    Err(fault) => Err(fault),
                    Ok(_) => match self.ancestors(block) {
                        Err(fault) => Err(fault),
                        Ok(hashes) => {
                            let distance = (current - ancestor) as nat;
                            let place = doublings(distance) as int;
                            let found = hashes.contains(target);
                            let next = current - stride(distance);
                            if found && !(place < hashes.len() && hashes[place] == target) {
                                Err(bad(Corruption::AncestorMisplaced))
                            } else if next < 0 || next >= current {
                                Ok(before)
                            } else {
                                match self.at_height(next as u32, block) {
                                    Err(fault) => Err(fault),
                                    Ok(None) => Err(bad(Corruption::MissingBlockAtHeight)),
                                    Ok(Some(below)) => match self.shunt_step(
                                        block,
                                        hashes,
                                        place,
                                        before.len() == 0,
                                    ) {
                                        Err(fault) => Err(fault),
                                        Ok(step) => if found {
                                            self.shunts_to(below, before.push(step))
                                        } else {
                                            self.shunts_back(
                                                below,
                                                next as u32,
                                                ancestor,
                                                target,
                                                before.push(step),
                                            )
                                        },
                                    },
                                }
                            }
                        },
                    },
                },
            }
        }
    }

    /// The shunts that link a block to the trie that a back-pointer leads to, the farthest first.
    pub open spec fn backptr_shunts(self, block: Seq<u8>, backptr: TriePtr) -> Result<
        Seq<Step>,
        Fault,
    > {
        match self.ancestor_block(backptr) {
            Err(fault) => Err(fault),
            Ok(name) => match self.root_hash(name) {
                Err(fault) => Err(fault),
                Ok(target) => match self.height(name, block) {
                    Err(fault) => Err(fault),
                    Ok(None) => Err(bad(Corruption::MissingBlockHeight)),
                    Ok(Some(ancestor)) => match self.height(block, block) {
                        Err(fault) => Err(fault),
                        Ok(None) => Err(bad(Corruption::MissingBlockHeight)),
                        Ok(Some(current)) => match self.shunts_back(
                            block,
                            current,
                            ancestor,
                            target,
                            Seq::empty(),
                        ) {
                            Err(fault) => Err(fault),
                            Ok(steps) => Ok(steps.reverse()),
                        },
                    },
                },
            },
        }
    }

    /// The shunt of the trie that holds the leaf.
    pub open spec fn first_shunt(self, block: Seq<u8>) -> Result<Seq<Step>, Fault> {
        match self.ancestors(block) {
            Err(fault) => Err(fault),
            Ok(hashes) => Ok(seq![Step::Shunt { idx: 0, hashes }]),
        }
    }
}

/// Whether a hash occurs among others.
fn has_hash(hashes: &[TrieHash], hash: &TrieHash) -> (found: bool)
    ensures
        found == hash_views(hashes@).contains(hash@),
{
    let mut at: usize = 0;
    while at < hashes.len()
        invariant
            at <= hashes@.len(),
            forall|i: int| 0 <= i < at ==> hashes@[i]@ != hash@,
        decreases hashes@.len() - at,
    {
        if bytes_eq(hashes[at].as_bytes(), hash.as_bytes()) {
            assert(hash_views(hashes@)[at as int] == hash@);
            return true;
        }
        at = at + 1;
    }
    proof {
        if hash_views(hashes@).contains(hash@) {
            let i = choose|i: int|
                0 <= i < hash_views(hashes@).len() && hash_views(hashes@)[i] == hash@;
            assert(hashes@[i]@ == hash@);
        }
    }
    false
}

/// Append hashes without the one at a place.
fn push_without(out: &mut Vec<TrieHash>, hashes: &[TrieHash], place: usize)
    ensures
        hash_views(final(out)@) == hash_views(old(out)@) + without(
            hash_views(hashes@),
            place as int,
        ),
{
    let mut at: usize = 0;
    assert(out@ =~= old(out)@ + hashes@.subrange(0, 0));
    while at < hashes.len()
        invariant
            at <= hashes@.len(),
            out@ == old(out)@ + if at <= place {
                hashes@.subrange(0, at as int)
            } else {
                hashes@.subrange(0, at as int).remove(place as int)
            },
        decreases hashes@.len() - at,
    {
        if at != place {
            out.push(hashes[at]);
        }
        at = at + 1;
        assert(out@ =~= old(out)@ + if at <= place {
            hashes@.subrange(0, at as int)
        } else {
            hashes@.subrange(0, at as int).remove(place as int)
        });
    }
    assert(hashes@.subrange(0, at as int) =~= hashes@);
    assert(hash_views(out@) =~= hash_views(old(out)@) + without(hash_views(hashes@), place as int));
}

impl<T: MarfTrieId> TrieMerkleProof<T> {
    /// The hash of a block's root node, without its ancestors.
    fn read_root_node_hash<S: TrieReadStorage<T>>(storage: &S, block: &T) -> (hash: Result<
        TrieHash,
        Error,
    >)
        ensures
            forall|forest: Forest| #[trigger]
                shows(storage, forest) ==> match forest.root_node_hash(block.id_bytes()) {
                    Ok(h) => hash matches Ok(found) && found@ == h,
                    Err(fault) => hash matches Err(e) && fault_of(e) == fault,
                },
    {
        let root_ptr: TriePtr = storage.root_trieptr(block);
        let branch: TrieBranch = match storage.read_node(block, &root_ptr) {
            Ok(TrieNodeType::Branch(branch)) => branch,
            Ok(TrieNodeType::Leaf(_)) => return Err(corrupt(Corruption::InvalidRootType)),
            Err(e) => return Err(e),
        };
        if branch.id != TrieNodeID::Node256 {
            return Err(corrupt(Corruption::InvalidRootType));
        }
        let hashes: Vec<TrieHash> = match storage.children_hashes(block, branch.ptrs.as_slice()) {
            Ok(hashes) => hashes,
            Err(e) => return Err(e),
        };
        let shown: ProofTrieNode<T> = match ProofTrieNode::try_from_parts(&branch, storage) {
            Ok(shown) => shown,
            Err(e) => return Err(e),
        };
        let mut data: Vec<u8> = Vec::new();
        shown.write_consensus_bytes(&mut data);
        push_bytes(&mut data, hash_bytes(hashes.as_slice()).as_slice());
        proof {
            lemma_flat_hashes(hashes@);
        }
        assert(data@ =~= shown@.commitment() + flat(hash_views(hashes@)));
        Ok(TrieHash::of_bytes(data.as_slice()))
    }

    /// Make the shunt of the trie that holds the leaf.
    pub fn make_initial_shunt_proof<S: TrieReadStorage<T>>(storage: &S, block: &T) -> (shunt: Result<
        Vec<TrieMerkleProofType<T>>,
        Error,
    >)
        ensures
            forall|forest: Forest| #[trigger]
                shows(storage, forest) ==> match forest.first_shunt(block.id_bytes()) {
                    Ok(s) => shunt matches Ok(found) && step_views(found@) == s,
                    Err(fault) => shunt matches Err(e) && fault_of(e) == fault,
                },
    {
        match storage.ancestor_hashes(block) {
            Ok(hashes) => {
                let mut shunt: Vec<TrieMerkleProofType<T>> = Vec::new();
                let ghost said = Step::Shunt { idx: 0, hashes: hash_views(hashes@) };
                shunt.push(TrieMerkleProofType::Shunt((0, hashes)));
                assert(step_views(shunt@) =~= seq![said]);
                Ok(shunt)
            },
            Err(e) => Err(e),
        }
    }

    /// The shunt from a block to its ancestor at a place.
    fn make_shunt_step<S: TrieReadStorage<T>>(
        storage: &S,
        block: &T,
        hashes: &[TrieHash],
        place: usize,
        first: bool,
    ) -> (step: Result<TrieMerkleProofType<T>, Error>)
        requires
            place < 32,
        ensures
            forall|forest: Forest| #[trigger]
                shows(storage, forest) ==> match forest.shunt_step(
                    block.id_bytes(),
                    hash_views(hashes@),
                    place as int,
                    first,
                ) {
                    Ok(s) => step matches Ok(found) && found@ == s,
                    Err(fault) => step matches Err(e) && fault_of(e) == fault,
                },
    {
        let mut kept: Vec<TrieHash> = Vec::new();
        let mut idx: i64 = place as i64 + 1;
        if !first {
            match Self::read_root_node_hash(storage, block) {
                Ok(root) => kept.push(root),
                Err(e) => return Err(e),
            }
            idx = idx + 1;
        }
        let ghost head = hash_views(kept@);
        push_without(&mut kept, hashes, place);
        proof {
            if first {
                assert(hash_views(kept@) =~= without(hash_views(hashes@), place as int));
            } else {
                assert(head =~= seq![head[0]]);
            }
        }
        Ok(TrieMerkleProofType::Shunt((idx, kept)))
    }

    /// Make the shunts that link a block to the trie that a back-pointer leads to: a proof that the
    /// block's root is only reachable from the ancestor's. The proof is built backwards, from the
    /// current block all the way back.
    pub fn make_backptr_shunt_proof<S: TrieReadStorage<T>>(
        storage: &S,
        block: &T,
        backptr: &TriePtr,
    ) -> (shunt: Result<Vec<TrieMerkleProofType<T>>, Error>)
        requires
            is_backptr(backptr.id),
        ensures
            forall|forest: Forest| #[trigger]
                shows(storage, forest) ==> match forest.backptr_shunts(
                    block.id_bytes(),
                    *backptr,
                ) {
                    Ok(s) => shunt matches Ok(found) && step_views(found@) == s,
                    Err(fault) => shunt matches Err(e) && fault_of(e) == fault,
                },
    {
        let ancestor_block: T = match storage.get_block_from_local_id(backptr.back_block) {
            Ok(found) => found,
            Err(e) => return Err(e),
        };
        match storage.open_block(&ancestor_block) {
            Ok(()) => {},
            Err(e) => return Err(e),
        }
        let target: TrieHash = match storage.read_root_hash(&ancestor_block) {
            Ok(hash) => hash,
            Err(e) => return Err(e),
        };
        let ancestor: u32 = match get_block_height_miner_tip(storage, &ancestor_block, block) {
            Ok(Some(height)) => height,
            Ok(None) => return Err(corrupt(Corruption::MissingBlockHeight)),
            Err(e) => return Err(e),
        };
        let mut current: u32 = match get_block_height_miner_tip(storage, block, block) {
            Ok(Some(height)) => height,
            Ok(None) => return Err(corrupt(Corruption::MissingBlockHeight)),
            Err(e) => return Err(e),
        };
        let mut at: T = copy_id(block);
        let mut steps: Vec<TrieMerkleProofType<T>> = Vec::new();
        let mut found: bool = false;
        let ghost start = current;
        let ghost name = block.id_bytes();
        assert(step_views(steps@) =~= Seq::<Step>::empty());
        while current > ancestor && !found
            invariant
                name == block.id_bytes(),
                forall|forest: Forest| #[trigger]
                    shows(storage, forest) ==> forest.shunts_back(
                        name,
                        start,
                        ancestor,
                        target@,
                        Seq::empty(),
                    ) == if found {
                        forest.shunts_to(at.id_bytes(), step_views(steps@))
                    } else {
                        forest.shunts_back(
                            at.id_bytes(),
                            current,
                            ancestor,
                            target@,
                            step_views(steps@),
                        )
                    },
                forall|forest: Forest| #[trigger]
                    shows(storage, forest) ==> forest.backptr_shunts(name, *backptr)
                        == match forest.shunts_back(name, start, ancestor, target@, Seq::empty()) {
                        Err(fault) => Err(fault),
                        Ok(all) => Ok(all.reverse()),
                    },
            decreases current,
        {
            match storage.open_block(&at) {
                Ok(()) => {},
                Err(e) => return Err(e),
            }
            match storage.read_root_hash(&at) {
                Ok(_) => {},
                Err(e) => return Err(e),
            }
            let hashes: Vec<TrieHash> = match storage.ancestor_hashes(&at) {
                Ok(hashes) => hashes,
                Err(e) => return Err(e),
            };
            found = has_hash(hashes.as_slice(), &target);
            let (place, step) = farthest(current - ancestor);
            if found && !(place < hashes.len() && bytes_eq(
                hashes[place].as_bytes(),
                target.as_bytes(),
            )) {
                return Err(corrupt(Corruption::AncestorMisplaced));
            }
            let next: u32 = current - step;
            let below: T = match get_block_at_height(storage, next, &at) {
                Ok(Some(below)) => below,
                Ok(None) => return Err(corrupt(Corruption::MissingBlockAtHeight)),
                Err(e) => return Err(e),
            };
            let ghost before = step_views(steps@);
            match Self::make_shunt_step(storage, &at, hashes.as_slice(), place, steps.len() == 0) {
                Ok(made) => {
                    let ghost said = made@;
                    steps.push(made);
                    assert(step_views(steps@) =~= before.push(said));
                },
                Err(e) => return Err(e),
            }
            current = next;
            at = below;
        }
        match storage.open_block(&at) {
            Ok(()) => {},
            Err(e) => return Err(e),
        }
        Ok(reversed(steps))
    }
}

/// Steps in reverse order.
fn reversed<T: MarfTrieId>(steps: Vec<TrieMerkleProofType<T>>) -> (out: Vec<TrieMerkleProofType<T>>)
    ensures
        step_views(out@) == step_views(steps@).reverse(),
{
    let mut left: Vec<TrieMerkleProofType<T>> = steps;
    let mut out: Vec<TrieMerkleProofType<T>> = Vec::new();
    let ghost all = step_views(steps@);
    while left.len() > 0
        invariant
            left@.len() + out@.len() == all.len(),
            step_views(left@) == all.subrange(0, left@.len() as int),
            forall|i: int| 0 <= i < out@.len() ==> #[trigger] out@[i]@ == all[all.len() - 1 - i],
        decreases left@.len(),
    {
        let ghost before = left@;
        match left.pop() {
            Some(step) => {
                assert(step@ == step_views(before)[before.len() - 1]);
                out.push(step);
            },
            None => {},
        }
        assert(step_views(left@) =~= step_views(before).subrange(0, left@.len() as int));
        assert(step_views(left@) =~= all.subrange(0, left@.len() as int));
    }
    assert(step_views(out@) =~= all.reverse());
    out
}

/// The part of a proof that is about one trie.
#[verifier::ext_equal]
pub struct Level {
    pub segment: Seq<Step>,
    pub shunt: Seq<Step>,
}

/// The proof that levels make up, the last first.
pub open spec fn assembled(levels: Seq<Level>) -> Seq<Step>
    decreases levels.len(),
{
    if levels.len() == 0 {
        Seq::empty()
    } else {
        levels.last().segment + levels.last().shunt + assembled(levels.drop_last())
    }
}

impl Forest {
    /// The part of a proof about a trie in which a walk ended at a pointer.
    pub open spec fn level(self, block: Seq<u8>, at: Position, end: TriePtr) -> Result<Level, Fault> {
        match self.segment_steps(block, at.ptrs, at.path[at.index - 1], Seq::empty()) {
            Err(fault) => Err(fault),
            Ok(segment) => {
                let shunt = if end.id >= 128 {
                    self.backptr_shunts(block, end)
                } else {
                    self.first_shunt(block)
                };
                match shunt {
                    Err(fault) => Err(fault),
                    Ok(shunt) => Ok(Level { segment, shunt }),
                }
            },
        }
    }

    /// The levels of a proof of a value from a block on, behind others.
    pub open spec fn proof_levels(
        self,
        block: Seq<u8>,
        path: Seq<u8>,
        expected: Seq<u8>,
        before: Seq<Level>,
        fuel: nat,
    ) -> Result<Seq<Level>, Fault>
        decreases fuel,
    {
        if fuel == 0 {
            Err(bad(Corruption::TrieCycle))
        } else {
            match self.opens(block) {
                Err(fault) => Err(fault),
                Ok(()) => {
                    let (found, at) = self.segment(
                        block,
                        Position::start(path, self.root(block)),
                        33,
                    );
                    let reached: Result<(TriePtr, Option<Seq<u8>>), Fault> = match found {
                        Err(fault) => Err(fault),
                        Ok(LeafOrBackptr::Leaf { ptr, leaf }) => match self.value(leaf) {
                            Err(fault) => Err(fault),
                            Ok(value) => Ok((ptr, Some(value))),
                        },
                        Ok(LeafOrBackptr::Backptr(ptr)) => Ok((ptr, None)),
                    };
                    match reached {
                        Err(fault) => Err(fault),
                        Ok((end, value)) => match self.level(block, at, end) {
                            Err(fault) => Err(fault),
                            Ok(level) => if at.ptrs.last().id == 1 {
                                if value == Some(expected) {
                                    Ok(before.push(level))
                                } else {
                                    Err(not_found())
                                }
                            } else {
                                match self.name(end.back_block) {
                                    Err(fault) => Err(fault),
                                    Ok(next) => self.proof_levels(
                                        next,
                                        path,
                                        expected,
                                        before.push(level),
                                        (fuel - 1) as nat,
                                    ),
                                }
                            },
                        },
                    }
                },
            }
        }
    }

    /// The proof that a path leads to a value from a block.
    pub open spec fn proof_of(self, block: Seq<u8>, path: Seq<u8>, expected: Seq<u8>) -> Result<
        Seq<Step>,
        Fault,
    > {
        if self.squash_height() is Some {
            Err(Fault::Error(Error::UnsupportedOnSquashedMarf))
        } else {
            match self.proof_levels(block, path, expected, Seq::empty(), 0x1_0000_0000) {
                Err(fault) => Err(fault),
                Ok(levels) => Ok(assembled(levels)),
            }
        }
    }
}

/// What the parts of a proof say.
pub open spec fn level_views<T: MarfTrieId>(
    levels: Seq<(Vec<TrieMerkleProofType<T>>, Vec<TrieMerkleProofType<T>>)>,
) -> Seq<Level> {
    Seq::new(
        levels.len(),
        |i: int| Level { segment: step_views(levels[i].0@), shunt: step_views(levels[i].1@) },
    )
}

/// Append steps.
fn push_steps<T: MarfTrieId>(
    out: &mut Vec<TrieMerkleProofType<T>>,
    steps: Vec<TrieMerkleProofType<T>>,
)
    ensures
        step_views(final(out)@) == step_views(old(out)@) + step_views(steps@),
{
    let mut rest: Vec<TrieMerkleProofType<T>> = steps;
    out.append(&mut rest);
    assert(step_views(out@) =~= step_views(old(out)@) + step_views(steps@));
}

/// Put the parts of a proof in the right order.
pub fn assemble<T: MarfTrieId>(
    levels: Vec<(Vec<TrieMerkleProofType<T>>, Vec<TrieMerkleProofType<T>>)>,
) -> (proof: Vec<TrieMerkleProofType<T>>)
    ensures
        step_views(proof@) == assembled(level_views(levels@)),
{
    let mut left: Vec<(Vec<TrieMerkleProofType<T>>, Vec<TrieMerkleProofType<T>>)> = levels;
    let mut proof: Vec<TrieMerkleProofType<T>> = Vec::new();
    let ghost all = level_views(levels@);
    assert(step_views(proof@) + assembled(level_views(left@)) =~= assembled(all));
    while left.len() > 0
        invariant
            step_views(proof@) + assembled(level_views(left@)) == assembled(all),
        decreases left@.len(),
    {
        let ghost before = left@;
        let ghost done = step_views(proof@);
        match left.pop() {
            Some((segment, shunt)) => {
                let ghost last = level_views(before).last();
                assert(last.segment == step_views(segment@));
                assert(last.shunt == step_views(shunt@));
                push_steps(&mut proof, segment);
                push_steps(&mut proof, shunt);
                assert(level_views(before).drop_last() =~= level_views(left@));
                assert(step_views(proof@) + assembled(level_views(left@)) =~= done + (
                last.segment + last.shunt + assembled(level_views(left@))));
            },
            None => {},
        }
    }
    assert(step_views(proof@) + assembled(level_views(left@)) =~= step_views(proof@));
    proof
}

impl<T: MarfTrieId> TrieMerkleProof<T> {
    /// Make a merkle proof of inclusion from a path. If the path doesn't resolve, return an error.
    pub fn from_path<S: TrieReadStorage<T>>(
        storage: &S,
        path: &TrieHash,
        expected_value: &MARFValue,
        root_block: &T,
    ) -> (proof: Result<TrieMerkleProof<T>, Error>)
        ensures
            forall|forest: Forest| #[trigger]
                shows(storage, forest) ==> match forest.proof_of(
                    root_block.id_bytes(),
                    path@,
                    expected_value@,
                ) {
                    Ok(steps) => proof matches Ok(found) && step_views(found.0@) == steps,
                    Err(fault) => proof matches Err(e) && fault_of(e) == fault,
                },
    {
        if storage.squash_height().is_some() {
            return Err(Error::UnsupportedOnSquashedMarf);
        }
        let mut levels: Vec<(Vec<TrieMerkleProofType<T>>, Vec<TrieMerkleProofType<T>>)> =
            Vec::new();
        let mut block: T = copy_id(root_block);
        let mut cursor: TrieCursor<T> = TrieCursor::new(path, TriePtr::default());
        let mut visits: u64 = 0;
        let ghost value = expected_value@;
        assert(level_views(levels@) =~= Seq::<Level>::empty());
        while visits < 0x1_0000_0000
            invariant
                visits <= 0x1_0000_0000,
                value == expected_value@,
                forall|forest: Forest| #[trigger]
                    shows(storage, forest) ==> forest.squash_height() is None
                        && forest.proof_levels(
                        root_block.id_bytes(),
                        path@,
                        value,
                        Seq::empty(),
                        0x1_0000_0000,
                    ) == forest.proof_levels(
                        block.id_bytes(),
                        path@,
                        value,
                        level_views(levels@),
                        (0x1_0000_0000 - visits) as nat,
                    ),
            decreases 0x1_0000_0000 - visits,
        {
            match storage.open_block(&block) {
                Ok(()) => {},
                Err(e) => return Err(e),
            }
            let (end, reached): (TriePtr, Option<MARFValue>) = match walk_to_leaf_or_backptr(
                storage,
                &block,
                path,
                &mut cursor,
            ) {
                Ok(TrieLeafOrBackptr::Leaf { ptr, leaf }) => match storage.resolve_leaf_value(
                    &leaf,
                ) {
                    Ok(found) => (ptr, Some(found)),
                    Err(e) => return Err(e),
                },
                Ok(TrieLeafOrBackptr::Backptr(ptr)) => (ptr, None),
                Err(e) => return Err(e),
            };
            let chr: u8 = cursor.path.0[cursor.index - 1];
            let segment: Vec<TrieMerkleProofType<T>> = match Self::make_segment_proof(
                storage,
                &block,
                cursor.node_ptrs.as_slice(),
                chr,
            ) {
                Ok(segment) => segment,
                Err(e) => return Err(e),
            };
            let shunt: Vec<TrieMerkleProofType<T>> = if is_backptr(end.id) {
                match Self::make_backptr_shunt_proof(storage, &block, &end) {
                    Ok(shunt) => shunt,
                    Err(e) => return Err(e),
                }
            } else {
                match Self::make_initial_shunt_proof(storage, &block) {
                    Ok(shunt) => shunt,
                    Err(e) => return Err(e),
                }
            };
            let ghost before = level_views(levels@);
            let ghost level = Level { segment: step_views(segment@), shunt: step_views(shunt@) };
            levels.push((segment, shunt));
            assert(level_views(levels@) =~= before.push(level));
            if cursor.ptr().id == 1 {
                match reached {
                    Some(found) => {
                        if !bytes_eq(&found.0, &expected_value.0) {
                            return Err(Error::NotFoundError);
                        }
                    },
                    None => return Err(Error::NotFoundError),
                }
                return Ok(TrieMerkleProof(assemble(levels)));
            }
            block =
            match storage.get_block_from_local_id(end.back_block) {
                Ok(next) => next,
                Err(e) => return Err(e),
            };
            visits = visits + 1;
        }
        Err(corrupt(Corruption::TrieCycle))
    }
}

/// Resolve a path to a value, and return a proof, or the path's absence.
pub fn get_with_proof_from_hash<T: MarfTrieId, S: TrieReadStorage<T>>(
    storage: &S,
    block_hash: &T,
    path: &TrieHash,
) -> (found: Result<Option<(MARFValue, TrieMerkleProof<T>)>, Error>)
    ensures
        forall|forest: Forest| #[trigger]
            shows(storage, forest) ==> match forest.value_with_proof(block_hash.id_bytes(), path@) {
                Ok(Some(both)) => (found matches Ok(Some(pair)) && pair.0@ == both.0 && step_views(
                    pair.1.0@,
                ) == both.1),
                Ok(None) => found matches Ok(None),
                Err(fault) => found matches Err(e) && fault_of(e) == fault,
            },
{
    if storage.squash_height().is_some() {
        return Err(Error::UnsupportedOnSquashedMarf);
    }
    let value: MARFValue = match get_by_path(storage, block_hash, path) {
        Ok(Some(value)) => value,
        Ok(None) => return Ok(None),
        Err(e) => return Err(e),
    };
    match prove_path(storage, block_hash, path, &value) {
        Ok(proof) => Ok(Some((value, proof))),
        Err(e) => Err(e),
    }
}

/// Prove that a path leads to a value in a block.
pub fn prove_path<T: MarfTrieId, S: TrieReadStorage<T>>(
    storage: &S,
    block_hash: &T,
    path: &TrieHash,
    marf_value: &MARFValue,
) -> (proof: Result<TrieMerkleProof<T>, Error>)
    ensures
        forall|forest: Forest| #[trigger]
            shows(storage, forest) ==> match forest.proof_of(
                block_hash.id_bytes(),
                path@,
                marf_value@,
            ) {
                Ok(steps) => proof matches Ok(found) && step_views(found.0@) == steps,
                Err(fault) => proof matches Err(e) && fault_of(e) == fault,
            },
{
    TrieMerkleProof::from_path(storage, path, marf_value, block_hash)
}

/// Prove that a key leads to a value in a block.
pub fn prove_raw_entry<T: MarfTrieId, S: TrieReadStorage<T>>(
    storage: &S,
    block_hash: &T,
    key: &[u8],
    marf_value: &MARFValue,
) -> (proof: Result<TrieMerkleProof<T>, Error>)
    ensures
        forall|forest: Forest| #[trigger]
            shows(storage, forest) ==> match forest.proof_of(
                block_hash.id_bytes(),
                TrieHash::digest(key@),
                marf_value@,
            ) {
                Ok(steps) => proof matches Ok(found) && step_views(found.0@) == steps,
                Err(fault) => proof matches Err(e) && fault_of(e) == fault,
            },
{
    prove_path(storage, block_hash, &TrieHash::from_data(key), marf_value)
}

/// Resolve a key to a value, and return a proof, or the key's absence.
pub fn get_with_proof<T: MarfTrieId, S: TrieReadStorage<T>>(
    storage: &S,
    block_hash: &T,
    key: &[u8],
) -> (found: Result<Option<(MARFValue, TrieMerkleProof<T>)>, Error>)
    ensures
        forall|forest: Forest| #[trigger]
            shows(storage, forest) ==> match forest.value_with_proof(
                block_hash.id_bytes(),
                TrieHash::digest(key@),
            ) {
                Ok(Some(both)) => (found matches Ok(Some(pair)) && pair.0@ == both.0 && step_views(
                    pair.1.0@,
                ) == both.1),
                Ok(None) => found matches Ok(None),
                Err(fault) => found matches Err(e) && fault_of(e) == fault,
            },
{
    get_with_proof_from_hash(storage, block_hash, &TrieHash::from_data(key))
}

impl Forest {
    /// The value that a path leads to, with its proof, or the path's absence.
    pub open spec fn value_with_proof(self, block: Seq<u8>, path: Seq<u8>) -> Result<
        Option<(Seq<u8>, Seq<Step>)>,
        Fault,
    > {
        if self.squash_height() is Some {
            Err(Fault::Error(Error::UnsupportedOnSquashedMarf))
        } else {
            match self.lookup(block, path) {
                Err(fault) => Err(fault),
                Ok(None) => Ok(None),
                Ok(Some(value)) => match self.proof_of(block, path, value) {
                    Err(fault) => Err(fault),
                    Ok(steps) => Ok(Some((value, steps))),
                },
            }
        }
    }
}

} // verus!
