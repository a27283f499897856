//! Merkle proofs of inclusion, and their verification.
//!
//! A proof alternates segments, which lead from a node to the root of its own trie, with shunts,
//! which lead from a trie's root to the root of a later trie.
use vstd::prelude::*;

use crate::bits::write_path_to_bytes;
use crate::hash::{concat_hashes, hash_bytes, sha512_256_of, MarfTrieId, TrieHash};
use crate::leaf::{Leaf, TrieLeaf};
use crate::node_codec::get_leaf_hash;
use crate::path::framed;
use crate::value::MARFValue;
use crate::words::{bytes_eq, push_bytes};

verus! {

/// A child pointer of a proof, which names its block by identity.
#[derive(Debug, PartialEq)]
pub struct ProofTriePtr<T> {
    pub id: u8,
    pub chr: u8,
    pub back_block: T,
}

/// A branch of a proof.
#[derive(Debug, PartialEq)]
pub struct ProofTrieNode<T> {
    pub id: u8,
    pub path: Vec<u8>,
    pub ptrs: Vec<ProofTriePtr<T>>,
}

/// A step of a proof.
#[derive(Debug, PartialEq)]
pub enum TrieMerkleProofType<T> {
    Node4((u8, ProofTrieNode<T>, [TrieHash; 3])),
    Node16((u8, ProofTrieNode<T>, [TrieHash; 15])),
    Node48((u8, ProofTrieNode<T>, [TrieHash; 47])),
    Node256((u8, ProofTrieNode<T>, [TrieHash; 255])),
    Leaf((u8, TrieLeaf)),
    Shunt((i64, Vec<TrieHash>)),
}

/// A proof.
#[derive(Debug)]
pub struct TrieMerkleProof<T>(pub Vec<TrieMerkleProofType<T>>);

/// What a proof's child pointer says.
#[verifier::ext_equal]
pub struct ProofPtr {
    pub id: u8,
    pub chr: u8,
    pub back_block: Seq<u8>,
}

/// What a proof's branch says.
#[verifier::ext_equal]
pub struct ProofNode {
    pub id: u8,
    pub path: Seq<u8>,
    pub ptrs: Seq<ProofPtr>,
}

/// What a proof's step says.
#[verifier::ext_equal]
pub enum Step {
    /// A branch of a given capacity, the byte of the child below it, and the other children's hashes.
    Branch { chr: u8, node: ProofNode, hashes: Seq<Seq<u8>>, capacity: nat },
    /// The leaf.
    Leaf { chr: u8, leaf: Leaf },
    /// Hashes of other ancestors, and where among them the hash so far belongs.
    Shunt { idx: int, hashes: Seq<Seq<u8>> },
}

/// The bytes of hashes.
pub open spec fn hash_views(hashes: Seq<TrieHash>) -> Seq<Seq<u8>> {
    Seq::new(hashes.len(), |i: int| hashes[i]@)
}

/// Parts, one after the other.
pub open spec fn flat(parts: Seq<Seq<u8>>) -> Seq<u8>
    decreases parts.len(),
{
    if parts.len() == 0 {
        Seq::empty()
    } else {
        flat(parts.drop_last()) + parts.last()
    }
}

/// Hashes one after the other are their bytes one after the other.
pub proof fn lemma_flat_hashes(hashes: Seq<TrieHash>)
    ensures
        concat_hashes(hashes) == flat(hash_views(hashes)),
    decreases hashes.len(),
{
    if hashes.len() > 0 {
        lemma_flat_hashes(hashes.drop_last());
        assert(hash_views(hashes).drop_last() =~= hash_views(hashes.drop_last()));
    }
}

impl<T: MarfTrieId> ProofTriePtr<T> {
    /// What the pointer says.
    pub open spec fn view(&self) -> ProofPtr {
        ProofPtr { id: self.id, chr: self.chr, back_block: self.back_block.id_bytes() }
    }
}

impl<T: MarfTrieId> ProofTrieNode<T> {
    /// What the branch says.
    pub open spec fn view(&self) -> ProofNode {
        ProofNode {
            id: self.id,
            path: self.path@,
            ptrs: Seq::new(self.ptrs@.len(), |i: int| self.ptrs@[i]@),
        }
    }
}

impl<T: MarfTrieId> TrieMerkleProofType<T> {
    /// What the step says.
    pub open spec fn view(&self) -> Step {
        match *self {
            TrieMerkleProofType::Node4((chr, node, hashes)) => Step::Branch {
                chr,
                node: node@,
                hashes: hash_views(hashes@),
                capacity: 4,
            },
            TrieMerkleProofType::Node16((chr, node, hashes)) => Step::Branch {
                chr,
                node: node@,
                hashes: hash_views(hashes@),
                capacity: 16,
            },
            TrieMerkleProofType::Node48((chr, node, hashes)) => Step::Branch {
                chr,
                node: node@,
                hashes: hash_views(hashes@),
                capacity: 48,
            },
            TrieMerkleProofType::Node256((chr, node, hashes)) => Step::Branch {
                chr,
                node: node@,
                hashes: hash_views(hashes@),
                capacity: 256,
            },
            TrieMerkleProofType::Leaf((chr, leaf)) => Step::Leaf { chr, leaf: leaf@ },
            TrieMerkleProofType::Shunt((idx, hashes)) => Step::Shunt {
                idx: idx as int,
                hashes: hash_views(hashes@),
            },
        }
    }
}

/// What steps say.
pub open spec fn step_views<T: MarfTrieId>(proof: Seq<TrieMerkleProofType<T>>) -> Seq<Step> {
    Seq::new(proof.len(), |i: int| proof[i]@)
}

/// What the hash of a child pointer's branch commits to of it.
pub open spec fn proof_ptr_bytes(ptr: ProofPtr) -> Seq<u8> {
    seq![ptr.id, ptr.chr] + ptr.back_block
}

/// What the hash of a branch commits to of its child pointers.
pub open spec fn proof_ptrs_bytes(ptrs: Seq<ProofPtr>) -> Seq<u8>
    decreases ptrs.len(),
{
    if ptrs.len() == 0 {
        Seq::empty()
    } else {
        proof_ptrs_bytes(ptrs.drop_last()) + proof_ptr_bytes(ptrs.last())
    }
}

impl ProofNode {
    /// The bytes that the branch's hash commits to before its children's hashes.
    pub open spec fn commitment(self) -> Seq<u8> {
        seq![self.id] + proof_ptrs_bytes(self.ptrs) + framed(self.path)
    }
}

impl<T: MarfTrieId> ProofTrieNode<T> {
    /// Append the bytes that the branch's hash commits to before its children's hashes.
    pub fn write_consensus_bytes(&self, out: &mut Vec<u8>)
        requires
            self.path@.len() <= 32,
        ensures
            final(out)@ == old(out)@ + self@.commitment(),
    {
        out.push(self.id);
        let ghost head = out@;
        let mut at: usize = 0;
        assert(out@ =~= head + proof_ptrs_bytes(self@.ptrs.subrange(0, 0)));
        while at < self.ptrs.len()
            invariant
                at <= self.ptrs@.len(),
                out@ == head + proof_ptrs_bytes(self@.ptrs.subrange(0, at as int)),
            decreases self.ptrs@.len() - at,
        {
            let ptr: &ProofTriePtr<T> = &self.ptrs[at];
            let ghost before = out@;
            out.push(ptr.id);
            out.push(ptr.chr);
            push_bytes(out, ptr.back_block.as_bytes());
            at = at + 1;
            let ghost part = self@.ptrs.subrange(0, at as int);
            assert(part.drop_last() =~= self@.ptrs.subrange(0, at - 1));
            assert(out@ =~= before + proof_ptr_bytes(part.last()));
            assert(out@ =~= head + proof_ptrs_bytes(part));
        }
        assert(self@.ptrs.subrange(0, at as int) =~= self@.ptrs);
        let _ = write_path_to_bytes(self.path.as_slice(), out);
        assert(out@ =~= old(out)@ + self@.commitment());
    }
}

/// The hashes of all children: the given one where the pointer leads to it, and the others in order.
pub open spec fn filled(
    ptrs: Seq<ProofPtr>,
    chr: u8,
    hash: Seq<u8>,
    hashes: Seq<Seq<u8>>,
    at: int,
    used: int,
    before: Seq<Seq<u8>>,
) -> Option<Seq<Seq<u8>>>
    decreases ptrs.len() - at,
{
    if at < 0 || at >= ptrs.len() {
        Some(before)
    } else if ptrs[at].id != 0 && ptrs[at].chr == chr {
        filled(ptrs, chr, hash, hashes, at + 1, used, before.push(hash))
    } else if used < hashes.len() {
        filled(ptrs, chr, hash, hashes, at + 1, used + 1, before.push(hashes[used]))
    } else {
        None
    }
}

/// The hash of a branch, from that of one child and those of the others.
pub open spec fn branch_hash(node: ProofNode, chr: u8, hash: Seq<u8>, hashes: Seq<Seq<u8>>) -> Option<
    Seq<u8>,
> {
    match filled(node.ptrs, chr, hash, hashes, 0, 0, Seq::empty()) {
        Some(all) => Some(sha512_256_of(node.commitment() + flat(all))),
        None => None,
    }
}

/// The hash of a segment's step, from that of the step before it.
pub open spec fn step_hash(step: Step, hash: Seq<u8>) -> Option<Seq<u8>> {
    match step {
        Step::Leaf { leaf, .. } => Some(sha512_256_of(leaf.commitment())),
        Step::Branch { chr, node, hashes, .. } => branch_hash(node, chr, hash, hashes),
        Step::Shunt { .. } => None,
    }
}

/// The hash of the root that steps `at..to` lead to.
pub open spec fn segment_hash(steps: Seq<Step>, at: int, to: int, hash: Seq<u8>) -> Option<Seq<u8>>
    decreases to - at,
{
    if at >= to {
        Some(hash)
    } else {
        match step_hash(steps[at], hash) {
            Some(next) => segment_hash(steps, at + 1, to, next),
            None => None,
        }
    }
}

/// Hashes with another among them; `None` where its place is outside.
pub open spec fn placed(hash: Seq<u8>, idx: int, hashes: Seq<Seq<u8>>) -> Option<Seq<Seq<u8>>> {
    if 1 <= idx <= hashes.len() + 1 {
        Some(hashes.insert(idx - 1, hash))
    } else {
        None
    }
}

/// The root hash of the next trie, from that of the trie before.
pub open spec fn shunt_hash(step: Step, hash: Seq<u8>) -> Option<Seq<u8>> {
    match step {
        Step::Shunt { idx, hashes } => match placed(hash, idx, hashes) {
            Some(all) => Some(TrieHash::digest(flat(all))),
            None => None,
        },
        _ => None,
    }
}

/// The root hash of the first trie, from the hash of its root node.
pub open spec fn head_hash(step: Step, node_root: Seq<u8>) -> Option<Seq<u8>> {
    match step {
        Step::Shunt { idx, hashes } => if idx != 0 {
            None
        } else if hashes.len() == 0 {
            Some(node_root)
        } else {
            Some(TrieHash::digest(flat(seq![node_root] + hashes)))
        },
        _ => None,
    }
}

/// The root hash of a trie, from the hash of its root node and the root hash of an earlier trie.
pub open spec fn junction_hash(step: Step, node_root: Seq<u8>, hash: Seq<u8>) -> Option<Seq<u8>> {
    match step {
        Step::Shunt { idx, hashes } => match placed(hash, idx, hashes) {
            Some(all) => Some(TrieHash::digest(flat(seq![node_root] + all))),
            None => None,
        },
        _ => None,
    }
}

/// The root hash that shunts `at..to` lead to.
pub open spec fn tail_hash(steps: Seq<Step>, at: int, to: int, hash: Seq<u8>) -> Option<Seq<u8>>
    decreases to - at,
{
    if at >= to {
        Some(hash)
    } else {
        match shunt_hash(steps[at], hash) {
            Some(next) => tail_hash(steps, at + 1, to, next),
            None => None,
        }
    }
}

/// The bytes of a path that a step stands for.
pub open spec fn step_path(step: Step) -> Option<Seq<u8>> {
    match step {
        Step::Leaf { leaf, .. } => Some(leaf.path),
        Step::Branch { chr, node, .. } => Some(node.path + seq![chr]),
        Step::Shunt { .. } => None,
    }
}

/// The path that steps `from..to` lead along, from the root down; `None` where one is a shunt.
pub open spec fn segment_path(steps: Seq<Step>, from: int, to: int) -> Option<Seq<u8>>
    decreases to - from,
{
    if from >= to {
        Some(Seq::empty())
    } else {
        match step_path(steps[to - 1]) {
            Some(part) => match segment_path(steps, from, to - 1) {
                Some(rest) => Some(part + rest),
                None => None,
            },
            None => None,
        }
    }
}

/// The first shunt from `at` on.
pub open spec fn segment_end(steps: Seq<Step>, at: int) -> int
    decreases steps.len() - at,
{
    if at < 0 || at >= steps.len() || steps[at] is Shunt {
        at
    } else {
        segment_end(steps, at + 1)
    }
}

/// The first step from `at` on that is no shunt.
pub open spec fn shunt_end(steps: Seq<Step>, at: int) -> int
    decreases steps.len() - at,
{
    if at < 0 || at >= steps.len() || !(steps[at] is Shunt) {
        at
    } else {
        shunt_end(steps, at + 1)
    }
}

/// The first step from `at` on that is no shunt, or is one without a place.
pub open spec fn junction_end(steps: Seq<Step>, at: int) -> int
    decreases steps.len() - at,
{
    if at < 0 || at >= steps.len() || !(steps[at] is Shunt) || steps[at]->idx == 0 {
        at
    } else {
        junction_end(steps, at + 1)
    }
}

/// Whether one path starts with another.
pub open spec fn starts_with(path: Seq<u8>, prefix: Seq<u8>) -> bool {
    prefix.len() <= path.len() && path.subrange(0, prefix.len() as int) == prefix
}

/// Whether the steps before `end` lead up to the root of a trie.
pub open spec fn rooted(steps: Seq<Step>, end: int) -> bool {
    steps[end - 1] is Branch && steps[end - 1]->capacity == 256
}

/// Whether segments from `at` on each lead up to a root along a prefix of the path before, and are
/// followed by shunts.
pub open spec fn alternates(steps: Seq<Step>, at: int, path: Seq<u8>) -> bool
    decreases steps.len() - at via alternates_decreases
{
    if at < 0 || at >= steps.len() {
        true
    } else {
        let end = segment_end(steps, at + 1);
        match segment_path(steps, at, end) {
            Some(prefix) => starts_with(path, prefix) && rooted(steps, end) && end < steps.len()
                && alternates(steps, shunt_end(steps, end + 1), prefix),
            None => false,
        }
    }
}

#[via_fn]
proof fn alternates_decreases(steps: Seq<Step>, at: int, path: Seq<u8>) {
    if 0 <= at < steps.len() {
        lemma_segment_end(steps, at + 1);
        let end = segment_end(steps, at + 1);
        if end < steps.len() {
            lemma_shunt_end(steps, end + 1);
        }
    }
}

pub(crate) proof fn lemma_segment_end(steps: Seq<Step>, at: int)
    requires
        0 <= at <= steps.len(),
    ensures
        at <= segment_end(steps, at) <= steps.len(),
        forall|k: int| at <= k < segment_end(steps, at) ==> !(#[trigger] steps[k] is Shunt),
        segment_end(steps, at) < steps.len() ==> steps[segment_end(steps, at)] is Shunt,
    decreases steps.len() - at,
{
    if at < steps.len() && !(steps[at] is Shunt) {
        lemma_segment_end(steps, at + 1);
    }
}

pub(crate) proof fn lemma_shunt_end(steps: Seq<Step>, at: int)
    requires
        0 <= at <= steps.len(),
    ensures
        at <= shunt_end(steps, at) <= steps.len(),
        forall|k: int| at <= k < shunt_end(steps, at) ==> #[trigger] steps[k] is Shunt,
        shunt_end(steps, at) < steps.len() ==> !(steps[shunt_end(steps, at)] is Shunt),
    decreases steps.len() - at,
{
    if at < steps.len() && steps[at] is Shunt {
        lemma_shunt_end(steps, at + 1);
    }
}

pub(crate) proof fn lemma_junction_end(steps: Seq<Step>, at: int)
    requires
        0 <= at <= steps.len(),
    ensures
        at <= junction_end(steps, at) <= steps.len(),
    decreases steps.len() - at,
{
    if at < steps.len() && steps[at] is Shunt && steps[at]->idx != 0 {
        lemma_junction_end(steps, at + 1);
    }
}

/// Whether a proof has the shape of one for a path:
/// * it starts with a leaf, and its first segment leads along the whole path
/// * segments and shunts alternate, and the last segment is followed by a shunt
/// * each later segment leads along a prefix of the path of the one before
/// * each segment ends in a 256-slot branch, which is a root
pub open spec fn well_formed(steps: Seq<Step>, path: Seq<u8>) -> bool {
    &&& steps.len() > 0
    &&& steps[0] is Leaf
    &&& segment_path(steps, 0, segment_end(steps, 1)) == Some(path)
    &&& alternates(steps, 0, path)
}

/// Whether segments and shunts from `at` on lead to a root hash.
pub open spec fn leads_on(
    steps: Seq<Step>,
    at: int,
    trie: Seq<u8>,
    node: Seq<u8>,
    root: Seq<u8>,
    blocks: spec_fn(Seq<u8>) -> Option<Seq<u8>>,
) -> bool
    decreases steps.len() - at via leads_on_decreases
{
    if at < 0 || at >= steps.len() {
        root == trie
    } else {
        let end = segment_end(steps, at + 1);
        let stop = junction_end(steps, end);
        match segment_hash(steps, at, end, node) {
            None => false,
            Some(node_root) => if end >= steps.len() || stop == end {
                false
            } else {
                match tail_hash(steps, end, stop - 1, trie) {
                    None => false,
                    Some(before) => match junction_hash(steps[stop - 1], node_root, before) {
                        None => false,
                        Some(next) => match blocks(next) {
                            None => false,
                            Some(block) => next == root || leads_on(
                                steps,
                                stop,
                                next,
                                block,
                                root,
                                blocks,
                            ),
                        },
                    },
                }
            },
        }
    }
}

#[via_fn]
proof fn leads_on_decreases(
    steps: Seq<Step>,
    at: int,
    trie: Seq<u8>,
    node: Seq<u8>,
    root: Seq<u8>,
    blocks: spec_fn(Seq<u8>) -> Option<Seq<u8>>,
) {
    if 0 <= at < steps.len() {
        lemma_segment_end(steps, at + 1);
        lemma_junction_end(steps, segment_end(steps, at + 1));
    }
}

/// Whether a proof shows that a path leads to a value from a trie with the given root hash, where
/// `blocks` names the block of each known root hash.
pub open spec fn proves(
    steps: Seq<Step>,
    path: Seq<u8>,
    value: Seq<u8>,
    root: Seq<u8>,
    blocks: spec_fn(Seq<u8>) -> Option<Seq<u8>>,
) -> bool {
    &&& well_formed(steps, path)
    &&& steps[0]->leaf.data == Some(value)
    &&& {
        let end = segment_end(steps, 1);
        match segment_hash(steps, 0, end, Seq::empty()) {
            None => false,
            Some(node_root) => match head_hash(steps[end], node_root) {
                None => false,
                Some(trie) => if end + 1 >= steps.len() {
                    root == trie
                } else {
                    match blocks(trie) {
                        None => false,
                        Some(block) => !(steps[end + 1] is Shunt) && leads_on(
                            steps,
                            end + 1,
                            trie,
                            block,
                            root,
                            blocks,
                        ),
                    }
                },
            },
        }
    }
}

/// Whether every branch has as many child pointers as its capacity, and every leaf behind the first
/// step has a value.
pub open spec fn complete(steps: Seq<Step>) -> bool {
    forall|i: int|
        0 <= i < steps.len() ==> match #[trigger] steps[i] {
            Step::Branch { node, capacity, .. } => node.ptrs.len() == capacity,
            Step::Leaf { leaf, .. } => i > 0 ==> leaf.data is Some,
            Step::Shunt { .. } => true,
        }
}

/// Whether a proof has the shape of one for a path, and starts with a leaf of the value.
pub open spec fn claims(steps: Seq<Step>, path: Seq<u8>, value: Seq<u8>) -> bool {
    well_formed(steps, path) && steps[0]->leaf.data == Some(value)
}

/// Whether a step's path segment can be committed to.
pub open spec fn short_path(step: Step) -> bool {
    step is Branch ==> step->node.path.len() <= 32
}

pub(crate) proof fn lemma_segment_path_is_short(steps: Seq<Step>, from: int, to: int)
    requires
        0 <= from <= to <= steps.len(),
        segment_path(steps, from, to) is Some,
        segment_path(steps, from, to)->0.len() <= 32,
    ensures
        forall|k: int| from <= k < to ==> short_path(#[trigger] steps[k]),
    decreases to - from,
{
    if from < to {
        lemma_segment_path_is_short(steps, from, to - 1);
    }
}

proof fn lemma_alternating_paths_are_short(steps: Seq<Step>, at: int, path: Seq<u8>)
    requires
        0 <= at <= steps.len(),
        path.len() <= 32,
        alternates(steps, at, path),
    ensures
        forall|k: int| at <= k < steps.len() ==> short_path(#[trigger] steps[k]),
    decreases steps.len() - at,
{
    if at < steps.len() {
        lemma_segment_end(steps, at + 1);
        let end = segment_end(steps, at + 1);
        lemma_segment_path_is_short(steps, at, end);
        lemma_shunt_end(steps, end + 1);
        let next = shunt_end(steps, end + 1);
        lemma_alternating_paths_are_short(steps, next, segment_path(steps, at, end)->0);
        assert forall|k: int| at <= k < steps.len() implies short_path(#[trigger] steps[k]) by {
            if end <= k < next {
                assert(steps[k] is Shunt);
            }
        }
    }
}

fn is_shunt<T: MarfTrieId>(step: &TrieMerkleProofType<T>) -> (shunt: bool)
    ensures
        shunt == (step@ is Shunt),
{
    match step {
        TrieMerkleProofType::Shunt(_) => true,
        _ => false,
    }
}

fn find_segment_end<T: MarfTrieId>(proof: &[TrieMerkleProofType<T>], from: usize) -> (end: usize)
    requires
        from <= proof@.len(),
    ensures
        end == segment_end(step_views(proof@), from as int),
        from <= end <= proof@.len(),
{
    let mut at: usize = from;
    let ghost steps = step_views(proof@);
    while at < proof.len()
        invariant_except_break
            from <= at <= proof@.len(),
            steps == step_views(proof@),
            segment_end(steps, from as int) == segment_end(steps, at as int),
        ensures
            from <= at <= proof@.len(),
            segment_end(steps, from as int) == at,
        decreases proof@.len() - at,
    {
        if is_shunt(&proof[at]) {
            break ;
        }
        at = at + 1;
    }
    at
}

fn find_shunt_end<T: MarfTrieId>(proof: &[TrieMerkleProofType<T>], from: usize) -> (end: usize)
    requires
        from <= proof@.len(),
    ensures
        end == shunt_end(step_views(proof@), from as int),
        from <= end <= proof@.len(),
{
    let mut at: usize = from;
    let ghost steps = step_views(proof@);
    while at < proof.len()
        invariant_except_break
            from <= at <= proof@.len(),
            steps == step_views(proof@),
            shunt_end(steps, from as int) == shunt_end(steps, at as int),
        ensures
            from <= at <= proof@.len(),
            shunt_end(steps, from as int) == at,
        decreases proof@.len() - at,
    {
        if !is_shunt(&proof[at]) {
            break ;
        }
        at = at + 1;
    }
    at
}

fn find_junction_end<T: MarfTrieId>(proof: &[TrieMerkleProofType<T>], from: usize) -> (end: usize)
    requires
        from <= proof@.len(),
    ensures
        end == junction_end(step_views(proof@), from as int),
        from <= end <= proof@.len(),
{
    let mut at: usize = from;
    let ghost steps = step_views(proof@);
    while at < proof.len()
        invariant_except_break
            from <= at <= proof@.len(),
            steps == step_views(proof@),
            junction_end(steps, from as int) == junction_end(steps, at as int),
        ensures
            from <= at <= proof@.len(),
            junction_end(steps, from as int) == at,
        decreases proof@.len() - at,
    {
        assert(steps[at as int] == proof@[at as int]@);
        let placed_shunt: bool = match &proof[at] {
            TrieMerkleProofType::Shunt((idx, _)) => *idx != 0,
            _ => false,
        };
        if !placed_shunt {
            break ;
        }
        at = at + 1;
    }
    at
}

/// Hashes with another among them.
fn place(hash: &TrieHash, idx: i64, hashes: &[TrieHash]) -> (all: Option<Vec<TrieHash>>)
    ensures
        match placed(hash@, idx as int, hash_views(hashes@)) {
            Some(views) => all matches Some(found) && hash_views(found@) == views,
            None => all is None,
        },
{
    if idx < 1 || (idx - 1) as u64 > hashes.len() as u64 {
        return None;
    }
    let place: usize = (idx - 1) as usize;
    let mut all: Vec<TrieHash> = Vec::new();
    let mut at: usize = 0;
    while at < hashes.len()
        invariant
            at <= hashes@.len(),
            place <= hashes@.len(),
            all@ == if at <= place {
                hashes@.subrange(0, at as int)
            } else {
                hashes@.subrange(0, at as int).insert(place as int, *hash)
            },
        decreases hashes@.len() - at,
    {
        if at == place {
            all.push(*hash);
        }
        all.push(hashes[at]);
        at = at + 1;
        assert(all@ =~= if at <= place {
            hashes@.subrange(0, at as int)
        } else {
            hashes@.subrange(0, at as int).insert(place as int, *hash)
        });
    }
    if place == hashes.len() {
        all.push(*hash);
    }
    assert(all@ =~= hashes@.insert(place as int, *hash));
    assert(hash_views(all@) =~= hash_views(hashes@).insert(place as int, hash@));
    Some(all)
}

impl<T: MarfTrieId> TrieMerkleProof<T> {
    /// The root hash of the next trie, from that of the trie before.
    fn next_shunt_hash(hash: &TrieHash, idx: i64, hashes: &[TrieHash]) -> (next: Option<TrieHash>)
        ensures
            match placed(hash@, idx as int, hash_views(hashes@)) {
                Some(all) => next matches Some(h) && h@ == TrieHash::digest(flat(all)),
                None => next is None,
            },
    {
        match place(hash, idx, hashes) {
            Some(all) => {
                proof {
                    lemma_flat_hashes(all@);
                }
                Some(TrieHash::from_data_array(all.as_slice()))
            },
            None => None,
        }
    }

    /// Verify the head of a shunt proof.
    fn verify_shunt_proof_head(
        node_root_hash: &TrieHash,
        shunt_proof_head: &TrieMerkleProofType<T>,
    ) -> (hash: Option<TrieHash>)
        ensures
            match head_hash(shunt_proof_head@, node_root_hash@) {
                Some(h) => hash matches Some(found) && found@ == h,
                None => hash is None,
            },
    {
        match shunt_proof_head {
            TrieMerkleProofType::Shunt((idx, hashes)) => {
                if *idx != 0 {
                    return None;
                }
                if hashes.len() == 0 {
                    return Some(*node_root_hash);
                }
                let mut all: Vec<TrieHash> = Vec::new();
                all.push(*node_root_hash);
                push_hashes(&mut all, hashes.as_slice());
                proof {
                    lemma_flat_hashes(all@);
                    assert(hash_views(all@) =~= seq![node_root_hash@] + hash_views(hashes@));
                }
                Some(TrieHash::from_data_array(all.as_slice()))
            },
            _ => None,
        }
    }

    /// Verify the tail of a shunt proof: steps `at..to`, from the root hash of the trie before.
    fn verify_shunt_proof_tail(
        initial_hash: &TrieHash,
        proof: &[TrieMerkleProofType<T>],
        at: usize,
        to: usize,
    ) -> (hash: Option<TrieHash>)
        requires
            at <= to <= proof@.len(),
        ensures
            match tail_hash(step_views(proof@), at as int, to as int, initial_hash@) {
                Some(h) => hash matches Some(found) && found@ == h,
                None => hash is None,
            },
    {
        let mut hash: TrieHash = *initial_hash;
        let mut next: usize = at;
        let ghost steps = step_views(proof@);
        while next < to
            invariant
                at <= next <= to <= proof@.len(),
                steps == step_views(proof@),
                tail_hash(steps, at as int, to as int, initial_hash@) == tail_hash(
                    steps,
                    next as int,
                    to as int,
                    hash@,
                ),
            decreases to - next,
        {
            assert(steps[next as int] == proof@[next as int]@);
            match &proof[next] {
                TrieMerkleProofType::Shunt((idx, hashes)) => {
                    match Self::next_shunt_hash(&hash, *idx, hashes.as_slice()) {
                        Some(found) => {
                            hash = found;
                        },
                        None => return None,
                    }
                },
                _ => return None,
            }
            next = next + 1;
        }
        Some(hash)
    }

    /// Verify a shunt juncture, where a shunt proof tail and a segment proof meet.
    fn verify_shunt_proof_junction(
        node_root_hash: &TrieHash,
        penultimate_trie_hash: &TrieHash,
        shunt_proof_junction: &TrieMerkleProofType<T>,
    ) -> (hash: Option<TrieHash>)
        ensures
            match junction_hash(
                shunt_proof_junction@,
                node_root_hash@,
                penultimate_trie_hash@,
            ) {
                Some(h) => hash matches Some(found) && found@ == h,
                None => hash is None,
            },
    {
        match shunt_proof_junction {
            TrieMerkleProofType::Shunt((idx, hashes)) => {
                let placed_hashes: Vec<TrieHash> = match place(
                    penultimate_trie_hash,
                    *idx,
                    hashes.as_slice(),
                ) {
                    Some(all) => all,
                    None => return None,
                };
                let mut all: Vec<TrieHash> = Vec::new();
                all.push(*node_root_hash);
                push_hashes(&mut all, placed_hashes.as_slice());
                proof {
                    lemma_flat_hashes(all@);
                    assert(hash_views(all@) =~= seq![node_root_hash@] + hash_views(placed_hashes@));
                }
                Some(TrieHash::from_data_array(all.as_slice()))
            },
            _ => None,
        }
    }

    /// The hash of a segment's branch, from that of the child below it.
    fn get_segment_proof_hash(
        node: &ProofTrieNode<T>,
        hash: &TrieHash,
        chr: u8,
        hashes: &[TrieHash],
    ) -> (next: Option<TrieHash>)
        requires
            node.path@.len() <= 32,
        ensures
            match branch_hash(node@, chr, hash@, hash_views(hashes@)) {
                Some(h) => next matches Some(found) && found@ == h,
                None => next is None,
            },
    {
        let mut all: Vec<TrieHash> = Vec::new();
        let mut used: usize = 0;
        let mut at: usize = 0;
        let ghost ptrs = node@.ptrs;
        let ghost views = hash_views(hashes@);
        assert(hash_views(all@) =~= Seq::<Seq<u8>>::empty());
        while at < node.ptrs.len()
            invariant
                at <= node.ptrs@.len(),
                used <= at,
                used <= hashes@.len(),
                ptrs == node@.ptrs,
                views == hash_views(hashes@),
                filled(ptrs, chr, hash@, views, 0, 0, Seq::empty()) == filled(
                    ptrs,
                    chr,
                    hash@,
                    views,
                    at as int,
                    used as int,
                    hash_views(all@),
                ),
            decreases node.ptrs@.len() - at,
        {
            let child: &ProofTriePtr<T> = &node.ptrs[at];
            assert(ptrs[at as int] == node.ptrs@[at as int]@);
            let ghost before = all@;
            if child.id != 0 && child.chr == chr {
                all.push(*hash);
                assert(hash_views(all@) =~= hash_views(before).push(hash@));
            } else if used >= hashes.len() {
                return None;
            } else {
                all.push(hashes[used]);
                assert(hash_views(all@) =~= hash_views(before).push(views[used as int]));
                used = used + 1;
            }
            at = at + 1;
        }
        let mut data: Vec<u8> = Vec::new();
        node.write_consensus_bytes(&mut data);
        push_bytes(&mut data, hash_bytes(all.as_slice()).as_slice());
        proof {
            lemma_flat_hashes(all@);
        }
        assert(data@ =~= node@.commitment() + flat(hash_views(all@)));
        Some(TrieHash::of_bytes(data.as_slice()))
    }

    /// Verify steps `at..to` of a segment, and calculate the hash of its root.
    fn verify_segment_proof(
        proof: &[TrieMerkleProofType<T>],
        at: usize,
        to: usize,
        node_hash: &TrieHash,
    ) -> (hash: Option<TrieHash>)
        requires
            at <= to <= proof@.len(),
            forall|k: int| at <= k < to ==> short_path(#[trigger] step_views(proof@)[k]),
            forall|k: int|
                at <= k < to && #[trigger] step_views(proof@)[k] is Leaf ==> step_views(
                    proof@,
                )[k]->leaf.data is Some,
        ensures
            match segment_hash(step_views(proof@), at as int, to as int, node_hash@) {
                Some(h) => hash matches Some(found) && found@ == h,
                None => hash is None,
            },
    {
        let mut hash: TrieHash = *node_hash;
        let mut next: usize = at;
        let ghost steps = step_views(proof@);
        while next < to
            invariant
                at <= next <= to <= proof@.len(),
                steps == step_views(proof@),
                forall|k: int| at <= k < to ==> short_path(#[trigger] steps[k]),
                forall|k: int|
                    at <= k < to && #[trigger] steps[k] is Leaf ==> steps[k]->leaf.data is Some,
                segment_hash(steps, at as int, to as int, node_hash@) == segment_hash(
                    steps,
                    next as int,
                    to as int,
                    hash@,
                ),
            decreases to - next,
        {
            assert(steps[next as int] == proof@[next as int]@);
            assert(short_path(steps[next as int]));
            let found: Option<TrieHash> = match &proof[next] {
                TrieMerkleProofType::Leaf((_, leaf)) => Some(get_leaf_hash(leaf)),
                TrieMerkleProofType::Node4((chr, node, hashes)) => Self::get_segment_proof_hash(
                    node,
                    &hash,
                    *chr,
                    hashes,
                ),
                TrieMerkleProofType::Node16((chr, node, hashes)) => Self::get_segment_proof_hash(
                    node,
                    &hash,
                    *chr,
                    hashes,
                ),
                TrieMerkleProofType::Node48((chr, node, hashes)) => Self::get_segment_proof_hash(
                    node,
                    &hash,
                    *chr,
                    hashes,
                ),
                TrieMerkleProofType::Node256((chr, node, hashes)) => Self::get_segment_proof_hash(
                    node,
                    &hash,
                    *chr,
                    hashes,
                ),
                TrieMerkleProofType::Shunt(_) => None,
            };
            match found {
                Some(found) => {
                    hash = found;
                },
                None => return None,
            }
            next = next + 1;
        }
        Some(hash)
    }

    /// Extract the path prefix that steps `from..to` of a segment encode.
    fn get_segment_proof_path_prefix(
        proof: &[TrieMerkleProofType<T>],
        from: usize,
        to: usize,
    ) -> (path: Option<Vec<u8>>)
        requires
            from <= to <= proof@.len(),
        ensures
            match segment_path(step_views(proof@), from as int, to as int) {
                Some(p) => path matches Some(found) && found@ == p,
                None => path is None,
            },
    {
        let mut path: Vec<u8> = Vec::new();
        let mut at: usize = to;
        let ghost steps = step_views(proof@);
        proof {
            assert(joined_path(path@, segment_path(steps, from as int, at as int)) =~= segment_path(
                steps,
                from as int,
                to as int,
            ));
        }
        while at > from
            invariant
                from <= at <= to <= proof@.len(),
                steps == step_views(proof@),
                joined_path(path@, segment_path(steps, from as int, at as int)) == segment_path(
                    steps,
                    from as int,
                    to as int,
                ),
            decreases at,
        {
            at = at - 1;
            let ghost before = path@;
            assert(steps[at as int] == proof@[at as int]@);
            match &proof[at] {
                TrieMerkleProofType::Leaf((_, leaf)) => push_bytes(
                    &mut path,
                    leaf.path.as_slice(),
                ),
                TrieMerkleProofType::Node4((chr, node, _)) => {
                    push_bytes(&mut path, node.path.as_slice());
                    path.push(*chr);
                },
                TrieMerkleProofType::Node16((chr, node, _)) => {
                    push_bytes(&mut path, node.path.as_slice());
                    path.push(*chr);
                },
                TrieMerkleProofType::Node48((chr, node, _)) => {
                    push_bytes(&mut path, node.path.as_slice());
                    path.push(*chr);
                },
                TrieMerkleProofType::Node256((chr, node, _)) => {
                    push_bytes(&mut path, node.path.as_slice());
                    path.push(*chr);
                },
                TrieMerkleProofType::Shunt(_) => return None,
            }
            proof {
                let part = step_path(steps[at as int])->0;
                assert(path@ =~= before + part);
                match segment_path(steps, from as int, at as int) {
                    Some(rest) => {
                        assert(before + (part + rest) =~= path@ + rest);
                    },
                    None => {},
                }
            }
        }
        assert(path@ + Seq::<u8>::empty() =~= path@);
        Some(path)
    }

    /// Verify that a proof is well-formed for a path.
    pub fn is_proof_well_formed(proof: &[TrieMerkleProofType<T>], expected_path: &TrieHash) -> (ok:
        bool)
        ensures
            ok == well_formed(step_views(proof@), expected_path@),
    {
        let ghost steps = step_views(proof@);
        if proof.len() == 0 {
            return false;
        }
        assert(steps[0] == proof@[0]@);
        match &proof[0] {
            TrieMerkleProofType::Leaf(_) => {},
            _ => return false,
        }
        let first: usize = find_segment_end(proof, 1);
        match Self::get_segment_proof_path_prefix(proof, 0, first) {
            Some(path) => if !bytes_eq(path.as_slice(), expected_path.as_bytes()) {
                return false;
            },
            None => return false,
        }
        let mut at: usize = 0;
        let mut path: Vec<u8> = Vec::new();
        push_bytes(&mut path, expected_path.as_bytes());
        assert(path@ =~= expected_path@);
        while at < proof.len()
            invariant
                at <= proof@.len(),
                steps == step_views(proof@),
                steps.len() > 0,
                steps[0] is Leaf,
                segment_path(steps, 0, segment_end(steps, 1)) == Some(expected_path@),
                alternates(steps, 0, expected_path@) == alternates(steps, at as int, path@),
            decreases proof@.len() - at,
        {
            let end: usize = find_segment_end(proof, at + 1);
            let prefix: Vec<u8> = match Self::get_segment_proof_path_prefix(proof, at, end) {
                Some(prefix) => prefix,
                None => return false,
            };
            if prefix.len() > path.len() {
                return false;
            }
            if !bytes_eq(&path.as_slice()[0..prefix.len()], prefix.as_slice()) {
                return false;
            }
            assert(steps[end - 1] == proof@[end - 1]@);
            match &proof[end - 1] {
                TrieMerkleProofType::Node256(_) => {},
                _ => return false,
            }
            if end >= proof.len() {
                return false;
            }
            at = find_shunt_end(proof, end + 1);
            path = prefix;
        }
        true
    }

    /// Given a value and the root hash from which this proof was (supposedly) generated, verify
    /// whether or not it is consistent with the root hash. For this the verifier needs to know which
    /// trie roots correspond to which blocks.
    pub fn verify_proof<F: Fn(&TrieHash) -> Option<T>>(
        proof: &[TrieMerkleProofType<T>],
        path: &TrieHash,
        value: &MARFValue,
        root_hash: &TrieHash,
        root_to_block: &F,
    ) -> (ok: bool)
        requires
            claims(step_views(proof@), path@, value@) ==> complete(step_views(proof@)),
            forall|hash: &TrieHash| call_requires(*root_to_block, (hash,)),
        ensures
            forall|blocks: spec_fn(Seq<u8>) -> Option<Seq<u8>>| #[trigger]
                knows_roots(*root_to_block, blocks) ==> ok == proves(
                    step_views(proof@),
                    path@,
                    value@,
                    root_hash@,
                    blocks,
                ),
    {
        let ghost steps = step_views(proof@);
        if !Self::is_proof_well_formed(proof, path) {
            return false;
        }
        proof {
            lemma_alternating_paths_are_short(steps, 0, path@);
            lemma_segment_end(steps, 1);
            assert(steps[0] == proof@[0]@);
        }
        match &proof[0] {
            TrieMerkleProofType::Leaf((_, leaf)) => match &leaf.data {
                Some(data) => if !bytes_eq(&data.0, &value.0) {
                    return false;
                },
                None => return false,
            },
            _ => return false,
        }
        let end: usize = find_segment_end(proof, 1);
        proof {
            lemma_first_leaf_resets(steps, end as int, TrieHash::zero_bytes());
        }
        let node_root: TrieHash = match Self::verify_segment_proof(
            proof,
            0,
            end,
            &TrieHash::zero(),
        ) {
            Some(hash) => hash,
            None => return false,
        };
        if end >= proof.len() {
            return false;
        }
        assert(steps[end as int] == proof@[end as int]@);
        let mut trie_hash: TrieHash = match Self::verify_shunt_proof_head(
            &node_root,
            &proof[end],
        ) {
            Some(hash) => hash,
            None => return false,
        };
        let mut at: usize = end + 1;
        if at >= proof.len() {
            return bytes_eq(root_hash.as_bytes(), trie_hash.as_bytes());
        }
        let mut node_hash: TrieHash = match root_to_block(&trie_hash) {
            Some(block) => TrieHash(block.to_bytes()),
            None => return false,
        };
        assert(steps[at as int] == proof@[at as int]@);
        if is_shunt(&proof[at]) {
            return false;
        }
        let ghost first_trie = trie_hash@;
        let ghost first_node = node_hash@;
        while at < proof.len()
            invariant
                0 < at <= proof@.len(),
                end + 1 <= at,
                end + 1 < proof@.len(),
                steps == step_views(proof@),
                complete(steps),
                forall|k: int| 0 <= k < steps.len() ==> short_path(#[trigger] steps[k]),
                forall|hash: &TrieHash| call_requires(*root_to_block, (hash,)),
                forall|blocks: spec_fn(Seq<u8>) -> Option<Seq<u8>>| #[trigger]
                    knows_roots(*root_to_block, blocks) ==> proves(
                        steps,
                        path@,
                        value@,
                        root_hash@,
                        blocks,
                    ) == leads_on(steps, at as int, trie_hash@, node_hash@, root_hash@, blocks),
            decreases proof@.len() - at,
        {
            let stop: usize = find_segment_end(proof, at + 1);
            let next_root: TrieHash = match Self::verify_segment_proof(
                proof,
                at,
                stop,
                &node_hash,
            ) {
                Some(hash) => hash,
                None => return false,
            };
            if stop >= proof.len() {
                return false;
            }
            let after: usize = find_junction_end(proof, stop);
            if after == stop {
                return false;
            }
            let penultimate: TrieHash = match Self::verify_shunt_proof_tail(
                &trie_hash,
                proof,
                stop,
                after - 1,
            ) {
                Some(hash) => hash,
                None => return false,
            };
            assert(steps[after - 1] == proof@[after - 1]@);
            let next_trie: TrieHash = match Self::verify_shunt_proof_junction(
                &next_root,
                &penultimate,
                &proof[after - 1],
            ) {
                Some(hash) => hash,
                None => return false,
            };
            trie_hash = next_trie;
            node_hash =
            match root_to_block(&trie_hash) {
                Some(block) => TrieHash(block.to_bytes()),
                None => return false,
            };
            at = after;
            if bytes_eq(trie_hash.as_bytes(), root_hash.as_bytes()) {
                return true;
            }
        }
        bytes_eq(root_hash.as_bytes(), trie_hash.as_bytes())
    }

    /// Whether every branch has as many child pointers as its capacity, and every leaf behind the
    /// first step has a value. Proofs that come from elsewhere are put to this test before they are
    /// verified.
    pub fn is_complete(proof: &[TrieMerkleProofType<T>]) -> (ok: bool)
        ensures
            ok == complete(step_views(proof@)),
    {
        let ghost steps = step_views(proof@);
        let mut at: usize = 0;
        while at < proof.len()
            invariant
                at <= proof@.len(),
                steps == step_views(proof@),
                complete(steps.subrange(0, at as int)),
            decreases proof@.len() - at,
        {
            assert(steps[at as int] == proof@[at as int]@);
            let ghost before = steps.subrange(0, at as int);
            let ghost after = steps.subrange(0, at + 1);
            let whole: bool = match &proof[at] {
                TrieMerkleProofType::Leaf((_, leaf)) => at == 0 || leaf.data.is_some(),
                TrieMerkleProofType::Node4((_, node, _)) => node.ptrs.len() == 4,
                TrieMerkleProofType::Node16((_, node, _)) => node.ptrs.len() == 16,
                TrieMerkleProofType::Node48((_, node, _)) => node.ptrs.len() == 48,
                TrieMerkleProofType::Node256((_, node, _)) => node.ptrs.len() == 256,
                TrieMerkleProofType::Shunt(_) => true,
            };
            if !whole {
                return false;
            }
            proof {
                assert forall|i: int| 0 <= i < after.len() implies match #[trigger] after[i] {
                    Step::Branch { node, capacity, .. } => node.ptrs.len() == capacity,
                    Step::Leaf { leaf, .. } => i > 0 ==> leaf.data is Some,
                    Step::Shunt { .. } => true,
                } by {
                    if i < at {
                        assert(after[i] == before[i]);
                    }
                }
            }
            at = at + 1;
        }
        assert(steps.subrange(0, at as int) =~= steps);
        true
    }

    /// Verify this proof.
    pub fn verify<F: Fn(&TrieHash) -> Option<T>>(
        &self,
        path: &TrieHash,
        marf_value: &MARFValue,
        root_hash: &TrieHash,
        root_to_block: &F,
    ) -> (ok: bool)
        requires
            claims(step_views(self.0@), path@, marf_value@) ==> complete(step_views(self.0@)),
            forall|hash: &TrieHash| call_requires(*root_to_block, (hash,)),
        ensures
            forall|blocks: spec_fn(Seq<u8>) -> Option<Seq<u8>>| #[trigger]
                knows_roots(*root_to_block, blocks) ==> ok == proves(
                    step_views(self.0@),
                    path@,
                    marf_value@,
                    root_hash@,
                    blocks,
                ),
    {
        Self::verify_proof(self.0.as_slice(), path, marf_value, root_hash, root_to_block)
    }
}

/// A path in front of another, if there is one.
pub open spec fn joined_path(head: Seq<u8>, rest: Option<Seq<u8>>) -> Option<Seq<u8>> {
    match rest {
        Some(rest) => Some(head + rest),
        None => None,
    }
}

/// Whether a lookup of root hashes always answers as the table does.
pub open spec fn knows_roots<T: MarfTrieId, F: Fn(&TrieHash) -> Option<T>>(
    root_to_block: F,
    blocks: spec_fn(Seq<u8>) -> Option<Seq<u8>>,
) -> bool {
    forall|hash: &TrieHash, found: Option<T>| #[trigger]
        call_ensures(root_to_block, (hash,), found) ==> match found {
            Some(block) => blocks(hash@) == Some(block.id_bytes()),
            None => blocks(hash@) is None,
        }
}

/// A segment that starts with a leaf does not depend on the hash before it.
proof fn lemma_first_leaf_resets(steps: Seq<Step>, end: int, hash: Seq<u8>)
    requires
        steps.len() > 0,
        steps[0] is Leaf,
        1 <= end,
    ensures
        segment_hash(steps, 0, end, hash) == segment_hash(steps, 0, end, Seq::empty()),
{
}

/// Append hashes.
fn push_hashes(out: &mut Vec<TrieHash>, hashes: &[TrieHash])
    ensures
        final(out)@ == old(out)@ + hashes@,
{
    let mut at: usize = 0;
    assert(out@ =~= old(out)@ + hashes@.subrange(0, 0));
    while at < hashes.len()
        invariant
            at <= hashes@.len(),
            out@ == old(out)@ + hashes@.subrange(0, at as int),
        decreases hashes@.len() - at,
    {
        out.push(hashes[at]);
        at = at + 1;
        assert(out@ =~= old(out)@ + hashes@.subrange(0, at as int));
    }
    assert(hashes@.subrange(0, at as int) =~= hashes@);
}

} // verus!
