//! The wire form of merkle proofs.
use vstd::prelude::*;

use crate::error::{corrupt, Corruption, Error, IoErrorKind};
use crate::hash::{MarfTrieId, TrieHash};
use crate::hex::{hex_of, to_hex};
use crate::leaf::{Leaf, TrieLeaf};
use crate::merkle_proof::{
    flat, hash_views, step_views, ProofNode, ProofPtr, ProofTrieNode, ProofTriePtr, Step,
    TrieMerkleProof, TrieMerkleProofType,
};
use crate::proof_build::{hash_array, ptr_views};
use crate::value::MARFValue;
use crate::words::{
    be_bytes, be_value, lemma_be_len, lemma_be_roundtrip, lemma_spans, push_be, push_bytes, read_be,
    to_array,
};

verus! {

/// The wire form of a pointer.
pub open spec fn ptr_wire(ptr: ProofPtr) -> Seq<u8> {
    seq![ptr.id, ptr.chr] + ptr.back_block
}

/// The wire form of pointers, one after the other.
pub open spec fn ptrs_wire(ptrs: Seq<ProofPtr>) -> Seq<u8>
    decreases ptrs.len(),
{
    if ptrs.len() == 0 {
        Seq::empty()
    } else {
        ptrs_wire(ptrs.drop_last()) + ptr_wire(ptrs.last())
    }
}

/// The wire form of a branch.
pub open spec fn node_wire(node: ProofNode) -> Seq<u8> {
    seq![node.id] + be_bytes(node.path.len(), 4) + node.path + be_bytes(node.ptrs.len(), 4)
        + ptrs_wire(node.ptrs)
}

/// The wire form of a leaf with a value.
pub open spec fn leaf_wire(leaf: Leaf) -> Seq<u8> {
    be_bytes(leaf.path.len(), 4) + leaf.path + leaf.data->0
}

/// A place, as the unsigned number with the same bytes.
pub open spec fn place_number(idx: int) -> nat {
    if idx >= 0 {
        idx as nat
    } else {
        (idx + 0x1_0000_0000_0000_0000) as nat
    }
}

/// The type byte of a branch step.
pub open spec fn branch_tag(capacity: nat) -> u8 {
    if capacity == 4 {
        0
    } else if capacity == 16 {
        1
    } else if capacity == 48 {
        2
    } else {
        3
    }
}

/// The wire form of a step.
pub open spec fn step_wire(step: Step) -> Seq<u8> {
    match step {
        Step::Branch { chr, node, hashes, capacity } => seq![branch_tag(capacity), chr] + node_wire(
            node,
        ) + flat(hashes),
        Step::Leaf { chr, leaf } => seq![4u8, chr] + leaf_wire(leaf),
        Step::Shunt { idx, hashes } => seq![5u8] + be_bytes(place_number(idx), 8) + be_bytes(
            hashes.len(),
            4,
        ) + flat(hashes),
    }
}

/// The wire form of steps, one after the other.
pub open spec fn steps_wire(steps: Seq<Step>) -> Seq<u8>
    decreases steps.len(),
{
    if steps.len() == 0 {
        Seq::empty()
    } else {
        steps_wire(steps.drop_last()) + step_wire(steps.last())
    }
}

/// The wire form of a proof.
pub open spec fn proof_wire(steps: Seq<Step>) -> Seq<u8> {
    be_bytes(steps.len(), 4) + steps_wire(steps)
}

/// Whether every leaf of a proof has a value.
pub open spec fn valued(steps: Seq<Step>) -> bool {
    forall|i: int| 0 <= i < steps.len() && #[trigger] steps[i] is Leaf ==> steps[i]->leaf.data is Some
}

/// Append hashes one after the other.
fn push_hash_bytes(out: &mut Vec<u8>, hashes: &[TrieHash])
    ensures
        final(out)@ == old(out)@ + flat(hash_views(hashes@)),
{
    let mut at: usize = 0;
    let ghost all = hash_views(hashes@);
    assert(out@ =~= old(out)@ + flat(all.subrange(0, 0)));
    while at < hashes.len()
        invariant
            at <= hashes@.len(),
            all == hash_views(hashes@),
            out@ == old(out)@ + flat(all.subrange(0, at as int)),
        decreases hashes@.len() - at,
    {
        let ghost before = out@;
        push_bytes(out, hashes[at].as_bytes());
        at = at + 1;
        let ghost part = all.subrange(0, at as int);
        assert(part.drop_last() =~= all.subrange(0, at - 1));
        assert(out@ =~= old(out)@ + flat(part));
    }
    assert(all.subrange(0, at as int) =~= all);
}

impl<T: MarfTrieId> ProofTriePtr<T> {
    /// Append the wire form.
    pub fn consensus_serialize(&self, out: &mut Vec<u8>)
        ensures
            final(out)@ == old(out)@ + ptr_wire(self@),
    {
        out.push(self.id);
        out.push(self.chr);
        push_bytes(out, self.back_block.as_bytes());
        assert(out@ =~= old(out)@ + ptr_wire(self@));
    }
}

impl<T: MarfTrieId> ProofTrieNode<T> {
    /// Append the wire form.
    pub fn consensus_serialize(&self, out: &mut Vec<u8>)
        ensures
            final(out)@ == old(out)@ + node_wire(self@),
    {
        out.push(self.id);
        push_be(out, self.path.len() as u64, 4);
        push_bytes(out, self.path.as_slice());
        push_be(out, self.ptrs.len() as u64, 4);
        let ghost head = out@;
        let ghost all = self@.ptrs;
        let mut at: usize = 0;
        assert(out@ =~= head + ptrs_wire(all.subrange(0, 0)));
        while at < self.ptrs.len()
            invariant
                at <= self.ptrs@.len(),
                all == self@.ptrs,
                out@ == head + ptrs_wire(all.subrange(0, at as int)),
            decreases self.ptrs@.len() - at,
        {
            self.ptrs[at].consensus_serialize(out);
            at = at + 1;
            let ghost part = all.subrange(0, at as int);
            assert(part.drop_last() =~= all.subrange(0, at - 1));
            assert(out@ =~= head + ptrs_wire(part));
        }
        assert(all.subrange(0, at as int) =~= all);
        assert(out@ =~= old(out)@ + node_wire(self@));
    }
}

impl TrieLeaf {
    /// Append the wire form; a leaf without a logical value has none.
    pub fn consensus_serialize(&self, out: &mut Vec<u8>) -> (done: Result<(), Error>)
        ensures
            match self@.data {
                Some(_) => done is Ok && final(out)@ == old(out)@ + leaf_wire(self@),
                None => done == Err::<(), Error>(
                    Error::CorruptionError(Corruption::MissingLeafValue),
                ) && final(out)@ == old(out)@,
            },
    {
        match &self.data {
            Some(value) => {
                push_be(out, self.path.len() as u64, 4);
                push_bytes(out, self.path.as_slice());
                push_bytes(out, &value.0);
                assert(out@ =~= old(out)@ + leaf_wire(self@));
                Ok(())
            },
            None => Err(corrupt(Corruption::MissingLeafValue)),
        }
    }
}

fn to_place_number(idx: i64) -> (n: u64)
    ensures
        n == place_number(idx as int),
{
    if idx >= 0 {
        idx as u64
    } else {
        (idx + i64::MAX + 1) as u64 + 0x8000_0000_0000_0000
    }
}

impl<T: MarfTrieId> TrieMerkleProofType<T> {
    /// Append the wire form; a leaf without a logical value has none.
    pub fn consensus_serialize(&self, out: &mut Vec<u8>) -> (done: Result<(), Error>)
        ensures
            if self@ is Leaf && self@->leaf.data is None {
                done == Err::<(), Error>(Error::CorruptionError(Corruption::MissingLeafValue))
            } else {
                done is Ok && final(out)@ == old(out)@ + step_wire(self@)
            },
    {
        match self {
            TrieMerkleProofType::Node4((chr, node, hashes)) => {
                out.push(0);
                out.push(*chr);
                node.consensus_serialize(out);
                push_hash_bytes(out, hashes);
            },
            TrieMerkleProofType::Node16((chr, node, hashes)) => {
                out.push(1);
                out.push(*chr);
                node.consensus_serialize(out);
                push_hash_bytes(out, hashes);
            },
            TrieMerkleProofType::Node48((chr, node, hashes)) => {
                out.push(2);
                out.push(*chr);
                node.consensus_serialize(out);
                push_hash_bytes(out, hashes);
            },
            TrieMerkleProofType::Node256((chr, node, hashes)) => {
                out.push(3);
                out.push(*chr);
                node.consensus_serialize(out);
                push_hash_bytes(out, hashes);
            },
            TrieMerkleProofType::Leaf((chr, leaf)) => {
                out.push(4);
                out.push(*chr);
                match leaf.consensus_serialize(out) {
                    Ok(()) => {},
                    Err(e) => return Err(e),
                }
            },
            TrieMerkleProofType::Shunt((idx, hashes)) => {
                out.push(5);
                push_be(out, to_place_number(*idx), 8);
                push_be(out, hashes.len() as u64, 4);
                push_hash_bytes(out, hashes.as_slice());
            },
        }
        assert(out@ =~= old(out)@ + step_wire(self@));
        Ok(())
    }
}

impl<T: MarfTrieId> TrieMerkleProof<T> {
    /// Append the wire form; a leaf without a logical value has none.
    pub fn consensus_serialize(&self, out: &mut Vec<u8>) -> (done: Result<(), Error>)
        ensures
            done is Ok <==> valued(step_views(self.0@)),
            done is Ok ==> final(out)@ == old(out)@ + proof_wire(step_views(self.0@)),
            done is Err ==> done == Err::<(), Error>(
                Error::CorruptionError(Corruption::MissingLeafValue),
            ),
    {
        let ghost all = step_views(self.0@);
        push_be(out, self.0.len() as u64, 4);
        let ghost head = out@;
        let mut at: usize = 0;
        assert(out@ =~= head + steps_wire(all.subrange(0, 0)));
        while at < self.0.len()
            invariant
                at <= self.0@.len(),
                all == step_views(self.0@),
                out@ == head + steps_wire(all.subrange(0, at as int)),
                forall|i: int|
                    0 <= i < at && #[trigger] all[i] is Leaf ==> all[i]->leaf.data is Some,
            decreases self.0@.len() - at,
        {
            assert(all[at as int] == self.0@[at as int]@);
            match self.0[at].consensus_serialize(out) {
                Ok(()) => {},
                Err(e) => return Err(e),
            }
            at = at + 1;
            let ghost part = all.subrange(0, at as int);
            assert(part.drop_last() =~= all.subrange(0, at - 1));
            assert(out@ =~= head + steps_wire(part));
        }
        assert(all.subrange(0, at as int) =~= all);
        assert(out@ =~= old(out)@ + proof_wire(all));
        Ok(())
    }

    /// The wire form in hexadecimal digits.
    pub fn to_hex(&self) -> (text: Vec<u8>)
        requires
            valued(step_views(self.0@)),
        ensures
            text@ == hex_of(proof_wire(step_views(self.0@))),
    {
        let mut bytes: Vec<u8> = Vec::new();
        let _ = self.consensus_serialize(&mut bytes);
        assert(bytes@ =~= proof_wire(step_views(self.0@)));
        to_hex(bytes.as_slice())
    }
}

/// The bytes ended too soon.
pub open spec fn ended() -> Error {
    Error::IOError(IoErrorKind::UnexpectedEof)
}

/// The count at a place in bytes, and the place behind it.
pub open spec fn count_at(bytes: Seq<u8>, at: int) -> Result<(nat, int), Error> {
    if at + 4 <= bytes.len() {
        Ok((be_value(bytes.subrange(at, at + 4)), at + 4))
    } else {
        Err(ended())
    }
}

/// Counted bytes at a place in bytes, and the place behind them.
pub open spec fn bytes_at(bytes: Seq<u8>, at: int) -> Result<(Seq<u8>, int), Error> {
    match count_at(bytes, at) {
        Err(e) => Err(e),
        Ok((n, from)) => if from + n <= bytes.len() {
            Ok((bytes.subrange(from, from + n), from + n))
        } else {
            Err(ended())
        },
    }
}

/// Pointers at a place in bytes, behind others, and the place behind them.
pub open spec fn ptrs_at(bytes: Seq<u8>, at: int, n: nat, before: Seq<ProofPtr>) -> Result<
    (Seq<ProofPtr>, int),
    Error,
>
    decreases n,
{
    if n == 0 {
        Ok((before, at))
    } else if at + 34 <= bytes.len() {
        let ptr = ProofPtr {
            id: bytes[at],
            chr: bytes[at + 1],
            back_block: bytes.subrange(at + 2, at + 34),
        };
        ptrs_at(bytes, at + 34, (n - 1) as nat, before.push(ptr))
    } else {
        Err(ended())
    }
}

/// Hashes at a place in bytes, behind others, and the place behind them.
pub open spec fn hashes_at(bytes: Seq<u8>, at: int, n: nat, before: Seq<Seq<u8>>) -> Result<
    (Seq<Seq<u8>>, int),
    Error,
>
    decreases n,
{
    if n == 0 {
        Ok((before, at))
    } else if at + 32 <= bytes.len() {
        hashes_at(bytes, at + 32, (n - 1) as nat, before.push(bytes.subrange(at, at + 32)))
    } else {
        Err(ended())
    }
}

/// A branch at a place in bytes, and the place behind it.
pub open spec fn node_at(bytes: Seq<u8>, at: int) -> Result<(ProofNode, int), Error> {
    if at + 1 > bytes.len() {
        Err(ended())
    } else {
        match bytes_at(bytes, at + 1) {
            Err(e) => Err(e),
            Ok((path, next)) => match count_at(bytes, next) {
                Err(e) => Err(e),
                Ok((n, from)) => match ptrs_at(bytes, from, n, Seq::empty()) {
                    Err(e) => Err(e),
                    Ok((ptrs, end)) => Ok((ProofNode { id: bytes[at], path, ptrs }, end)),
                },
            },
        }
    }
}

/// A leaf at a place in bytes, and the place behind it.
pub open spec fn leaf_at(bytes: Seq<u8>, at: int) -> Result<(Leaf, int), Error> {
    match bytes_at(bytes, at) {
        Err(e) => Err(e),
        Ok((path, next)) => if path.len() > 32 {
            Err(Error::CorruptionError(Corruption::BadMessage))
        } else if next + 40 > bytes.len() {
            Err(ended())
        } else {
            Ok(
                (
                    Leaf {
                        path,
                        data: Some(bytes.subrange(next, next + 40)),
                        extent: None,
                        inline: None,
                    },
                    next + 40,
                ),
            )
        },
    }
}

/// The capacity of the branches with a type byte.
pub open spec fn tag_capacity(tag: u8) -> nat {
    if tag == 0 {
        4
    } else if tag == 1 {
        16
    } else if tag == 2 {
        48
    } else {
        256
    }
}

/// The place that a number with the same bytes stands for.
pub open spec fn number_place(n: nat) -> int {
    if n < 0x8000_0000_0000_0000 {
        n as int
    } else {
        n - 0x1_0000_0000_0000_0000
    }
}

/// A step at a place in bytes, and the place behind it.
pub open spec fn step_at(bytes: Seq<u8>, at: int) -> Result<(Step, int), Error> {
    if at + 1 > bytes.len() {
        Err(ended())
    } else if bytes[at] > 5 {
        Err(Error::CorruptionError(Corruption::BadMessage))
    } else if bytes[at] == 5 {
        if at + 9 > bytes.len() {
            Err(ended())
        } else {
            match count_at(bytes, at + 9) {
                Err(e) => Err(e),
                Ok((n, from)) => match hashes_at(bytes, from, n, Seq::empty()) {
                    Err(e) => Err(e),
                    Ok((hashes, end)) => Ok(
                        (
                            Step::Shunt {
                                idx: number_place(be_value(bytes.subrange(at + 1, at + 9))),
                                hashes,
                            },
                            end,
                        ),
                    ),
                },
            }
        }
    } else if at + 2 > bytes.len() {
        Err(ended())
    } else if bytes[at] == 4 {
        match leaf_at(bytes, at + 2) {
            Err(e) => Err(e),
            Ok((leaf, end)) => Ok((Step::Leaf { chr: bytes[at + 1], leaf }, end)),
        }
    } else {
        let capacity = tag_capacity(bytes[at]);
        match node_at(bytes, at + 2) {
            Err(e) => Err(e),
            Ok((node, next)) => match hashes_at(bytes, next, (capacity - 1) as nat, Seq::empty()) {
                Err(e) => Err(e),
                Ok((hashes, end)) => Ok(
                    (Step::Branch { chr: bytes[at + 1], node, hashes, capacity }, end),
                ),
            },
        }
    }
}

/// Steps at a place in bytes, behind others, and the place behind them.
pub open spec fn steps_at(bytes: Seq<u8>, at: int, n: nat, before: Seq<Step>) -> Result<
    (Seq<Step>, int),
    Error,
>
    decreases n,
{
    if n == 0 {
        Ok((before, at))
    } else {
        match step_at(bytes, at) {
            Err(e) => Err(e),
            Ok((step, next)) => steps_at(bytes, next, (n - 1) as nat, before.push(step)),
        }
    }
}

/// The proof that bytes start with, and its length.
pub open spec fn proof_at(bytes: Seq<u8>) -> Result<(Seq<Step>, int), Error> {
    match count_at(bytes, 0) {
        Err(e) => Err(e),
        Ok((n, from)) => steps_at(bytes, from, n, Seq::empty()),
    }
}

/// Read a count.
fn read_count(bytes: &[u8], at: usize) -> (count: Result<(u64, usize), Error>)
    requires
        at <= bytes@.len(),
    ensures
        match count_at(bytes@, at as int) {
            Ok((n, end)) => count matches Ok((m, next)) && m == n && next == end && next
                <= bytes@.len() && m < 0x1_0000_0000,
            Err(e) => count == Err::<(u64, usize), Error>(e),
        },
{
    if bytes.len() - at < 4 {
        return Err(Error::IOError(IoErrorKind::UnexpectedEof));
    }
    proof {
        lemma_spans();
    }
    Ok((read_be(bytes, at, 4), at + 4))
}

/// Read counted bytes.
fn read_bytes(bytes: &[u8], at: usize) -> (out: Result<(&[u8], usize), Error>)
    requires
        at <= bytes@.len(),
    ensures
        match bytes_at(bytes@, at as int) {
            Ok((found, end)) => out matches Ok((part, next)) && part@ == found && next == end && next
                <= bytes@.len(),
            Err(e) => out matches Err(f) && f == e,
        },
{
    let (n, from): (u64, usize) = match read_count(bytes, at) {
        Ok(count) => count,
        Err(e) => return Err(e),
    };
    if ((bytes.len() - from) as u64) < n {
        return Err(Error::IOError(IoErrorKind::UnexpectedEof));
    }
    let end: usize = from + n as usize;
    Ok((&bytes[from..end], end))
}

/// Read hashes.
fn read_hashes(bytes: &[u8], at: usize, n: u64) -> (out: Result<(Vec<TrieHash>, usize), Error>)
    requires
        at <= bytes@.len(),
    ensures
        match hashes_at(bytes@, at as int, n as nat, Seq::empty()) {
            Ok((found, end)) => out matches Ok((hashes, next)) && hash_views(hashes@) == found
                && next == end && next <= bytes@.len() && hashes@.len() == n,
            Err(e) => out matches Err(f) && f == e,
        },
{
    let mut hashes: Vec<TrieHash> = Vec::new();
    let mut next: usize = at;
    let mut left: u64 = n;
    assert(hash_views(hashes@) =~= Seq::<Seq<u8>>::empty());
    while left > 0
        invariant
            left <= n,
            next <= bytes@.len(),
            hashes@.len() == n - left,
            hashes_at(bytes@, at as int, n as nat, Seq::empty()) == hashes_at(
                bytes@,
                next as int,
                left as nat,
                hash_views(hashes@),
            ),
        decreases left,
    {
        if bytes.len() - next < 32 {
            return Err(Error::IOError(IoErrorKind::UnexpectedEof));
        }
        let ghost before = hash_views(hashes@);
        hashes.push(TrieHash(to_array::<32>(&bytes[next..next + 32])));
        assert(hash_views(hashes@) =~= before.push(bytes@.subrange(next as int, next + 32)));
        next = next + 32;
        left = left - 1;
    }
    Ok((hashes, next))
}

impl<T: MarfTrieId> ProofTrieNode<T> {
    /// Read a branch at a place in bytes.
    pub fn consensus_deserialize(bytes: &[u8], at: usize) -> (out: Result<(Self, usize), Error>)
        requires
            at <= bytes@.len(),
        ensures
            match node_at(bytes@, at as int) {
                Ok((found, end)) => out matches Ok((node, next)) && node@ == found && next == end
                    && next <= bytes@.len(),
                Err(e) => out matches Err(f) && f == e,
            },
    {
        if bytes.len() - at < 1 {
            return Err(Error::IOError(IoErrorKind::UnexpectedEof));
        }
        let (path_bytes, mid): (&[u8], usize) = match read_bytes(bytes, at + 1) {
            Ok(found) => found,
            Err(e) => return Err(e),
        };
        let (n, from): (u64, usize) = match read_count(bytes, mid) {
            Ok(found) => found,
            Err(e) => return Err(e),
        };
        let mut ptrs: Vec<ProofTriePtr<T>> = Vec::new();
        let mut next: usize = from;
        let mut left: u64 = n;
        assert(ptr_views(ptrs@) =~= Seq::<ProofPtr>::empty());
        while left > 0
            invariant
                left <= n,
                next <= bytes@.len(),
                ptrs_at(bytes@, from as int, n as nat, Seq::empty()) == ptrs_at(
                    bytes@,
                    next as int,
                    left as nat,
                    ptr_views(ptrs@),
                ),
                at < bytes@.len(),
                bytes_at(bytes@, at + 1) == Ok::<(Seq<u8>, int), Error>((path_bytes@, mid as int)),
                count_at(bytes@, mid as int) == Ok::<(nat, int), Error>((n as nat, from as int)),
            decreases left,
        {
            if bytes.len() - next < 34 {
                return Err(Error::IOError(IoErrorKind::UnexpectedEof));
            }
            let ghost before = ptr_views(ptrs@);
            let block: T = T::from_bytes(to_array::<32>(&bytes[next + 2..next + 34]));
            let ptr = ProofTriePtr { id: bytes[next], chr: bytes[next + 1], back_block: block };
            let ghost said = ptr@;
            ptrs.push(ptr);
            assert(ptr_views(ptrs@) =~= before.push(said));
            assert(said =~= ProofPtr {
                id: bytes@[next as int],
                chr: bytes@[next + 1],
                back_block: bytes@.subrange(next + 2, next + 34),
            });
            next = next + 34;
            left = left - 1;
        }
        let mut path: Vec<u8> = Vec::new();
        push_bytes(&mut path, path_bytes);
        let node = ProofTrieNode { id: bytes[at], path, ptrs };
        assert(node@.ptrs =~= ptr_views(node.ptrs@));
        assert(node@.path =~= path_bytes@);
        Ok((node, next))
    }
}

impl TrieLeaf {
    /// Read a leaf at a place in bytes.
    pub fn consensus_deserialize(bytes: &[u8], at: usize) -> (out: Result<(Self, usize), Error>)
        requires
            at <= bytes@.len(),
        ensures
            match leaf_at(bytes@, at as int) {
                Ok((found, end)) => out matches Ok((leaf, next)) && leaf@ == found && next == end
                    && next <= bytes@.len(),
                Err(e) => out matches Err(f) && f == e,
            },
    {
        let (path, next): (&[u8], usize) = match read_bytes(bytes, at) {
            Ok(found) => found,
            Err(e) => return Err(e),
        };
        if path.len() > 32 {
            return Err(corrupt(Corruption::BadMessage));
        }
        if bytes.len() - next < 40 {
            return Err(Error::IOError(IoErrorKind::UnexpectedEof));
        }
        let value = MARFValue(to_array::<40>(&bytes[next..next + 40]));
        Ok((TrieLeaf::from_value(path, value), next + 40))
    }
}

fn to_place(n: u64) -> (idx: i64)
    ensures
        idx == number_place(n as nat),
{
    if n < 0x8000_0000_0000_0000 {
        n as i64
    } else {
        (n - 0x8000_0000_0000_0000) as i64 - i64::MAX - 1
    }
}

impl<T: MarfTrieId> TrieMerkleProofType<T> {
    /// Read a branch of a known capacity.
    fn read_branch(bytes: &[u8], at: usize) -> (out: Result<(Self, usize), Error>)
        requires
            at + 2 <= bytes@.len(),
            bytes@[at as int] < 4,
        ensures
            match step_at(bytes@, at as int) {
                Ok((found, end)) => out matches Ok((step, next)) && step@ == found && next == end
                    && next <= bytes@.len(),
                Err(e) => out matches Err(f) && f == e,
            },
    {
        let tag: u8 = bytes[at];
        let chr: u8 = bytes[at + 1];
        let (node, mid): (ProofTrieNode<T>, usize) = match ProofTrieNode::consensus_deserialize(
            bytes,
            at + 2,
        ) {
            Ok(found) => found,
            Err(e) => return Err(e),
        };
        let count: u64 = if tag == 0 {
            3
        } else if tag == 1 {
            15
        } else if tag == 2 {
            47
        } else {
            255
        };
        let (hashes, next): (Vec<TrieHash>, usize) = match read_hashes(bytes, mid, count) {
            Ok(found) => found,
            Err(e) => return Err(e),
        };
        let all: &[TrieHash] = hashes.as_slice();
        let step: TrieMerkleProofType<T> = if tag == 0 {
            TrieMerkleProofType::Node4((chr, node, hash_array::<3>(all)))
        } else if tag == 1 {
            TrieMerkleProofType::Node16((chr, node, hash_array::<15>(all)))
        } else if tag == 2 {
            TrieMerkleProofType::Node48((chr, node, hash_array::<47>(all)))
        } else {
            TrieMerkleProofType::Node256((chr, node, hash_array::<255>(all)))
        };
        Ok((step, next))
    }

    /// Read a step at a place in bytes.
    pub fn consensus_deserialize(bytes: &[u8], at: usize) -> (out: Result<(Self, usize), Error>)
        requires
            at <= bytes@.len(),
        ensures
            match step_at(bytes@, at as int) {
                Ok((found, end)) => out matches Ok((step, next)) && step@ == found && next == end
                    && next <= bytes@.len(),
                Err(e) => out matches Err(f) && f == e,
            },
    {
        if bytes.len() - at < 1 {
            return Err(Error::IOError(IoErrorKind::UnexpectedEof));
        }
        let tag: u8 = bytes[at];
        if tag > 5 {
            return Err(corrupt(Corruption::BadMessage));
        }
        if tag == 5 {
            if bytes.len() - at < 9 {
                return Err(Error::IOError(IoErrorKind::UnexpectedEof));
            }
            let idx: i64 = to_place(read_be(bytes, at + 1, 8));
            let (n, from): (u64, usize) = match read_count(bytes, at + 9) {
                Ok(found) => found,
                Err(e) => return Err(e),
            };
            return match read_hashes(bytes, from, n) {
                Ok((hashes, next)) => Ok((TrieMerkleProofType::Shunt((idx, hashes)), next)),
                Err(e) => Err(e),
            };
        }
        if bytes.len() - at < 2 {
            return Err(Error::IOError(IoErrorKind::UnexpectedEof));
        }
        if tag == 4 {
            return match TrieLeaf::consensus_deserialize(bytes, at + 2) {
                Ok((leaf, next)) => Ok((TrieMerkleProofType::Leaf((bytes[at + 1], leaf)), next)),
                Err(e) => Err(e),
            };
        }
        Self::read_branch(bytes, at)
    }
}

impl<T: MarfTrieId> TrieMerkleProof<T> {
    /// Read the proof that bytes start with, and its length.
    pub fn consensus_deserialize(bytes: &[u8]) -> (out: Result<(Self, usize), Error>)
        ensures
            match proof_at(bytes@) {
                Ok((found, end)) => out matches Ok((proof, next)) && step_views(proof.0@) == found
                    && next == end && next <= bytes@.len(),
                Err(e) => out matches Err(f) && f == e,
            },
    {
        let (n, from): (u64, usize) = match read_count(bytes, 0) {
            Ok(found) => found,
            Err(e) => return Err(e),
        };
        let mut steps: Vec<TrieMerkleProofType<T>> = Vec::new();
        let mut next: usize = from;
        let mut left: u64 = n;
        assert(step_views(steps@) =~= Seq::<Step>::empty());
        while left > 0
            invariant
                left <= n,
                next <= bytes@.len(),
                count_at(bytes@, 0) == Ok::<(nat, int), Error>((n as nat, from as int)),
                steps_at(bytes@, from as int, n as nat, Seq::empty()) == steps_at(
                    bytes@,
                    next as int,
                    left as nat,
                    step_views(steps@),
                ),
            decreases left,
        {
            let ghost before = step_views(steps@);
            match TrieMerkleProofType::consensus_deserialize(bytes, next) {
                Ok((step, after)) => {
                    let ghost said = step@;
                    steps.push(step);
                    assert(step_views(steps@) =~= before.push(said));
                    next = after;
                },
                Err(e) => return Err(e),
            }
            left = left - 1;
        }
        Ok((TrieMerkleProof(steps), next))
    }
}

/// Whether bytes hold others at a place.
pub open spec fn holds_at(bytes: Seq<u8>, at: int, part: Seq<u8>) -> bool {
    &&& 0 <= at
    &&& at + part.len() <= bytes.len()
    &&& bytes.subrange(at, at + part.len()) == part
}

proof fn lemma_holds_parts(bytes: Seq<u8>, at: int, a: Seq<u8>, b: Seq<u8>)
    requires
        holds_at(bytes, at, a + b),
    ensures
        holds_at(bytes, at, a),
        holds_at(bytes, at + a.len(), b),
{
    let whole = bytes.subrange(at, at + (a + b).len());
    assert(bytes.subrange(at, at + a.len()) =~= whole.subrange(0, a.len() as int));
    assert((a + b).subrange(0, a.len() as int) =~= a);
    assert(bytes.subrange(at + a.len(), at + a.len() + b.len()) =~= whole.subrange(
        a.len() as int,
        (a + b).len() as int,
    ));
    assert((a + b).subrange(a.len() as int, (a + b).len() as int) =~= b);
}

/// Whether hashes have their width.
pub open spec fn all_wide(hashes: Seq<Seq<u8>>) -> bool {
    forall|i: int| 0 <= i < hashes.len() ==> #[trigger] hashes[i].len() == 32
}

proof fn lemma_flat_part(hashes: Seq<Seq<u8>>, i: int)
    requires
        all_wide(hashes),
        0 <= i < hashes.len(),
    ensures
        flat(hashes).len() == 32 * hashes.len(),
        flat(hashes).subrange(32 * i, 32 * i + 32) == hashes[i],
    decreases hashes.len(),
{
    let head = hashes.drop_last();
    lemma_flat_len(hashes);
    lemma_flat_len(head);
    if i < head.len() {
        lemma_flat_part(head, i);
        assert(flat(hashes).subrange(32 * i, 32 * i + 32) =~= flat(head).subrange(
            32 * i,
            32 * i + 32,
        ));
    } else {
        assert(flat(hashes).subrange(32 * i, 32 * i + 32) =~= hashes[i]);
    }
}

proof fn lemma_flat_len(hashes: Seq<Seq<u8>>)
    requires
        all_wide(hashes),
    ensures
        flat(hashes).len() == 32 * hashes.len(),
    decreases hashes.len(),
{
    if hashes.len() > 0 {
        lemma_flat_len(hashes.drop_last());
        assert(hashes.last().len() == 32);
    }
}

proof fn lemma_hashes_read(bytes: Seq<u8>, at: int, hashes: Seq<Seq<u8>>, done: int)
    requires
        all_wide(hashes),
        holds_at(bytes, at, flat(hashes)),
        0 <= done <= hashes.len(),
    ensures
        hashes_at(
            bytes,
            at + 32 * done,
            (hashes.len() - done) as nat,
            hashes.subrange(0, done),
        ) == Ok::<(Seq<Seq<u8>>, int), Error>((hashes, at + flat(hashes).len())),
    decreases hashes.len() - done,
{
    lemma_flat_len(hashes);
    if done < hashes.len() {
        lemma_flat_part(hashes, done);
        lemma_hashes_read(bytes, at, hashes, done + 1);
        let whole = bytes.subrange(at, at + flat(hashes).len());
        assert(bytes.subrange(at + 32 * done, at + 32 * done + 32) =~= whole.subrange(
            32 * done,
            32 * done + 32,
        ));
        assert(hashes.subrange(0, done).push(hashes[done]) =~= hashes.subrange(0, done + 1));
    } else {
        assert(hashes.subrange(0, done) =~= hashes);
    }
}

/// Whether pointers name blocks by full identities.
pub open spec fn all_named(ptrs: Seq<ProofPtr>) -> bool {
    forall|i: int| 0 <= i < ptrs.len() ==> #[trigger] ptrs[i].back_block.len() == 32
}

proof fn lemma_ptrs_len(ptrs: Seq<ProofPtr>)
    requires
        all_named(ptrs),
    ensures
        ptrs_wire(ptrs).len() == 34 * ptrs.len(),
    decreases ptrs.len(),
{
    if ptrs.len() > 0 {
        lemma_ptrs_len(ptrs.drop_last());
        assert(ptrs.last().back_block.len() == 32);
    }
}

proof fn lemma_ptr_part(ptrs: Seq<ProofPtr>, i: int)
    requires
        all_named(ptrs),
        0 <= i < ptrs.len(),
    ensures
        ptrs_wire(ptrs).len() == 34 * ptrs.len(),
        ptrs_wire(ptrs).subrange(34 * i, 34 * i + 34) == ptr_wire(ptrs[i]),
    decreases ptrs.len(),
{
    let head = ptrs.drop_last();
    lemma_ptrs_len(ptrs);
    lemma_ptrs_len(head);
    if i < head.len() {
        lemma_ptr_part(head, i);
        assert(ptrs_wire(ptrs).subrange(34 * i, 34 * i + 34) =~= ptrs_wire(head).subrange(
            34 * i,
            34 * i + 34,
        ));
    } else {
        assert(ptrs[i].back_block.len() == 32);
        assert(ptrs_wire(ptrs).subrange(34 * i, 34 * i + 34) =~= ptr_wire(ptrs[i]));
    }
}

proof fn lemma_ptrs_read(bytes: Seq<u8>, at: int, ptrs: Seq<ProofPtr>, done: int)
    requires
        all_named(ptrs),
        holds_at(bytes, at, ptrs_wire(ptrs)),
        0 <= done <= ptrs.len(),
    ensures
        ptrs_at(bytes, at + 34 * done, (ptrs.len() - done) as nat, ptrs.subrange(0, done)) == Ok::<
            (Seq<ProofPtr>, int),
            Error,
        >((ptrs, at + ptrs_wire(ptrs).len())),
    decreases ptrs.len() - done,
{
    lemma_ptrs_len(ptrs);
    if done < ptrs.len() {
        lemma_ptr_part(ptrs, done);
        lemma_ptrs_read(bytes, at, ptrs, done + 1);
        let from = at + 34 * done;
        let whole = bytes.subrange(at, at + ptrs_wire(ptrs).len());
        let part = ptr_wire(ptrs[done]);
        assert(bytes.subrange(from, from + 34) =~= whole.subrange(34 * done, 34 * done + 34));
        assert(bytes[from] == bytes.subrange(from, from + 34)[0]);
        assert(bytes[from + 1] == bytes.subrange(from, from + 34)[1]);
        assert(bytes.subrange(from + 2, from + 34) =~= bytes.subrange(from, from + 34).subrange(
            2,
            34,
        ));
        assert(part.subrange(2, 34) =~= ptrs[done].back_block);
        let ptr = ProofPtr {
            id: bytes[from],
            chr: bytes[from + 1],
            back_block: bytes.subrange(from + 2, from + 34),
        };
        assert(ptr =~= ptrs[done]);
        assert(ptrs.subrange(0, done).push(ptrs[done]) =~= ptrs.subrange(0, done + 1));
    } else {
        assert(ptrs.subrange(0, done) =~= ptrs);
    }
}

proof fn lemma_count_read(bytes: Seq<u8>, at: int, n: nat)
    requires
        n < 0x1_0000_0000,
        holds_at(bytes, at, be_bytes(n, 4)),
    ensures
        count_at(bytes, at) == Ok::<(nat, int), Error>((n, at + 4)),
        be_bytes(n, 4).len() == 4,
{
    lemma_be_len(n, 4);
    lemma_spans();
    lemma_be_roundtrip(n, 4);
}

proof fn lemma_bytes_read(bytes: Seq<u8>, at: int, part: Seq<u8>)
    requires
        part.len() < 0x1_0000_0000,
        holds_at(bytes, at, be_bytes(part.len(), 4) + part),
    ensures
        bytes_at(bytes, at) == Ok::<(Seq<u8>, int), Error>((part, at + 4 + part.len())),
        be_bytes(part.len(), 4).len() == 4,
{
    lemma_holds_parts(bytes, at, be_bytes(part.len(), 4), part);
    lemma_count_read(bytes, at, part.len());
}

/// Whether a branch can be sent.
pub open spec fn sendable_node(node: ProofNode) -> bool {
    &&& node.path.len() < 0x1_0000_0000
    &&& node.ptrs.len() < 0x1_0000_0000
    &&& all_named(node.ptrs)
}

/// Whether a step can be sent.
pub open spec fn sendable(step: Step) -> bool {
    match step {
        Step::Branch { node, hashes, capacity, .. } => {
            &&& capacity == 4 || capacity == 16 || capacity == 48 || capacity == 256
            &&& hashes.len() == capacity - 1
            &&& all_wide(hashes)
            &&& sendable_node(node)
        },
        Step::Leaf { leaf, .. } => {
            &&& leaf.path.len() <= 32
            &&& leaf.data is Some
            &&& leaf.data->0.len() == 40
            &&& leaf.extent is None
            &&& leaf.inline is None
        },
        Step::Shunt { idx, hashes } => {
            &&& i64::MIN <= idx <= i64::MAX
            &&& hashes.len() < 0x1_0000_0000
            &&& all_wide(hashes)
        },
    }
}

proof fn lemma_node_read(bytes: Seq<u8>, at: int, node: ProofNode)
    requires
        sendable_node(node),
        holds_at(bytes, at, node_wire(node)),
    ensures
        node_at(bytes, at) == Ok::<(ProofNode, int), Error>((node, at + node_wire(node).len())),
{
    let head = seq![node.id];
    let path = be_bytes(node.path.len(), 4) + node.path;
    let count = be_bytes(node.ptrs.len(), 4);
    let ptrs = ptrs_wire(node.ptrs);
    assert(node_wire(node) =~= head + (path + (count + ptrs)));
    lemma_holds_parts(bytes, at, head, path + (count + ptrs));
    assert(bytes[at] == bytes.subrange(at, at + 1)[0]);
    lemma_holds_parts(bytes, at + 1, path, count + ptrs);
    lemma_bytes_read(bytes, at + 1, node.path);
    let mid = at + 1 + path.len();
    lemma_holds_parts(bytes, mid, count, ptrs);
    lemma_count_read(bytes, mid, node.ptrs.len());
    lemma_ptrs_read(bytes, mid + 4, node.ptrs, 0);
    assert(node.ptrs.subrange(0, 0) =~= Seq::<ProofPtr>::empty());
}

proof fn lemma_leaf_read(bytes: Seq<u8>, at: int, leaf: Leaf)
    requires
        sendable(Step::Leaf { chr: 0, leaf }),
        holds_at(bytes, at, leaf_wire(leaf)),
    ensures
        leaf_at(bytes, at) == Ok::<(Leaf, int), Error>((leaf, at + leaf_wire(leaf).len())),
{
    let path = be_bytes(leaf.path.len(), 4) + leaf.path;
    lemma_holds_parts(bytes, at, path, leaf.data->0);
    lemma_bytes_read(bytes, at, leaf.path);
    let found = leaf_at(bytes, at)->Ok_0.0;
    assert(found =~= leaf);
}

/// A step that bytes hold is read back.
pub proof fn law_step_roundtrip(bytes: Seq<u8>, at: int, step: Step)
    requires
        sendable(step),
        holds_at(bytes, at, step_wire(step)),
    ensures
        step_at(bytes, at) == Ok::<(Step, int), Error>((step, at + step_wire(step).len())),
{
    match step {
        Step::Branch { chr, node, hashes, capacity } => {
            let head = seq![branch_tag(capacity), chr];
            let body = node_wire(node);
            assert(step_wire(step) =~= head + (body + flat(hashes)));
            lemma_holds_parts(bytes, at, head, body + flat(hashes));
            assert(bytes[at] == bytes.subrange(at, at + 2)[0]);
            assert(bytes[at + 1] == bytes.subrange(at, at + 2)[1]);
            lemma_holds_parts(bytes, at + 2, body, flat(hashes));
            lemma_node_read(bytes, at + 2, node);
            lemma_hashes_read(bytes, at + 2 + body.len(), hashes, 0);
            assert(hashes.subrange(0, 0) =~= Seq::<Seq<u8>>::empty());
        },
        Step::Leaf { chr, leaf } => {
            let head = seq![4u8, chr];
            assert(step_wire(step) =~= head + leaf_wire(leaf));
            lemma_holds_parts(bytes, at, head, leaf_wire(leaf));
            assert(bytes[at] == bytes.subrange(at, at + 2)[0]);
            assert(bytes[at + 1] == bytes.subrange(at, at + 2)[1]);
            lemma_leaf_read(bytes, at + 2, leaf);
        },
        Step::Shunt { idx, hashes } => {
            let head = seq![5u8];
            let place = be_bytes(place_number(idx), 8);
            let count = be_bytes(hashes.len(), 4);
            assert(step_wire(step) =~= head + (place + (count + flat(hashes))));
            lemma_holds_parts(bytes, at, head, place + (count + flat(hashes)));
            assert(bytes[at] == bytes.subrange(at, at + 1)[0]);
            lemma_holds_parts(bytes, at + 1, place, count + flat(hashes));
            lemma_be_len(place_number(idx), 8);
            lemma_spans();
            lemma_be_roundtrip(place_number(idx), 8);
            lemma_holds_parts(bytes, at + 9, count, flat(hashes));
            lemma_count_read(bytes, at + 9, hashes.len());
            lemma_hashes_read(bytes, at + 13, hashes, 0);
            assert(hashes.subrange(0, 0) =~= Seq::<Seq<u8>>::empty());
        },
    }
}

proof fn lemma_steps_part(steps: Seq<Step>, i: int)
    requires
        0 <= i < steps.len(),
    ensures
        steps_wire(steps.subrange(0, i)).len() + step_wire(steps[i]).len() == steps_wire(
            steps.subrange(0, i + 1),
        ).len(),
        steps_wire(steps.subrange(0, i + 1)).len() <= steps_wire(steps).len(),
        steps_wire(steps).subrange(
            steps_wire(steps.subrange(0, i)).len() as int,
            steps_wire(steps.subrange(0, i + 1)).len() as int,
        ) == step_wire(steps[i]),
    decreases steps.len(),
{
    let upto = steps.subrange(0, i + 1);
    assert(upto.drop_last() =~= steps.subrange(0, i));
    if i + 1 < steps.len() {
        let head = steps.drop_last();
        lemma_steps_part(head, i);
        assert(head.subrange(0, i) =~= steps.subrange(0, i));
        assert(head.subrange(0, i + 1) =~= upto);
        assert(steps_wire(steps).subrange(
            steps_wire(steps.subrange(0, i)).len() as int,
            steps_wire(upto).len() as int,
        ) =~= steps_wire(head).subrange(
            steps_wire(steps.subrange(0, i)).len() as int,
            steps_wire(upto).len() as int,
        ));
    } else {
        assert(upto =~= steps);
        assert(steps_wire(steps).subrange(
            steps_wire(steps.subrange(0, i)).len() as int,
            steps_wire(steps).len() as int,
        ) =~= step_wire(steps[i]));
    }
}

proof fn lemma_steps_read(bytes: Seq<u8>, at: int, steps: Seq<Step>, done: int)
    requires
        forall|i: int| 0 <= i < steps.len() ==> sendable(#[trigger] steps[i]),
        holds_at(bytes, at, steps_wire(steps)),
        0 <= done <= steps.len(),
    ensures
        steps_at(
            bytes,
            at + steps_wire(steps.subrange(0, done)).len(),
            (steps.len() - done) as nat,
            steps.subrange(0, done),
        ) == Ok::<(Seq<Step>, int), Error>((steps, at + steps_wire(steps).len())),
    decreases steps.len() - done,
{
    if done < steps.len() {
        lemma_steps_part(steps, done);
        let from = steps_wire(steps.subrange(0, done)).len() as int;
        let to = steps_wire(steps.subrange(0, done + 1)).len() as int;
        let whole = bytes.subrange(at, at + steps_wire(steps).len());
        assert(bytes.subrange(at + from, at + to) =~= whole.subrange(from, to));
        law_step_roundtrip(bytes, at + from, steps[done]);
        lemma_steps_read(bytes, at, steps, done + 1);
        assert(steps.subrange(0, done).push(steps[done]) =~= steps.subrange(0, done + 1));
    } else {
        assert(steps.subrange(0, done) =~= steps);
    }
}

/// A proof that was sent is read back, whatever follows it.
pub proof fn law_proof_roundtrip(steps: Seq<Step>, tail: Seq<u8>)
    requires
        steps.len() < 0x1_0000_0000,
        forall|i: int| 0 <= i < steps.len() ==> sendable(#[trigger] steps[i]),
    ensures
        proof_at(proof_wire(steps) + tail) == Ok::<(Seq<Step>, int), Error>(
            (steps, proof_wire(steps).len() as int),
        ),
{
    let bytes = proof_wire(steps) + tail;
    assert(bytes.subrange(0, proof_wire(steps).len() as int) =~= proof_wire(steps));
    lemma_holds_parts(bytes, 0, be_bytes(steps.len(), 4), steps_wire(steps));
    lemma_count_read(bytes, 0, steps.len());
    lemma_steps_read(bytes, 4, steps, 0);
    assert(steps.subrange(0, 0) =~= Seq::<Step>::empty());
}

/// What stands before a hash in a list of hashes: a comma, and a new line before every fourth one of
/// a long list.
pub open spec fn separator(i: int, grouped: bool) -> Seq<u8> {
    if grouped && i % 4 == 0 {
        seq![10u8]
    } else if i == 0 {
        Seq::empty()
    } else {
        seq![44u8]
    }
}

/// The text of the first `n` hashes of a list.
pub open spec fn listed(hashes: Seq<TrieHash>, n: nat, grouped: bool) -> Seq<u8>
    decreases n,
{
    if n == 0 {
        Seq::empty()
    } else {
        listed(hashes, (n - 1) as nat, grouped) + separator(n - 1, grouped) + hex_of(
            hashes[n - 1]@,
        )
    }
}

/// The text of hashes. From 48 hashes on they stand in lines of four, and what does not fill a line
/// is left out.
pub fn hashes_fmt(hashes: &[TrieHash]) -> (text: Vec<u8>)
    ensures
        text@ == if hashes@.len() < 48 {
            listed(hashes@, hashes@.len(), false)
        } else {
            listed(hashes@, hashes@.len() / 4 * 4, true)
        },
{
    let grouped: bool = hashes.len() >= 48;
    let shown: usize = if grouped {
        hashes.len() / 4 * 4
    } else {
        hashes.len()
    };
    let mut text: Vec<u8> = Vec::new();
    let mut i: usize = 0;
    while i < shown
        invariant
            i <= shown <= hashes@.len(),
            text@ == listed(hashes@, i as nat, grouped),
        decreases shown - i,
    {
        if grouped && i % 4 == 0 {
            text.push(10);
        } else if i > 0 {
            text.push(44);
        }
        assert(text@ =~= listed(hashes@, i as nat, grouped) + separator(i as int, grouped));
        push_bytes(&mut text, to_hex(hashes[i].as_bytes()).as_slice());
        i = i + 1;
    }
    text
}

} // verus!
