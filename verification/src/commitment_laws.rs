//! What a node's hash commits to: all of it, and nothing twice.
use vstd::prelude::*;

use crate::hash::{concat_hashes, sha512_256_of, TrieHash};
use crate::leaf::{Leaf, TrieLeaf};
use crate::marf_extend::no_names;
use crate::merkle_proof::{
    flat, hash_views, lemma_flat_hashes, proof_ptr_bytes, proof_ptrs_bytes, ProofNode, ProofPtr,
};
use crate::node::{Branch, TriePtr};
use crate::node_codec::{get_leaf_hash, ptr_commitment, ptrs_commitment};

verus! {

/// Whether a table gives every block a name of 32 bytes.
pub open spec fn names_are_wide(table: spec_fn(u32) -> Seq<u8>) -> bool {
    forall|id: u32| (#[trigger] table(id)).len() == 32
}

/// The block that a child pointer's commitment names: that of a back-pointer, and zeros otherwise.
pub open spec fn named_block(ptr: TriePtr, table: spec_fn(u32) -> Seq<u8>) -> Seq<u8> {
    if ptr.id >= 128 {
        table(ptr.back_block)
    } else {
        Seq::new(32, |i: int| 0u8)
    }
}

/// Whether all parts have a width.
pub open spec fn all_wide(parts: Seq<Seq<u8>>, width: nat) -> bool {
    forall|i: int| 0 <= i < parts.len() ==> (#[trigger] parts[i]).len() == width
}

/// Parts of one width, one after the other, are found at multiples of it.
pub proof fn law_flat_keeps_parts(parts: Seq<Seq<u8>>, width: nat)
    requires
        all_wide(parts, width),
    ensures
        flat(parts).len() == width * parts.len(),
        forall|i: int|
            0 <= i < parts.len() ==> flat(parts).subrange(width * i, width * i + width)
                == #[trigger] parts[i],
    decreases parts.len(),
{
    if parts.len() > 0 {
        let rest = parts.drop_last();
        let last = parts.len() - 1;
        assert forall|i: int| 0 <= i < rest.len() implies (#[trigger] rest[i]).len() == width by {
            assert(rest[i] == parts[i]);
        }
        law_flat_keeps_parts(rest, width);
        assert(width * parts.len() == width * last + width) by (nonlinear_arith)
            requires
                last == parts.len() - 1,
        ;
        assert(flat(rest).len() == width * last);
        assert forall|i: int| 0 <= i < parts.len() implies flat(parts).subrange(
            width * i,
            width * i + width,
        ) == #[trigger] parts[i] by {
            assert(0 <= width * i) by (nonlinear_arith)
                requires
                    0 <= i,
            ;
            if i < last {
                assert(width * i + width <= width * last) by (nonlinear_arith)
                    requires
                        i + 1 <= last,
                ;
                assert(rest[i] == parts[i]);
                assert(flat(parts).subrange(width * i, width * i + width) =~= flat(rest).subrange(
                    width * i,
                    width * i + width,
                ));
            } else {
                assert(flat(parts).subrange(width * i, width * i + width) =~= parts[i]);
            }
        }
    } else {
        assert(width * parts.len() == 0) by (nonlinear_arith)
            requires
                parts.len() == 0,
        ;
    }
}

/// The bytes of as many parts of one width tell what the parts are.
pub proof fn law_flat_is_injective(parts: Seq<Seq<u8>>, others: Seq<Seq<u8>>, width: nat)
    requires
        all_wide(parts, width),
        all_wide(others, width),
        parts.len() == others.len(),
        flat(parts) == flat(others),
    ensures
        parts == others,
{
    law_flat_keeps_parts(parts, width);
    law_flat_keeps_parts(others, width);
    assert forall|i: int| 0 <= i < parts.len() implies parts[i] == others[i] by {
        assert(flat(parts).subrange(width * i, width * i + width) == parts[i]);
        assert(flat(others).subrange(width * i, width * i + width) == others[i]);
    }
    assert(parts =~= others);
}

/// What child pointers' commitments are made of.
pub open spec fn ptr_parts(ptrs: Seq<TriePtr>, table: spec_fn(u32) -> Seq<u8>) -> Seq<Seq<u8>> {
    Seq::new(ptrs.len(), |i: int| seq![ptrs[i].id, ptrs[i].chr] + named_block(ptrs[i], table))
}

proof fn lemma_ptr_parts(ptrs: Seq<TriePtr>, table: spec_fn(u32) -> Seq<u8>)
    requires
        names_are_wide(table),
    ensures
        ptrs_commitment(ptrs, table) == flat(ptr_parts(ptrs, table)),
        all_wide(ptr_parts(ptrs, table), 34),
    decreases ptrs.len(),
{
    if ptrs.len() > 0 {
        lemma_ptr_parts(ptrs.drop_last(), table);
        assert(ptr_parts(ptrs, table).drop_last() =~= ptr_parts(ptrs.drop_last(), table));
        assert(ptr_parts(ptrs, table).last() =~= ptr_commitment(ptrs.last(), table));
    }
}

/// Where each part of a branch stands in what its hash commits to: the type first, then 34 bytes
/// for each child pointer, which are its type, its byte and the block it names, and then the path
/// behind its length.
pub proof fn law_branch_commitment_layout(branch: Branch, table: spec_fn(u32) -> Seq<u8>, i: int)
    requires
        branch.wf(),
        names_are_wide(table),
    ensures
        branch.commitment(table).len() == 2 + 34 * branch.ptrs.len() + branch.path.len(),
        branch.commitment(table)[0] == branch.id.code(),
        0 <= i < branch.ptrs.len() ==> {
            &&& branch.commitment(table)[1 + 34 * i] == branch.ptrs[i].id
            &&& branch.commitment(table)[2 + 34 * i] == branch.ptrs[i].chr
            &&& branch.commitment(table).subrange(3 + 34 * i, 35 + 34 * i) == named_block(
                branch.ptrs[i],
                table,
            )
        },
        branch.commitment(table)[1 + 34 * branch.ptrs.len() as int] == branch.path.len(),
        branch.commitment(table).skip(2 + 34 * branch.ptrs.len() as int) == branch.path,
{
    let parts = ptr_parts(branch.ptrs, table);
    let bytes = branch.commitment(table);
    let n = branch.ptrs.len() as int;
    lemma_ptr_parts(branch.ptrs, table);
    law_flat_keeps_parts(parts, 34);
    assert(bytes.skip(2 + 34 * n) =~= branch.path);
    if 0 <= i < n {
        let part = flat(parts).subrange(34 * i, 34 * i + 34);
        assert(part == parts[i]);
        assert(part[0] == bytes[1 + 34 * i]);
        assert(part[1] == bytes[2 + 34 * i]);
        assert(part.skip(2) =~= bytes.subrange(3 + 34 * i, 35 + 34 * i));
        assert(part.skip(2) =~= named_block(branch.ptrs[i], table));
    }
}

/// What a branch's hash commits to tells the branch: branches that differ in their type, their
/// path, or the type, byte or block of a child pointer differ in it, whatever follows.
pub proof fn law_branch_commitment_is_injective(
    branch: Branch,
    other: Branch,
    table: spec_fn(u32) -> Seq<u8>,
    names: spec_fn(u32) -> Seq<u8>,
    more: Seq<u8>,
    rest: Seq<u8>,
)
    requires
        branch.wf(),
        other.wf(),
        names_are_wide(table),
        names_are_wide(names),
        branch.commitment(table) + more == other.commitment(names) + rest,
    ensures
        branch.id == other.id,
        branch.path == other.path,
        branch.ptrs.len() == other.ptrs.len(),
        forall|i: int|
            0 <= i < branch.ptrs.len() ==> {
                &&& (#[trigger] branch.ptrs[i]).id == other.ptrs[i].id
                &&& branch.ptrs[i].chr == other.ptrs[i].chr
                &&& branch.ptrs[i].id >= 128 ==> table(branch.ptrs[i].back_block) == names(
                    other.ptrs[i].back_block,
                )
            },
        more == rest,
{
    let whole = branch.commitment(table) + more;
    let a = branch.commitment(table);
    let b = other.commitment(names);
    law_branch_commitment_layout(branch, table, 0);
    law_branch_commitment_layout(other, names, 0);
    assert(whole[0] == a[0] && whole[0] == b[0]);
    assert(branch.id == other.id);
    let n = branch.ptrs.len() as int;
    assert(whole[1 + 34 * n] == a[1 + 34 * n] && whole[1 + 34 * n] == b[1 + 34 * n]);
    assert(a.len() == b.len());
    assert(whole.take(a.len() as int) =~= a);
    assert(whole.take(a.len() as int) =~= b);
    assert(whole.skip(a.len() as int) =~= more);
    assert(whole.skip(a.len() as int) =~= rest);
    assert forall|i: int| 0 <= i < branch.ptrs.len() implies {
        &&& (#[trigger] branch.ptrs[i]).id == other.ptrs[i].id
        &&& branch.ptrs[i].chr == other.ptrs[i].chr
        &&& branch.ptrs[i].id >= 128 ==> table(branch.ptrs[i].back_block) == names(
            other.ptrs[i].back_block,
        )
    } by {
        law_branch_commitment_layout(branch, table, i);
        law_branch_commitment_layout(other, names, i);
    }
}

/// What a proof's child pointers' commitments are made of.
pub open spec fn proof_ptr_parts(ptrs: Seq<ProofPtr>) -> Seq<Seq<u8>> {
    Seq::new(ptrs.len(), |i: int| seq![ptrs[i].id, ptrs[i].chr] + ptrs[i].back_block)
}

/// Whether every child pointer of a proof's branch names a block of 32 bytes.
pub open spec fn blocks_are_wide(ptrs: Seq<ProofPtr>) -> bool {
    forall|i: int| 0 <= i < ptrs.len() ==> (#[trigger] ptrs[i]).back_block.len() == 32
}

proof fn lemma_proof_ptr_parts(ptrs: Seq<ProofPtr>)
    requires
        blocks_are_wide(ptrs),
    ensures
        proof_ptrs_bytes(ptrs) == flat(proof_ptr_parts(ptrs)),
        all_wide(proof_ptr_parts(ptrs), 34),
    decreases ptrs.len(),
{
    if ptrs.len() > 0 {
        let rest = ptrs.drop_last();
        assert forall|i: int| 0 <= i < rest.len() implies (#[trigger] rest[i]).back_block.len()
            == 32 by {
            assert(rest[i] == ptrs[i]);
        }
        lemma_proof_ptr_parts(rest);
        assert(proof_ptr_parts(ptrs).drop_last() =~= proof_ptr_parts(rest));
        assert(proof_ptr_parts(ptrs).last() =~= proof_ptr_bytes(ptrs.last()));
    }
}

/// Where each part of a proof's branch stands in what its hash commits to.
pub proof fn law_proof_commitment_layout(node: ProofNode, i: int)
    requires
        node.path.len() <= 255,
        blocks_are_wide(node.ptrs),
    ensures
        node.commitment().len() == 2 + 34 * node.ptrs.len() + node.path.len(),
        node.commitment()[0] == node.id,
        0 <= i < node.ptrs.len() ==> {
            &&& node.commitment()[1 + 34 * i] == node.ptrs[i].id
            &&& node.commitment()[2 + 34 * i] == node.ptrs[i].chr
            &&& node.commitment().subrange(3 + 34 * i, 35 + 34 * i) == node.ptrs[i].back_block
        },
        node.commitment()[1 + 34 * node.ptrs.len() as int] == node.path.len(),
        node.commitment().skip(2 + 34 * node.ptrs.len() as int) == node.path,
{
    let parts = proof_ptr_parts(node.ptrs);
    let bytes = node.commitment();
    let n = node.ptrs.len() as int;
    lemma_proof_ptr_parts(node.ptrs);
    law_flat_keeps_parts(parts, 34);
    assert(bytes.skip(2 + 34 * n) =~= node.path);
    if 0 <= i < n {
        let part = flat(parts).subrange(34 * i, 34 * i + 34);
        assert(part == parts[i]);
        assert(part[0] == bytes[1 + 34 * i]);
        assert(part[1] == bytes[2 + 34 * i]);
        assert(part.skip(2) =~= bytes.subrange(3 + 34 * i, 35 + 34 * i));
        assert(part.skip(2) =~= node.ptrs[i].back_block);
    }
}

/// What the hash of a proof's branch commits to tells the branch, whatever follows: with as many
/// child pointers, branches that differ in any part differ in it.
pub proof fn law_proof_commitment_is_injective(
    node: ProofNode,
    other: ProofNode,
    more: Seq<u8>,
    rest: Seq<u8>,
)
    requires
        node.path.len() <= 255,
        other.path.len() <= 255,
        blocks_are_wide(node.ptrs),
        blocks_are_wide(other.ptrs),
        node.ptrs.len() == other.ptrs.len(),
        node.commitment() + more == other.commitment() + rest,
    ensures
        node == other,
        more == rest,
{
    let whole = node.commitment() + more;
    let a = node.commitment();
    let b = other.commitment();
    law_proof_commitment_layout(node, 0);
    law_proof_commitment_layout(other, 0);
    assert(whole[0] == a[0] && whole[0] == b[0]);
    let n = node.ptrs.len() as int;
    assert(whole[1 + 34 * n] == a[1 + 34 * n] && whole[1 + 34 * n] == b[1 + 34 * n]);
    assert(a.len() == b.len());
    assert(whole.take(a.len() as int) =~= a);
    assert(whole.take(a.len() as int) =~= b);
    assert(whole.skip(a.len() as int) =~= more);
    assert(whole.skip(a.len() as int) =~= rest);
    assert forall|i: int| 0 <= i < node.ptrs.len() implies node.ptrs[i] == other.ptrs[i] by {
        law_proof_commitment_layout(node, i);
        law_proof_commitment_layout(other, i);
    }
    assert(node.ptrs =~= other.ptrs);
}

/// What a leaf's hash commits to: the leaf's type, the path behind its length, and the value, which
/// the path and the value are told from, whatever follows. Where else the value is kept is no part
/// of it. It is never what a branch's hash commits to.
pub proof fn law_leaf_commitment_is_injective(
    leaf: Leaf,
    other: Leaf,
    more: Seq<u8>,
    rest: Seq<u8>,
)
    requires
        leaf.wf(),
        other.wf(),
        leaf.data is Some,
        other.data is Some,
    ensures
        leaf.commitment().len() == 42 + leaf.path.len(),
        leaf.commitment()[0] == 1,
        leaf.commitment()[1] == leaf.path.len(),
        leaf.commitment().subrange(2, 2 + leaf.path.len() as int) == leaf.path,
        Some(leaf.commitment().skip(2 + leaf.path.len() as int)) == leaf.data,
        leaf.path == other.path && leaf.data == other.data ==> leaf.commitment()
            == other.commitment(),
        leaf.commitment() + more == other.commitment() + rest ==> {
            &&& leaf.path == other.path
            &&& leaf.data == other.data
            &&& more == rest
        },
        forall|branch: Branch, table: spec_fn(u32) -> Seq<u8>|
            branch.wf() ==> leaf.commitment() + more != #[trigger] branch.commitment(table) + rest,
{
    let a = leaf.commitment();
    let b = other.commitment();
    assert(a.subrange(2, 2 + leaf.path.len() as int) =~= leaf.path);
    assert(a.skip(2 + leaf.path.len() as int) =~= leaf.data->0);
    assert(b.subrange(2, 2 + other.path.len() as int) =~= other.path);
    assert(b.skip(2 + other.path.len() as int) =~= other.data->0);
    if a + more == b + rest {
        let whole = a + more;
        assert(whole[1] == a[1] && whole[1] == b[1]);
        assert(whole.take(a.len() as int) =~= a);
        assert(whole.take(a.len() as int) =~= b);
        assert(whole.skip(a.len() as int) =~= more);
        assert(whole.skip(a.len() as int) =~= rest);
    }
    assert forall|branch: Branch, table: spec_fn(u32) -> Seq<u8>| branch.wf() implies a + more
        != #[trigger] branch.commitment(table) + rest by {
        let bytes = branch.commitment(table);
        assert(bytes[0] == branch.id.code());
        assert((a + more)[0] == 1);
        assert((bytes + rest)[0] == bytes[0]);
    }
}

/// Whether two different byte strings hash to the same.
pub open spec fn collides(data: Seq<u8>, other: Seq<u8>) -> bool {
    data != other && sha512_256_of(data) == sha512_256_of(other)
}

/// Two branches with the same hash are the same branch over children with the same hashes, unless
/// two different byte strings hash to the same.
pub proof fn law_branch_hash_binds(
    branch: Branch,
    other: Branch,
    table: spec_fn(u32) -> Seq<u8>,
    hashes: Seq<Seq<u8>>,
    others: Seq<Seq<u8>>,
)
    requires
        branch.wf(),
        other.wf(),
        names_are_wide(table),
        all_wide(hashes, 32),
        all_wide(others, 32),
        hashes.len() == others.len(),
        sha512_256_of(branch.commitment(table) + flat(hashes)) == sha512_256_of(
            other.commitment(table) + flat(others),
        ),
    ensures
        collides(branch.commitment(table) + flat(hashes), other.commitment(table) + flat(others))
            || {
            &&& branch.id == other.id
            &&& branch.path == other.path
            &&& forall|i: int|
                0 <= i < branch.ptrs.len() ==> {
                    &&& (#[trigger] branch.ptrs[i]).id == other.ptrs[i].id
                    &&& branch.ptrs[i].chr == other.ptrs[i].chr
                    &&& branch.ptrs[i].id >= 128 ==> table(branch.ptrs[i].back_block) == table(
                        other.ptrs[i].back_block,
                    )
                }
            &&& hashes == others
        },
{
    if branch.commitment(table) + flat(hashes) == other.commitment(table) + flat(others) {
        law_branch_commitment_is_injective(
            branch,
            other,
            table,
            table,
            flat(hashes),
            flat(others),
        );
        law_flat_is_injective(hashes, others, 32);
    }
}

/// Hashes, one after the other, are found at multiples of their width, and are told from their bytes.
pub proof fn law_joined_hashes_are_told_apart(hashes: Seq<TrieHash>, others: Seq<TrieHash>, i: int)
    requires
        hashes.len() == others.len(),
        0 <= i < hashes.len(),
    ensures
        concat_hashes(hashes).len() == 32 * hashes.len(),
        concat_hashes(hashes).subrange(32 * i, 32 * i + 32) == hashes[i]@,
        concat_hashes(hashes) == concat_hashes(others) ==> hashes[i]@ == others[i]@,
{
    let a = hash_views(hashes);
    let b = hash_views(others);
    lemma_flat_hashes(hashes);
    lemma_flat_hashes(others);
    assert(all_wide(a, 32));
    assert(all_wide(b, 32));
    law_flat_keeps_parts(a, 32);
    law_flat_keeps_parts(b, 32);
    assert(a[i] == hashes[i]@ && b[i] == others[i]@);
}

/// A table that names no block gives names of the right width, all zeros.
pub proof fn law_no_names_are_zeros(id: u32, i: int)
    requires
        0 <= i < 32,
    ensures
        names_are_wide(no_names()),
        no_names()(id)[i] == 0,
{
}

/// Two leaves with the same hash have the same path and value, unless two different byte strings hash
/// to the same.
pub proof fn law_leaf_hash_binds(leaf: &TrieLeaf, other: &TrieLeaf, hash: TrieHash, same: TrieHash)
    requires
        leaf@.wf(),
        other@.wf(),
        leaf@.data is Some,
        other@.data is Some,
        call_ensures(get_leaf_hash, (leaf,), hash),
        call_ensures(get_leaf_hash, (other,), same),
        hash@ == same@,
    ensures
        leaf@.path == other@.path && leaf@.data == other@.data || collides(
            leaf@.commitment(),
            other@.commitment(),
        ),
{
    let none = Seq::<u8>::empty();
    assert(leaf@.commitment() + none =~= leaf@.commitment());
    assert(other@.commitment() + none =~= other@.commitment());
    law_leaf_commitment_is_injective(leaf@, other@, none, none);
}

} // verus!
