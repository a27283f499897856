//! What changing a node changes, and where its pointers lead.
use vstd::prelude::*;

use crate::cow::{copied, copied_hash, copied_ptr};
use crate::hash::{sha512_256_of, TrieHash};
use crate::leaf::{Leaf, Node};
use crate::node::{
    clear_backptr, clear_compressed, clear_ctrl_bits, is_backptr, is_compressed, lemma_slot_for,
    lemma_vacant_slot, node_id_of, set_backptr, set_compressed, slot_for, vacant_slot, Branch,
    TrieNodeID, TriePtr,
};
use crate::patch::{rebased, Patch};
use crate::read_node::PatchChainEntry;
use crate::scratch::chain_applied;

verus! {

/// Every node type is named by a byte of its own, and no other byte names one.
pub proof fn law_node_types_are_told_apart(id: TrieNodeID, other: TrieNodeID, byte: u8)
    ensures
        node_id_of(id.code()) == Some(id),
        id.code() == other.code() ==> id == other,
        node_id_of(byte) matches Some(found) ==> found.code() == byte,
        id.is_branch() <==> id.slots() > 0,
{
}

/// The control bits of a node type byte: the highest marks a pointer into an ancestor trie, the
/// next one compressed pointers, and the low four bits are the node type.
pub proof fn law_control_bits(id: u8)
    ensures
        is_backptr(id) == (id & 0x80 != 0),
        set_backptr(id) == id | 0x80,
        clear_backptr(id) == id & 0x7f,
        is_compressed(id) == (id & 0x40 != 0),
        set_compressed(id) == id | 0x40,
        clear_compressed(id) == id & 0xbf,
        clear_ctrl_bits(id) == id & 0x0f,
        TriePtr::plain_id(id) == id & 0xcf,
{
    assert((id >= 128) == (id & 0x80 != 0)) by (bit_vector);
    assert(id >= 128 ==> id == id | 0x80) by (bit_vector);
    assert(id < 128 ==> id + 128 == id | 0x80) by (bit_vector);
    assert(id % 128 == id & 0x7f) by (bit_vector);
    assert(((id / 64) % 2 == 1) == (id & 0x40 != 0)) by (bit_vector);
    assert((id / 64) % 2 == 1 ==> id == id | 0x40) by (bit_vector);
    assert((id / 64) % 2 != 1 ==> id + 64 == id | 0x40) by (bit_vector);
    assert((id / 64) % 2 == 1 ==> id - 64 == id & 0xbf) by (bit_vector);
    assert((id / 64) % 2 != 1 ==> id == id & 0xbf) by (bit_vector);
    assert(id % 16 == id & 0x0f) by (bit_vector);
    assert((id / 64) * 64 + id % 16 == id & 0xcf) by (bit_vector);
}

/// Whether the selectors of a 48-slot branch select children along their bytes.
pub open spec fn selects(branch: Branch) -> bool {
    branch.id is Node48 ==> forall|chr: int|
        0 <= chr < 256 && 0 <= (#[trigger] branch.indexes[chr]) < 48
            ==> branch.ptrs[branch.indexes[chr] as int].id != 0
            && branch.ptrs[branch.indexes[chr] as int].chr == chr
}

proof fn lemma_slot_for_alike(ptrs: Seq<TriePtr>, other: Seq<TriePtr>, chr: u8, at: int, from: int)
    requires
        0 <= from,
        0 <= at < ptrs.len(),
        other.len() == ptrs.len(),
        other == ptrs.update(at, other[at]),
        ptrs[at].id == 0 || ptrs[at].chr != chr,
        other[at].id == 0 || other[at].chr != chr,
    ensures
        slot_for(ptrs, chr, from) == slot_for(other, chr, from),
        slot_for(ptrs, chr, from) matches Some(slot) ==> slot != at && ptrs[slot] == other[slot],
    decreases ptrs.len() - from,
{
    if from < ptrs.len() {
        lemma_slot_for_alike(ptrs, other, chr, at, from + 1);
    }
}

/// Putting in a child changes what is found along its byte, and nothing else: it succeeds unless
/// all slots are taken by other children.
#[verifier::rlimit(40)]
pub proof fn law_inserted_changes_one_child(branch: Branch, ptr: TriePtr, chr: u8)
    requires
        branch.wf(),
        selects(branch),
        ptr.id != 0,
    ensures
        match branch.inserted(ptr) {
            Some(after) => {
                &&& after.wf()
                &&& selects(after)
                &&& after.id == branch.id
                &&& after.path == branch.path
                &&& after.walk(ptr.chr) == Some(ptr)
                &&& chr != ptr.chr ==> after.walk(chr) == branch.walk(chr)
            },
            None => {
                &&& branch.id !is Node256
                &&& branch.walk(ptr.chr) is None
                &&& forall|i: int| 0 <= i < branch.ptrs.len() ==> (#[trigger] branch.ptrs[i]).id != 0
            },
        },
{
    lemma_slot_for(branch.ptrs, ptr.chr, 0);
    lemma_vacant_slot(branch.ptrs, 0);
    if branch.inserted(ptr) is Some {
        let after = branch.inserted(ptr)->0;
        crate::node::lemma_inserted_is_found(branch, ptr);
        if branch.id is Node4 || branch.id is Node16 {
            let slot = match branch.find(ptr.chr) {
                Some(slot) => slot,
                None => vacant_slot(branch.ptrs, 0)->0,
            };
            if chr != ptr.chr {
                lemma_slot_for_alike(branch.ptrs, after.ptrs, chr, slot, 0);
            }
        } else if branch.id is Node48 {
            let slot = match branch.find(ptr.chr) {
                Some(slot) => slot,
                None => vacant_slot(branch.ptrs, 0)->0,
            };
            assert(after.ptrs[slot] == ptr);
            assert forall|c: int|
                0 <= c < 256 && 0 <= (#[trigger] after.indexes[c])
                    < 48 implies after.ptrs[after.indexes[c] as int].id != 0
                && after.ptrs[after.indexes[c] as int].chr == c by {
                if c != ptr.chr {
                    assert(after.indexes[c] == branch.indexes[c]);
                }
            }
            if chr != ptr.chr {
                assert(after.indexes[chr as int] == branch.indexes[chr as int]);
            }
        }
    }
}

/// A child can be replaced if and only if there is one along its byte; then it is as if it had been
/// put in.
pub proof fn law_replacing_needs_a_child(branch: Branch, ptr: TriePtr)
    ensures
        branch.replaced(ptr) is Some <==> branch.walk(ptr.chr) is Some,
        branch.replaced(ptr) is Some ==> branch.inserted(ptr) == branch.replaced(ptr),
{
}

/// A branch without children has its type and path, leads nowhere and takes any child.
pub proof fn law_childless_leads_nowhere(id: TrieNodeID, path: Seq<u8>, chr: u8, ptr: TriePtr)
    requires
        id.is_branch(),
        path.len() <= 32,
    ensures
        Branch::childless(id, path).wf(),
        selects(Branch::childless(id, path)),
        Branch::childless(id, path).id == id,
        Branch::childless(id, path).path == path,
        Branch::childless(id, path).walk(chr) is None,
        Branch::childless(id, path).inserted(ptr) is Some,
{
    let branch = Branch::childless(id, path);
    lemma_slot_for(branch.ptrs, chr, 0);
    lemma_slot_for(branch.ptrs, ptr.chr, 0);
    lemma_vacant_slot(branch.ptrs, 0);
    assert(branch.ptrs[0].id == 0);
}

/// The block that holds the child of a pointer, which stands in a node of another block.
pub open spec fn home(ptr: TriePtr, block: u32) -> u32 {
    if is_backptr(ptr.id) {
        ptr.back_block
    } else {
        block
    }
}

/// A pointer of one block, as another block points to the same child, leads to the same place of
/// the same block, along the same byte and to the same type of node. An empty slot stays empty.
pub proof fn law_rebased_leads_to_same_child(ptr: TriePtr, from: u32, cur: u32)
    ensures
        clear_backptr(rebased(ptr, from, cur).id) == clear_backptr(ptr.id),
        rebased(ptr, from, cur).chr == ptr.chr,
        rebased(ptr, from, cur).ptr == ptr.ptr,
        ptr.id != 0 ==> home(rebased(ptr, from, cur), cur) == home(ptr, from),
        ptr.id != 0 ==> is_backptr(rebased(ptr, from, cur).id) == (home(ptr, from) != cur),
        ptr.id == 0 ==> rebased(ptr, from, cur) == ptr,
        home(ptr, from) == cur && is_backptr(ptr.id) ==> rebased(ptr, from, cur) == ptr.local(),
        home(ptr, from) == cur && !is_backptr(ptr.id) ==> rebased(ptr, from, cur) == ptr,
{
}

/// A pointer that is copied to a later block leads to the same place of the same block from there,
/// along the same byte and to the same type of node.
pub proof fn law_copied_leads_to_same_child(ptr: TriePtr, block: u32, later: u32)
    ensures
        clear_backptr(copied_ptr(ptr, block).id) == clear_backptr(ptr.id),
        copied_ptr(ptr, block).chr == ptr.chr,
        copied_ptr(ptr, block).ptr == ptr.ptr,
        ptr.id != 0 ==> home(copied_ptr(ptr, block), later) == home(ptr, block),
        ptr.id != 0 ==> is_backptr(copied_ptr(ptr, block).id),
        ptr.id == 0 ==> copied_ptr(ptr, block) == ptr,
{
}

/// A pointer as its child's own trie holds it leads to the same place there, and to no ancestor.
pub proof fn law_local_pointer_stays_home(ptr: TriePtr, block: u32)
    ensures
        home(ptr.local(), block) == block,
        ptr.local().back_block == 0,
        clear_backptr(ptr.local().id) == clear_backptr(ptr.id),
        ptr.local().chr == ptr.chr,
        ptr.local().ptr == ptr.ptr,
{
}

proof fn lemma_base(patch: Patch, branch: Branch, cur: u32, chr: u8)
    requires
        branch.wf(),
        selects(branch),
        forall|i: int|
            0 <= i < branch.ptrs.len() ==> (#[trigger] branch.ptrs[i]).id == 0 || clear_backptr(
                branch.ptrs[i].id,
            ) != 0,
    ensures
        patch.base(branch, cur).wf(),
        selects(patch.base(branch, cur)),
        patch.base(branch, cur).id == branch.id,
        patch.base(branch, cur).path == branch.path,
        patch.base(branch, cur).walk(chr) == match branch.walk(chr) {
            None => None,
            Some(ptr) => Some(
                if is_backptr(patch.ptr.id) {
                    rebased(ptr, patch.ptr.back_block, cur)
                } else {
                    ptr
                },
            ),
        },
{
    let base = patch.base(branch, cur);
    if is_backptr(patch.ptr.id) {
        assert forall|i: int| 0 <= i < branch.ptrs.len() implies (#[trigger] base.ptrs[i]).chr
            == branch.ptrs[i].chr && (base.ptrs[i].id == 0) == (branch.ptrs[i].id == 0) by {
            let ptr = branch.ptrs[i];
            law_rebased_leads_to_same_child(ptr, patch.ptr.back_block, cur);
        }
        lemma_slot_for_same(branch.ptrs, base.ptrs, chr, 0);
        assert forall|c: int|
            0 <= c < 256 && branch.id is Node48 && 0 <= (#[trigger] base.indexes[c])
                < 48 implies base.ptrs[base.indexes[c] as int].id != 0
            && base.ptrs[base.indexes[c] as int].chr == c by {
            assert(base.indexes[c] == branch.indexes[c]);
            assert(base.ptrs[base.indexes[c] as int].chr == branch.ptrs[branch.indexes[c] as int].chr);
        }
        match branch.find(chr) {
            Some(slot) => {
                lemma_slot_for(branch.ptrs, chr, 0);
                assert(base.ptrs[slot] == rebased(branch.ptrs[slot], patch.ptr.back_block, cur));
            },
            None => {},
        }
    }
}

proof fn lemma_slot_for_same(ptrs: Seq<TriePtr>, other: Seq<TriePtr>, chr: u8, from: int)
    requires
        0 <= from,
        other.len() == ptrs.len(),
        forall|i: int|
            0 <= i < ptrs.len() ==> (#[trigger] other[i]).chr == ptrs[i].chr && (other[i].id == 0)
                == (ptrs[i].id == 0),
    ensures
        slot_for(ptrs, chr, from) == slot_for(other, chr, from),
    decreases ptrs.len() - from,
{
    if from < ptrs.len() {
        assert(other[from].chr == ptrs[from].chr);
        lemma_slot_for_same(ptrs, other, chr, from + 1);
    }
}

/// The last of the first `n` differing children of a patch along a byte.
pub open spec fn last_along(diff: Seq<TriePtr>, chr: u8, n: nat) -> Option<TriePtr>
    decreases n,
{
    if n == 0 {
        None
    } else if diff[n - 1].chr == chr {
        Some(diff[n - 1])
    } else {
        last_along(diff, chr, (n - 1) as nat)
    }
}

/// A patch puts its children in and leaves all others: along each byte, the patched branch leads to
/// the last child that the patch has for it, and otherwise to where the branch led before, each as
/// the patched block points there. Type and path stay.
pub proof fn law_patch_puts_in_its_children(
    patch: Patch,
    branch: Branch,
    from: u32,
    cur: u32,
    chr: u8,
)
    requires
        branch.wf(),
        selects(branch),
        forall|i: int|
            0 <= i < branch.ptrs.len() ==> (#[trigger] branch.ptrs[i]).id == 0 || clear_backptr(
                branch.ptrs[i].id,
            ) != 0,
        forall|i: int|
            0 <= i < patch.diff.len() ==> clear_backptr((#[trigger] patch.diff[i]).id) != 0,
        patch.apply(branch, from, cur) is Some,
    ensures
        ({
            let after = patch.apply(branch, from, cur)->0;
            &&& after.wf()
            &&& after.id == branch.id
            &&& after.path == branch.path
            &&& after.walk(chr) == match last_along(patch.diff, chr, patch.diff.len()) {
                Some(ptr) => Some(rebased(ptr, from, cur)),
                None => match branch.walk(chr) {
                    Some(ptr) => Some(
                        if is_backptr(patch.ptr.id) {
                            rebased(ptr, patch.ptr.back_block, cur)
                        } else {
                            ptr
                        },
                    ),
                    None => None,
                },
            }
        }),
{
    lemma_applied(patch, branch, from, cur, chr, patch.diff.len());
}

proof fn lemma_applied(patch: Patch, branch: Branch, from: u32, cur: u32, chr: u8, n: nat)
    requires
        branch.wf(),
        selects(branch),
        forall|i: int|
            0 <= i < branch.ptrs.len() ==> (#[trigger] branch.ptrs[i]).id == 0 || clear_backptr(
                branch.ptrs[i].id,
            ) != 0,
        forall|i: int|
            0 <= i < patch.diff.len() ==> clear_backptr((#[trigger] patch.diff[i]).id) != 0,
        n <= patch.diff.len(),
        patch.applied(branch, from, cur, n) is Some,
    ensures
        ({
            let after = patch.applied(branch, from, cur, n)->0;
            &&& after.wf()
            &&& selects(after)
            &&& after.id == branch.id
            &&& after.path == branch.path
            &&& after.walk(chr) == match last_along(patch.diff, chr, n) {
                Some(ptr) => Some(rebased(ptr, from, cur)),
                None => patch.base(branch, cur).walk(chr),
            }
            &&& patch.base(branch, cur).walk(chr) == match branch.walk(chr) {
                None => None,
                Some(ptr) => Some(
                    if is_backptr(patch.ptr.id) {
                        rebased(ptr, patch.ptr.back_block, cur)
                    } else {
                        ptr
                    },
                ),
            }
        }),
    decreases n,
{
    lemma_base(patch, branch, cur, chr);
    if n > 0 {
        let m = (n - 1) as nat;
        lemma_applied(patch, branch, from, cur, chr, m);
        let part = patch.applied(branch, from, cur, m)->0;
        let ptr = rebased(patch.diff[m as int], from, cur);
        law_rebased_leads_to_same_child(patch.diff[m as int], from, cur);
        assert(ptr.id != 0);
        law_inserted_changes_one_child(part, ptr, chr);
    }
}

/// Whether every child of a branch has a type.
pub open spec fn typed(branch: Branch) -> bool {
    forall|i: int|
        0 <= i < branch.ptrs.len() ==> (#[trigger] branch.ptrs[i]).id == 0 || clear_backptr(
            branch.ptrs[i].id,
        ) != 0
}

/// Whether every child that a patch puts in has a type.
pub open spec fn puts_typed(patch: Patch) -> bool {
    forall|i: int| 0 <= i < patch.diff.len() ==> clear_backptr((#[trigger] patch.diff[i]).id) != 0
}

proof fn lemma_applied_is_typed(patch: Patch, branch: Branch, from: u32, cur: u32, n: nat)
    requires
        branch.wf(),
        selects(branch),
        typed(branch),
        puts_typed(patch),
        n <= patch.diff.len(),
        patch.applied(branch, from, cur, n) is Some,
    ensures
        typed(patch.applied(branch, from, cur, n)->0),
    decreases n,
{
    let base = patch.base(branch, cur);
    if n == 0 {
        assert forall|i: int| 0 <= i < base.ptrs.len() implies (#[trigger] base.ptrs[i]).id == 0
            || clear_backptr(base.ptrs[i].id) != 0 by {
            law_rebased_leads_to_same_child(branch.ptrs[i], patch.ptr.back_block, cur);
        }
    } else {
        let m = (n - 1) as nat;
        lemma_applied_is_typed(patch, branch, from, cur, m);
        lemma_applied(patch, branch, from, cur, 0, m);
        let part = patch.applied(branch, from, cur, m)->0;
        let ptr = rebased(patch.diff[m as int], from, cur);
        law_rebased_leads_to_same_child(patch.diff[m as int], from, cur);
        law_inserted_changes_one_child(part, ptr, 0);
        let after = part.inserted(ptr)->0;
        lemma_slot_for(part.ptrs, ptr.chr, 0);
        lemma_vacant_slot(part.ptrs, 0);
        assert forall|i: int| 0 <= i < after.ptrs.len() implies (#[trigger] after.ptrs[i]).id == 0
            || clear_backptr(after.ptrs[i].id) != 0 by {
            assert(after.ptrs[i] == ptr || after.ptrs[i] == part.ptrs[i]);
        }
    }
}

proof fn lemma_chain_is_tidy(branch: Branch, patches: Seq<PatchChainEntry>, cur: u32, n: nat)
    requires
        branch.wf(),
        selects(branch),
        typed(branch),
        n <= patches.len(),
        forall|i: int| 0 <= i < patches.len() ==> puts_typed((#[trigger] patches[i]).patch@),
        chain_applied(branch, patches, cur, n) is Some,
    ensures
        ({
            let after = chain_applied(branch, patches, cur, n)->0;
            &&& after.wf()
            &&& selects(after)
            &&& typed(after)
            &&& after.id == branch.id
            &&& after.path == branch.path
        }),
    decreases n,
{
    if n > 0 {
        let m = (n - 1) as nat;
        lemma_chain_is_tidy(branch, patches, cur, m);
        let part = chain_applied(branch, patches, cur, m)->0;
        let entry = patches[m as int];
        lemma_applied(entry.patch@, part, entry.block_id, cur, 0, entry.patch@.diff.len());
        lemma_applied_is_typed(entry.patch@, part, entry.block_id, cur, entry.patch@.diff.len());
    }
}

/// Of a chain of patches, the last one decides: along each byte, the patched branch leads to the last
/// child that the last patch has for it, and otherwise to where the patches before it led. Type and
/// path are those of the branch that was patched first.
pub proof fn law_last_patch_decides(
    branch: Branch,
    patches: Seq<PatchChainEntry>,
    cur: u32,
    n: nat,
    chr: u8,
)
    requires
        branch.wf(),
        selects(branch),
        typed(branch),
        0 < n <= patches.len(),
        forall|i: int| 0 <= i < patches.len() ==> puts_typed((#[trigger] patches[i]).patch@),
        chain_applied(branch, patches, cur, n) is Some,
    ensures
        ({
            let after = chain_applied(branch, patches, cur, n)->0;
            let entry = patches[n - 1];
            &&& after.id == branch.id
            &&& after.path == branch.path
            &&& chain_applied(branch, patches, cur, (n - 1) as nat) matches Some(part)
                && after.walk(chr) == match last_along(
                entry.patch@.diff,
                chr,
                entry.patch@.diff.len(),
            ) {
                Some(ptr) => Some(rebased(ptr, entry.block_id, cur)),
                None => match part.walk(chr) {
                    Some(ptr) => Some(
                        if is_backptr(entry.patch@.ptr.id) {
                            rebased(ptr, entry.patch@.ptr.back_block, cur)
                        } else {
                            ptr
                        },
                    ),
                    None => None,
                },
            }
        }),
{
    let m = (n - 1) as nat;
    lemma_chain_is_tidy(branch, patches, cur, m);
    lemma_chain_is_tidy(branch, patches, cur, n);
    let part = chain_applied(branch, patches, cur, m)->0;
    let entry = patches[m as int];
    law_patch_puts_in_its_children(entry.patch@, part, entry.block_id, cur, chr);
}

/// A copied leaf is stored with the hash of its type, path and value, and a copied branch with the hash
/// of nothing, until its trie is sealed.
pub proof fn law_copies_are_stored_with_their_hashes(branch: Branch, leaf: Leaf)
    requires
        leaf.data is Some,
    ensures
        copied_hash(Node::Leaf(leaf)) == sha512_256_of(
            seq![1u8, leaf.path.len() as u8] + leaf.path + leaf.data->0,
        ),
        copied_hash(Node::Branch(branch)) == TrieHash::digest(Seq::empty()),
        copied(Node::Leaf(leaf), 0) == Node::Leaf(leaf),
{
    assert(leaf.commitment() =~= seq![1u8, leaf.path.len() as u8] + leaf.path + leaf.data->0);
}

/// What is left of a branch when a patch does not fit is what its first children that fit make of it:
/// all of them, or as many as come before the first that does not.
pub proof fn law_partial_patch_is_longest(
    patch: Patch,
    branch: Branch,
    from: u32,
    cur: u32,
    n: nat,
) -> (m: nat)
    ensures
        m <= n,
        patch.applied(branch, from, cur, m) == Some(patch.applied_part(branch, from, cur, n)),
        m < n ==> patch.applied(branch, from, cur, (m + 1) as nat) is None,
        patch.applied(branch, from, cur, n) is Some ==> m == n,
    decreases n,
{
    match patch.applied(branch, from, cur, n) {
        Some(part) => n,
        None => law_partial_patch_is_longest(patch, branch, from, cur, (n - 1) as nat),
    }
}

} // verus!
