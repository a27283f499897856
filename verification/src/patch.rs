//! Patches: the children of a branch that differ from an ancestor's copy of it.
use vstd::prelude::*;

use crate::bits::{dense_list, lemma_dense_list, lemma_list_lens, plain_ids, read_dense_ptrs};
use crate::error::{corrupt, Corruption, Error};
use crate::mapped_node::{pointer_bytes, push_pointers};
use crate::node::{
    clear_backptr, clear_ctrl_bits, copy_ptrs, law_pointer_roundtrip, lemma_ptr_lens, set_backptr,
    Branch, TrieBranch, TrieNodeID, TrieNodePatch, TriePtr,
};

verus! {

/// What a patch says.
#[verifier::ext_equal]
pub struct Patch {
    pub ptr: TriePtr,
    pub diff: Seq<TriePtr>,
}

/// Why a node could not be decoded: a failure, or a patch where a node was asked for.
pub enum Fault {
    Error(Error),
    Patch(Patch),
}

/// What an error reports.
pub open spec fn fault_of(error: Error) -> Fault {
    match error {
        Error::Patch(patch) => Fault::Patch(patch@),
        _ => Fault::Error(error),
    }
}

/// A stored structure that cannot be used.
pub open spec fn bad(what: Corruption) -> Fault {
    Fault::Error(Error::CorruptionError(what))
}

/// A child pointer of block `from`, as block `cur` points to the same child.
pub open spec fn rebased(ptr: TriePtr, from: u32, cur: u32) -> TriePtr {
    if ptr.id == 0 {
        ptr
    } else if ptr.id < 128 {
        if from == cur {
            ptr
        } else {
            TriePtr { id: set_backptr(ptr.id), back_block: from, ..ptr }
        }
    } else if ptr.back_block == cur {
        ptr.local()
    } else {
        ptr
    }
}

/// A child pointer of block `from`, as block `cur` points to the same child.
pub fn rebase(ptr: &TriePtr, from: u32, cur: u32) -> (out: TriePtr)
    ensures
        out == rebased(*ptr, from, cur),
{
    if ptr.is_empty() {
        *ptr
    } else if ptr.id < 128 {
        if from == cur {
            *ptr
        } else {
            TriePtr { id: set_backptr(ptr.id), chr: ptr.chr, ptr: ptr.ptr, back_block: from }
        }
    } else if ptr.back_block == cur {
        ptr.from_backptr()
    } else {
        *ptr
    }
}

impl Patch {
    /// Whether the number of pointers can be written.
    pub open spec fn wf(self) -> bool {
        1 <= self.diff.len() <= 256
    }

    /// The encoding behind the marker.
    pub open spec fn body(self) -> Seq<u8> {
        self.ptr.compressed() + seq![(self.diff.len() - 1) as u8] + pointer_bytes(self.diff)
    }

    /// The encoding.
    pub open spec fn encoded(self) -> Seq<u8> {
        seq![6u8] + self.body()
    }

    /// The patch behind a marker, and the payload bytes it takes.
    pub open spec fn load(marker: u8, payload: Seq<u8>) -> Result<(Patch, nat), Error> {
        if clear_ctrl_bits(marker) != 6 {
            Err(Error::CorruptionError(Corruption::NotAPatch))
        } else {
            match TriePtr::decode_compressed(payload) {
                Err(e) => Err(e),
                Ok((ptr, at)) => if payload.len() <= at {
                    Err(Error::CorruptionError(Corruption::TruncatedPatch))
                } else {
                    match dense_list(
                        payload.subrange(at as int + 1, payload.len() as int),
                        (payload[at as int] + 1) as nat,
                    ) {
                        Err(e) => Err(e),
                        Ok((diff, used)) => Ok((Patch { ptr, diff }, at + 1 + used)),
                    }
                },
            }
        }
    }

    /// The patch that bytes start with, and how many it takes.
    pub open spec fn decode(bytes: Seq<u8>) -> Result<(Patch, nat), Error> {
        if bytes.len() == 0 {
            Err(Error::CorruptionError(Corruption::MissingMarker))
        } else {
            match Self::load(bytes[0], bytes.subrange(1, bytes.len() as int)) {
                Err(e) => Err(e),
                Ok((patch, used)) => Ok((patch, used + 1)),
            }
        }
    }

    /// Nothing, at no place.
    pub open spec fn none() -> Patch {
        Patch { ptr: TriePtr::vacant(), diff: Seq::empty() }
    }

    /// The patched node's children, before the differing ones are put in.
    pub open spec fn base(self, branch: Branch, cur: u32) -> Branch {
        if self.ptr.id < 128 {
            branch
        } else {
            Branch {
                ptrs: Seq::new(
                    branch.ptrs.len(),
                    |i: int| rebased(branch.ptrs[i], self.ptr.back_block, cur),
                ),
                ..branch
            }
        }
    }

    /// The branch after the first `n` differing children of block `from` were put in.
    pub open spec fn applied(self, branch: Branch, from: u32, cur: u32, n: nat) -> Option<Branch>
        decreases n,
    {
        if n == 0 {
            Some(self.base(branch, cur))
        } else {
            match self.applied(branch, from, cur, (n - 1) as nat) {
                None => None,
                Some(part) => part.inserted(rebased(self.diff[n - 1], from, cur)),
            }
        }
    }

    /// The branch after as many of the first `n` differing children of block `from` were put in as
    /// found room before the first that did not.
    pub open spec fn applied_part(self, branch: Branch, from: u32, cur: u32, n: nat) -> Branch
        decreases n,
    {
        match self.applied(branch, from, cur, n) {
            Some(part) => part,
            None => if n == 0 {
                branch
            } else {
                self.applied_part(branch, from, cur, (n - 1) as nat)
            },
        }
    }

    /// The branch that a patch of block `from` makes of `branch`, as block `cur` sees it.
    pub open spec fn apply(self, branch: Branch, from: u32, cur: u32) -> Option<Branch> {
        self.applied(branch, from, cur, self.diff.len())
    }
}

proof fn lemma_apply_fails(patch: Patch, branch: Branch, from: u32, cur: u32, n: nat, total: nat)
    requires
        n <= total,
        patch.applied(branch, from, cur, n) is None,
    ensures
        patch.applied(branch, from, cur, total) is None,
        patch.applied_part(branch, from, cur, total) == patch.applied_part(branch, from, cur, n),
    decreases total,
{
    if n < total {
        lemma_apply_fails(patch, branch, from, cur, n, (total - 1) as nat);
    }
}

impl Clone for TrieNodePatch {
    fn clone(&self) -> (copy: Self)
        ensures
            copy@ == self@,
    {
        TrieNodePatch { ptr: self.ptr, ptr_diff: copy_ptrs(self.ptr_diff.as_slice()) }
    }
}

impl TrieNodePatch {
    /// Where the patched node is, and the children that differ.
    pub open spec fn view(&self) -> Patch {
        Patch { ptr: self.ptr, diff: self.ptr_diff@ }
    }

    /// A patch that leads nowhere and holds nothing.
    pub fn empty() -> (patch: Self)
        ensures
            patch@ == Patch::none(),
    {
        let patch = TrieNodePatch { ptr: TriePtr::default(), ptr_diff: Vec::new() };
        assert(patch@ =~= Patch::none());
        patch
    }

    /// Append the encoding behind the marker.
    pub fn write_body(&self, out: &mut Vec<u8>) -> (done: Result<(), Error>)
        ensures
            if self@.wf() {
                done is Ok && final(out)@ == old(out)@ + self@.body()
            } else {
                done == Err::<(), Error>(Error::CorruptionError(Corruption::OversizedPatch))
                    && final(out)@ == old(out)@
            },
    {
        if self.ptr_diff.len() == 0 || self.ptr_diff.len() > 256 {
            return Err(corrupt(Corruption::OversizedPatch));
        }
        self.ptr.write_bytes_compressed(out);
        out.push((self.ptr_diff.len() - 1) as u8);
        push_pointers(out, self.ptr_diff.as_slice());
        assert(out@ =~= old(out)@ + self@.body());
        Ok(())
    }

    /// Append the encoding.
    pub fn consensus_serialize(&self, out: &mut Vec<u8>) -> (done: Result<(), Error>)
        ensures
            if self@.wf() {
                done is Ok && final(out)@ == old(out)@ + self@.encoded()
            } else {
                done == Err::<(), Error>(Error::CorruptionError(Corruption::OversizedPatch))
                    && final(out)@ == old(out)@
            },
    {
        if self.ptr_diff.len() == 0 || self.ptr_diff.len() > 256 {
            return Err(corrupt(Corruption::OversizedPatch));
        }
        out.push(TrieNodeID::Patch.as_u8());
        let done = self.write_body(out);
        assert(out@ =~= old(out)@ + self@.encoded());
        done
    }

    /// Decode the patch behind a marker.
    pub fn from_parts(marker: u8, payload: &[u8]) -> (out: Result<(Self, usize), Error>)
        ensures
            match Patch::load(marker, payload@) {
                Ok((patch, len)) => out matches Ok((p, n)) && p@ == patch && n == len && n
                    <= payload.len() && p@.wf(),
                Err(e) => out == Err::<(Self, usize), Error>(e),
            },
    {
        if clear_ctrl_bits(marker) != TrieNodeID::Patch.as_u8() {
            return Err(corrupt(Corruption::NotAPatch));
        }
        let (ptr, at) = match TriePtr::from_slice_compressed(payload) {
            Ok(found) => found,
            Err(e) => return Err(e),
        };
        if payload.len() <= at {
            return Err(corrupt(Corruption::TruncatedPatch));
        }
        let count: usize = payload[at] as usize + 1;
        match read_dense_ptrs(&payload[at + 1..payload.len()], count) {
            Ok((ptr_diff, used)) => {
                let patch = TrieNodePatch { ptr, ptr_diff };
                assert(patch@ =~= Patch::load(marker, payload@)->Ok_0.0);
                Ok((patch, at + 1 + used))
            },
            Err(e) => Err(e),
        }
    }

    /// Decode the patch that bytes start with.
    pub fn from_slice(bytes: &[u8]) -> (out: Result<(Self, usize), Error>)
        ensures
            match Patch::decode(bytes@) {
                Ok((patch, len)) => out matches Ok((p, n)) && p@ == patch && n == len && n
                    <= bytes.len() && p@.wf(),
                Err(e) => out == Err::<(Self, usize), Error>(e),
            },
    {
        if bytes.len() == 0 {
            return Err(corrupt(Corruption::MissingMarker));
        }
        match Self::from_parts(bytes[0], &bytes[1..bytes.len()]) {
            Ok((patch, used)) => Ok((patch, used + 1)),
            Err(e) => Err(e),
        }
    }

    /// Put the differing children of block `from` into the patched branch, as block `cur` sees
    /// them; `false` if one of them finds no room, which leaves those before it in the branch.
    pub fn apply_to(&self, branch: &mut TrieBranch, from: u32, cur: u32) -> (done: bool)
        requires
            old(branch)@.wf(),
        ensures
            final(branch)@.wf(),
            final(branch).meta == old(branch).meta,
            match self@.apply(old(branch)@, from, cur) {
                Some(patched) => done && final(branch)@ == patched,
                None => !done && final(branch)@ == self@.applied_part(
                    old(branch)@,
                    from,
                    cur,
                    self@.diff.len(),
                ),
            },
    {
        let ghost before = branch@;
        if self.ptr.id >= 128 {
            let count: usize = branch.ptrs.len();
            let mut at: usize = 0;
            while at < count
                invariant
                    at <= count,
                    count == before.ptrs.len(),
                    branch.ptrs@.len() == count,
                    branch.id == before.id,
                    branch.path@ == before.path,
                    branch.indexes@ == before.indexes,
                    branch.meta == old(branch).meta,
                    forall|i: int|
                        0 <= i < at ==> branch.ptrs@[i] == rebased(
                            before.ptrs[i],
                            self.ptr.back_block,
                            cur,
                        ),
                    forall|i: int| at <= i < count ==> branch.ptrs@[i] == before.ptrs[i],
                decreases count - at,
            {
                let ptr: TriePtr = branch.ptrs[at];
                branch.ptrs.set(at, rebase(&ptr, self.ptr.back_block, cur));
                at = at + 1;
            }
        }
        assert(branch@ =~= self@.base(before, cur));
        let total: usize = self.ptr_diff.len();
        let mut n: usize = 0;
        while n < total
            invariant
                n <= total,
                total == self.ptr_diff@.len(),
                branch@.wf(),
                branch.meta == old(branch).meta,
                before == old(branch)@,
                self@.applied(before, from, cur, n as nat) == Some(branch@),
            decreases total - n,
        {
            let ptr: TriePtr = rebase(&self.ptr_diff[n], from, cur);
            if !branch.insert(&ptr) {
                proof {
                    lemma_apply_fails(self@, before, from, cur, (n + 1) as nat, total as nat);
                    assert(self@.applied_part(before, from, cur, n as nat) == branch@);
                }
                return false;
            }
            n = n + 1;
        }
        true
    }
}

/// A patch survives its encoding, whatever follows it.
#[verifier::spinoff_prover]
#[verifier::rlimit(60)]
pub proof fn law_patch_roundtrip(patch: Patch, tail: Seq<u8>)
    requires
        patch.wf(),
        TriePtr::plain_id(patch.ptr.id) == patch.ptr.id,
        plain_ids(patch.diff),
    ensures
        Patch::decode(patch.encoded() + tail) == Ok::<(Patch, nat), Error>(
            (patch, patch.encoded().len()),
        ),
{
    let bytes = patch.encoded() + tail;
    let payload = patch.body() + tail;
    let at = patch.ptr.compressed_len() as int;
    let rest = seq![(patch.diff.len() - 1) as u8] + pointer_bytes(patch.diff) + tail;
    assert(bytes.subrange(1, bytes.len() as int) =~= payload);
    lemma_ptr_lens(patch.ptr);
    law_pointer_roundtrip(patch.ptr, rest);
    assert(payload =~= patch.ptr.compressed() + rest);
    assert(payload[at] == patch.diff.len() - 1);
    assert(payload.subrange(at + 1, payload.len() as int) =~= pointer_bytes(patch.diff) + tail);
    lemma_dense_list(patch.diff, tail);
}

/// No patch is longer than the bound on patch bodies.
pub proof fn law_patch_len_is_bounded(patch: Patch)
    requires
        patch.wf(),
    ensures
        patch.encoded().len() <= TrieNodeID::Patch.max_body_spec()->0,
{
    lemma_ptr_lens(patch.ptr);
    lemma_list_lens(patch.diff);
    crate::bits::lemma_list_len_bounds(patch.diff, patch.diff.len());
}

/// A patch that puts in the child along a byte makes the walk along that byte find it.
pub proof fn law_patched_child_is_found(patch: Patch, branch: Branch, from: u32, cur: u32)
    requires
        branch.wf(),
        patch.diff.len() == 1,
        clear_backptr(patch.diff[0].id) != 0,
        patch.apply(branch, from, cur) is Some,
    ensures
        (patch.apply(branch, from, cur)->0).walk(patch.diff[0].chr) == Some(
            rebased(patch.diff[0], from, cur),
        ),
{
    let base = patch.base(branch, cur);
    let ptr = rebased(patch.diff[0], from, cur);
    reveal_with_fuel(Patch::applied, 2);
    assert(patch.apply(branch, from, cur) == base.inserted(ptr));
    crate::node::lemma_inserted_is_found(base, ptr);
}

} // verus!
