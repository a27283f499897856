//! Path-first branch payloads with direct access to individual compressed child pointers.
//!
//! ```text
//! path length | path | occupied-slot bitmap | selectors | u16 offsets | pointer bytes
//! ```
//! Node4/16 selectors contain one byte per occupied slot. Node48 retains its 256-byte
//! selector-to-slot table. Node256 selects a bitmap slot directly. Offsets end in a final
//! sentinel and are relative to the pointer bytes. Logical slot order is preserved.
use vstd::prelude::*;

use crate::bitmap::{
    bit_at, bitmap_of, column_of, lemma_rank_bounds, pack_bits, push_column, rank, rank_at, slot_bit,
};
use crate::error::{corrupt, Corruption, Error};
use crate::leaf::{Node, TrieNodeType};
use crate::node::{
    clear_ctrl_bits, node_id_of, Branch, TrieBranch, TrieNodeID, TrieNodeTransientMeta, TriePtr,
};
use crate::packed_branch::{edges_of, find_selector, has_repeats, position, repeats};
use crate::path::{framed, NodePath};
use crate::slots::{occupancy, occupancy_of, occupied, occupied_of};
use crate::words::{le_value, lemma_spans, push_bytes, read_le};

verus! {

/// The path that a payload starts with.
pub open spec fn path_prefix_spec(bytes: Seq<u8>) -> Result<Seq<u8>, Error> {
    if bytes.len() == 0 {
        Err(Error::CorruptionError(Corruption::MissingPathLength))
    } else if bytes[0] > 32 {
        Err(Error::CorruptionError(Corruption::OversizedPath))
    } else if bytes.len() < 1 + bytes[0] {
        Err(Error::CorruptionError(Corruption::TruncatedPath))
    } else {
        Ok(bytes.subrange(1, 1 + bytes[0]))
    }
}

/// Decode a path prefix without examining the child directory.
pub fn path_prefix(bytes: &[u8]) -> (path: Result<&[u8], Error>)
    ensures
        match path {
            Ok(p) => path_prefix_spec(bytes@) == Ok::<Seq<u8>, Error>(p@) && p@.len() <= 32
                && p@.len() < bytes@.len(),
            Err(e) => path_prefix_spec(bytes@) == Err::<Seq<u8>, Error>(e),
        },
{
    if bytes.len() == 0 {
        return Err(corrupt(Corruption::MissingPathLength));
    }
    let length: usize = bytes[0] as usize;
    if length > 32 {
        return Err(corrupt(Corruption::OversizedPath));
    }
    if bytes.len() < 1 + length {
        return Err(corrupt(Corruption::TruncatedPath));
    }
    Ok(&bytes[1..1 + length])
}

/// Selector bytes of a branch with `count` children.
pub open spec fn selector_width(slots: nat, count: nat) -> nat {
    if slots == 4 || slots == 16 {
        count
    } else if slots == 48 {
        256
    } else {
        0
    }
}

/// The parts of one path-first branch.
#[verifier::ext_equal]
pub struct Directory {
    pub id: TrieNodeID,
    pub path: Seq<u8>,
    pub bitmap: Seq<u8>,
    pub selectors: Seq<u8>,
    pub offsets: Seq<u8>,
    pub pointers: Seq<u8>,
    pub length: nat,
}

/// A directory entry.
pub open spec fn offset_spec(offsets: Seq<u8>, index: int) -> nat {
    le_value(offsets.subrange(2 * index, 2 * index + 2))
}

impl Directory {
    /// Occupied slots.
    pub open spec fn count(self) -> nat {
        rank(self.bitmap, self.id.slots())
    }

    /// Whether the parts have the lengths that the occupancy asks for.
    pub open spec fn wf(self) -> bool {
        &&& self.id.is_branch()
        &&& self.path.len() <= 32
        &&& self.bitmap.len() == (self.id.slots() + 7) / 8
        &&& self.selectors.len() == selector_width(self.id.slots(), self.count())
        &&& self.offsets.len() == 2 * (self.count() + 1)
    }

    /// The parts that `bytes` start with.
    #[verifier::opaque]
    pub open spec fn parse(id: TrieNodeID, bytes: Seq<u8>) -> Result<Directory, Error> {
        if !id.is_branch() {
            Err(Error::CorruptionError(Corruption::ExpectedBranch))
        } else {
            match path_prefix_spec(bytes) {
                Err(e) => Err(e),
                Ok(path) => {
                    let a1 = 1 + path.len() as int + (id.slots() as int + 7) / 8;
                    if a1 > bytes.len() {
                        Err(Error::CorruptionError(Corruption::TruncatedOccupancy))
                    } else {
                        let bitmap = bytes.subrange(1 + path.len() as int, a1);
                        if id.slots() == 4 && bitmap[0] >= 16 {
                            Err(Error::CorruptionError(Corruption::InvalidNode4Occupancy))
                        } else {
                            Self::split(id, bytes, path, bitmap, a1)
                        }
                    }
                },
            }
        }
    }

    /// The parts behind the occupancy.
    pub open spec fn split(
        id: TrieNodeID,
        bytes: Seq<u8>,
        path: Seq<u8>,
        bitmap: Seq<u8>,
        a1: int,
    ) -> Result<Directory, Error> {
        let count = rank(bitmap, id.slots());
        let a2 = a1 + selector_width(id.slots(), count) as int;
        let a3 = a2 + 2 * (count as int + 1);
        if a2 > bytes.len() {
            Err(Error::CorruptionError(Corruption::TruncatedSelectors))
        } else if id.slots() <= 16 && repeats(bytes.subrange(a1, a2)) {
            Err(Error::CorruptionError(Corruption::DuplicateSelector))
        } else if a3 > bytes.len() {
            Err(Error::CorruptionError(Corruption::TruncatedDirectory))
        } else {
            let offsets = bytes.subrange(a2, a3);
            let a4 = a3 + offset_spec(offsets, count as int) as int;
            if offset_spec(offsets, 0) != 0 {
                Err(Error::CorruptionError(Corruption::NonzeroFirstOffset))
            } else if a4 > bytes.len() {
                Err(Error::CorruptionError(Corruption::TruncatedChildPayload))
            } else {
                Ok(
                    Directory {
                        id,
                        path,
                        bitmap,
                        selectors: bytes.subrange(a1, a2),
                        offsets,
                        pointers: bytes.subrange(a3, a4),
                        length: a4 as nat,
                    },
                )
            }
        }
    }

    /// The pointer at a place of the directory.
    pub open spec fn pointer_at(self, index: int) -> Result<TriePtr, Error> {
        let start = offset_spec(self.offsets, index) as int;
        let end = offset_spec(self.offsets, index + 1) as int;
        if start > end || end > self.pointers.len() {
            Err(Error::CorruptionError(Corruption::InvalidChildExtent))
        } else {
            match TriePtr::decode_compressed(self.pointers.subrange(start, end)) {
                Err(e) => Err(e),
                Ok((ptr, used)) => if ptr.id == 0 || used != end - start {
                    Err(Error::CorruptionError(Corruption::InvalidChildRecord))
                } else {
                    match node_id_of(clear_ctrl_bits(ptr.id)) {
                        None => Err(Error::CorruptionError(Corruption::InvalidChildType)),
                        Some(id) => if id is Empty || id is Patch || id is ValueLeaf {
                            Err(Error::CorruptionError(Corruption::PhysicalChildType))
                        } else {
                            Ok(ptr)
                        },
                    }
                },
            }
        }
    }

    /// The place of the child along `chr`.
    pub open spec fn index_for(self, chr: u8) -> Result<Option<int>, Error> {
        match self.id {
            TrieNodeID::Node48 => {
                let slot = self.selectors[chr as int] as int;
                if slot == 255 {
                    Ok(None)
                } else if slot >= 48 || !slot_bit(self.bitmap, slot) {
                    Err(Error::CorruptionError(Corruption::InvalidNode48Selector))
                } else {
                    Ok(Some(rank(self.bitmap, slot as nat) as int))
                }
            },
            TrieNodeID::Node256 => if !slot_bit(self.bitmap, chr as int) {
                Ok(None)
            } else {
                Ok(Some(rank(self.bitmap, chr as nat) as int))
            },
            _ => Ok(position(self.selectors, chr, 0)),
        }
    }

    /// The child along `chr`.
    pub open spec fn child(self, chr: u8) -> Result<Option<TriePtr>, Error> {
        match self.index_for(chr) {
            Err(e) => Err(e),
            Ok(None) => Ok(None),
            Ok(Some(index)) => match self.pointer_at(index) {
                Err(e) => Err(e),
                Ok(ptr) => if ptr.chr != chr {
                    Err(Error::CorruptionError(Corruption::SelectorDisagrees))
                } else {
                    Ok(Some(ptr))
                },
            },
        }
    }

    /// What is wrong with a pointer in a slot.
    pub open spec fn misplaced(self, slot: int, ptr: TriePtr) -> Option<Corruption> {
        match self.id {
            TrieNodeID::Node256 => if ptr.chr != slot {
                Some(Corruption::Node256WrongSlot)
            } else {
                None
            },
            TrieNodeID::Node48 => if self.selectors[ptr.chr as int] != slot {
                Some(Corruption::Node48WrongSlot)
            } else {
                None
            },
            _ => if self.selectors[rank(self.bitmap, slot as nat) as int] != ptr.chr {
                Some(Corruption::SelectorDisagrees)
            } else {
                None
            },
        }
    }

    /// The first `slots` logical slots.
    pub open spec fn slots_back(self, slots: nat) -> Result<Seq<TriePtr>, Error>
        decreases slots,
    {
        if slots == 0 {
            Ok(Seq::empty())
        } else {
            let slot = slots - 1;
            match self.slots_back(slot as nat) {
                Err(e) => Err(e),
                Ok(ptrs) => if !slot_bit(self.bitmap, slot) {
                    Ok(ptrs.push(TriePtr::vacant()))
                } else {
                    match self.pointer_at(rank(self.bitmap, slot as nat) as int) {
                        Err(e) => Err(e),
                        Ok(ptr) => match self.misplaced(slot, ptr) {
                            Some(fault) => Err(Error::CorruptionError(fault)),
                            None => Ok(ptrs.push(ptr)),
                        },
                    }
                },
            }
        }
    }

    /// Whether a selector of a 48-slot branch comes back to its edge.
    pub open spec fn comes_back(self, ptrs: Seq<TriePtr>, edge: int) -> bool {
        let slot = self.selectors[edge] as int;
        slot == 255 || (slot < 48 && ptrs[slot].id != 0 && ptrs[slot].chr == edge)
    }

    /// The slot table of a 48-slot branch.
    pub open spec fn slot_table(self) -> Seq<i8> {
        Seq::new(
            self.selectors.len(),
            |e: int|
                if self.selectors[e] == 255 {
                    -1i8
                } else {
                    self.selectors[e] as i8
                },
        )
    }

    /// The branch with all its logical slots.
    #[verifier::opaque]
    pub open spec fn to_branch(self) -> Result<Branch, Error> {
        match self.slots_back(self.id.slots()) {
            Err(e) => Err(e),
            Ok(ptrs) => if self.id is Node48 {
                if forall|e: int| 0 <= e < 256 ==> #[trigger] self.comes_back(ptrs, e) {
                    Ok(Branch { id: self.id, path: self.path, ptrs, indexes: self.slot_table() })
                } else {
                    Err(Error::CorruptionError(Corruption::InvalidNode48ReverseSelector))
                }
            } else {
                Ok(Branch { id: self.id, path: self.path, ptrs, indexes: Seq::empty() })
            },
        }
    }
}

/// Checked metadata and borrowed payload for one mapped branch node.
#[derive(Clone, Copy, Debug)]
pub struct MappedBranch<'a> {
    /// Logical branch type.
    id: TrieNodeID,
    /// Compressed path prefix.
    path: &'a [u8],
    /// Occupied logical pointer slots.
    bitmap: &'a [u8],
    /// Compact keys for Node4/16 or the Node48 slot table.
    selectors: &'a [u8],
    /// Little-endian offsets into the pointer payload, ending in the final sentinel.
    offsets: &'a [u8],
    /// Compressed pointers in logical slot order.
    pointers: &'a [u8],
    /// Encoded payload length, excluding the outer marker and hash.
    length: usize,
}

/// An error among the first slots is the error of all of them.
proof fn lemma_slots_error(d: Directory, n: nat, total: nat)
    requires
        n <= total,
        d.slots_back(n) is Err,
    ensures
        d.slots_back(total) == d.slots_back(n),
    decreases total,
{
    if n < total {
        lemma_slots_error(d, n, (total - 1) as nat);
    }
}

/// Read a directory entry.
fn offset_at(offsets: &[u8], index: usize) -> (offset: usize)
    requires
        2 * index + 2 <= offsets.len(),
    ensures
        offset == offset_spec(offsets@, index as int),
        offset < 65536,
{
    proof {
        lemma_spans();
    }
    read_le(offsets, 2 * index, 2) as usize
}

impl<'a> MappedBranch<'a> {
    /// The parts.
    pub closed spec fn view(&self) -> Directory {
        Directory {
            id: self.id,
            path: self.path@,
            bitmap: self.bitmap@,
            selectors: self.selectors@,
            offsets: self.offsets@,
            pointers: self.pointers@,
            length: self.length as nat,
        }
    }

    #[verifier::type_invariant]
    spec fn sound(self) -> bool {
        self@.wf()
    }

    /// Validate branch metadata without decoding or copying the child pointer array.
    pub fn parse(id: TrieNodeID, bytes: &'a [u8]) -> (branch: Result<Self, Error>)
        ensures
            match branch {
                Ok(b) => Directory::parse(id, bytes@) == Ok::<Directory, Error>(b@) && b@.wf()
                    && b@.length <= bytes@.len(),
                Err(e) => Directory::parse(id, bytes@) == Err::<Directory, Error>(e),
            },
    {
        proof {
            reveal(Directory::parse);
        }
        let slots: usize = id.capacity();
        if slots == 0 {
            return Err(corrupt(Corruption::ExpectedBranch));
        }
        let path = match path_prefix(bytes) {
            Ok(path) => path,
            Err(e) => return Err(e),
        };
        let a0: usize = 1 + path.len();
        let width: usize = (slots + 7) / 8;
        if bytes.len() - a0 < width {
            return Err(corrupt(Corruption::TruncatedOccupancy));
        }
        let bitmap = &bytes[a0..a0 + width];
        if slots == 4 && bitmap[0] >= 16 {
            return Err(corrupt(Corruption::InvalidNode4Occupancy));
        }
        Self::split(id, bytes, path, bitmap, a0 + width)
    }

    /// Find the parts behind the occupancy.
    fn split(id: TrieNodeID, bytes: &'a [u8], path: &'a [u8], bitmap: &'a [u8], a1: usize) -> (branch:
        Result<Self, Error>)
        requires
            id.is_branch(),
            path@.len() <= 32,
            bitmap@.len() == (id.slots() + 7) / 8,
            a1 <= bytes.len(),
        ensures
            match branch {
                Ok(b) => Directory::split(id, bytes@, path@, bitmap@, a1 as int) == Ok::<
                    Directory,
                    Error,
                >(b@) && b@.wf() && b@.length <= bytes@.len(),
                Err(e) => Directory::split(id, bytes@, path@, bitmap@, a1 as int) == Err::<
                    Directory,
                    Error,
                >(e),
            },
    {
        let slots: usize = id.capacity();
        let count: usize = rank_at(bitmap, slots);
        let selector_len: usize = if slots <= 16 {
            count
        } else if slots == 48 {
            256
        } else {
            0
        };
        if bytes.len() - a1 < selector_len {
            return Err(corrupt(Corruption::TruncatedSelectors));
        }
        let a2: usize = a1 + selector_len;
        let selectors = &bytes[a1..a2];
        if slots <= 16 && has_repeats(selectors) {
            return Err(corrupt(Corruption::DuplicateSelector));
        }
        if bytes.len() - a2 < 2 * (count + 1) {
            return Err(corrupt(Corruption::TruncatedDirectory));
        }
        let a3: usize = a2 + 2 * (count + 1);
        let offsets = &bytes[a2..a3];
        if offset_at(offsets, 0) != 0 {
            return Err(corrupt(Corruption::NonzeroFirstOffset));
        }
        let pointer_len: usize = offset_at(offsets, count);
        if bytes.len() - a3 < pointer_len {
            return Err(corrupt(Corruption::TruncatedChildPayload));
        }
        let length: usize = a3 + pointer_len;
        let pointers = &bytes[a3..length];
        Ok(MappedBranch { id, path, bitmap, selectors, offsets, pointers, length })
    }

    /// Borrow the compressed path prefix.
    pub fn path(&self) -> (path: &'a [u8])
        ensures
            path@ == self@.path,
    {
        self.path
    }

    /// Number of payload bytes consumed.
    pub fn byte_len(&self) -> (n: usize)
        ensures
            n == self@.length,
    {
        self.length
    }

    /// Decode exactly one occupied pointer, validating its directory bounds and encoding.
    fn pointer_at(&self, index: usize) -> (ptr: Result<TriePtr, Error>)
        requires
            index < self@.count(),
        ensures
            ptr == self@.pointer_at(index as int),
    {
        proof {
            use_type_invariant(self);
            lemma_rank_bounds(self@.bitmap, self@.id.slots(), self@.id.slots());
        }
        let start: usize = offset_at(self.offsets, index);
        let end: usize = offset_at(self.offsets, index + 1);
        if start > end || end > self.pointers.len() {
            return Err(corrupt(Corruption::InvalidChildExtent));
        }
        let (ptr, used) = match TriePtr::from_slice_compressed(&self.pointers[start..end]) {
            Ok(found) => found,
            Err(e) => return Err(e),
        };
        if ptr.is_empty() || used != end - start {
            return Err(corrupt(Corruption::InvalidChildRecord));
        }
        match TrieNodeID::from_u8(clear_ctrl_bits(ptr.id)) {
            None => Err(corrupt(Corruption::InvalidChildType)),
            Some(TrieNodeID::Empty) | Some(TrieNodeID::Patch) | Some(TrieNodeID::ValueLeaf) => Err(
                corrupt(Corruption::PhysicalChildType),
            ),
            Some(_) => Ok(ptr),
        }
    }

    /// Find one child directly in mapped bytes, without materializing other pointers.
    pub fn child(&self, chr: u8) -> (child: Result<Option<TriePtr>, Error>)
        ensures
            child == self@.child(chr),
    {
        proof {
            use_type_invariant(self);
        }
        let index: usize = match self.id {
            TrieNodeID::Node48 => {
                let slot: u8 = self.selectors[chr as usize];
                if slot == 255 {
                    return Ok(None);
                }
                if slot >= 48 || !bit_at(self.bitmap, slot as usize) {
                    return Err(corrupt(Corruption::InvalidNode48Selector));
                }
                proof {
                    lemma_rank_bounds(self@.bitmap, slot as nat, 48);
                }
                rank_at(self.bitmap, slot as usize)
            },
            TrieNodeID::Node256 => {
                if !bit_at(self.bitmap, chr as usize) {
                    return Ok(None);
                }
                proof {
                    lemma_rank_bounds(self@.bitmap, chr as nat, 256);
                }
                rank_at(self.bitmap, chr as usize)
            },
            _ => match find_selector(self.selectors, chr) {
                Some(index) => index,
                None => return Ok(None),
            },
        };
        match self.pointer_at(index) {
            Ok(ptr) => if ptr.chr != chr {
                Err(corrupt(Corruption::SelectorDisagrees))
            } else {
                Ok(Some(ptr))
            },
            Err(e) => Err(e),
        }
    }

    /// What is wrong with a pointer in a slot.
    fn misplaced(&self, slot: usize, index: usize, ptr: &TriePtr) -> (fault: Option<Corruption>)
        requires
            slot < self@.id.slots(),
            index == rank(self@.bitmap, slot as nat),
            index < self@.count(),
        ensures
            fault == self@.misplaced(slot as int, *ptr),
    {
        proof {
            use_type_invariant(self);
        }
        match self.id {
            TrieNodeID::Node256 => if ptr.chr as usize != slot {
                Some(Corruption::Node256WrongSlot)
            } else {
                None
            },
            TrieNodeID::Node48 => if self.selectors[ptr.chr as usize] as usize != slot {
                Some(Corruption::Node48WrongSlot)
            } else {
                None
            },
            _ => if self.selectors[index] != ptr.chr {
                Some(Corruption::SelectorDisagrees)
            } else {
                None
            },
        }
    }

    /// The slot table of a 48-slot branch, if every selector comes back to its edge.
    fn table_back(&self, ptrs: &[TriePtr]) -> (out: Result<Vec<i8>, Error>)
        requires
            self@.id is Node48,
            ptrs@.len() == 48,
        ensures
            match out {
                Ok(table) => (forall|e: int|
                    0 <= e < 256 ==> #[trigger] self@.comes_back(ptrs@, e)) && table@
                    == self@.slot_table() && table@.len() == 256,
                Err(e) => !(forall|e: int|
                    0 <= e < 256 ==> #[trigger] self@.comes_back(ptrs@, e)) && e
                    == Error::CorruptionError(Corruption::InvalidNode48ReverseSelector),
            },
    {
        proof {
            use_type_invariant(self);
        }
        let mut table: Vec<i8> = Vec::new();
        let mut edge: usize = 0;
        while edge < 256
            invariant
                edge <= 256,
                self@.wf(),
                self@.id is Node48,
                ptrs@.len() == 48,
                table@.len() == edge,
                forall|e: int| 0 <= e < edge ==> #[trigger] self@.comes_back(ptrs@, e),
                forall|e: int| 0 <= e < edge ==> table@[e] == self@.slot_table()[e],
            decreases 256 - edge,
        {
            let slot: u8 = self.selectors[edge];
            if slot != 255 {
                if slot >= 48 || ptrs[slot as usize].is_empty() || ptrs[slot as usize].chr as usize
                    != edge {
                    assert(!self@.comes_back(ptrs@, edge as int));
                    return Err(corrupt(Corruption::InvalidNode48ReverseSelector));
                }
                table.push(slot as i8);
            } else {
                table.push(-1);
            }
            assert(self@.comes_back(ptrs@, edge as int));
            edge = edge + 1;
        }
        assert(table@ =~= self@.slot_table());
        Ok(table)
    }

    /// Materialize all children for mutation, proof generation or patch resolution.
    pub fn to_owned_node(&self) -> (branch: Result<TrieBranch, Error>)
        ensures
            match self@.to_branch() {
                Ok(b) => branch matches Ok(t) && t@ == b && t@.wf() && t.meta
                    == TrieNodeTransientMeta::none(),
                Err(e) => branch == Err::<TrieBranch, Error>(e),
            },
    {
        proof {
            use_type_invariant(self);
            reveal(Directory::to_branch);
        }
        let slots: usize = self.id.capacity();
        let mut ptrs: Vec<TriePtr> = Vec::new();
        let mut slot: usize = 0;
        let mut index: usize = 0;
        assert(ptrs@ =~= Seq::<TriePtr>::empty());
        while slot < slots
            invariant
                slot <= slots,
                slots == self@.id.slots(),
                self@.wf(),
                index == rank(self@.bitmap, slot as nat),
                index <= slot,
                ptrs@.len() == slot,
                self@.slots_back(slot as nat) == Ok::<Seq<TriePtr>, Error>(ptrs@),
            decreases slots - slot,
        {
            if bit_at(self.bitmap, slot) {
                proof {
                    lemma_rank_bounds(self@.bitmap, slot as nat, self@.id.slots());
                }
                let ptr: TriePtr = match self.pointer_at(index) {
                    Ok(ptr) => ptr,
                    Err(e) => {
                        proof {
                            reveal(Directory::to_branch);
                            lemma_slots_error(self@, (slot + 1) as nat, self@.id.slots());
                        }
                        return Err(e);
                    },
                };
                match self.misplaced(slot, index, &ptr) {
                    Some(fault) => {
                        proof {
                            reveal(Directory::to_branch);
                            lemma_slots_error(self@, (slot + 1) as nat, self@.id.slots());
                        }
                        return Err(corrupt(fault));
                    },
                    None => {},
                }
                ptrs.push(ptr);
                index = index + 1;
            } else {
                ptrs.push(TriePtr::default());
            }
            slot = slot + 1;
        }
        let mut indexes: Vec<i8> = Vec::new();
        if self.id == TrieNodeID::Node48 {
            match self.table_back(ptrs.as_slice()) {
                Ok(table) => indexes = table,
                Err(e) => return Err(e),
            }
        }
        let mut path = NodePath::default();
        let _ = path.set_from_slice(self.path);
        let branch = TrieBranch {
            id: self.id,
            path,
            ptrs,
            indexes,
            meta: TrieNodeTransientMeta::default(),
        };
        assert(branch@ =~= self@.to_branch()->Ok_0);
        Ok(branch)
    }
}

/// Where a child's pointer starts.
pub open spec fn offset_of(children: Seq<TriePtr>, index: nat) -> nat
    decreases index,
{
    if index == 0 {
        0
    } else {
        offset_of(children, (index - 1) as nat) + children[index - 1].compressed_len()
    }
}

/// All directory entries, ending in the final sentinel.
pub open spec fn offsets_of(children: Seq<TriePtr>) -> Seq<u64> {
    Seq::new(children.len() + 1, |i: int| offset_of(children, i as nat) as u64)
}

/// The compressed pointers one after the other.
pub open spec fn pointer_bytes(children: Seq<TriePtr>) -> Seq<u8>
    decreases children.len(),
{
    if children.len() == 0 {
        Seq::empty()
    } else {
        pointer_bytes(children.drop_last()) + children.last().compressed()
    }
}

/// A slot table entry as a byte.
pub open spec fn index_byte(index: i8) -> u8 {
    if index >= 0 {
        index as u8
    } else {
        (index + 256) as u8
    }
}

/// A slot table as bytes.
pub open spec fn index_bytes(indexes: Seq<i8>) -> Seq<u8> {
    Seq::new(indexes.len(), |i: int| index_byte(indexes[i]))
}

/// The selectors of a branch.
pub open spec fn selectors_of(branch: Branch) -> Seq<u8> {
    match branch.id {
        TrieNodeID::Node48 => index_bytes(branch.indexes),
        TrieNodeID::Node256 => Seq::empty(),
        _ => edges_of(occupied(branch.ptrs)),
    }
}

/// The path-first payload of a branch.
pub open spec fn mapped_payload(branch: Branch) -> Seq<u8> {
    let children = occupied(branch.ptrs);
    framed(branch.path) + bitmap_of(occupancy(branch.ptrs)) + selectors_of(branch) + column_of(
        offsets_of(children),
        2,
    ) + pointer_bytes(children)
}

/// The path-first payload's length by its parts.
pub open spec fn mapped_len(branch: Branch) -> nat {
    let children = occupied(branch.ptrs);
    let slots = branch.ptrs.len();
    1 + branch.path.len() + (slots + 7) / 8 + selector_width(slots, children.len()) + 2 * (
    children.len() + 1) + offset_of(children, children.len())
}

/// Pointer bytes stay below what a directory entry can say.
pub proof fn lemma_offset_bound(children: Seq<TriePtr>, index: nat)
    ensures
        offset_of(children, index) <= 14 * index,
    decreases index,
{
    if index > 0 {
        lemma_offset_bound(children, (index - 1) as nat);
    }
}

/// Largest valid payload, with its directory and wide annotated pointers.
pub fn max_payload_len(id: TrieNodeID) -> (n: Result<usize, Error>)
    ensures
        match n {
            Ok(n) => id.is_branch() && n == 33 + (id.slots() + 7) / 8 + selector_width(
                id.slots(),
                id.slots(),
            ) + (id.slots() + 1) * 2 + id.slots() * 14,
            Err(e) => !id.is_branch() && e == Error::CorruptionError(Corruption::ExpectedBranch),
        },
{
    let slots: usize = id.capacity();
    if slots == 0 {
        return Err(corrupt(Corruption::ExpectedBranch));
    }
    let selectors: usize = if slots <= 16 {
        slots
    } else if slots == 48 {
        256
    } else {
        0
    };
    Ok(33 + (slots + 7) / 8 + selectors + (slots + 1) * 2 + slots * TriePtr::max_encoded_size())
}

/// Compute the path-first payload size without allocating a serialization buffer.
pub fn branch_payload_len(branch: &TrieBranch) -> (n: usize)
    requires
        branch@.wf(),
    ensures
        n == mapped_len(branch@),
        n <= 5000,
{
    let children = occupied_of(branch.ptrs.as_slice());
    let count: usize = children.len();
    let slots: usize = branch.ptrs.len();
    let selectors: usize = if slots <= 16 {
        count
    } else if slots == 48 {
        256
    } else {
        0
    };
    let mut total: usize = 0;
    let mut at: usize = 0;
    while at < count
        invariant
            at <= count <= 256,
            count == children@.len(),
            total == offset_of(children@, at as nat),
            total <= 14 * at,
        decreases count - at,
    {
        total = total + children[at].compressed_size();
        at = at + 1;
    }
    1 + branch.path.len() + (slots + 7) / 8 + selectors + 2 * (count + 1) + total
}

/// Append the slot table as bytes.
pub fn push_index_bytes(out: &mut Vec<u8>, indexes: &[i8])
    ensures
        final(out)@ == old(out)@ + index_bytes(indexes@),
{
    let mut at: usize = 0;
    assert(out@ =~= old(out)@ + index_bytes(indexes@).subrange(0, 0));
    while at < indexes.len()
        invariant
            at <= indexes.len(),
            out@ == old(out)@ + index_bytes(indexes@).subrange(0, at as int),
        decreases indexes.len() - at,
    {
        let index: i8 = indexes[at];
        out.push(if index >= 0 { index as u8 } else { (index as i16 + 256) as u8 });
        at = at + 1;
        assert(out@ =~= old(out)@ + index_bytes(indexes@).subrange(0, at as int));
    }
    assert(index_bytes(indexes@).subrange(0, at as int) =~= index_bytes(indexes@));
}

/// Append the edges of the children.
fn push_edges(out: &mut Vec<u8>, children: &[TriePtr])
    ensures
        final(out)@ == old(out)@ + edges_of(children@),
{
    let mut at: usize = 0;
    assert(out@ =~= old(out)@ + edges_of(children@).subrange(0, 0));
    while at < children.len()
        invariant
            at <= children.len(),
            out@ == old(out)@ + edges_of(children@).subrange(0, at as int),
        decreases children.len() - at,
    {
        out.push(children[at].chr);
        at = at + 1;
        assert(out@ =~= old(out)@ + edges_of(children@).subrange(0, at as int));
    }
    assert(edges_of(children@).subrange(0, at as int) =~= edges_of(children@));
}

/// All directory entries.
fn directory_of(children: &[TriePtr]) -> (offsets: Vec<u64>)
    requires
        children@.len() <= 256,
    ensures
        offsets@ == offsets_of(children@),
{
    let mut offsets: Vec<u64> = Vec::new();
    let mut total: u64 = 0;
    offsets.push(0);
    let mut at: usize = 0;
    while at < children.len()
        invariant
            at <= children.len() <= 256,
            total == offset_of(children@, at as nat),
            total <= 14 * at,
            offsets@.len() == at + 1,
            forall|i: int| 0 <= i <= at ==> offsets@[i] == offset_of(children@, i as nat),
        decreases children.len() - at,
    {
        total = total + children[at].compressed_size() as u64;
        offsets.push(total);
        at = at + 1;
    }
    assert(offsets@ =~= offsets_of(children@));
    offsets
}

/// Append the compressed pointers one after the other.
pub fn push_pointers(out: &mut Vec<u8>, children: &[TriePtr])
    ensures
        final(out)@ == old(out)@ + pointer_bytes(children@),
{
    let mut at: usize = 0;
    assert(children@.subrange(0, 0) =~= Seq::<TriePtr>::empty());
    assert(out@ =~= old(out)@ + pointer_bytes(children@.subrange(0, 0)));
    while at < children.len()
        invariant
            at <= children.len(),
            out@ == old(out)@ + pointer_bytes(children@.subrange(0, at as int)),
        decreases children.len() - at,
    {
        children[at].write_bytes_compressed(out);
        at = at + 1;
        proof {
            let part = children@.subrange(0, at as int);
            assert(part.drop_last() =~= children@.subrange(0, at - 1));
            assert(out@ =~= old(out)@ + pointer_bytes(part));
        }
    }
    assert(children@.subrange(0, at as int) =~= children@);
}

/// Write a path-first branch while retaining compressed pointers and their logical slot order.
pub fn write_branch(out: &mut Vec<u8>, branch: &TrieBranch)
    requires
        branch@.wf(),
    ensures
        final(out)@ == old(out)@ + mapped_payload(branch@),
{
    let children = occupied_of(branch.ptrs.as_slice());
    let bits = occupancy_of(branch.ptrs.as_slice());
    let ghost start = out@;
    out.push(branch.path.len() as u8);
    push_bytes(out, branch.path.as_slice());
    assert(out@ =~= start + framed(branch@.path));
    push_bytes(out, pack_bits(bits.as_slice()).as_slice());
    if branch.id == TrieNodeID::Node48 {
        push_index_bytes(out, branch.indexes.as_slice());
    } else if branch.id != TrieNodeID::Node256 {
        push_edges(out, children.as_slice());
    }
    assert(out@ =~= start + framed(branch@.path) + bitmap_of(occupancy(branch@.ptrs))
        + selectors_of(branch@));
    push_column(out, directory_of(children.as_slice()).as_slice(), 2);
    push_pointers(out, children.as_slice());
    assert(out@ =~= start + mapped_payload(branch@));
}

/// Length of a node's path-first payload; a leaf counts as having no slots.
pub open spec fn mapped_node_len(node: Node) -> nat {
    match node {
        Node::Branch(branch) => mapped_len(branch),
        Node::Leaf(leaf) => 3 + leaf.path.len(),
    }
}

/// Compute the path-first payload size without allocating a serialization buffer.
pub fn payload_len(node: &TrieNodeType) -> (n: usize)
    requires
        node@.wf(),
    ensures
        n == mapped_node_len(node@),
        n <= 5000,
{
    match node {
        TrieNodeType::Branch(branch) => branch_payload_len(branch),
        TrieNodeType::Leaf(leaf) => 3 + leaf.path.len(),
    }
}

/// Write a path-first branch; leaves have no such payload.
pub fn write_payload(out: &mut Vec<u8>, node: &TrieNodeType) -> (done: Result<(), Error>)
    requires
        node@.wf(),
    ensures
        match node@ {
            Node::Branch(branch) => done is Ok && final(out)@ == old(out)@ + mapped_payload(branch),
            Node::Leaf(_) => done == Err::<(), Error>(
                Error::CorruptionError(Corruption::ExpectedBranch),
            ) && final(out)@ == old(out)@,
        },
{
    match node {
        TrieNodeType::Branch(branch) => {
            write_branch(out, branch);
            Ok(())
        },
        TrieNodeType::Leaf(_) => Err(corrupt(Corruption::ExpectedBranch)),
    }
}

} // verus!
