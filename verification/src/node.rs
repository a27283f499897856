//! Trie node types, child pointers, branches and patches.
use vstd::prelude::*;

use crate::error::{corrupt, Corruption, Error};
use crate::path::NodePath;
use crate::words::{
    be_bytes, be_value, lemma_be_len, lemma_be_roundtrip, lemma_spans, push_be, read_be,
};

verus! {

/// The type of a trie node.
#[derive(Clone, Copy, Debug, PartialEq, Eq, Structural)]
pub enum TrieNodeID {
    Empty,
    Leaf,
    Node4,
    Node16,
    Node48,
    Node256,
    /// Differences to a branch in an ancestor trie.
    Patch,
    /// On disk only: a leaf with a locator in place of its value.
    ValueLeaf,
    /// On disk only: a leaf with a shortened value.
    RawLeaf,
    /// On disk only: a leaf with its value record inline.
    InlineLeaf,
}

/// The node type that a byte without control bits names.
pub open spec fn node_id_of(byte: u8) -> Option<TrieNodeID> {
    if byte == 0 {
        Some(TrieNodeID::Empty)
    } else if byte == 1 {
        Some(TrieNodeID::Leaf)
    } else if byte == 2 {
        Some(TrieNodeID::Node4)
    } else if byte == 3 {
        Some(TrieNodeID::Node16)
    } else if byte == 4 {
        Some(TrieNodeID::Node48)
    } else if byte == 5 {
        Some(TrieNodeID::Node256)
    } else if byte == 6 {
        Some(TrieNodeID::Patch)
    } else if byte == 7 {
        Some(TrieNodeID::ValueLeaf)
    } else if byte == 8 {
        Some(TrieNodeID::RawLeaf)
    } else if byte == 9 {
        Some(TrieNodeID::InlineLeaf)
    } else {
        None
    }
}

impl TrieNodeID {
    /// The byte that names the node type.
    pub open spec fn code(self) -> u8 {
        match self {
            TrieNodeID::Empty => 0,
            TrieNodeID::Leaf => 1,
            TrieNodeID::Node4 => 2,
            TrieNodeID::Node16 => 3,
            TrieNodeID::Node48 => 4,
            TrieNodeID::Node256 => 5,
            TrieNodeID::Patch => 6,
            TrieNodeID::ValueLeaf => 7,
            TrieNodeID::RawLeaf => 8,
            TrieNodeID::InlineLeaf => 9,
        }
    }

    /// Whether nodes of this type have children.
    pub open spec fn is_branch(self) -> bool {
        self is Node4 || self is Node16 || self is Node48 || self is Node256
    }

    /// Child slots of a branch type.
    pub open spec fn slots(self) -> nat {
        match self {
            TrieNodeID::Node4 => 4,
            TrieNodeID::Node16 => 16,
            TrieNodeID::Node48 => 48,
            TrieNodeID::Node256 => 256,
            _ => 0,
        }
    }

    /// The most bytes that a body of this type takes, marker included.
    pub open spec fn max_body_spec(self) -> Option<nat> {
        match self {
            TrieNodeID::Empty => None,
            TrieNodeID::Leaf | TrieNodeID::ValueLeaf | TrieNodeID::RawLeaf => Some(
                (1 + 33 + 40 + 32) as nat,
            ),
            TrieNodeID::Node4 => Some((1 + 4 * 14 + 33) as nat),
            TrieNodeID::Node16 => Some((1 + 16 * 14 + 33) as nat),
            TrieNodeID::Node48 => Some((1 + 48 * 14 + 256 + 33) as nat),
            TrieNodeID::Node256 => Some((1 + 256 * 14 + 33) as nat),
            TrieNodeID::Patch => Some((1 + 14 + 1 + 256 * 14) as nat),
            TrieNodeID::InlineLeaf => Some((1 + 33 + 2 + 510) as nat),
        }
    }

    /// The byte that names the node type.
    #[verifier::when_used_as_spec(code)]
    pub fn as_u8(self) -> (byte: u8)
        ensures
            byte == self.code(),
            node_id_of(byte) == Some(self),
            byte <= 9,
    {
        match self {
            TrieNodeID::Empty => 0,
            TrieNodeID::Leaf => 1,
            TrieNodeID::Node4 => 2,
            TrieNodeID::Node16 => 3,
            TrieNodeID::Node48 => 4,
            TrieNodeID::Node256 => 5,
            TrieNodeID::Patch => 6,
            TrieNodeID::ValueLeaf => 7,
            TrieNodeID::RawLeaf => 8,
            TrieNodeID::InlineLeaf => 9,
        }
    }

    /// The node type that a byte without control bits names.
    pub fn from_u8(byte: u8) -> (id: Option<TrieNodeID>)
        ensures
            id == node_id_of(byte),
            id is Some ==> id->0.code() == byte,
    {
        match byte {
            0 => Some(TrieNodeID::Empty),
            1 => Some(TrieNodeID::Leaf),
            2 => Some(TrieNodeID::Node4),
            3 => Some(TrieNodeID::Node16),
            4 => Some(TrieNodeID::Node48),
            5 => Some(TrieNodeID::Node256),
            6 => Some(TrieNodeID::Patch),
            7 => Some(TrieNodeID::ValueLeaf),
            8 => Some(TrieNodeID::RawLeaf),
            9 => Some(TrieNodeID::InlineLeaf),
            _ => None,
        }
    }

    /// The most bytes that a body of this type takes, marker included.
    pub fn max_body_byte_len(self) -> (len: Option<usize>)
        ensures
            len is Some <==> self.max_body_spec() is Some,
            len is Some ==> len->0 == self.max_body_spec()->0,
    {
        match self {
            TrieNodeID::Empty => None,
            TrieNodeID::Leaf | TrieNodeID::ValueLeaf | TrieNodeID::RawLeaf => Some(106),
            TrieNodeID::Node4 => Some(90),
            TrieNodeID::Node16 => Some(258),
            TrieNodeID::Node48 => Some(962),
            TrieNodeID::Node256 => Some(3618),
            TrieNodeID::Patch => Some(3600),
            TrieNodeID::InlineLeaf => Some(546),
        }
    }

    /// Child slots of a branch type, or none for other types.
    pub fn capacity(self) -> (slots: usize)
        ensures
            slots == self.slots(),
    {
        match self {
            TrieNodeID::Node4 => 4,
            TrieNodeID::Node16 => 16,
            TrieNodeID::Node48 => 48,
            TrieNodeID::Node256 => 256,
            _ => 0,
        }
    }
}

/// Whether a node type byte marks a pointer into an ancestor trie.
#[verifier::allow_in_spec]
pub fn is_backptr(id: u8) -> bool
    returns
        id >= 128,
{
    id >= 128
}

/// Mark a node type byte as a pointer into an ancestor trie.
#[verifier::allow_in_spec]
pub fn set_backptr(id: u8) -> u8
    returns
        (if id >= 128 {
            id
        } else {
            (id + 128) as u8
        }),
{
    if id >= 128 {
        id
    } else {
        id + 128
    }
}

/// Remove the ancestor mark from a node type byte.
#[verifier::allow_in_spec]
pub fn clear_backptr(id: u8) -> u8
    returns
        (id % 128) as u8,
{
    id % 128
}

/// Whether a marker says that the pointers behind it are compressed.
#[verifier::allow_in_spec]
pub fn is_compressed(id: u8) -> bool
    returns
        (id / 64) % 2 == 1,
{
    (id / 64) % 2 == 1
}

/// Mark a node type byte as standing before compressed pointers.
#[verifier::allow_in_spec]
pub fn set_compressed(id: u8) -> u8
    returns
        (if (id / 64) % 2 == 1 {
            id
        } else {
            (id + 64) as u8
        }),
{
    if (id / 64) % 2 == 1 {
        id
    } else {
        id + 64
    }
}

/// Remove the compression mark from a node type byte.
#[verifier::allow_in_spec]
pub fn clear_compressed(id: u8) -> u8
    returns
        (if (id / 64) % 2 == 1 {
            (id - 64) as u8
        } else {
            id
        }),
{
    if (id / 64) % 2 == 1 {
        id - 64
    } else {
        id
    }
}

/// Remove all four control bits from a node type byte.
#[verifier::allow_in_spec]
pub fn clear_ctrl_bits(id: u8) -> u8
    returns
        (id % 16) as u8,
{
    id % 16
}

/// The node type byte by which parents point to a stored node.
#[verifier::allow_in_spec]
pub fn logical_node_id(id: u8) -> u8
    returns
        (if 7 <= id % 16 <= 9 {
            1u8
        } else {
            id
        }),
{
    let kind: u8 = id % 16;
    if 7 <= kind && kind <= 9 {
        1
    } else {
        id
    }
}

/// A pointer to a child node.
#[derive(Clone, Copy, Debug, PartialEq, Eq, Structural)]
pub struct TriePtr {
    /// Node type of the child, with the ancestor mark.
    pub id: u8,
    /// Path byte that leads to the child.
    pub chr: u8,
    /// Where the child is in its trie.
    pub ptr: u64,
    /// Local ID of the block that holds or once held the child.
    pub back_block: u32,
}

impl Default for TriePtr {
    fn default() -> (ptr: Self)
        ensures
            ptr == TriePtr::vacant(),
    {
        TriePtr { id: 0, chr: 0, ptr: 0, back_block: 0 }
    }
}

impl TriePtr {
    /// The pointer of an empty slot.
    pub open spec fn vacant() -> Self {
        TriePtr { id: 0, chr: 0, ptr: 0, back_block: 0 }
    }

    /// The node type byte as it is kept in memory, without the two encoding bits.
    pub open spec fn plain_id(byte: u8) -> u8 {
        ((byte / 64) * 64 + byte % 16) as u8
    }

    /// Whether the offset needs eight bytes.
    pub open spec fn wide(self) -> bool {
        self.ptr > 0xffff_ffff
    }

    /// Whether a compressed encoding keeps the block ID.
    pub open spec fn keeps_block(self) -> bool {
        self.id >= 128 || self.back_block != 0
    }

    /// Bytes of the offset.
    pub open spec fn offset_width(self) -> nat {
        if self.wide() {
            8
        } else {
            4
        }
    }

    /// The first byte of an encoding.
    pub open spec fn head(self, compressed: bool) -> u8 {
        (Self::plain_id(self.id) + (if self.wide() {
            32int
        } else {
            0
        }) + (if compressed && self.id < 128 && self.back_block != 0 {
            16int
        } else {
            0
        })) as u8
    }

    /// The fixed-layout encoding.
    pub open spec fn encoded(self) -> Seq<u8> {
        seq![self.head(false), self.chr] + be_bytes(self.ptr as nat, self.offset_width())
            + be_bytes(self.back_block as nat, 4)
    }

    /// Width of the fixed-layout encoding.
    pub open spec fn encoded_len(self) -> nat {
        6 + self.offset_width()
    }

    /// The encoding that drops an absent block ID.
    pub open spec fn compressed(self) -> Seq<u8> {
        seq![self.head(true), self.chr] + be_bytes(self.ptr as nat, self.offset_width()) + (
        if self.keeps_block() {
            be_bytes(self.back_block as nat, 4)
        } else {
            Seq::empty()
        })
    }

    /// Width of the compressed encoding.
    pub open spec fn compressed_len(self) -> nat {
        2 + self.offset_width() + if self.keeps_block() {
            4nat
        } else {
            0
        }
    }

    /// The pointer at the head of fixed-layout bytes.
    pub open spec fn decode_plain(bytes: Seq<u8>) -> Result<(TriePtr, nat), Error> {
        if bytes.len() == 0 {
            Err(Error::CorruptionError(Corruption::TruncatedPointer))
        } else {
            let width: nat = if (bytes[0] / 32) % 2 == 1 {
                8
            } else {
                4
            };
            if bytes.len() < 6 + width {
                Err(Error::CorruptionError(Corruption::TruncatedPointer))
            } else {
                Ok(
                    (
                        TriePtr {
                            id: Self::plain_id(bytes[0]),
                            chr: bytes[1],
                            ptr: be_value(bytes.subrange(2, 2 + width as int)) as u64,
                            back_block: be_value(
                                bytes.subrange(2 + width as int, 6 + width as int),
                            ) as u32,
                        },
                        6 + width,
                    ),
                )
            }
        }
    }

    /// The pointer at the head of compressed bytes.
    pub open spec fn decode_compressed(bytes: Seq<u8>) -> Result<(TriePtr, nat), Error> {
        if bytes.len() == 0 {
            Err(Error::CorruptionError(Corruption::TruncatedPointer))
        } else {
            let width: nat = if (bytes[0] / 32) % 2 == 1 {
                8
            } else {
                4
            };
            let block = bytes[0] >= 128 || (bytes[0] / 16) % 2 == 1;
            let len: nat = 2 + width + if block {
                4nat
            } else {
                0
            };
            if bytes.len() < len {
                Err(Error::CorruptionError(Corruption::TruncatedPointer))
            } else {
                Ok(
                    (
                        TriePtr {
                            id: Self::plain_id(bytes[0]),
                            chr: bytes[1],
                            ptr: be_value(bytes.subrange(2, 2 + width as int)) as u64,
                            back_block: if block {
                                be_value(
                                    bytes.subrange(2 + width as int, 6 + width as int),
                                ) as u32
                            } else {
                                0
                            },
                        },
                        len,
                    ),
                )
            }
        }
    }

    /// A pointer to a child in the same trie.
    pub fn new(id: u8, chr: u8, ptr: u64) -> (out: Self)
        ensures
            out == (TriePtr { id, chr, ptr, back_block: 0 }),
    {
        TriePtr { id, chr, ptr, back_block: 0 }
    }

    /// A pointer to a child in an ancestor trie.
    pub fn new_backptr(id: u8, chr: u8, ptr: u64, back_block: u32) -> (out: Self)
        ensures
            out == (TriePtr { id: set_backptr(id), chr, ptr, back_block }),
    {
        TriePtr { id: set_backptr(id), chr, ptr, back_block }
    }

    /// An empty slot's pointer whose offset needs eight bytes.
    pub fn widest_encoded() -> (out: Self)
        ensures
            out == (TriePtr { id: 0, chr: 0, ptr: u64::MAX, back_block: 0 }),
    {
        TriePtr { id: 0, chr: 0, ptr: u64::MAX, back_block: 0 }
    }

    /// The widest encoding of any pointer.
    pub fn max_encoded_size() -> (n: usize)
        ensures
            n == 14,
            forall|p: TriePtr| #[trigger] p.encoded_len() <= n,
            forall|p: TriePtr| #[trigger] p.compressed_len() <= n,
    {
        14
    }

    /// Whether the slot holds no child.
    #[verifier::allow_in_spec]
    pub fn is_empty(&self) -> bool
        returns
            self.id == 0,
    {
        self.id == 0
    }

    /// Node type byte of the child.
    #[verifier::allow_in_spec]
    pub fn id(&self) -> u8
        returns
            self.id,
    {
        self.id
    }

    /// Path byte that leads to the child.
    #[verifier::allow_in_spec]
    pub fn chr(&self) -> u8
        returns
            self.chr,
    {
        self.chr
    }

    /// Where the child is in its trie.
    #[verifier::allow_in_spec]
    pub fn ptr(&self) -> u64
        returns
            self.ptr,
    {
        self.ptr
    }

    /// Local ID of the block that holds the child.
    #[verifier::allow_in_spec]
    pub fn back_block(&self) -> u32
        returns
            self.back_block,
    {
        self.back_block
    }

    /// The same child, as its own trie points to it.
    pub open spec fn local(self) -> Self {
        TriePtr {
            id: clear_backptr(self.id),
            chr: self.chr,
            ptr: self.ptr,
            back_block: 0,
        }
    }

    /// The same child, as its own trie points to it.
    pub fn from_backptr(&self) -> (out: Self)
        ensures
            out == self.local(),
    {
        TriePtr { id: clear_backptr(self.id), chr: self.chr, ptr: self.ptr, back_block: 0 }
    }

    /// Width of the fixed-layout encoding.
    pub fn encoded_size(&self) -> (n: usize)
        ensures
            n == self.encoded_len(),
            n <= 14,
    {
        if self.ptr > 0xffff_ffff {
            14
        } else {
            10
        }
    }

    /// Width of the compressed encoding.
    pub fn compressed_size(&self) -> (n: usize)
        ensures
            n == self.compressed_len(),
            6 <= n <= 14,
    {
        let offset: usize = if self.ptr > 0xffff_ffff { 8 } else { 4 };
        let block: usize = if self.id >= 128 || self.back_block != 0 { 4 } else { 0 };
        2 + offset + block
    }

    fn head_byte(&self, compressed: bool) -> (byte: u8)
        ensures
            byte == self.head(compressed),
    {
        let plain: u8 = (self.id / 64) * 64 + self.id % 16;
        let wide: u8 = if self.ptr > 0xffff_ffff { 32 } else { 0 };
        let block: u8 = if compressed && self.id < 128 && self.back_block != 0 { 16 } else { 0 };
        plain + wide + block
    }

    /// Append the fixed-layout encoding.
    pub fn write_bytes(&self, out: &mut Vec<u8>)
        ensures
            final(out)@ == old(out)@ + self.encoded(),
    {
        let offset: usize = if self.ptr > 0xffff_ffff { 8 } else { 4 };
        out.push(self.head_byte(false));
        out.push(self.chr);
        push_be(out, self.ptr, offset);
        push_be(out, self.back_block as u64, 4);
        assert(out@ =~= old(out)@ + self.encoded());
    }

    /// Append the compressed encoding.
    pub fn write_bytes_compressed(&self, out: &mut Vec<u8>)
        ensures
            final(out)@ == old(out)@ + self.compressed(),
    {
        let offset: usize = if self.ptr > 0xffff_ffff { 8 } else { 4 };
        out.push(self.head_byte(true));
        out.push(self.chr);
        push_be(out, self.ptr, offset);
        if self.id >= 128 || self.back_block != 0 {
            push_be(out, self.back_block as u64, 4);
        }
        assert(out@ =~= old(out)@ + self.compressed());
    }

    /// Decode the pointer at the head of fixed-layout bytes.
    pub fn from_bytes(bytes: &[u8]) -> (out: Result<(TriePtr, usize), Error>)
        ensures
            match Self::decode_plain(bytes@) {
                Ok((ptr, len)) => out matches Ok((p, n)) && p == ptr && n == len && 0 < n
                    <= bytes@.len(),
                Err(e) => out == Err::<(TriePtr, usize), Error>(e),
            },
    {
        if bytes.len() == 0 {
            return Err(corrupt(Corruption::TruncatedPointer));
        }
        let width: usize = if (bytes[0] / 32) % 2 == 1 { 8 } else { 4 };
        if bytes.len() < 6 + width {
            return Err(corrupt(Corruption::TruncatedPointer));
        }
        proof {
            lemma_spans();
        }
        let ptr: u64 = read_be(bytes, 2, width);
        let back_block: u32 = read_be(bytes, 2 + width, 4) as u32;
        let id: u8 = (bytes[0] / 64) * 64 + bytes[0] % 16;
        Ok((TriePtr { id, chr: bytes[1], ptr, back_block }, 6 + width))
    }

    /// Decode the pointer at the head of compressed bytes.
    pub fn from_slice_compressed(bytes: &[u8]) -> (out: Result<(TriePtr, usize), Error>)
        ensures
            match Self::decode_compressed(bytes@) {
                Ok((ptr, len)) => out matches Ok((p, n)) && p == ptr && n == len && 0 < n
                    <= bytes@.len(),
                Err(e) => out == Err::<(TriePtr, usize), Error>(e),
            },
    {
        if bytes.len() == 0 {
            return Err(corrupt(Corruption::TruncatedPointer));
        }
        let width: usize = if (bytes[0] / 32) % 2 == 1 { 8 } else { 4 };
        let block = bytes[0] >= 128 || (bytes[0] / 16) % 2 == 1;
        let len: usize = if block { 6 + width } else { 2 + width };
        if bytes.len() < len {
            return Err(corrupt(Corruption::TruncatedPointer));
        }
        proof {
            lemma_spans();
        }
        let ptr: u64 = read_be(bytes, 2, width);
        let back_block: u32 = if block { read_be(bytes, 2 + width, 4) as u32 } else { 0 };
        let id: u8 = (bytes[0] / 64) * 64 + bytes[0] % 16;
        Ok((TriePtr { id, chr: bytes[1], ptr, back_block }, len))
    }
}

/// Widths of the two encodings.
pub proof fn lemma_ptr_lens(ptr: TriePtr)
    ensures
        ptr.encoded().len() == ptr.encoded_len(),
        ptr.compressed().len() == ptr.compressed_len(),
{
    lemma_be_len(ptr.ptr as nat, ptr.offset_width());
    lemma_be_len(ptr.back_block as nat, 4);
}

/// A pointer with a plain node type survives both encodings, whatever follows it.
pub proof fn law_pointer_roundtrip(ptr: TriePtr, tail: Seq<u8>)
    requires
        TriePtr::plain_id(ptr.id) == ptr.id,
    ensures
        TriePtr::decode_plain(ptr.encoded() + tail) == Ok::<(TriePtr, nat), Error>(
            (ptr, ptr.encoded_len()),
        ),
        TriePtr::decode_compressed(ptr.compressed() + tail) == Ok::<(TriePtr, nat), Error>(
            (ptr, ptr.compressed_len()),
        ),
{
    lemma_spans();
    lemma_ptr_lens(ptr);
    let width = ptr.offset_width();
    lemma_be_len(ptr.ptr as nat, width);
    lemma_be_len(ptr.back_block as nat, 4);
    lemma_be_roundtrip(ptr.ptr as nat, width);
    lemma_be_roundtrip(ptr.back_block as nat, 4);
    let plain = ptr.encoded() + tail;
    assert(plain.subrange(2, 2 + width as int) =~= be_bytes(ptr.ptr as nat, width));
    assert(plain.subrange(2 + width as int, 6 + width as int) =~= be_bytes(
        ptr.back_block as nat,
        4,
    ));
    assert(plain[0] == ptr.head(false));
    assert(plain[1] == ptr.chr);
    let packed = ptr.compressed() + tail;
    assert(packed.subrange(2, 2 + width as int) =~= be_bytes(ptr.ptr as nat, width));
    if ptr.keeps_block() {
        assert(packed.subrange(2 + width as int, 6 + width as int) =~= be_bytes(
            ptr.back_block as nat,
            4,
        ));
    }
    assert(packed[0] == ptr.head(true));
    assert(packed[1] == ptr.chr);
}

/// Where a node was copied from: the block, and the pointer by which the copy's trie led there.
#[derive(Clone, Copy, Debug, PartialEq, Eq)]
pub struct TrieCowPtr {
    pub block_hash: [u8; 32],
    pub ptr: TriePtr,
}

impl TrieCowPtr {
    /// Whether a node was copied from a place.
    pub open spec fn is_of(&self, block: Seq<u8>, ptr: TriePtr) -> bool {
        self.block_hash@ == block && self.ptr == ptr
    }
}

/// State of a branch that its encodings do not carry.
#[derive(Clone, Copy, Debug, PartialEq, Eq)]
pub struct TrieNodeTransientMeta {
    /// Patch layers that were resolved to produce the node.
    pub patch_depth: usize,
    /// Block and pointer of the newest patch that was resolved.
    pub last_patch_source: Option<(u32, TriePtr)>,
    /// Where the node was copied from when its trie was extended.
    pub cow_ptr: Option<TrieCowPtr>,
}

impl TrieNodeTransientMeta {
    /// The state of a branch that was neither patched nor copied.
    pub open spec fn none() -> Self {
        TrieNodeTransientMeta { patch_depth: 0, last_patch_source: None, cow_ptr: None }
    }
}

impl Default for TrieNodeTransientMeta {
    fn default() -> (meta: Self)
        ensures
            meta == Self::none(),
    {
        TrieNodeTransientMeta { patch_depth: 0, last_patch_source: None, cow_ptr: None }
    }
}

/// A branch with its logical slots.
#[derive(Debug, PartialEq)]
pub struct TrieBranch {
    /// Branch type.
    pub id: TrieNodeID,
    /// Compressed path segment.
    pub path: NodePath,
    /// One pointer per slot.
    pub ptrs: Vec<TriePtr>,
    /// Slot of each path byte, or -1; kept by 48-slot branches only.
    pub indexes: Vec<i8>,
    /// State that encodings do not carry.
    pub meta: TrieNodeTransientMeta,
}

/// What a branch is: its type, path, slots and selectors.
#[verifier::ext_equal]
pub struct Branch {
    pub id: TrieNodeID,
    pub path: Seq<u8>,
    pub ptrs: Seq<TriePtr>,
    pub indexes: Seq<i8>,
}

/// The first slot from `from` on that leads along `chr`.
pub open spec fn slot_for(ptrs: Seq<TriePtr>, chr: u8, from: int) -> Option<int>
    decreases ptrs.len() - from,
{
    if from < 0 || from >= ptrs.len() {
        None
    } else if ptrs[from].id != 0 && ptrs[from].chr == chr {
        Some(from)
    } else {
        slot_for(ptrs, chr, from + 1)
    }
}

/// The first empty slot from `from` on.
pub open spec fn vacant_slot(ptrs: Seq<TriePtr>, from: int) -> Option<int>
    decreases ptrs.len() - from,
{
    if from < 0 || from >= ptrs.len() {
        None
    } else if ptrs[from].id == 0 {
        Some(from)
    } else {
        vacant_slot(ptrs, from + 1)
    }
}

/// Found slots are in range, match, and are the first to do so.
pub proof fn lemma_slot_for(ptrs: Seq<TriePtr>, chr: u8, from: int)
    requires
        0 <= from,
    ensures
        match slot_for(ptrs, chr, from) {
            Some(s) => from <= s < ptrs.len() && ptrs[s].id != 0 && ptrs[s].chr == chr && (
            forall|j: int| from <= j < s ==> ptrs[j].id == 0 || ptrs[j].chr != chr),
            None => forall|j: int|
                from <= j < ptrs.len() ==> ptrs[j].id == 0 || ptrs[j].chr != chr,
        },
    decreases ptrs.len() - from,
{
    if from < ptrs.len() {
        lemma_slot_for(ptrs, chr, from + 1);
    }
}

/// Found slots are in range and empty.
pub proof fn lemma_vacant_slot(ptrs: Seq<TriePtr>, from: int)
    requires
        0 <= from,
    ensures
        match vacant_slot(ptrs, from) {
            Some(s) => from <= s < ptrs.len() && ptrs[s].id == 0,
            None => forall|j: int| from <= j < ptrs.len() ==> ptrs[j].id != 0,
        },
    decreases ptrs.len() - from,
{
    if from < ptrs.len() {
        lemma_vacant_slot(ptrs, from + 1);
    }
}

impl Branch {
    /// Whether the parts fit the branch type.
    pub open spec fn wf(self) -> bool {
        &&& self.id.is_branch()
        &&& self.path.len() <= 32
        &&& self.ptrs.len() == self.id.slots()
        &&& self.indexes.len() == if self.id is Node48 {
            256nat
        } else {
            0
        }
    }

    /// The slot that leads along `chr`.
    pub open spec fn find(self, chr: u8) -> Option<int> {
        match self.id {
            TrieNodeID::Node48 => {
                let slot = self.indexes[chr as int] as int;
                if 0 <= slot < 48 && self.ptrs[slot].id != 0 {
                    Some(slot)
                } else {
                    None
                }
            },
            TrieNodeID::Node256 => if self.ptrs[chr as int].id != 0 {
                Some(chr as int)
            } else {
                None
            },
            _ => slot_for(self.ptrs, chr, 0),
        }
    }

    /// The child along `chr`.
    pub open spec fn walk(self, chr: u8) -> Option<TriePtr> {
        match self.find(chr) {
            Some(slot) => Some(self.ptrs[slot]),
            None => None,
        }
    }

    /// The branch after its child along `ptr.chr` was replaced, if it has one.
    pub open spec fn replaced(self, ptr: TriePtr) -> Option<Branch> {
        match self.find(ptr.chr) {
            Some(slot) => Some(Branch { ptrs: self.ptrs.update(slot, ptr), ..self }),
            None => None,
        }
    }

    /// The branch after `ptr` was put in, if there is room.
    pub open spec fn inserted(self, ptr: TriePtr) -> Option<Branch> {
        match self.replaced(ptr) {
            Some(branch) => Some(branch),
            None => if self.id is Node256 {
                Some(Branch { ptrs: self.ptrs.update(ptr.chr as int, ptr), ..self })
            } else {
                match vacant_slot(self.ptrs, 0) {
                    None => None,
                    Some(slot) => Some(
                        Branch {
                            ptrs: self.ptrs.update(slot, ptr),
                            indexes: if self.id is Node48 {
                                self.indexes.update(ptr.chr as int, slot as i8)
                            } else {
                                self.indexes
                            },
                            ..self
                        },
                    ),
                }
            },
        }
    }

    /// A branch without children.
    pub open spec fn childless(id: TrieNodeID, path: Seq<u8>) -> Branch {
        Branch {
            id,
            path,
            ptrs: Seq::new(id.slots(), |i: int| TriePtr::vacant()),
            indexes: Seq::new(
                if id is Node48 {
                    256
                } else {
                    0
                },
                |i: int| -1i8,
            ),
        }
    }
}

impl TrieBranch {
    /// Type, path, slots and selectors.
    pub open spec fn view(&self) -> Branch {
        Branch { id: self.id, path: self.path@, ptrs: self.ptrs@, indexes: self.indexes@ }
    }

    /// A branch without path and children.
    pub fn empty(id: TrieNodeID) -> (branch: Self)
        requires
            id.is_branch(),
        ensures
            branch@ == Branch::childless(id, Seq::empty()),
            branch@.wf(),
            branch.meta == TrieNodeTransientMeta::none(),
    {
        let mut ptrs: Vec<TriePtr> = Vec::new();
        let slots: usize = id.capacity();
        let mut at: usize = 0;
        while at < slots
            invariant
                at <= slots,
                ptrs@ == Seq::new(at as nat, |i: int| TriePtr::vacant()),
            decreases slots - at,
        {
            ptrs.push(TriePtr::default());
            at = at + 1;
            assert(ptrs@ =~= Seq::new(at as nat, |i: int| TriePtr::vacant()));
        }
        let mut indexes: Vec<i8> = Vec::new();
        let count: usize = if id == TrieNodeID::Node48 { 256 } else { 0 };
        let mut n: usize = 0;
        while n < count
            invariant
                n <= count,
                indexes@ == Seq::new(n as nat, |i: int| -1i8),
            decreases count - n,
        {
            indexes.push(-1);
            n = n + 1;
            assert(indexes@ =~= Seq::new(n as nat, |i: int| -1i8));
        }
        TrieBranch {
            id,
            path: NodePath::default(),
            ptrs,
            indexes,
            meta: TrieNodeTransientMeta::default(),
        }
    }

    /// A branch with a path and without children.
    pub fn new(id: TrieNodeID, path: &[u8]) -> (branch: Self)
        requires
            id.is_branch(),
            path@.len() <= 32,
        ensures
            branch@ == Branch::childless(id, path@),
            branch@.wf(),
            branch.meta == TrieNodeTransientMeta::none(),
    {
        let mut branch = Self::empty(id);
        let _ = branch.path.set_from_slice(path);
        branch
    }

    /// Node type byte.
    pub fn id(&self) -> (byte: u8)
        ensures
            byte == self.id.code(),
    {
        self.id.as_u8()
    }

    /// The slot that leads along `chr`.
    pub fn find(&self, chr: u8) -> (slot: Option<usize>)
        requires
            self@.wf(),
        ensures
            match self@.find(chr) {
                Some(s) => slot matches Some(n) && n == s && n < self@.ptrs.len(),
                None => slot is None,
            },
    {
        if self.id == TrieNodeID::Node48 {
            let index: i8 = self.indexes[chr as usize];
            if index < 0 || index >= 48 {
                return None;
            }
            let slot: usize = index as usize;
            return if self.ptrs[slot].is_empty() {
                None
            } else {
                Some(slot)
            };
        }
        if self.id == TrieNodeID::Node256 {
            return if self.ptrs[chr as usize].is_empty() {
                None
            } else {
                Some(chr as usize)
            };
        }
        let mut at: usize = 0;
        while at < self.ptrs.len()
            invariant
                at <= self.ptrs@.len(),
                self@.wf(),
                self.id !is Node48 && self.id !is Node256,
                slot_for(self.ptrs@, chr, 0) == slot_for(self.ptrs@, chr, at as int),
            decreases self.ptrs@.len() - at,
        {
            let ptr: TriePtr = self.ptrs[at];
            if !ptr.is_empty() && ptr.chr == chr {
                return Some(at);
            }
            at = at + 1;
        }
        None
    }

    /// The child along `chr`.
    pub fn walk(&self, chr: u8) -> (child: Option<TriePtr>)
        requires
            self@.wf(),
        ensures
            child == self@.walk(chr),
    {
        match self.find(chr) {
            Some(slot) => Some(self.ptrs[slot]),
            None => None,
        }
    }

    /// Replace the child along `ptr.chr`; `false` if there is none.
    pub fn replace(&mut self, ptr: &TriePtr) -> (done: bool)
        requires
            old(self)@.wf(),
        ensures
            match old(self)@.replaced(*ptr) {
                Some(branch) => done && final(self)@ == branch,
                None => !done && final(self)@ == old(self)@,
            },
            final(self)@.wf(),
            final(self).meta == old(self).meta,
    {
        match self.find(ptr.chr) {
            Some(slot) => {
                self.ptrs.set(slot, *ptr);
                assert(self@ =~= old(self)@.replaced(*ptr)->0);
                true
            },
            None => false,
        }
    }

    /// Put `ptr` in, replacing the child along the same byte; `false` if there is no room.
    pub fn insert(&mut self, ptr: &TriePtr) -> (done: bool)
        requires
            old(self)@.wf(),
        ensures
            match old(self)@.inserted(*ptr) {
                Some(branch) => done && final(self)@ == branch,
                None => !done && final(self)@ == old(self)@,
            },
            final(self)@.wf(),
            final(self).meta == old(self).meta,
    {
        if self.replace(ptr) {
            return true;
        }
        if self.id == TrieNodeID::Node256 {
            self.ptrs.set(ptr.chr as usize, *ptr);
            assert(self@ =~= old(self)@.inserted(*ptr)->0);
            return true;
        }
        let mut at: usize = 0;
        while at < self.ptrs.len()
            invariant
                at <= self.ptrs@.len(),
                self@ == old(self)@,
                self.meta == old(self).meta,
                self@.wf(),
                self@.id !is Node256,
                self@.replaced(*ptr) is None,
                vacant_slot(self.ptrs@, 0) == vacant_slot(self.ptrs@, at as int),
            decreases self.ptrs@.len() - at,
        {
            if self.ptrs[at].is_empty() {
                self.ptrs.set(at, *ptr);
                if self.id == TrieNodeID::Node48 {
                    self.indexes.set(ptr.chr as usize, at as i8);
                }
                assert(self@ =~= old(self)@.inserted(*ptr)->0);
                return true;
            }
            at = at + 1;
        }
        false
    }
}

/// Differences to a branch in an ancestor trie.
#[derive(Debug, PartialEq)]
pub struct TrieNodePatch {
    /// Where the patched node is.
    pub ptr: TriePtr,
    /// Children that differ.
    pub ptr_diff: Vec<TriePtr>,
}

/// A child that was put in is found along its byte.
pub proof fn lemma_inserted_is_found(branch: Branch, ptr: TriePtr)
    requires
        branch.wf(),
        ptr.id != 0,
        branch.inserted(ptr) is Some,
    ensures
        (branch.inserted(ptr)->0).wf(),
        (branch.inserted(ptr)->0).walk(ptr.chr) == Some(ptr),
{
    lemma_slot_for(branch.ptrs, ptr.chr, 0);
    lemma_vacant_slot(branch.ptrs, 0);
    let after = branch.inserted(ptr)->0;
    lemma_slot_for(after.ptrs, ptr.chr, 0);
    if branch.id is Node4 || branch.id is Node16 {
        let slot = match branch.find(ptr.chr) {
            Some(slot) => slot,
            None => vacant_slot(branch.ptrs, 0)->0,
        };
        assert(after.ptrs[slot] == ptr);
    }
}

/// A list with the same pointers.
pub fn copy_ptrs(ptrs: &[TriePtr]) -> (copy: Vec<TriePtr>)
    ensures
        copy@ == ptrs@,
{
    let mut copy: Vec<TriePtr> = Vec::new();
    let mut at: usize = 0;
    while at < ptrs.len()
        invariant
            at <= ptrs@.len(),
            copy@ == ptrs@.subrange(0, at as int),
        decreases ptrs@.len() - at,
    {
        copy.push(ptrs[at]);
        at = at + 1;
        assert(copy@ =~= ptrs@.subrange(0, at as int));
    }
    assert(copy@ =~= ptrs@);
    copy
}

impl Clone for TrieBranch {
    fn clone(&self) -> (copy: Self)
        ensures
            copy@ == self@,
            copy.meta == self.meta,
    {
        let mut indexes: Vec<i8> = Vec::new();
        let mut at: usize = 0;
        while at < self.indexes.len()
            invariant
                at <= self.indexes@.len(),
                indexes@ == self.indexes@.subrange(0, at as int),
            decreases self.indexes@.len() - at,
        {
            indexes.push(self.indexes[at]);
            at = at + 1;
            assert(indexes@ =~= self.indexes@.subrange(0, at as int));
        }
        assert(indexes@ =~= self.indexes@);
        TrieBranch {
            id: self.id,
            path: self.path,
            ptrs: copy_ptrs(self.ptrs.as_slice()),
            indexes,
            meta: self.meta,
        }
    }
}

} // verus!
