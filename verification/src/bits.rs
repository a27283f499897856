//! Low-level encodings of paths, child pointer lists and node bodies.
use vstd::prelude::*;

use crate::bitmap::{bit_at, bitmap_of, lemma_bitmap_bits, pack_bits, slot_bit};
use crate::error::{corrupt, Corruption, Error};
use crate::hash::{TrieHash, TRIEHASH_ENCODED_SIZE};
use crate::mapped_node::{offset_of, path_prefix, path_prefix_spec, pointer_bytes, push_pointers};
use crate::node::{
    clear_compressed, clear_ctrl_bits, is_backptr, is_compressed, law_pointer_roundtrip,
    lemma_ptr_lens, node_id_of, TrieNodeID, TriePtr,
};
use crate::packed_laws::canonical;
use crate::path::{framed, NodePath};
use crate::slots::{occupancy, occupancy_of, occupied, occupied_of};
use crate::words::{push_bytes, to_array};

verus! {

/// Magic byte value indicating a sparse compressed pointer list.
/// This value cannot be a valid node type, making it safe to use as a marker.
pub const SPARSE_PTR_BITMAP_MARKER: u8 = 0xff;

/// Get the size of a trie path with its length byte.
pub fn get_path_byte_len(p: &[u8]) -> (n: usize)
    requires
        p@.len() < 255,
    ensures
        n == framed(p@).len(),
        n == 1 + p@.len(),
{
    1 + p.len()
}

/// Decode a trie path with its length byte into `dst`; the bytes it takes.
pub fn path_from_bytes_slice_into(bytes: &[u8], dst: &mut NodePath) -> (used: Result<usize, Error>)
    ensures
        match path_prefix_spec(bytes@) {
            Ok(path) => used == Ok::<usize, Error>((1 + path.len()) as usize) && final(dst)@
                == path,
            Err(e) => used == Err::<usize, Error>(e) && final(dst)@ == old(dst)@,
        },
{
    match path_prefix(bytes) {
        Ok(path) => {
            let _ = dst.set_from_slice(path);
            Ok(1 + path.len())
        },
        Err(e) => Err(e),
    }
}

/// Append a path with its length byte.
pub fn write_path_to_bytes(path: &[u8], out: &mut Vec<u8>) -> (done: Result<(), Error>)
    ensures
        if path@.len() > 32 {
            done == Err::<(), Error>(Error::CorruptionError(Corruption::OversizedPath))
                && final(out)@ == old(out)@
        } else {
            done is Ok && final(out)@ == old(out)@ + framed(path@)
        },
{
    if path.len() > 32 {
        return Err(corrupt(Corruption::OversizedPath));
    }
    out.push(path.len() as u8);
    push_bytes(out, path);
    assert(out@ =~= old(out)@ + framed(path@));
    Ok(())
}

/// Fixed-layout pointers one after the other.
pub open spec fn plain_bytes(ptrs: Seq<TriePtr>) -> Seq<u8>
    decreases ptrs.len(),
{
    if ptrs.len() == 0 {
        Seq::empty()
    } else {
        plain_bytes(ptrs.drop_last()) + ptrs.last().encoded()
    }
}

/// Bytes of the first `n` fixed-layout pointers.
pub open spec fn plain_len(ptrs: Seq<TriePtr>, n: nat) -> nat
    decreases n,
{
    if n == 0 {
        0
    } else {
        plain_len(ptrs, (n - 1) as nat) + ptrs[n - 1].encoded_len()
    }
}

/// Pointer widths are bounded.
pub proof fn lemma_list_len_bounds(ptrs: Seq<TriePtr>, n: nat)
    ensures
        plain_len(ptrs, n) <= 14 * n,
        offset_of(ptrs, n) <= 14 * n,
    decreases n,
{
    if n > 0 {
        lemma_list_len_bounds(ptrs, (n - 1) as nat);
    }
}

/// Helper to determine how many bytes a trie node's child pointers will take to encode, marker
/// included.
pub fn get_ptrs_byte_len(ptrs: &[TriePtr]) -> (n: usize)
    requires
        1 + 14 * ptrs@.len() <= usize::MAX,
    ensures
        n == 1 + plain_len(ptrs@, ptrs@.len()),
        n <= 1 + 14 * ptrs@.len(),
{
    let mut total: usize = 1;
    let mut at: usize = 0;
    while at < ptrs.len()
        invariant
            at <= ptrs@.len(),
            1 + 14 * ptrs@.len() <= usize::MAX,
            total == 1 + plain_len(ptrs@, at as nat),
            total <= 1 + 14 * at,
        decreases ptrs@.len() - at,
    {
        total = total + ptrs[at].encoded_size();
        at = at + 1;
    }
    total
}

/// Returns `true` when a pointer is an inline child: non-empty and not a back-pointer to an
/// ancestor block.
#[verifier::allow_in_spec]
pub fn is_inline_child_ptr(ptr: &TriePtr) -> bool
    returns
        ptr.id != 0 && ptr.id < 128,
{
    !ptr.is_empty() && !is_backptr(ptr.id())
}

/// Bitmap bytes of a sparse pointer list, for node types with pointers.
pub open spec fn bitmap_width(id: u8) -> Option<nat> {
    match node_id_of(clear_ctrl_bits(id)) {
        Some(TrieNodeID::Node4) => Some(1),
        Some(TrieNodeID::Node16) => Some(2),
        Some(TrieNodeID::Node48) => Some(6),
        Some(TrieNodeID::Node256) => Some(32),
        _ => None,
    }
}

/// Helper to determine a sparse pointer list's bitmap size, given the node type byte.
/// `None` for types without pointers and for unknown types.
pub fn get_sparse_ptrs_bitmap_size(id: u8) -> (size: Option<usize>)
    ensures
        match bitmap_width(id) {
            Some(width) => size matches Some(n) && n == width && n <= 32,
            None => size is None,
        },
{
    match TrieNodeID::from_u8(clear_ctrl_bits(id)) {
        Some(TrieNodeID::Node4) => Some(1),
        Some(TrieNodeID::Node16) => Some(2),
        Some(TrieNodeID::Node48) => Some(6),
        Some(TrieNodeID::Node256) => Some(32),
        _ => None,
    }
}

/// Compressed pointers' bytes.
fn packed_size(ptrs: &[TriePtr]) -> (n: usize)
    requires
        14 * ptrs@.len() <= usize::MAX,
    ensures
        n == offset_of(ptrs@, ptrs@.len()),
        n <= 14 * ptrs@.len(),
{
    let mut total: usize = 0;
    let mut at: usize = 0;
    while at < ptrs.len()
        invariant
            at <= ptrs@.len(),
            14 * ptrs@.len() <= usize::MAX,
            total == offset_of(ptrs@, at as nat),
            total <= 14 * at,
        decreases ptrs@.len() - at,
    {
        total = total + ptrs[at].compressed_size();
        at = at + 1;
    }
    total
}

/// Size of a sparse pointer list with a bitmap of `width` bytes.
pub open spec fn sparse_size(width: nat, ptrs: Seq<TriePtr>) -> nat {
    1 + width + offset_of(occupied(ptrs), occupied(ptrs).len())
}

/// Size of a dense pointer list.
pub open spec fn dense_size(ptrs: Seq<TriePtr>) -> nat {
    offset_of(ptrs, ptrs.len())
}

/// Size of a compressed pointer list, and whether it is sparse.
pub open spec fn compressed_size_spec(id: u8, ptrs: Seq<TriePtr>) -> Option<(nat, bool)> {
    match bitmap_width(id) {
        None => None,
        Some(width) => if sparse_size(width, ptrs) < dense_size(ptrs) {
            Some((sparse_size(width, ptrs), true))
        } else {
            Some((dense_size(ptrs), false))
        },
    }
}

/// Helper to determine what the compressed size of a pointer list will be, and whether it is
/// sparse.  `None` if the node type has no pointers.
pub fn get_compressed_ptrs_size(id: u8, ptrs: &[TriePtr]) -> (size: Option<(usize, bool)>)
    requires
        33 + 14 * ptrs@.len() <= usize::MAX,
    ensures
        match compressed_size_spec(id, ptrs@) {
            Some((len, sparse)) => size matches Some((n, s)) && n == len && s == sparse && n <= 14
                * ptrs@.len(),
            None => size is None,
        },
{
    let width: usize = match get_sparse_ptrs_bitmap_size(id) {
        Some(width) => width,
        None => return None,
    };
    let children = occupied_of(ptrs);
    let sparse: usize = 1 + width + packed_size(children.as_slice());
    let dense: usize = packed_size(ptrs);
    if sparse < dense {
        Some((sparse, true))
    } else {
        Some((dense, false))
    }
}

/// Helper to determine how many bytes a trie node's compressed child pointers will take to encode,
/// marker included.
pub fn get_ptrs_byte_len_compressed(id: u8, ptrs: &[TriePtr]) -> (n: usize)
    requires
        33 + 14 * ptrs@.len() <= usize::MAX,
    ensures
        n == 1 + match compressed_size_spec(id, ptrs@) {
            Some((len, _)) => len,
            None => 0,
        },
        n <= 1 + 14 * ptrs@.len(),
{
    match get_compressed_ptrs_size(id, ptrs) {
        Some((size, _)) => 1 + size,
        None => 1,
    }
}

/// The most bytes that a node body of a type takes, marker included.
pub open spec fn body_bound(node_id: u8) -> Result<nat, Error> {
    match node_id_of(clear_ctrl_bits(node_id)) {
        None => Err(Error::CorruptionError(Corruption::BadNodeId)),
        Some(id) => match id.max_body_spec() {
            Some(len) => Ok(len),
            None => Err(Error::CorruptionError(Corruption::UnsupportedNodeBody)),
        },
    }
}

/// The most bytes that a node body takes, marker included.
pub fn get_node_body_max_byte_len(node_id: u8) -> (len: Result<usize, Error>)
    ensures
        match body_bound(node_id) {
            Ok(n) => len matches Ok(m) && m == n && m <= 3618,
            Err(e) => len == Err::<usize, Error>(e),
        },
{
    match TrieNodeID::from_u8(clear_ctrl_bits(node_id)) {
        None => Err(corrupt(Corruption::BadNodeId)),
        Some(id) => match id.max_body_byte_len() {
            Some(len) => Ok(len),
            None => Err(corrupt(Corruption::UnsupportedNodeBody)),
        },
    }
}

/// The most bytes that a stored hash and a node body take.
pub fn get_read_node_max_byte_len(node_id: u8) -> (len: Result<usize, Error>)
    ensures
        match body_bound(node_id) {
            Ok(n) => len matches Ok(m) && m == 32 + n,
            Err(e) => len == Err::<usize, Error>(e),
        },
{
    match get_node_body_max_byte_len(node_id) {
        Ok(len) => Ok(TRIEHASH_ENCODED_SIZE + len),
        Err(e) => Err(e),
    }
}

/// Upper bound on a node's stored size, hash included, for node type `id`; `u64_ptr_offsets`
/// selects the width of child offsets.
pub fn get_node_max_byte_len(id: u8, u64_ptr_offsets: bool) -> (len: Result<usize, Error>)
    ensures
        ({
            let width: nat = if u64_ptr_offsets {
                14
            } else {
                10
            };
            match node_id_of(clear_ctrl_bits(id)) {
                Some(TrieNodeID::Leaf) => len == Ok::<usize, Error>(138),
                Some(TrieNodeID::Node4) => len matches Ok(n) && n == 66 + 4 * width,
                Some(TrieNodeID::Node16) => len matches Ok(n) && n == 66 + 16 * width,
                Some(TrieNodeID::Node48) => len matches Ok(n) && n == 66 + 256 + 48 * width,
                Some(TrieNodeID::Node256) => len matches Ok(n) && n == 66 + 256 * width,
                _ => len == Err::<usize, Error>(
                    Error::CorruptionError(Corruption::UnsupportedNodeBody),
                ),
            }
        }),
{
    let ptr = if u64_ptr_offsets { TriePtr::widest_encoded() } else { TriePtr::default() };
    let width: usize = ptr.encoded_size();
    let path_max: usize = 33;
    let body: usize = match TrieNodeID::from_u8(clear_ctrl_bits(id)) {
        Some(TrieNodeID::Leaf) => 1 + path_max + 40 + 32,
        Some(TrieNodeID::Node4) => 1 + 4 * width + path_max,
        Some(TrieNodeID::Node16) => 1 + 16 * width + path_max,
        Some(TrieNodeID::Node48) => 1 + 48 * width + 256 + path_max,
        Some(TrieNodeID::Node256) => 1 + 256 * width + path_max,
        _ => return Err(corrupt(Corruption::UnsupportedNodeBody)),
    };
    Ok(TRIEHASH_ENCODED_SIZE + body)
}

/// The node type of stored bytes without their hash.
pub open spec fn stored_id(bytes: Seq<u8>) -> Result<TrieNodeID, Error> {
    if bytes.len() == 0 {
        Err(Error::CorruptionError(Corruption::MissingNodeId))
    } else {
        match node_id_of(clear_ctrl_bits(bytes[0])) {
            Some(id) => Ok(id),
            None => Err(Error::CorruptionError(Corruption::BadNodeId)),
        }
    }
}

/// The node type of stored bytes without their hash.
pub fn stored_node_id_from_bytes(bytes: &[u8]) -> (id: Result<TrieNodeID, Error>)
    ensures
        id == stored_id(bytes@),
{
    if bytes.len() == 0 {
        return Err(corrupt(Corruption::MissingNodeId));
    }
    match TrieNodeID::from_u8(clear_ctrl_bits(bytes[0])) {
        Some(id) => Ok(id),
        None => Err(corrupt(Corruption::BadNodeId)),
    }
}

/// Split a stored hash from the bytes behind it.
pub fn parse_hash_from_bytes(bytes: &[u8]) -> (out: Result<(TrieHash, &[u8]), Error>)
    ensures
        if bytes@.len() < 32 {
            out == Err::<(TrieHash, &[u8]), Error>(
                Error::CorruptionError(Corruption::TruncatedHash),
            )
        } else {
            out matches Ok((hash, rest)) && hash@ == bytes@.subrange(0, 32) && rest@
                == bytes@.subrange(32, bytes@.len() as int)
        },
{
    if bytes.len() < TRIEHASH_ENCODED_SIZE {
        return Err(corrupt(Corruption::TruncatedHash));
    }
    Ok((TrieHash(to_array::<32>(&bytes[0..32])), &bytes[32..bytes.len()]))
}

/// Read a stored node type and hash.
pub fn read_stored_node_type_from_slice(bytes: &[u8]) -> (out: Result<(TrieNodeID, TrieHash), Error>)
    ensures
        if bytes@.len() < 32 {
            out == Err::<(TrieNodeID, TrieHash), Error>(
                Error::CorruptionError(Corruption::TruncatedHash),
            )
        } else {
            match stored_id(bytes@.subrange(32, bytes@.len() as int)) {
                Ok(id) => out matches Ok((found, hash)) && found == id && hash@ == bytes@.subrange(
                    0,
                    32,
                ),
                Err(e) => out == Err::<(TrieNodeID, TrieHash), Error>(e),
            }
        },
{
    let (hash, rest) = match parse_hash_from_bytes(bytes) {
        Ok(split) => split,
        Err(e) => return Err(e),
    };
    match stored_node_id_from_bytes(rest) {
        Ok(id) => Ok((id, hash)),
        Err(e) => Err(e),
    }
}

/// The first `n` fixed-layout pointers of a list, and the bytes they take.
pub open spec fn plain_list(bytes: Seq<u8>, n: nat) -> Result<(Seq<TriePtr>, nat), Error>
    decreases n,
{
    if n == 0 {
        Ok((Seq::empty(), 0))
    } else {
        match plain_list(bytes, (n - 1) as nat) {
            Err(e) => Err(e),
            Ok((ptrs, at)) => match TriePtr::decode_plain(
                bytes.subrange(at as int, bytes.len() as int),
            ) {
                Err(e) => Err(e),
                Ok((ptr, used)) => Ok((ptrs.push(ptr), at + used)),
            },
        }
    }
}

/// The first `n` compressed pointers of a list, and the bytes they take.
pub open spec fn dense_list(bytes: Seq<u8>, n: nat) -> Result<(Seq<TriePtr>, nat), Error>
    decreases n,
{
    if n == 0 {
        Ok((Seq::empty(), 0))
    } else {
        match dense_list(bytes, (n - 1) as nat) {
            Err(e) => Err(e),
            Ok((ptrs, at)) => match TriePtr::decode_compressed(
                bytes.subrange(at as int, bytes.len() as int),
            ) {
                Err(e) => Err(e),
                Ok((ptr, used)) => Ok((ptrs.push(ptr), at + used)),
            },
        }
    }
}

/// The first `n` slots of a sparse list: a compressed pointer for each set bit, and blank slots
/// elsewhere.
pub open spec fn sparse_list(bitmap: Seq<u8>, bytes: Seq<u8>, n: nat) -> Result<
    (Seq<TriePtr>, nat),
    Error,
>
    decreases n,
{
    if n == 0 {
        Ok((Seq::empty(), 0))
    } else {
        match sparse_list(bitmap, bytes, (n - 1) as nat) {
            Err(e) => Err(e),
            Ok((ptrs, at)) => if !slot_bit(bitmap, n - 1) {
                Ok((ptrs.push(TriePtr::vacant()), at))
            } else {
                match TriePtr::decode_compressed(bytes.subrange(at as int, bytes.len() as int)) {
                    Err(e) => Err(e),
                    Ok((ptr, used)) => Ok((ptrs.push(ptr), at + used)),
                }
            },
        }
    }
}

/// The pointers behind a marker of the named node type, the marker without its compression mark,
/// and the bytes that they take. A name that no node type has is refused, whatever the marker.
pub open spec fn list_spec(node_id: u8, marker: u8, body: Seq<u8>, n: nat) -> Result<
    (Seq<TriePtr>, u8, nat),
    Error,
> {
    if node_id_of(clear_ctrl_bits(node_id)) is None {
        Err(Error::CorruptionError(Corruption::BadNodeId))
    } else if clear_ctrl_bits(marker) != clear_ctrl_bits(node_id) {
        match node_id_of(clear_ctrl_bits(marker)) {
            None => Err(Error::CorruptionError(Corruption::BadNodeId)),
            Some(TrieNodeID::Patch) => Err(Error::CorruptionError(Corruption::TruncatedPatch)),
            Some(_) => Err(Error::CorruptionError(Corruption::UnexpectedNodeId)),
        }
    } else if !is_compressed(marker) {
        match plain_list(body, n) {
            Err(e) => Err(e),
            Ok((ptrs, used)) => Ok((ptrs, marker, used)),
        }
    } else if body.len() == 0 {
        Err(Error::CorruptionError(Corruption::MissingCompressedPointers))
    } else if body[0] != SPARSE_PTR_BITMAP_MARKER {
        match dense_list(body, n) {
            Err(e) => Err(e),
            Ok((ptrs, used)) => Ok((ptrs, clear_compressed(marker), used)),
        }
    } else {
        match bitmap_width(node_id) {
            None => Err(Error::CorruptionError(Corruption::InvalidSparseNode)),
            Some(width) => if body.len() < 1 + width {
                Err(Error::CorruptionError(Corruption::TruncatedBitmap))
            } else {
                match sparse_list(
                    body.subrange(1, 1 + width as int),
                    body.subrange(1 + width as int, body.len() as int),
                    n,
                ) {
                    Err(e) => Err(e),
                    Ok((ptrs, used)) => Ok((ptrs, clear_compressed(marker), 1 + width + used)),
                }
            },
        }
    }
}

proof fn lemma_plain_error(bytes: Seq<u8>, n: nat, total: nat)
    requires
        n <= total,
        plain_list(bytes, n) is Err,
    ensures
        plain_list(bytes, total) == plain_list(bytes, n),
    decreases total,
{
    if n < total {
        lemma_plain_error(bytes, n, (total - 1) as nat);
    }
}

proof fn lemma_dense_error(bytes: Seq<u8>, n: nat, total: nat)
    requires
        n <= total,
        dense_list(bytes, n) is Err,
    ensures
        dense_list(bytes, total) == dense_list(bytes, n),
    decreases total,
{
    if n < total {
        lemma_dense_error(bytes, n, (total - 1) as nat);
    }
}

proof fn lemma_sparse_error(bitmap: Seq<u8>, bytes: Seq<u8>, n: nat, total: nat)
    requires
        n <= total,
        sparse_list(bitmap, bytes, n) is Err,
    ensures
        sparse_list(bitmap, bytes, total) == sparse_list(bitmap, bytes, n),
    decreases total,
{
    if n < total {
        lemma_sparse_error(bitmap, bytes, n, (total - 1) as nat);
    }
}

/// Decode fixed-layout pointers.
fn decode_uncompressed_ptrs_from_bytes(bytes: &[u8], n: usize) -> (out: Result<
    (Vec<TriePtr>, usize),
    Error,
>)
    ensures
        match plain_list(bytes@, n as nat) {
            Ok((list, len)) => out matches Ok((ptrs, used)) && ptrs@ == list && ptrs@.len() == n
                && used == len && used <= bytes@.len(),
            Err(e) => out == Err::<(Vec<TriePtr>, usize), Error>(e),
        },
{
    let mut ptrs: Vec<TriePtr> = Vec::new();
    let mut at: usize = 0;
    let mut i: usize = 0;
    assert(ptrs@ =~= Seq::<TriePtr>::empty());
    while i < n
        invariant
            i <= n,
            at <= bytes@.len(),
            ptrs@.len() == i,
            plain_list(bytes@, i as nat) == Ok::<(Seq<TriePtr>, nat), Error>((ptrs@, at as nat)),
        decreases n - i,
    {
        match TriePtr::from_bytes(&bytes[at..bytes.len()]) {
            Ok((ptr, used)) => {
                ptrs.push(ptr);
                at = at + used;
            },
            Err(e) => {
                proof {
                    lemma_plain_error(bytes@, (i + 1) as nat, n as nat);
                }
                return Err(e);
            },
        }
        i = i + 1;
    }
    Ok((ptrs, at))
}

/// Decode compressed pointers, one per slot.
pub fn read_dense_ptrs(bytes: &[u8], n: usize) -> (out: Result<
    (Vec<TriePtr>, usize),
    Error,
>)
    ensures
        match dense_list(bytes@, n as nat) {
            Ok((list, len)) => out matches Ok((ptrs, used)) && ptrs@ == list && ptrs@.len() == n
                && used == len && used <= bytes@.len(),
            Err(e) => out == Err::<(Vec<TriePtr>, usize), Error>(e),
        },
{
    let mut ptrs: Vec<TriePtr> = Vec::new();
    let mut at: usize = 0;
    let mut i: usize = 0;
    assert(ptrs@ =~= Seq::<TriePtr>::empty());
    while i < n
        invariant
            i <= n,
            at <= bytes@.len(),
            ptrs@.len() == i,
            dense_list(bytes@, i as nat) == Ok::<(Seq<TriePtr>, nat), Error>((ptrs@, at as nat)),
        decreases n - i,
    {
        match TriePtr::from_slice_compressed(&bytes[at..bytes.len()]) {
            Ok((ptr, used)) => {
                ptrs.push(ptr);
                at = at + used;
            },
            Err(e) => {
                proof {
                    lemma_dense_error(bytes@, (i + 1) as nat, n as nat);
                }
                return Err(e);
            },
        }
        i = i + 1;
    }
    Ok((ptrs, at))
}

/// Decode a compressed pointer for each set bit, leaving other slots blank.
fn decode_sparse_compressed_ptrs_from_bytes(bitmap: &[u8], bytes: &[u8], n: usize) -> (out: Result<
    (Vec<TriePtr>, usize),
    Error,
>)
    ensures
        match sparse_list(bitmap@, bytes@, n as nat) {
            Ok((list, len)) => out matches Ok((ptrs, used)) && ptrs@ == list && ptrs@.len() == n
                && used == len && used <= bytes@.len(),
            Err(e) => out == Err::<(Vec<TriePtr>, usize), Error>(e),
        },
{
    let mut ptrs: Vec<TriePtr> = Vec::new();
    let mut at: usize = 0;
    let mut i: usize = 0;
    assert(ptrs@ =~= Seq::<TriePtr>::empty());
    while i < n
        invariant
            i <= n,
            at <= bytes@.len(),
            ptrs@.len() == i,
            sparse_list(bitmap@, bytes@, i as nat) == Ok::<(Seq<TriePtr>, nat), Error>(
                (ptrs@, at as nat),
            ),
        decreases n - i,
    {
        if bit_at(bitmap, i) {
            match TriePtr::from_slice_compressed(&bytes[at..bytes.len()]) {
                Ok((ptr, used)) => {
                    ptrs.push(ptr);
                    at = at + used;
                },
                Err(e) => {
                    proof {
                        lemma_sparse_error(bitmap@, bytes@, (i + 1) as nat, n as nat);
                    }
                    return Err(e);
                },
            }
        } else {
            ptrs.push(TriePtr::default());
        }
        i = i + 1;
    }
    Ok((ptrs, at))
}

/// Check that a marker names the expected node type, and that there is such a type.
fn read_expected_node_id(node_id: u8, marker: u8) -> (done: Result<(), Error>)
    ensures
        if node_id_of(clear_ctrl_bits(node_id)) is None {
            done == Err::<(), Error>(Error::CorruptionError(Corruption::BadNodeId))
        } else if clear_ctrl_bits(marker) == clear_ctrl_bits(node_id) {
            done is Ok
        } else {
            match node_id_of(clear_ctrl_bits(marker)) {
                None => done == Err::<(), Error>(Error::CorruptionError(Corruption::BadNodeId)),
                Some(TrieNodeID::Patch) => done == Err::<(), Error>(
                    Error::CorruptionError(Corruption::TruncatedPatch),
                ),
                Some(_) => done == Err::<(), Error>(
                    Error::CorruptionError(Corruption::UnexpectedNodeId),
                ),
            }
        },
{
    if TrieNodeID::from_u8(clear_ctrl_bits(node_id)).is_none() {
        return Err(corrupt(Corruption::BadNodeId));
    }
    if clear_ctrl_bits(marker) == clear_ctrl_bits(node_id) {
        return Ok(());
    }
    match TrieNodeID::from_u8(clear_ctrl_bits(marker)) {
        None => Err(corrupt(Corruption::BadNodeId)),
        Some(TrieNodeID::Patch) => Err(corrupt(Corruption::TruncatedPatch)),
        Some(_) => Err(corrupt(Corruption::UnexpectedNodeId)),
    }
}

/// Decode `n` pointers behind a marker.
pub fn read_ptr_list(node_id: u8, marker: u8, body: &[u8], n: usize) -> (out: Result<
    (Vec<TriePtr>, u8, usize),
    Error,
>)
    ensures
        match list_spec(node_id, marker, body@, n as nat) {
            Ok((list, id, len)) => out matches Ok((ptrs, found, used)) && ptrs@ == list
                && ptrs@.len() == n && found == id && used == len && used <= body.len(),
            Err(e) => out == Err::<(Vec<TriePtr>, u8, usize), Error>(e),
        },
{
    match read_expected_node_id(node_id, marker) {
        Ok(()) => {},
        Err(e) => return Err(e),
    }
    if !is_compressed(marker) {
        return match decode_uncompressed_ptrs_from_bytes(body, n) {
            Ok((ptrs, used)) => Ok((ptrs, marker, used)),
            Err(e) => Err(e),
        };
    }
    if body.len() == 0 {
        return Err(corrupt(Corruption::MissingCompressedPointers));
    }
    if body[0] != SPARSE_PTR_BITMAP_MARKER {
        return match read_dense_ptrs(body, n) {
            Ok((ptrs, used)) => Ok((ptrs, clear_compressed(marker), used)),
            Err(e) => Err(e),
        };
    }
    let width: usize = match get_sparse_ptrs_bitmap_size(node_id) {
        Some(width) => width,
        None => return Err(corrupt(Corruption::InvalidSparseNode)),
    };
    if body.len() < 1 + width {
        return Err(corrupt(Corruption::TruncatedBitmap));
    }
    match decode_sparse_compressed_ptrs_from_bytes(
        &body[1..1 + width],
        &body[1 + width..body.len()],
        n,
    ) {
        Ok((ptrs, used)) => Ok((ptrs, clear_compressed(marker), 1 + width + used)),
        Err(e) => Err(e),
    }
}

/// Decode pointers from a marker and a separately borrowed payload into `ptrs_buf`; a failure
/// leaves the buffer alone. Fails if the node type is invalid, if the marker is of another type, or
/// if the payload does not hold the pointers.
pub fn ptrs_from_parts_into(
    node_id: u8,
    marker: u8,
    body: &[u8],
    ptrs_buf: &mut [TriePtr],
) -> (out: Result<(u8, usize), Error>)
    ensures
        final(ptrs_buf)@.len() == old(ptrs_buf)@.len(),
        match list_spec(node_id, marker, body@, old(ptrs_buf)@.len()) {
            Ok((list, id, len)) => out == Ok::<(u8, usize), Error>((id, len as usize)) && len
                <= body@.len() && final(ptrs_buf)@ == list,
            Err(e) => out == Err::<(u8, usize), Error>(e) && final(ptrs_buf)@ == old(ptrs_buf)@,
        },
{
    let n: usize = ptrs_buf.len();
    let (ptrs, id, used) = match read_ptr_list(node_id, marker, body, n) {
        Ok(found) => found,
        Err(e) => return Err(e),
    };
    let mut at: usize = 0;
    while at < n
        invariant
            at <= n,
            ptrs_buf@.len() == n,
            ptrs@.len() == n,
            forall|i: int| 0 <= i < at ==> ptrs_buf@[i] == ptrs@[i],
        decreases n - at,
    {
        ptrs_buf[at] = ptrs[at];
        at = at + 1;
    }
    assert(ptrs_buf@ =~= ptrs@);
    Ok((id, used))
}

/// Read a trie node's children pointers, marker included, into `ptrs_buf`.  The marker says
/// whether the list is compressed, and the first byte of a compressed list whether it is sparse.
/// The node type comes back without its compression mark. Fails if the node type is invalid, if the
/// marker is missing or of another type, or if what follows does not hold the pointers.
pub fn ptrs_from_slice_into(node_id: u8, bytes: &[u8], ptrs_buf: &mut [TriePtr]) -> (out: Result<
    (u8, usize),
    Error,
>)
    ensures
        final(ptrs_buf)@.len() == old(ptrs_buf)@.len(),
        if node_id_of(clear_ctrl_bits(node_id)) is None {
            out == Err::<(u8, usize), Error>(Error::CorruptionError(Corruption::BadNodeId))
                && final(ptrs_buf)@ == old(ptrs_buf)@
        } else if bytes@.len() == 0 {
            out == Err::<(u8, usize), Error>(Error::CorruptionError(Corruption::MissingMarker))
                && final(ptrs_buf)@ == old(ptrs_buf)@
        } else {
            match list_spec(
                node_id,
                bytes@[0],
                bytes@.subrange(1, bytes@.len() as int),
                old(ptrs_buf)@.len(),
            ) {
                Ok((list, id, len)) => out == Ok::<(u8, usize), Error>((id, (1 + len) as usize))
                    && 1 + len <= bytes@.len() && final(ptrs_buf)@ == list,
                Err(e) => out == Err::<(u8, usize), Error>(e) && final(ptrs_buf)@
                    == old(ptrs_buf)@,
            }
        },
{
    if TrieNodeID::from_u8(clear_ctrl_bits(node_id)).is_none() {
        return Err(corrupt(Corruption::BadNodeId));
    }
    if bytes.len() == 0 {
        return Err(corrupt(Corruption::MissingMarker));
    }
    match ptrs_from_parts_into(node_id, bytes[0], &bytes[1..bytes.len()], ptrs_buf) {
        Ok((id, used)) => Ok((id, 1 + used)),
        Err(e) => Err(e),
    }
}

/// Append fixed-layout pointers.
pub fn push_plain_ptrs(out: &mut Vec<u8>, ptrs: &[TriePtr])
    ensures
        final(out)@ == old(out)@ + plain_bytes(ptrs@),
{
    let mut at: usize = 0;
    assert(ptrs@.subrange(0, 0) =~= Seq::<TriePtr>::empty());
    assert(out@ =~= old(out)@ + plain_bytes(ptrs@.subrange(0, 0)));
    while at < ptrs.len()
        invariant
            at <= ptrs.len(),
            out@ == old(out)@ + plain_bytes(ptrs@.subrange(0, at as int)),
        decreases ptrs.len() - at,
    {
        ptrs[at].write_bytes(out);
        at = at + 1;
        proof {
            let part = ptrs@.subrange(0, at as int);
            assert(part.drop_last() =~= ptrs@.subrange(0, at - 1));
            assert(out@ =~= old(out)@ + plain_bytes(part));
        }
    }
    assert(ptrs@.subrange(0, at as int) =~= ptrs@);
}

/// A compressed pointer list, in the shorter of its two forms.
pub open spec fn compressed_list(id: u8, ptrs: Seq<TriePtr>) -> Seq<u8> {
    match compressed_size_spec(id, ptrs) {
        None => Seq::empty(),
        Some((_, true)) => seq![SPARSE_PTR_BITMAP_MARKER] + bitmap_of(occupancy(ptrs))
            + pointer_bytes(occupied(ptrs)),
        Some((_, false)) => pointer_bytes(ptrs),
    }
}

/// Append a compressed pointer list in the shorter of its two forms.
pub fn push_compressed_ptrs(out: &mut Vec<u8>, id: u8, ptrs: &[TriePtr])
    requires
        ptrs@.len() <= 256,
    ensures
        final(out)@ == old(out)@ + compressed_list(id, ptrs@),
{
    match get_compressed_ptrs_size(id, ptrs) {
        None => {
            assert(out@ =~= old(out)@ + Seq::<u8>::empty());
        },
        Some((_, true)) => {
            out.push(SPARSE_PTR_BITMAP_MARKER);
            push_bytes(out, pack_bits(occupancy_of(ptrs).as_slice()).as_slice());
            push_pointers(out, occupied_of(ptrs).as_slice());
            assert(out@ =~= old(out)@ + compressed_list(id, ptrs@));
        },
        Some((_, false)) => {
            push_pointers(out, ptrs);
        },
    }
}

pub(crate) proof fn lemma_plain_prefix(ptrs: Seq<TriePtr>, n: nat)
    requires
        n < ptrs.len(),
    ensures
        plain_len(ptrs, n) == plain_len(ptrs.drop_last(), n),
        offset_of(ptrs, n) == offset_of(ptrs.drop_last(), n),
    decreases n,
{
    if n > 0 {
        lemma_plain_prefix(ptrs, (n - 1) as nat);
    }
}

/// Lists are as long as their sizes say.
pub proof fn lemma_list_lens(ptrs: Seq<TriePtr>)
    ensures
        plain_bytes(ptrs).len() == plain_len(ptrs, ptrs.len()),
        pointer_bytes(ptrs).len() == offset_of(ptrs, ptrs.len()),
    decreases ptrs.len(),
{
    if ptrs.len() > 0 {
        let front = ptrs.drop_last();
        lemma_list_lens(front);
        lemma_ptr_lens(ptrs.last());
        lemma_plain_prefix(ptrs, front.len());
    }
}

/// A compressed list is as long as its announced size.
pub proof fn lemma_compressed_list_len(id: u8, ptrs: Seq<TriePtr>)
    requires
        match node_id_of(clear_ctrl_bits(id)) {
            Some(kind) => kind.is_branch() && ptrs.len() == kind.slots(),
            None => false,
        },
    ensures
        compressed_size_spec(id, ptrs) is Some,
        compressed_list(id, ptrs).len() == (compressed_size_spec(id, ptrs)->0).0,
{
    lemma_list_lens(ptrs);
    lemma_list_lens(occupied(ptrs));
}

/// Whether pointers carry no encoding bits.
pub open spec fn plain_ids(ptrs: Seq<TriePtr>) -> bool {
    forall|i: int| 0 <= i < ptrs.len() ==> TriePtr::plain_id((#[trigger] ptrs[i]).id) == ptrs[i].id
}

/// Whether slots survive an encoding: the fixed one keeps all whose node types carry no encoding
/// bits, the compressed one also drops what an empty slot holds.
pub open spec fn kept_slots(ptrs: Seq<TriePtr>, compressed: bool) -> bool {
    if compressed {
        canonical(ptrs)
    } else {
        plain_ids(ptrs)
    }
}

pub proof fn lemma_plain_list(ptrs: Seq<TriePtr>, tail: Seq<u8>)
    requires
        plain_ids(ptrs),
    ensures
        plain_list(plain_bytes(ptrs) + tail, ptrs.len()) == Ok::<(Seq<TriePtr>, nat), Error>(
            (ptrs, plain_bytes(ptrs).len()),
        ),
    decreases ptrs.len(),
{
    if ptrs.len() == 0 {
        assert(ptrs =~= Seq::<TriePtr>::empty());
    } else {
        let front = ptrs.drop_last();
        let bytes = plain_bytes(ptrs) + tail;
        let rest = ptrs.last().encoded() + tail;
        lemma_plain_list(front, rest);
        law_pointer_roundtrip(ptrs.last(), tail);
        lemma_ptr_lens(ptrs.last());
        assert(plain_bytes(front) + rest =~= bytes);
        assert(bytes.subrange(plain_bytes(front).len() as int, bytes.len() as int) =~= rest);
        assert(front.push(ptrs.last()) =~= ptrs);
    }
}

pub proof fn lemma_dense_list(ptrs: Seq<TriePtr>, tail: Seq<u8>)
    requires
        plain_ids(ptrs),
    ensures
        dense_list(pointer_bytes(ptrs) + tail, ptrs.len()) == Ok::<(Seq<TriePtr>, nat), Error>(
            (ptrs, pointer_bytes(ptrs).len()),
        ),
    decreases ptrs.len(),
{
    if ptrs.len() == 0 {
        assert(ptrs =~= Seq::<TriePtr>::empty());
    } else {
        let front = ptrs.drop_last();
        let bytes = pointer_bytes(ptrs) + tail;
        let rest = ptrs.last().compressed() + tail;
        lemma_dense_list(front, rest);
        law_pointer_roundtrip(ptrs.last(), tail);
        lemma_ptr_lens(ptrs.last());
        assert(pointer_bytes(front) + rest =~= bytes);
        assert(bytes.subrange(pointer_bytes(front).len() as int, bytes.len() as int) =~= rest);
        assert(front.push(ptrs.last()) =~= ptrs);
    }
}

#[verifier::spinoff_prover]
#[verifier::rlimit(60)]
proof fn lemma_sparse_list(ptrs: Seq<TriePtr>, n: nat, tail: Seq<u8>)
    requires
        n <= ptrs.len(),
        plain_ids(ptrs),
        canonical(ptrs),
    ensures
        ({
            let front = ptrs.subrange(0, n as int);
            sparse_list(bitmap_of(occupancy(ptrs)), pointer_bytes(occupied(front)) + tail, n)
                == Ok::<(Seq<TriePtr>, nat), Error>((front, pointer_bytes(occupied(front)).len()))
        }),
    decreases n,
{
    let front = ptrs.subrange(0, n as int);
    let bitmap = bitmap_of(occupancy(ptrs));
    if n == 0 {
        assert(front =~= Seq::<TriePtr>::empty());
    } else {
        let before = ptrs.subrange(0, n - 1);
        let ptr = ptrs[n - 1];
        assert(front.drop_last() =~= before);
        assert(before.push(ptr) =~= front);
        lemma_bitmap_bits(occupancy(ptrs), n - 1);
        if ptr.id != 0 {
            let bytes = pointer_bytes(occupied(front)) + tail;
            let rest = ptr.compressed() + tail;
            lemma_sparse_list(ptrs, (n - 1) as nat, rest);
            law_pointer_roundtrip(ptr, tail);
            lemma_ptr_lens(ptr);
            assert(occupied(front).drop_last() =~= occupied(before));
            assert(pointer_bytes(occupied(before)) + rest =~= bytes);
            assert(bytes.subrange(
                pointer_bytes(occupied(before)).len() as int,
                bytes.len() as int,
            ) =~= rest);
        } else {
            lemma_sparse_list(ptrs, (n - 1) as nat, tail);
        }
    }
}

/// Node types without encoding bits survive both encodings.
proof fn lemma_canonical_ids(ptrs: Seq<TriePtr>)
    requires
        canonical(ptrs),
    ensures
        plain_ids(ptrs),
{
    assert forall|i: int| 0 <= i < ptrs.len() implies TriePtr::plain_id((#[trigger] ptrs[i]).id)
        == ptrs[i].id by {
        let id = ptrs[i].id;
    }
}

#[verifier::spinoff_prover]
#[verifier::rlimit(80)]
proof fn lemma_compressed_read(id: TrieNodeID, ptrs: Seq<TriePtr>, tail: Seq<u8>)
    requires
        id.is_branch(),
        ptrs.len() == id.slots(),
        canonical(ptrs),
        plain_ids(ptrs),
    ensures
        ({
            let code = id.code();
            let bytes = compressed_list(code, ptrs) + tail;
            &&& compressed_list(code, ptrs).len() > 0
            &&& if (compressed_size_spec(code, ptrs)->0).1 {
                let width = bitmap_width(code)->0 as int;
                &&& bytes[0] == SPARSE_PTR_BITMAP_MARKER
                &&& bytes.len() >= 1 + width
                &&& sparse_list(
                    bytes.subrange(1, 1 + width),
                    bytes.subrange(1 + width, bytes.len() as int),
                    ptrs.len(),
                ) == Ok::<(Seq<TriePtr>, nat), Error>(
                    (ptrs, (compressed_list(code, ptrs).len() - 1 - width) as nat),
                )
            } else {
                &&& bytes[0] != SPARSE_PTR_BITMAP_MARKER
                &&& dense_list(bytes, ptrs.len()) == Ok::<(Seq<TriePtr>, nat), Error>(
                    (ptrs, compressed_list(code, ptrs).len()),
                )
            }
        }),
{
    let bytes = compressed_list(id.code(), ptrs) + tail;
    let width = bitmap_width(id.code())->0;
    if (compressed_size_spec(id.code(), ptrs)->0).1 {
        let bitmap = bitmap_of(occupancy(ptrs));
        lemma_sparse_list(ptrs, ptrs.len(), tail);
        assert(ptrs.subrange(0, ptrs.len() as int) =~= ptrs);
        assert(bytes.subrange(1, 1 + width as int) =~= bitmap);
        assert(bytes.subrange(1 + width as int, bytes.len() as int) =~= pointer_bytes(
            occupied(ptrs),
        ) + tail);
    } else {
        lemma_dense_list(ptrs, tail);
        lemma_first_head(ptrs);
        lemma_head_is_no_marker(ptrs[0]);
    }
}

proof fn lemma_head_is_no_marker(ptr: TriePtr)
    requires
        ptr.id == 0 || ptr.id == ptr.id % 16 + (if ptr.id >= 128 {
            128int
        } else {
            0
        }),
    ensures
        ptr.head(true) != SPARSE_PTR_BITMAP_MARKER,
{
}

/// A child list survives the fixed encoding, whatever follows it.
#[verifier::spinoff_prover]
#[verifier::rlimit(60)]
pub proof fn law_plain_list_roundtrip(id: TrieNodeID, ptrs: Seq<TriePtr>, tail: Seq<u8>)
    requires
        id.is_branch(),
        ptrs.len() == id.slots(),
        plain_ids(ptrs),
    ensures
        list_spec(id.code(), id.code(), plain_bytes(ptrs) + tail, ptrs.len()) == Ok::<
            (Seq<TriePtr>, u8, nat),
            Error,
        >((ptrs, id.code(), plain_bytes(ptrs).len())),
{
    lemma_plain_list(ptrs, tail);
}

/// A child list survives the compressed encoding, in whichever of its forms it is written, and
/// whatever follows it.
#[verifier::spinoff_prover]
#[verifier::rlimit(60)]
pub proof fn law_compressed_list_roundtrip(id: TrieNodeID, ptrs: Seq<TriePtr>, tail: Seq<u8>)
    requires
        id.is_branch(),
        ptrs.len() == id.slots(),
        canonical(ptrs),
    ensures
        list_spec(
            id.code(),
            (id.code() + 64) as u8,
            compressed_list(id.code(), ptrs) + tail,
            ptrs.len(),
        ) == Ok::<(Seq<TriePtr>, u8, nat), Error>(
            (ptrs, id.code(), compressed_list(id.code(), ptrs).len()),
        ),
{
    lemma_canonical_ids(ptrs);
    lemma_compressed_read(id, ptrs, tail);
}

proof fn lemma_first_head(ptrs: Seq<TriePtr>)
    requires
        ptrs.len() > 0,
    ensures
        pointer_bytes(ptrs).len() > 0,
        pointer_bytes(ptrs)[0] == ptrs[0].head(true),
    decreases ptrs.len(),
{
    lemma_ptr_lens(ptrs.last());
    if ptrs.len() == 1 {
        reveal_with_fuel(pointer_bytes, 2);
        assert(pointer_bytes(ptrs) =~= ptrs[0].compressed());
    } else {
        lemma_first_head(ptrs.drop_last());
    }
}

/// Compute the worst-case size for a root node that is reserved before its descendants are
/// written: each inline child pointer may later widen by four bytes.
pub fn reserved_root_size(base_len: usize, ptrs: &[TriePtr]) -> (size: Result<u64, Error>)
    ensures
        ({
            let total = base_len + 4 * inline_count(ptrs@, ptrs@.len());
            if total <= u64::MAX {
                size == Ok::<u64, Error>(total as u64)
            } else {
                size == Err::<u64, Error>(Error::OverflowError)
            }
        }),
{
    let mut count: u64 = 0;
    let mut at: usize = 0;
    while at < ptrs.len()
        invariant
            at <= ptrs@.len(),
            count <= at,
            count == inline_count(ptrs@, at as nat),
        decreases ptrs@.len() - at,
    {
        if is_inline_child_ptr(&ptrs[at]) {
            count = count + 1;
        }
        at = at + 1;
    }
    let growth: u64 = match count.checked_mul(4) {
        Some(growth) => growth,
        None => return Err(Error::OverflowError),
    };
    match (base_len as u64).checked_add(growth) {
        Some(size) => Ok(size),
        None => Err(Error::OverflowError),
    }
}

/// Inline children among the first `n` pointers.
pub open spec fn inline_count(ptrs: Seq<TriePtr>, n: nat) -> nat
    decreases n,
{
    if n == 0 {
        0
    } else {
        inline_count(ptrs, (n - 1) as nat) + if is_inline_child_ptr(&ptrs[n - 1]) {
            1nat
        } else {
            0
        }
    }
}

/// What keeps a pointer from being placed.
pub open spec fn placing_fault(ptr: TriePtr, file_offsets: Seq<u64>) -> Option<Error> {
    if !is_inline_child_ptr(&ptr) {
        None
    } else if ptr.ptr > usize::MAX {
        Some(Error::OverflowError)
    } else if ptr.ptr >= file_offsets.len() {
        Some(Error::CorruptionError(Corruption::InlineChildOutOfBounds))
    } else if file_offsets[ptr.ptr as int] == 0 {
        Some(Error::CorruptionError(Corruption::InlineChildUnwritten))
    } else {
        None
    }
}

/// The first pointer from `from` on that cannot be placed.
pub open spec fn first_unplaced(ptrs: Seq<TriePtr>, file_offsets: Seq<u64>, from: int) -> int
    decreases ptrs.len() - from,
{
    if from < 0 || from >= ptrs.len() {
        ptrs.len() as int
    } else if placing_fault(ptrs[from], file_offsets) is Some {
        from
    } else {
        first_unplaced(ptrs, file_offsets, from + 1)
    }
}

/// A pointer at its place in the file.
pub open spec fn placed(ptr: TriePtr, file_offsets: Seq<u64>) -> TriePtr {
    if is_inline_child_ptr(&ptr) {
        TriePtr { ptr: file_offsets[ptr.ptr as int], ..ptr }
    } else {
        ptr
    }
}

/// Rewrite inline child pointers from node indices to byte offsets.  Back-pointers and empty
/// pointers are left untouched; a pointer that cannot be placed ends the rewriting.
pub fn resolve_inline_child_offsets(ptrs: &mut [TriePtr], file_offsets: &[u64]) -> (done: Result<
    (),
    Error,
>)
    ensures
        ({
            let stop = first_unplaced(old(ptrs)@, file_offsets@, 0);
            &&& final(ptrs)@ == Seq::new(
                old(ptrs)@.len(),
                |i: int|
                    if i < stop {
                        placed(old(ptrs)@[i], file_offsets@)
                    } else {
                        old(ptrs)@[i]
                    },
            )
            &&& if stop < old(ptrs)@.len() {
                done == Err::<(), Error>(placing_fault(old(ptrs)@[stop], file_offsets@)->0)
            } else {
                done is Ok
            }
        }),
{
    let n: usize = ptrs.len();
    let mut at: usize = 0;
    while at < n
        invariant
            at <= n,
            n == old(ptrs)@.len(),
            ptrs@.len() == n,
            first_unplaced(old(ptrs)@, file_offsets@, 0) == first_unplaced(
                old(ptrs)@,
                file_offsets@,
                at as int,
            ),
            forall|i: int| 0 <= i < at ==> ptrs@[i] == placed(old(ptrs)@[i], file_offsets@),
            forall|i: int| at <= i < n ==> ptrs@[i] == old(ptrs)@[i],
        decreases n - at,
    {
        let ptr: TriePtr = ptrs[at];
        let ghost stop = first_unplaced(old(ptrs)@, file_offsets@, 0);
        let ghost goal = Seq::new(
            old(ptrs)@.len(),
            |i: int|
                if i < stop {
                    placed(old(ptrs)@[i], file_offsets@)
                } else {
                    old(ptrs)@[i]
                },
        );
        if is_inline_child_ptr(&ptr) {
            if ptr.ptr > usize::MAX as u64 {
                assert(ptrs@ =~= goal);
                return Err(Error::OverflowError);
            }
            let index: usize = ptr.ptr as usize;
            if index >= file_offsets.len() {
                assert(ptrs@ =~= goal);
                return Err(corrupt(Corruption::InlineChildOutOfBounds));
            }
            let offset: u64 = file_offsets[index];
            if offset == 0 {
                assert(ptrs@ =~= goal);
                return Err(corrupt(Corruption::InlineChildUnwritten));
            }
            ptrs[at] = TriePtr { id: ptr.id, chr: ptr.chr, ptr: offset, back_block: ptr.back_block };
        }
        at = at + 1;
    }
    assert(ptrs@ =~= Seq::new(old(ptrs)@.len(), |i: int| placed(old(ptrs)@[i], file_offsets@)));
    Ok(())
}

} // verus!
