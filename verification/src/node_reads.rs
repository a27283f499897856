//! Reads of whole nodes from a byte stream that holds historical records.
use vstd::prelude::*;

use crate::bits::{parse_hash_from_bytes, stored_id, stored_node_id_from_bytes};
use crate::error::{corrupt, Corruption, Error, IoErrorKind};
use crate::hash::TrieHash;
use crate::leaf::{Node, TrieNodeType};
use crate::node::{clear_ctrl_bits, TrieNodeID, TriePtr};
use crate::patch::{bad, fault_of, Fault};
use crate::read_node::ReadTrieItem;
use crate::record::{NodeRecordFormat, Record};
use crate::record_laws::{law_record_is_bounded, law_record_roundtrip, storable};
use crate::scratch::{item_reads, read_trie_item_at_head_ref, window, Item, MarfReadState};

verus! {

/// The bytes of a stream from an offset on; none past its end.
pub open spec fn from_offset(stream: Seq<u8>, offset: u64) -> Seq<u8> {
    if offset <= stream.len() {
        stream.subrange(offset as int, stream.len() as int)
    } else {
        Seq::empty()
    }
}

/// Move a stream to an absolute offset.
pub fn seek_to(stream: &[u8], offset: u64) -> (rest: &[u8])
    ensures
        rest@ == from_offset(stream@, offset),
{
    if offset <= stream.len() as u64 {
        let at: usize = offset as usize;
        &stream[at..stream.len()]
    } else {
        let end: usize = stream.len();
        let rest = &stream[end..end];
        assert(rest@ =~= Seq::<u8>::empty());
        rest
    }
}

/// Read the hash at the head of a stream.
pub fn read_hash_bytes(stream: &[u8]) -> (out: Result<[u8; 32], Error>)
    ensures
        if stream@.len() < 32 {
            out == Err::<[u8; 32], Error>(Error::CorruptionError(Corruption::TruncatedHash))
        } else {
            out matches Ok(bytes) && bytes@ == stream@.subrange(0, 32)
        },
{
    match parse_hash_from_bytes(stream) {
        Ok((hash, _)) => Ok(hash.0),
        Err(e) => Err(e),
    }
}

/// Read the stored hash of the node that a pointer leads to.
pub fn read_node_hash_bytes(stream: &[u8], ptr: &TriePtr) -> (out: Result<[u8; 32], Error>)
    ensures
        if stream@.len() < ptr.ptr + 32 {
            out == Err::<[u8; 32], Error>(Error::CorruptionError(Corruption::TruncatedHash))
        } else {
            out matches Ok(bytes) && bytes@ == stream@.subrange(ptr.ptr as int, ptr.ptr + 32)
        },
{
    let rest = seek_to(stream, ptr.ptr);
    proof {
        if stream@.len() >= ptr.ptr + 32 {
            assert(rest@.subrange(0, 32) =~= stream@.subrange(ptr.ptr as int, ptr.ptr + 32));
        }
    }
    read_hash_bytes(rest)
}

/// Read a stored node type and hash at the head of a stream.
pub fn read_stored_node_type_at_head(stream: &[u8]) -> (out: Result<(TrieNodeID, TrieHash), Error>)
    ensures
        if stream@.len() < 32 {
            out == Err::<(TrieNodeID, TrieHash), Error>(
                Error::CorruptionError(Corruption::TruncatedHash),
            )
        } else if stream@.len() == 32 {
            out == Err::<(TrieNodeID, TrieHash), Error>(Error::IOError(IoErrorKind::UnexpectedEof))
        } else {
            match stored_id(stream@.subrange(32, 33)) {
                Ok(id) => out matches Ok((found, hash)) && found == id && hash@ == stream@.subrange(
                    0,
                    32,
                ),
                Err(e) => out == Err::<(TrieNodeID, TrieHash), Error>(e),
            }
        },
{
    let hash = match read_hash_bytes(stream) {
        Ok(bytes) => TrieHash(bytes),
        Err(e) => return Err(e),
    };
    if stream.len() < 33 {
        return Err(Error::IOError(IoErrorKind::UnexpectedEof));
    }
    match stored_node_id_from_bytes(&stream[32..33]) {
        Ok(id) => Ok((id, hash)),
        Err(e) => Err(e),
    }
}

/// Read the trie item that a pointer leads to.
pub fn read_trie_item<'a>(stream: &[u8], ptr: &TriePtr, scratch: &'a mut MarfReadState) -> (out: Result<
    (ReadTrieItem<'a>, usize),
    Error,
>)
    requires
        old(scratch).wf(),
    ensures
        match NodeRecordFormat::Legacy.record_bound(ptr.id) {
            Err(e) => out matches Err(found) && found == e,
            Ok(bound) => match NodeRecordFormat::Legacy.parsed(
                window(from_offset(stream@, ptr.ptr), bound),
            ) {
                Err(e) => out matches Err(found) && found == e,
                Ok(record) => match record.item(ptr.id) {
                    Err(e) => out matches Err(found) && found == e,
                    Ok((item, len)) => out matches Ok((read, used)) && item_reads(
                        read,
                        record.hash,
                        item,
                    ) && used == len,
                },
            },
        },
{
    read_trie_item_at_head_ref(seek_to(stream, ptr.ptr), ptr.id, scratch)
}

/// The node and hash at the head of a stream, for a pointer of some type, and the bytes that the
/// record takes.
///
/// A patch is no node, so it comes back as the fault that carries it.
pub open spec fn node_at_head(stream: Seq<u8>, ptr_id: u8) -> Result<(Node, Seq<u8>, nat), Fault> {
    match NodeRecordFormat::Legacy.record_bound(ptr_id) {
        Err(e) => Err(fault_of(e)),
        Ok(bound) => match NodeRecordFormat::Legacy.parsed(window(stream, bound)) {
            Err(e) => Err(fault_of(e)),
            Ok(record) => match record.item(ptr_id) {
                Err(e) => Err(fault_of(e)),
                Ok((Item::Patch(patch), _)) => Err(Fault::Patch(patch)),
                Ok((Item::Node(node), len)) => match record.hash {
                    None => Err(bad(Corruption::MissingNodeHash)),
                    Some(hash) => Ok((node, hash, len)),
                },
            },
        },
    }
}

/// Take the node and its hash out of a read item.
fn read_item_into_owned_node(read: ReadTrieItem<'_>, Ghost(hash): Ghost<Option<Seq<u8>>>, Ghost(
    item,
): Ghost<Item>) -> (out: Result<(TrieNodeType, TrieHash), Error>)
    requires
        item_reads(read, hash, item),
    ensures
        match item {
            Item::Patch(patch) => out matches Err(e) && fault_of(e) == Fault::Patch(patch),
            Item::Node(node) => match hash {
                None => out matches Err(e) && e == Error::CorruptionError(
                    Corruption::MissingNodeHash,
                ),
                Some(bytes) => out matches Ok((found, found_hash)) && found@ == node && found@.wf()
                    && found.is_fresh() && found_hash@ == bytes,
            },
        },
{
    let node = match read.into_node() {
        Ok(node) => node,
        Err(e) => return Err(e),
    };
    match node.into_owned_node() {
        Ok((node, Some(hash))) => Ok((node, hash)),
        Ok((_, None)) => Err(corrupt(Corruption::MissingNodeHash)),
        Err(e) => Err(e),
    }
}

/// Read a node and hash at the head of a stream, and say how many bytes their record takes: the
/// stream goes on behind them.
pub fn read_nodetype_at_head(stream: &[u8], ptr_id: u8) -> (out: Result<
    (TrieNodeType, TrieHash, usize),
    Error,
>)
    ensures
        match node_at_head(stream@, ptr_id) {
            Ok((node, hash, len)) => out matches Ok((found, found_hash, used)) && found@ == node
                && found@.wf() && found.is_fresh() && found_hash@ == hash && used == len && used
                <= stream.len(),
            Err(fault) => out matches Err(e) && fault_of(e) == fault,
        },
{
    let mut scratch = MarfReadState::new();
    let ghost bound = NodeRecordFormat::Legacy.record_bound(ptr_id);
    let ghost record = NodeRecordFormat::Legacy.parsed(window(stream@, bound->Ok_0));
    match read_trie_item_at_head_ref(stream, ptr_id, &mut scratch) {
        Ok((read, used)) => match read_item_into_owned_node(
            read,
            Ghost(record->Ok_0.hash),
            Ghost((record->Ok_0.item(ptr_id)->Ok_0).0),
        ) {
            Ok((node, hash)) => Ok((node, hash, used)),
            Err(e) => Err(e),
        },
        Err(e) => Err(e),
    }
}

/// Read a node and hash at `ptr`.
pub fn read_nodetype(stream: &[u8], ptr: &TriePtr) -> (out: Result<(TrieNodeType, TrieHash), Error>)
    ensures
        match node_at_head(from_offset(stream@, ptr.ptr), ptr.id) {
            Ok((node, hash, _)) => out matches Ok((found, found_hash)) && found@ == node
                && found@.wf() && found.is_fresh() && found_hash@ == hash,
            Err(fault) => out matches Err(e) && fault_of(e) == fault,
        },
{
    match read_nodetype_at_head(seek_to(stream, ptr.ptr), ptr.id) {
        Ok((node, hash, _)) => Ok((node, hash)),
        Err(e) => Err(e),
    }
}

/// What decodes as a node is an item that holds the node.
proof fn lemma_decoded_item(record: Record, node: Node, len: nat, ptr_id: u8)
    requires
        clear_ctrl_bits(ptr_id) == node.id().code(),
        record.logical() == Some(node.id()),
        record.decode(node.id().code()) == Ok::<(Node, nat), Fault>((node, len)),
    ensures
        record.item(ptr_id) == Ok::<(Item, nat), Error>((Item::Node(node), len)),
{
    reveal(Record::decode);
    reveal(Record::item);
}

/// A node that was written as a historical record is read back at the head of a stream with its
/// hash, and the stream goes on just behind the record.
pub proof fn law_written_node_is_read_at_head(
    node: Node,
    hash: Seq<u8>,
    compressed: bool,
    ptr_id: u8,
    tail: Seq<u8>,
)
    requires
        storable(NodeRecordFormat::Legacy, node, compressed),
        hash.len() == 32,
        NodeRecordFormat::Legacy.node_record(node, hash, compressed) is Ok,
        clear_ctrl_bits(ptr_id) == node.id().code(),
    ensures
        ({
            let record = NodeRecordFormat::Legacy.node_record(node, hash, compressed)->Ok_0;
            node_at_head(record + tail, ptr_id) == Ok::<(Node, Seq<u8>, nat), Fault>(
                (node, hash, record.len()),
            )
        }),
{
    let format = NodeRecordFormat::Legacy;
    let record = format.node_record(node, hash, compressed)->Ok_0;
    law_record_is_bounded(format, node, hash, compressed);
    let bound = format.record_bound(ptr_id)->Ok_0;
    let seen = window(record + tail, bound);
    let rest = seen.subrange(record.len() as int, seen.len() as int);
    assert(seen =~= record + rest);
    law_record_roundtrip(format, node, hash, compressed, rest);
    lemma_decoded_item(format.parsed(seen)->Ok_0, node, record.len(), ptr_id);
}

/// A node that was written as a historical record is read back through a pointer to its place,
/// whatever stands before and behind it.
pub proof fn law_written_node_is_read_at_pointer(
    node: Node,
    hash: Seq<u8>,
    compressed: bool,
    ptr: TriePtr,
    before: Seq<u8>,
    tail: Seq<u8>,
)
    requires
        storable(NodeRecordFormat::Legacy, node, compressed),
        hash.len() == 32,
        NodeRecordFormat::Legacy.node_record(node, hash, compressed) is Ok,
        clear_ctrl_bits(ptr.id) == node.id().code(),
        ptr.ptr == before.len(),
    ensures
        ({
            let record = NodeRecordFormat::Legacy.node_record(node, hash, compressed)->Ok_0;
            node_at_head(from_offset(before + record + tail, ptr.ptr), ptr.id) == Ok::<
                (Node, Seq<u8>, nat),
                Fault,
            >((node, hash, record.len()))
        }),
{
    let record = NodeRecordFormat::Legacy.node_record(node, hash, compressed)->Ok_0;
    law_written_node_is_read_at_head(node, hash, compressed, ptr.id, tail);
    assert(from_offset(before + record + tail, ptr.ptr) =~= record + tail);
}

} // verus!
