//! What stored nodes are read as, and how much of them has to be read.
use vstd::prelude::*;

use crate::bits::{
    compressed_list, dense_size, first_unplaced, inline_count,
    is_inline_child_ptr, lemma_compressed_list_len, placed, placing_fault, plain_len,
    reserved_root_size, sparse_size,
};
use crate::branch_view::BranchParts;
use crate::error::{Error, IoErrorKind};
use crate::leaf::{Leaf, Node};
use crate::mapped_node::{offset_of, Directory};
use crate::node::{clear_ctrl_bits, logical_node_id, node_id_of, Branch, TrieNodeID, TriePtr};
use crate::packed_branch::Columns;
use crate::record::{NodeRecordFormat, Record};
use crate::record_context::{probe_end, probe_need_spec};

verus! {

/// A compressed list of child pointers takes the shorter of its two forms: no more than the dense
/// one, and no more than the sparse one.
pub proof fn law_compressed_list_is_shortest(branch: Branch)
    requires
        branch.wf(),
    ensures
        ({
            let len = compressed_list(branch.id.code(), branch.ptrs).len();
            let width = (branch.id.slots() + 7) / 8;
            &&& len <= dense_size(branch.ptrs)
            &&& len <= sparse_size(width, branch.ptrs)
            &&& len == dense_size(branch.ptrs) || len == sparse_size(width, branch.ptrs)
            &&& len == dense_size(branch.ptrs) || compressed_list(branch.id.code(), branch.ptrs)[0]
                == crate::bits::SPARSE_PTR_BITMAP_MARKER
        }),
{
    lemma_compressed_list_len(branch.id.code(), branch.ptrs);
}

/// Giving children their places in a file changes where their pointers lead in it, and neither their
/// types, bytes and blocks nor the pointers to other tries; a pointer is given its place exactly if
/// that is known.
pub proof fn law_placing_moves_own_children(ptr: TriePtr, file_offsets: Seq<u64>)
    ensures
        placed(ptr, file_offsets).id == ptr.id,
        placed(ptr, file_offsets).chr == ptr.chr,
        placed(ptr, file_offsets).back_block == ptr.back_block,
        ptr.id == 0 || ptr.id >= 128 ==> placed(ptr, file_offsets) == ptr && placing_fault(
            ptr,
            file_offsets,
        ) is None,
        0 < ptr.id < 128 && ptr.ptr < file_offsets.len() && ptr.ptr <= usize::MAX ==> {
            &&& placed(ptr, file_offsets).ptr == file_offsets[ptr.ptr as int]
            &&& placing_fault(ptr, file_offsets) is None <==> file_offsets[ptr.ptr as int] > 0
        },
        0 < ptr.id < 128 && ptr.ptr >= file_offsets.len() ==> placing_fault(ptr, file_offsets)
            is Some,
{
}

/// The first pointer without a place is one, and all before it have theirs.
pub proof fn law_first_unplaced_is_first(
    ptrs: Seq<TriePtr>,
    file_offsets: Seq<u64>,
    from: int,
    i: int,
)
    requires
        0 <= from <= ptrs.len(),
        from <= i < ptrs.len(),
    ensures
        from <= first_unplaced(ptrs, file_offsets, from) <= ptrs.len(),
        i < first_unplaced(ptrs, file_offsets, from) ==> placing_fault(ptrs[i], file_offsets)
            is None,
        i == first_unplaced(ptrs, file_offsets, from) ==> placing_fault(ptrs[i], file_offsets)
            is Some,
    decreases ptrs.len() - from,
{
    if placing_fault(ptrs[from], file_offsets) is None && from + 1 < ptrs.len() {
        if i > from {
            law_first_unplaced_is_first(ptrs, file_offsets, from + 1, i);
        } else {
            law_first_unplaced_is_first(ptrs, file_offsets, from + 1, from + 1);
        }
    } else {
        assert(first_unplaced(ptrs, file_offsets, ptrs.len() as int) == ptrs.len());
    }
}

/// Four bytes for each child of its own are enough for a node to grow by when its children are given
/// their places: no offset takes more than eight bytes.
pub proof fn law_placing_grows_within_bounds(ptrs: Seq<TriePtr>, file_offsets: Seq<u64>, n: nat)
    requires
        n <= ptrs.len(),
    ensures
        ({
            let after = Seq::new(ptrs.len(), |i: int| placed(ptrs[i], file_offsets));
            &&& offset_of(after, n) <= offset_of(ptrs, n) + 4 * inline_count(ptrs, n)
            &&& plain_len(after, n) <= plain_len(ptrs, n) + 4 * inline_count(ptrs, n)
            &&& inline_count(ptrs, n) <= n
        }),
    decreases n,
{
    if n > 0 {
        law_placing_grows_within_bounds(ptrs, file_offsets, (n - 1) as nat);
        let after = Seq::new(ptrs.len(), |i: int| placed(ptrs[i], file_offsets));
        assert(after[n - 1] == placed(ptrs[n - 1], file_offsets));
        assert(is_inline_child_ptr(&ptrs[n - 1]) || after[n - 1] == ptrs[n - 1]);
    }
}

/// What a marker names in a layout with markers first, it names in every later one; no layout takes
/// a marker for another type than its byte names.
pub proof fn law_later_layouts_keep_markers(
    format: NodeRecordFormat,
    later: NodeRecordFormat,
    marker: u8,
)
    requires
        0 < format.number() <= later.number(),
    ensures
        format.physical(marker) is Ok ==> later.physical(marker) == format.physical(marker),
        format.physical(marker) matches Ok(id) ==> id.code() == marker,
{
}

/// A record is read as what its parent's pointer says it is, or not at all.
pub proof fn law_records_are_what_pointers_say(record: Record, expected_id: u8)
    ensures
        record.decode(expected_id) matches Ok((node, _)) ==> node_id_of(
            clear_ctrl_bits(logical_node_id(expected_id)),
        ) == Some(node.id()) && record.logical() == Some(node.id()),
{
    reveal(Record::decode);
    reveal(Branch::load);
    match node_id_of(clear_ctrl_bits(logical_node_id(expected_id))) {
        Some(expected) => {
            lemma_parts_keep_type(record.format, expected, record.payload);
        },
        None => {},
    }
}

proof fn lemma_parts_keep_type(format: NodeRecordFormat, id: TrieNodeID, bytes: Seq<u8>)
    ensures
        BranchParts::parse(format, id, bytes) matches Ok(parts) ==> (
        parts.to_branch() matches Ok(branch) ==> branch.id == id),
{
    reveal(Directory::parse);
    reveal(Columns::parse);
    reveal(Directory::to_branch);
    reveal(Columns::to_branch);
    assert(Directory::parse(id, bytes) matches Ok(directory) ==> directory.id == id);
    assert(Columns::parse(id, bytes) matches Ok(columns) ==> columns.id == id);
}

/// The fault of bytes that end too soon.
pub open spec fn short() -> Error {
    Error::IOError(IoErrorKind::UnexpectedEof)
}

/// A probe needs what it ends at: once it has as many bytes as it needs, its record ends there, and
/// before that it has too few. What it refuses it refuses either way.
pub proof fn law_probes_need_their_record(format: NodeRecordFormat, have: Seq<u8>)
    ensures
        match probe_need_spec(format, have) {
            Ok(need) => {
                &&& need > 0
                &&& need <= have.len() ==> probe_end(format, have) == Ok::<nat, Error>(need)
                &&& need > have.len() ==> probe_end(format, have) == Err::<nat, Error>(short())
            },
            Err(e) => probe_end(format, have) == Err::<nat, Error>(e),
        },
{
}

/// A probe of a written leaf ends where its record does, if no hash is stored; otherwise it ends
/// right behind the hash, whatever follows.
#[verifier::rlimit(40)]
pub proof fn law_probes_span_leaves(
    format: NodeRecordFormat,
    leaf: Leaf,
    hash: Seq<u8>,
    compressed: bool,
    rest: Seq<u8>,
)
    requires
        leaf.wf(),
        hash.len() == 32,
        format.node_record(Node::Leaf(leaf), hash, compressed) is Ok,
    ensures
        ({
            let record = format.node_record(Node::Leaf(leaf), hash, compressed)->Ok_0;
            let hashless = leaf.inline is Some || (format.number() >= 1 && leaf.extent is Some)
                || format.number() >= 2;
            format.number() == 1 && leaf.extent is None && leaf.inline is None || hashless
                || format is Legacy ==> probe_end(format, record + rest) == Ok::<nat, Error>(
                if hashless {
                    record.len()
                } else {
                    33
                },
            )
        }),
{
    let record = format.node_record(Node::Leaf(leaf), hash, compressed)->Ok_0;
    let bytes = record + rest;
    let n = leaf.path.len() as int;
    if leaf.inline is Some {
        let value = leaf.inline->0;
        crate::layout_laws::law_inline_layout(value);
        assert(bytes[0] == 9);
        assert(bytes[1] == n);
        assert(bytes[2 + n] == value.encoded()[0]);
        assert(bytes[3 + n] == value.encoded()[1]);
        assert(record.len() == 2 + n + value.encoded().len());
    } else if format.number() >= 1 && leaf.extent is Some {
        crate::layout_laws::law_extent_layout(leaf.extent->0);
        assert(bytes[0] == 7);
        assert(bytes[1] == n);
        assert(record.len() == 34 + n);
    } else if format.number() >= 2 {
        let value = leaf.data->0;
        assert(crate::value::zero_from(value, 40));
        crate::layout_laws::law_raw_leaf_layout(leaf.path, value, 3);
        let payload = crate::raw_leaf::raw_payload(leaf.path, value);
        assert(bytes[0] == 8);
        assert(bytes[1] == payload[0]);
        assert(record.len() == 1 + payload.len());
    } else {
        assert(record.len() >= 33);
        if format.number() == 1 {
            assert(bytes[0] == 1);
        }
    }
}

/// Each kind of leaf without a stored hash comes with a layout and stays in all later ones: a layout
/// reads exactly the markers of the leaves that it can write.
pub proof fn law_layouts_read_what_they_write(format: NodeRecordFormat)
    ensures
        format.physical(TrieNodeID::ValueLeaf.code()) is Ok <==> format.number() >= 1,
        format.physical(TrieNodeID::RawLeaf.code()) is Ok <==> format.number() >= 2,
        format.physical(TrieNodeID::InlineLeaf.code()) is Ok <==> format.number() >= 3,
        format.physical(TrieNodeID::Leaf.code()) is Ok,
        format.physical(TrieNodeID::Patch.code()) is Ok,
        format.physical(TrieNodeID::Empty.code()) is Err,
        forall|leaf: Leaf, hash: Seq<u8>, compressed: bool|
            (#[trigger] format.node_record(Node::Leaf(leaf), hash, compressed)) is Ok && hash.len()
                == 32 && !(format is Legacy) ==> format.physical(
                format.node_record(Node::Leaf(leaf), hash, compressed)->Ok_0[0],
            ) is Ok,
{
}

/// A node can be written in a historical record exactly if it is a branch, or a leaf that has its value
/// and is not kept inline.
pub proof fn law_nodes_are_written_with_their_values(
    node: Node,
    hash: Seq<u8>,
    compressed: bool,
)
    ensures
        node is Branch ==> node.writable(),
        node matches Node::Leaf(leaf) ==> (node.writable() <==> leaf.data is Some),
        NodeRecordFormat::Legacy.node_record(node, hash, compressed) is Ok <==> node.writable() && (
        node matches Node::Leaf(leaf) ==> leaf.inline is None),
{
}

/// What is reserved for a root is enough for it once its children are given their places, however wide
/// their offsets become.
pub proof fn law_reserved_root_fits(
    base_len: usize,
    ptrs: &[TriePtr],
    file_offsets: Seq<u64>,
    size: u64,
)
    requires
        call_ensures(reserved_root_size, (base_len, ptrs), Ok::<u64, Error>(size)),
    ensures
        ({
            let after = Seq::new(ptrs@.len(), |i: int| placed(ptrs@[i], file_offsets));
            &&& size >= base_len + dense_size(after) - dense_size(ptrs@)
            &&& size >= base_len
            &&& size <= base_len + 4 * ptrs@.len()
        }),
{
    law_placing_grows_within_bounds(ptrs@, file_offsets, ptrs@.len());
}

} // verus!
