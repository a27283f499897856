//! What writing a record and reading it back guarantees.
use vstd::prelude::*;

use crate::bits::{kept_slots, lemma_list_len_bounds};
use crate::branch_view::BranchParts;
use crate::error::Error;
use crate::leaf::{
    law_inline_leaf_roundtrip, law_located_leaf_roundtrip, law_plain_leaf_roundtrip, Leaf, Node,
};
use crate::mapped_laws::{
    directory_of, law_mapped_branch_roundtrip, law_mapped_len_is_bounded,
    law_parse_finds_directory, lemma_directory_parts,
};
use crate::mapped_node::{mapped_payload, Directory};
use crate::node::{Branch, TrieNodeID, TriePtr};
use crate::node_codec::{
    law_compressed_branch_roundtrip, law_encoded_len, law_plain_branch_roundtrip,
};
use crate::packed_branch::{packed_payload, packing_fault};
use crate::packed_laws::{
    canonical, columns_of, law_packed_branch_roundtrip, law_packed_len_is_bounded,
    law_parse_finds_packed_columns,
};
use crate::patch::{Fault, Patch};
use crate::path::framed;
use crate::raw_leaf::{law_raw_leaf_roundtrip, raw_payload};
use crate::record::{NodeRecordFormat, Record};

verus! {

/// Whether a node can be read back from a layout: its slots survive the encoding, and marker-first
/// layouts need slots and selectors that agree.
pub open spec fn storable(format: NodeRecordFormat, node: Node, compressed: bool) -> bool {
    &&& node.wf()
    &&& match node {
        Node::Branch(branch) => if format is Legacy {
            kept_slots(branch.ptrs, compressed)
        } else {
            canonical(branch.ptrs) && packing_fault(branch) is None
        },
        Node::Leaf(_) => true,
    }
}

/// A record is as long as announced.
pub proof fn law_record_len(format: NodeRecordFormat, node: Node, hash: Seq<u8>, compressed: bool)
    requires
        node.wf(),
        hash.len() == 32,
        format.node_record(node, hash, compressed) is Ok,
    ensures
        (format.node_record(node, hash, compressed)->Ok_0).len() == format.record_len(
            node,
            compressed,
        ),
{
    match node {
        Node::Branch(branch) => {
            if format is Legacy {
                law_encoded_len(node, compressed);
            } else if format is TypeFirstV4 {
                law_parse_finds_packed_columns(branch, Seq::empty());
            } else {
                lemma_directory_parts(branch);
            }
        },
        Node::Leaf(leaf) => {
            if leaf.inline is None {
                match leaf.extent {
                    Some(extent) => crate::value::law_extent_roundtrip(extent, Seq::empty()),
                    None => {},
                }
                match leaf.data {
                    Some(value) => law_raw_leaf_roundtrip(leaf.path, value, Seq::empty()),
                    None => {},
                }
            }
        },
    }
}

/// Splitting a record that stores a hash, in either envelope.
proof fn lemma_parse_hashed(
    format: NodeRecordFormat,
    marker: u8,
    hash: Seq<u8>,
    body: Seq<u8>,
    tail: Seq<u8>,
)
    requires
        hash.len() == 32,
        format.physical(marker) is Ok,
        !NodeRecordFormat::hashless(format.physical(marker)->Ok_0),
    ensures
        ({
            let bytes = if format is Legacy {
                hash + (seq![marker] + body)
            } else {
                seq![marker] + hash + body
            };
            format.parsed(bytes + tail) == Ok::<Record, Error>(
                Record { format, marker, hash: Some(hash), payload: body + tail, prefix_len: 33 },
            )
        }),
{
    let bytes = if format is Legacy {
        hash + (seq![marker] + body)
    } else {
        seq![marker] + hash + body
    };
    let all = bytes + tail;
    let start: int = if format is Legacy {
        0
    } else {
        1
    };
    assert(all.subrange(start, start + 32) =~= hash);
    assert(all.subrange(33, all.len() as int) =~= body + tail);
}

/// Splitting a record that stores no hash.
proof fn lemma_parse_hashless(format: NodeRecordFormat, marker: u8, body: Seq<u8>, tail: Seq<u8>)
    requires
        format.number() > 0,
        format.physical(marker) is Ok,
        NodeRecordFormat::hashless(format.physical(marker)->Ok_0),
    ensures
        format.parsed(seq![marker] + body + tail) == Ok::<Record, Error>(
            Record { format, marker, hash: None, payload: body + tail, prefix_len: 1 },
        ),
{
    let all = seq![marker] + body + tail;
    assert(all.subrange(1, all.len() as int) =~= body + tail);
}

/// A record of a leaf decodes as its body does.
proof fn lemma_decode_leaf(record: Record, leaf: Leaf, used: nat)
    requires
        record.logical() == Some(TrieNodeID::Leaf),
        Leaf::load(record.marker, record.payload) == Ok::<(Leaf, nat), Error>((leaf, used)),
    ensures
        record.decode(1) == Ok::<(Node, nat), Fault>((Node::Leaf(leaf), record.prefix_len + used)),
{
    reveal(Record::decode);
}

/// A historical record of a branch decodes as its body does.
proof fn lemma_decode_legacy(record: Record, branch: Branch, used: nat)
    requires
        record.format is Legacy,
        branch.id.is_branch(),
        record.logical() == Some(branch.id),
        Branch::load(branch.id, record.marker, record.payload) == Ok::<(Branch, nat), Error>(
            (branch, used),
        ),
    ensures
        record.decode(branch.id.code()) == Ok::<(Node, nat), Fault>(
            (Node::Branch(branch), record.prefix_len + used),
        ),
{
    reveal(Record::decode);
}

/// A marker-first record of a branch decodes as its parts do.
proof fn lemma_decode_parts(record: Record, branch: Branch, parts: BranchParts)
    requires
        record.format.number() > 0,
        branch.id.is_branch(),
        record.logical() == Some(branch.id),
        BranchParts::parse(record.format, branch.id, record.payload) == Ok::<BranchParts, Error>(
            parts,
        ),
        parts.to_branch() == Ok::<Branch, Error>(branch),
    ensures
        record.decode(branch.id.code()) == Ok::<(Node, nat), Fault>(
            (Node::Branch(branch), record.prefix_len + parts.length()),
        ),
{
    reveal(Record::decode);
}

/// What reading a node's record back gives.
pub open spec fn reads_back(
    format: NodeRecordFormat,
    node: Node,
    hash: Seq<u8>,
    bytes: Seq<u8>,
    tail: Seq<u8>,
) -> bool {
    let parsed = format.parsed(bytes + tail);
    &&& parsed is Ok
    &&& (parsed->Ok_0).logical() == Some(node.id())
    &&& (parsed->Ok_0).hash is None || (parsed->Ok_0).hash == Some(hash)
    &&& node is Branch ==> (parsed->Ok_0).hash is Some
    &&& (parsed->Ok_0).decode(node.id().code()) == Ok::<(Node, nat), Fault>(
        (format.kept(node), bytes.len()),
    )
}

proof fn lemma_legacy_branch(
    branch: Branch,
    hash: Seq<u8>,
    compressed: bool,
    tail: Seq<u8>,
)
    requires
        branch.wf(),
        kept_slots(branch.ptrs, compressed),
        hash.len() == 32,
    ensures
        reads_back(
            NodeRecordFormat::Legacy,
            Node::Branch(branch),
            hash,
            hash + Node::Branch(branch).encoded(compressed),
            tail,
        ),
{
    let format = NodeRecordFormat::Legacy;
    let marker = if compressed {
        (branch.id.code() + 64) as u8
    } else {
        branch.id.code()
    };
    let body = if compressed {
        branch.compressed_body()
    } else {
        branch.plain_body()
    };
    if compressed {
        law_compressed_branch_roundtrip(branch, tail);
    } else {
        law_plain_branch_roundtrip(branch, tail);
    }
    lemma_parse_hashed(format, marker, hash, body, tail);
    let record = Record {
        format,
        marker,
        hash: Some(hash),
        payload: body + tail,
        prefix_len: 33,
    };
    lemma_decode_legacy(record, branch, body.len());
}

proof fn lemma_mapped_record(
    format: NodeRecordFormat,
    branch: Branch,
    hash: Seq<u8>,
    tail: Seq<u8>,
)
    requires
        1 <= format.number() <= 3,
        branch.wf(),
        canonical(branch.ptrs),
        packing_fault(branch) is None,
        hash.len() == 32,
    ensures
        reads_back(
            format,
            Node::Branch(branch),
            hash,
            seq![branch.id.code()] + hash + mapped_payload(branch),
            tail,
        ),
{
    let body = mapped_payload(branch);
    let parts = BranchParts::Directory(directory_of(branch));
    law_parse_finds_directory(branch, tail);
    law_mapped_branch_roundtrip(branch);
    lemma_parse_hashed(format, branch.id.code(), hash, body, tail);
    let record = Record {
        format,
        marker: branch.id.code(),
        hash: Some(hash),
        payload: body + tail,
        prefix_len: 33,
    };
    lemma_decode_parts(record, branch, parts);
}

proof fn lemma_packed_record(branch: Branch, hash: Seq<u8>, tail: Seq<u8>)
    requires
        branch.wf(),
        canonical(branch.ptrs),
        packing_fault(branch) is None,
        hash.len() == 32,
    ensures
        reads_back(
            NodeRecordFormat::TypeFirstV4,
            Node::Branch(branch),
            hash,
            seq![branch.id.code()] + hash + packed_payload(branch),
            tail,
        ),
{
    let format = NodeRecordFormat::TypeFirstV4;
    let body = packed_payload(branch);
    let parts = BranchParts::Packed(columns_of(branch));
    law_parse_finds_packed_columns(branch, tail);
    law_packed_branch_roundtrip(branch);
    lemma_parse_hashed(format, branch.id.code(), hash, body, tail);
    let record = Record {
        format,
        marker: branch.id.code(),
        hash: Some(hash),
        payload: body + tail,
        prefix_len: 33,
    };
    lemma_decode_parts(record, branch, parts);
}

proof fn lemma_hashed_leaf(
    format: NodeRecordFormat,
    leaf: Leaf,
    hash: Seq<u8>,
    tail: Seq<u8>,
)
    requires
        leaf.wf(),
        leaf.data is Some,
        leaf.inline is None,
        format is Legacy || (format is TypeFirstV1 && leaf.extent is None),
        hash.len() == 32,
    ensures
        reads_back(
            format,
            Node::Leaf(leaf),
            hash,
            if format is Legacy {
                hash + (seq![leaf.plain_marker()] + leaf.plain_body())
            } else {
                seq![leaf.plain_marker()] + hash + leaf.plain_body()
            },
            tail,
        ),
{
    let body = leaf.plain_body();
    law_plain_leaf_roundtrip(leaf, tail);
    lemma_parse_hashed(format, leaf.plain_marker(), hash, body, tail);
    let record = Record {
        format,
        marker: leaf.plain_marker(),
        hash: Some(hash),
        payload: body + tail,
        prefix_len: 33,
    };
    lemma_decode_leaf(record, leaf, body.len());
}

proof fn lemma_hashless_leaf(
    format: NodeRecordFormat,
    leaf: Leaf,
    marker: u8,
    body: Seq<u8>,
    hash: Seq<u8>,
    tail: Seq<u8>,
)
    requires
        format.number() > 0,
        format.physical(marker) is Ok,
        NodeRecordFormat::hashless(format.physical(marker)->Ok_0),
        format.kept(Node::Leaf(leaf)) is Leaf,
        Leaf::load(marker, body + tail) == Ok::<(Leaf, nat), Error>(
            (format.kept(Node::Leaf(leaf))->Leaf_0, body.len()),
        ),
    ensures
        reads_back(format, Node::Leaf(leaf), hash, seq![marker] + body, tail),
{
    lemma_parse_hashless(format, marker, body, tail);
    let record = Record { format, marker, hash: None, payload: body + tail, prefix_len: 1 };
    lemma_decode_leaf(record, format.kept(Node::Leaf(leaf))->Leaf_0, body.len());
}

/// Every node that a layout writes is read back from the same layout with its type, its children
/// or stored value and its exact length, whatever follows the record.  Stored hashes come back
/// unchanged, and branches always store one.
pub proof fn law_record_roundtrip(
    format: NodeRecordFormat,
    node: Node,
    hash: Seq<u8>,
    compressed: bool,
    tail: Seq<u8>,
)
    requires
        storable(format, node, compressed),
        hash.len() == 32,
        format.node_record(node, hash, compressed) is Ok,
    ensures
        reads_back(format, node, hash, format.node_record(node, hash, compressed)->Ok_0, tail),
{
    let bytes = format.node_record(node, hash, compressed)->Ok_0;
    match node {
        Node::Branch(branch) => {
            if format is Legacy {
                lemma_legacy_branch(branch, hash, compressed, tail);
            } else if format is TypeFirstV4 {
                lemma_packed_record(branch, hash, tail);
            } else {
                lemma_mapped_record(format, branch, hash, tail);
            }
        },
        Node::Leaf(leaf) => lemma_leaf_record(format, leaf, hash, compressed, tail),
    }
}

proof fn lemma_leaf_record(
    format: NodeRecordFormat,
    leaf: Leaf,
    hash: Seq<u8>,
    compressed: bool,
    tail: Seq<u8>,
)
    requires
        leaf.wf(),
        hash.len() == 32,
        format.node_record(Node::Leaf(leaf), hash, compressed) is Ok,
    ensures
        reads_back(
            format,
            Node::Leaf(leaf),
            hash,
            format.node_record(Node::Leaf(leaf), hash, compressed)->Ok_0,
            tail,
        ),
{
    if leaf.inline is Some {
        let value = leaf.inline->0;
        let body = framed(leaf.path) + value.encoded();
        law_inline_leaf_roundtrip(leaf.path, value, tail);
        assert(seq![9u8] + framed(leaf.path) + value.encoded() =~= seq![9u8] + body);
        lemma_hashless_leaf(format, leaf, 9, body, hash, tail);
    } else if format.number() >= 1 && leaf.extent is Some {
        let extent = leaf.extent->0;
        let body = framed(leaf.path) + extent.encoded();
        crate::value::law_extent_roundtrip(extent, tail);
        law_located_leaf_roundtrip(leaf.path, extent, tail);
        assert(seq![7u8] + framed(leaf.path) + extent.encoded() =~= seq![7u8] + body);
        lemma_hashless_leaf(format, leaf, 7, body, hash, tail);
    } else if format.number() >= 2 {
        let body = raw_payload(leaf.path, leaf.data->0);
        law_raw_leaf_roundtrip(leaf.path, leaf.data->0, tail);
        assert(Leaf::load(8, body + tail)->Ok_0.0 =~~= leaf);
        lemma_hashless_leaf(format, leaf, 8, body, hash, tail);
    } else {
        lemma_hashed_leaf(format, leaf, hash, tail);
    }
}

/// A patch's record is read back with the patch, its hash and its exact length.
pub proof fn law_patch_record_roundtrip(
    format: NodeRecordFormat,
    patch: Patch,
    hash: Seq<u8>,
    tail: Seq<u8>,
)
    requires
        patch.wf(),
        TriePtr::plain_id(patch.ptr.id) == patch.ptr.id,
        crate::bits::plain_ids(patch.diff),
        hash.len() == 32,
    ensures
        ({
            let bytes = format.patch_record(patch, hash);
            let parsed = format.parsed(bytes + tail);
            &&& parsed is Ok
            &&& (parsed->Ok_0).logical() == Some(TrieNodeID::Patch)
            &&& (parsed->Ok_0).hash == Some(hash)
            &&& (parsed->Ok_0).patch() == Ok::<(Patch, nat), Error>((patch, bytes.len()))
        }),
{
    crate::patch::law_patch_roundtrip(patch, tail);
    let encoded = patch.encoded() + tail;
    assert(encoded.subrange(1, encoded.len() as int) =~= patch.body() + tail);
    lemma_parse_hashed(format, 6, hash, patch.body(), tail);
}

/// No record is longer than the bound for the type that parents name.
pub proof fn law_record_is_bounded(
    format: NodeRecordFormat,
    node: Node,
    hash: Seq<u8>,
    compressed: bool,
)
    requires
        node.wf(),
        hash.len() == 32,
        format.node_record(node, hash, compressed) is Ok,
    ensures
        format.record_bound(node.id().code()) is Ok,
        (format.node_record(node, hash, compressed)->Ok_0).len() <= format.record_bound(
            node.id().code(),
        )->Ok_0,
{
    law_record_len(format, node, hash, compressed);
    match node {
        Node::Branch(branch) => {
            if format is Legacy {
                crate::bits::lemma_list_lens(branch.ptrs);
                lemma_list_len_bounds(branch.ptrs, branch.ptrs.len());
                crate::bits::lemma_compressed_list_len(branch.id.code(), branch.ptrs);
            } else if format is TypeFirstV4 {
                law_packed_len_is_bounded(branch);
            } else {
                law_mapped_len_is_bounded(branch);
            }
        },
        Node::Leaf(_) => {},
    }
}

} // verus!
