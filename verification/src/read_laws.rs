//! What reading a node in place, in a workspace or into an owned value has in common.
use vstd::prelude::*;

use crate::error::Error;
use crate::hash::{sha512_256_of, TrieHash};
use crate::leaf::{Leaf, Node};
use crate::mapped_laws::{law_mapped_child_is_walk, law_parse_finds_directory};
use crate::mapped_node::mapped_payload;
use crate::node::{
    clear_ctrl_bits, logical_node_id, node_id_of, Branch, TrieNodeID, TrieNodeTransientMeta, TriePtr,
};
use crate::packed_branch::{packed_payload, packing_fault};
use crate::packed_laws::{
    canonical, law_packed_child_is_walk, law_parse_finds_packed_columns,
};
use crate::patch::{fault_of, Fault};
use crate::path::framed;
use crate::read_node::{with_meta, StoredBytes};
use crate::record::{NodeRecordFormat, Record};
use crate::record_context::{RecordContext, ValueExtentResolver};
use crate::scratch::{window, Item};
use crate::trie_file::{borrows_as, MappedTrieItem};

verus! {

/// What an owned read of an item gives.
pub open spec fn owned(item: Result<(Item, nat), Error>) -> Result<(Node, nat), Fault> {
    match item {
        Ok((Item::Node(node), used)) => Ok((node, used)),
        Ok((Item::Patch(patch), _)) => Err(Fault::Patch(patch)),
        Err(e) => Err(fault_of(e)),
    }
}

/// Decoding a record into the reusable workspace and decoding it into an owned node give the same
/// node or failure, and take the same bytes, for every node type that a parent can name.
pub proof fn law_scratch_reads_like_owned(record: Record, expected_id: u8)
    requires
        node_id_of(clear_ctrl_bits(logical_node_id(expected_id))) matches Some(id) && id !is Empty,
    ensures
        owned(record.item(expected_id)) == record.decode(expected_id),
{
    reveal(Record::item);
    reveal(Record::decode);
}

/// The payload of a branch in a marker-first layout.
pub open spec fn branch_payload(format: NodeRecordFormat, branch: Branch) -> Seq<u8> {
    if format is TypeFirstV4 {
        packed_payload(branch)
    } else {
        mapped_payload(branch)
    }
}

/// A branch written in a marker-first layout gives its path and each of its children in place,
/// without being decoded, exactly as the branch itself does.
pub proof fn law_branch_walks_in_place(
    format: NodeRecordFormat,
    branch: Branch,
    tail: Seq<u8>,
    chr: u8,
)
    requires
        format.number() > 0,
        branch.wf(),
        packing_fault(branch) is None,
        canonical(branch.ptrs),
    ensures
        ({
            let stored = StoredBytes {
                node_type: branch.id,
                format,
                marker: Some(branch.id.code()),
                payload: branch_payload(format, branch) + tail,
            };
            &&& stored.child(chr) == Ok::<Option<Option<TriePtr>>, Error>(Some(branch.walk(chr)))
            &&& stored.path() == Ok::<Option<Seq<u8>>, Error>(Some(branch.path))
        }),
{
    let payload = branch_payload(format, branch);
    if format is TypeFirstV4 {
        law_parse_finds_packed_columns(branch, tail);
        law_packed_child_is_walk(branch, chr);
    } else {
        law_parse_finds_directory(branch, tail);
        law_mapped_child_is_walk(branch, chr);
    }
    assert(payload.subrange(0, 1 + branch.path.len() as int) =~= framed(branch.path));
    assert((payload + tail)[0] == framed(branch.path)[0]);
    assert((payload + tail).subrange(1, 1 + branch.path.len() as int) =~= branch.path);
}

/// A leaf that knows its value keeps it, whatever the value source would answer, and a leaf that does
/// not cannot be had without a source.
pub proof fn law_known_values_stay<R: ValueExtentResolver>(
    context: &RecordContext<R>,
    leaf: Leaf,
    outcome: Result<Leaf, Error>,
)
    requires
        context.resolves(leaf, outcome),
    ensures
        leaf.data is Some ==> outcome == Ok::<Leaf, Error>(leaf),
        leaf.data is None && context.value_resolver is None ==> outcome is Err,
        outcome matches Ok(full) ==> {
            &&& full.data is Some
            &&& full.path == leaf.path
            &&& full.extent == leaf.extent
            &&& full.inline == leaf.inline
        },
{
}

/// The hash of a record is the one that is stored, or else that of the leaf that the record resolves
/// to; a record that is neither has none.
pub proof fn law_record_hash_is_stored_or_of_the_leaf<R: ValueExtentResolver>(
    context: &RecordContext<R>,
    record: Record,
    outcome: Result<TrieHash, Error>,
)
    requires
        context.hashes(record, outcome),
    ensures
        record.hash matches Some(stored) ==> (outcome matches Ok(hash) && hash@ == stored),
        record.hash is None && (record.decode(1) matches Ok((Node::Branch(_), _))) ==> outcome
            is Err,
        record.hash is None && record.decode(1) is Err ==> outcome is Err,
        record.hash is None ==> (record.decode(1) matches Ok((Node::Leaf(leaf), _)) ==> (
        leaf.data is Some ==> (outcome matches Ok(hash) && hash@ == sha512_256_of(
            seq![1u8] + framed(leaf.path) + leaf.data->0,
        )))),
{
    reveal(Record::decode);
}

/// A node that is borrowed from a mapped record is the one that the record decodes to.
pub proof fn law_borrowed_nodes_decode_alike(
    record: Record,
    ptr_id: u8,
    out: Result<MappedTrieItem<'_>, Error>,
    node: Node,
)
    requires
        borrows_as(record, ptr_id, out),
        record.logical() is Some,
        record.logical() != Some(TrieNodeID::Empty),
        record.decode(ptr_id) matches Ok((found, _)) && found == node,
        ptr_id == logical_node_id(ptr_id),
    ensures
        out matches Ok(MappedTrieItem::Node(read)) && read.backing.node() == Ok::<Node, Fault>(
            node,
        ),
{
    reveal(Record::decode);
    let logical = record.logical()->0;
    assert(node_id_of(logical.code()) == Some(logical));
    assert(clear_ctrl_bits(logical.code()) == logical.code());
}

/// Attached state takes the place of a node's own, and a node that carries none gets none.
pub proof fn law_attached_state_is_put_back(
    own: TrieNodeTransientMeta,
    kept: TrieNodeTransientMeta,
    attached: Option<TrieNodeTransientMeta>,
)
    ensures
        with_meta(Some(own), Some(kept)) == Some(kept),
        with_meta(Some(own), None) == Some(own),
        with_meta(None, attached) is None,
{
}

/// A bounded read sees as many bytes as it may, or all that there are, from the start.
pub proof fn law_windows_are_starts(bytes: Seq<u8>, bound: nat)
    ensures
        window(bytes, bound).len() <= bound,
        window(bytes, bound).len() == bound || window(bytes, bound).len() == bytes.len(),
        window(bytes, bound) == bytes.take(window(bytes, bound).len() as int),
{
    assert(window(bytes, bound) =~= bytes.take(window(bytes, bound).len() as int));
}

/// A leaf that is given in place is the one that its bytes decode to, and so is its path.
pub proof fn law_leaves_are_read_in_place(stored: StoredBytes, node: Node)
    requires
        stored.node_type is Leaf,
        stored.decoded() == Ok::<Node, Fault>(node),
    ensures
        stored.leaf() matches Ok(Some(found)) ==> node == Node::Leaf(found),
        stored.leaf() is Ok,
        stored.path() matches Ok(Some(path)) ==> node.path() == path,
{
    reveal(Record::decode);
    assert(clear_ctrl_bits(logical_node_id(1u8)) == 1);
}

} // verus!
