//! What decoding looks at: a record, and nothing behind it.
use vstd::prelude::*;

use crate::bitmap::slot_bit;
use crate::bits::{
    bitmap_width, dense_list, list_spec, plain_list, sparse_list, SPARSE_PTR_BITMAP_MARKER,
};
use crate::branch_view::BranchParts;
use crate::inline_value::Inline;
use crate::leaf::{Leaf, Node};
use crate::mapped_laws::law_mapped_parse_is_local;
use crate::mapped_node::{path_prefix_spec, Directory};
use crate::node::{Branch, TrieNodeID, TriePtr};
use crate::packed_branch::Columns;
use crate::packed_laws::law_packed_parse_is_local;
use crate::patch::Patch;
use crate::raw_leaf;
use crate::record::{NodeRecordFormat, Record};
use crate::record_laws::{law_record_roundtrip, storable};
use crate::value::Extent;
use crate::words::{lemma_same_part, same_start};

verus! {

/// Byte strings with the same start go on alike behind a part of it.
proof fn lemma_same_rest(a: Seq<u8>, b: Seq<u8>, n: int, at: int)
    requires
        same_start(a, b, n),
        0 <= at <= n,
    ensures
        same_start(
            a.subrange(at, a.len() as int),
            b.subrange(at, b.len() as int),
            n - at,
        ),
{
    let x = a.subrange(at, a.len() as int);
    let y = b.subrange(at, b.len() as int);
    assert forall|i: int| 0 <= i < n - at implies x[i] == y[i] by {
        assert(x[i] == a[at + i]);
        assert(y[i] == b[at + i]);
    }
}

proof fn lemma_plain_pointer(a: Seq<u8>, b: Seq<u8>)
    requires
        TriePtr::decode_plain(a) is Ok,
        same_start(a, b, (TriePtr::decode_plain(a)->Ok_0).1 as int),
    ensures
        TriePtr::decode_plain(b) == TriePtr::decode_plain(a),
{
    let n = (TriePtr::decode_plain(a)->Ok_0).1 as int;
    lemma_same_part(a, b, n, 2, n - 4);
    lemma_same_part(a, b, n, n - 4, n);
}

proof fn lemma_compressed_pointer(a: Seq<u8>, b: Seq<u8>)
    requires
        TriePtr::decode_compressed(a) is Ok,
        same_start(a, b, (TriePtr::decode_compressed(a)->Ok_0).1 as int),
    ensures
        TriePtr::decode_compressed(b) == TriePtr::decode_compressed(a),
        (TriePtr::decode_compressed(a)->Ok_0).1 > 0,
{
    let n = (TriePtr::decode_compressed(a)->Ok_0).1 as int;
    let width: int = if (a[0] / 32) % 2 == 1 {
        8
    } else {
        4
    };
    assert(a[0] == b[0]);
    assert(a[1] == b[1]);
    lemma_same_part(a, b, n, 2, 2 + width);
    if n > 2 + width {
        lemma_same_part(a, b, n, 2 + width, 6 + width);
    }
}

proof fn lemma_plain_list(a: Seq<u8>, b: Seq<u8>, n: nat)
    requires
        plain_list(a, n) is Ok,
        same_start(a, b, (plain_list(a, n)->Ok_0).1 as int),
    ensures
        plain_list(b, n) == plain_list(a, n),
    decreases n,
{
    if n > 0 {
        let all = (plain_list(a, n)->Ok_0).1 as int;
        let at = (plain_list(a, (n - 1) as nat)->Ok_0).1 as int;
        lemma_plain_list(a, b, (n - 1) as nat);
        lemma_same_rest(a, b, all, at);
        lemma_plain_pointer(
            a.subrange(at, a.len() as int),
            b.subrange(at, b.len() as int),
        );
    }
}

proof fn lemma_dense_list(a: Seq<u8>, b: Seq<u8>, n: nat)
    requires
        dense_list(a, n) is Ok,
        same_start(a, b, (dense_list(a, n)->Ok_0).1 as int),
    ensures
        dense_list(b, n) == dense_list(a, n),
        n > 0 ==> (dense_list(a, n)->Ok_0).1 > 0,
    decreases n,
{
    if n > 0 {
        let all = (dense_list(a, n)->Ok_0).1 as int;
        let at = (dense_list(a, (n - 1) as nat)->Ok_0).1 as int;
        lemma_dense_list(a, b, (n - 1) as nat);
        lemma_same_rest(a, b, all, at);
        lemma_compressed_pointer(
            a.subrange(at, a.len() as int),
            b.subrange(at, b.len() as int),
        );
    }
}

proof fn lemma_sparse_list(bitmap: Seq<u8>, a: Seq<u8>, b: Seq<u8>, n: nat)
    requires
        sparse_list(bitmap, a, n) is Ok,
        same_start(a, b, (sparse_list(bitmap, a, n)->Ok_0).1 as int),
    ensures
        sparse_list(bitmap, b, n) == sparse_list(bitmap, a, n),
    decreases n,
{
    if n > 0 {
        let all = (sparse_list(bitmap, a, n)->Ok_0).1 as int;
        let at = (sparse_list(bitmap, a, (n - 1) as nat)->Ok_0).1 as int;
        lemma_sparse_list(bitmap, a, b, (n - 1) as nat);
        if slot_bit(bitmap, n - 1) {
            lemma_same_rest(a, b, all, at);
            lemma_compressed_pointer(
                a.subrange(at, a.len() as int),
                b.subrange(at, b.len() as int),
            );
        }
    }
}

proof fn lemma_list(node_id: u8, marker: u8, a: Seq<u8>, b: Seq<u8>, n: nat)
    requires
        n > 0,
        list_spec(node_id, marker, a, n) is Ok,
        same_start(a, b, (list_spec(node_id, marker, a, n)->Ok_0).2 as int),
    ensures
        list_spec(node_id, marker, b, n) == list_spec(node_id, marker, a, n),
{
    let all = (list_spec(node_id, marker, a, n)->Ok_0).2 as int;
    if !crate::node::is_compressed(marker) {
        lemma_plain_list(a, b, n);
    } else if a[0] != SPARSE_PTR_BITMAP_MARKER {
        lemma_dense_list(a, b, n);
        assert(a[0] == b[0]);
    } else {
        let at = 1 + bitmap_width(node_id)->0 as int;
        assert(a[0] == b[0]);
        lemma_same_part(a, b, all, 1, at);
        lemma_same_rest(a, b, all, at);
        lemma_sparse_list(
            a.subrange(1, at),
            a.subrange(at, a.len() as int),
            b.subrange(at, b.len() as int),
            n,
        );
    }
}

proof fn lemma_path(a: Seq<u8>, b: Seq<u8>)
    requires
        path_prefix_spec(a) is Ok,
        same_start(a, b, 1 + (path_prefix_spec(a)->Ok_0).len() as int),
    ensures
        path_prefix_spec(b) == path_prefix_spec(a),
{
    let n = 1 + (path_prefix_spec(a)->Ok_0).len() as int;
    lemma_same_part(a, b, n, 1, n);
}

/// A branch body in the fixed or compressed encoding is decoded from its own bytes.
pub proof fn law_branch_body_is_local(id: TrieNodeID, marker: u8, a: Seq<u8>, b: Seq<u8>)
    requires
        id.is_branch(),
        Branch::load(id, marker, a) is Ok,
        same_start(a, b, (Branch::load(id, marker, a)->Ok_0).1 as int),
    ensures
        Branch::load(id, marker, b) == Branch::load(id, marker, a),
{
    reveal(Branch::load);
    let all = (Branch::load(id, marker, a)->Ok_0).1 as int;
    let used = (list_spec(id.code(), marker, a, id.slots())->Ok_0).2 as int;
    let table: int = if id is Node48 {
        256
    } else {
        0
    };
    let at = used + table;
    lemma_list(id.code(), marker, a, b, id.slots());
    lemma_same_rest(a, b, all, at);
    lemma_path(a.subrange(at, a.len() as int), b.subrange(at, b.len() as int));
    let x = Branch::load(id, marker, a)->Ok_0;
    let y = Branch::load(id, marker, b)->Ok_0;
    assert forall|i: int| 0 <= i < table implies x.0.indexes[i] == y.0.indexes[i] by {
        assert(a[used + i] == b[used + i]);
    }
    assert(x.0.indexes =~= y.0.indexes);
}

proof fn lemma_extent(a: Seq<u8>, b: Seq<u8>, n: int, at: int)
    requires
        same_start(a, b, n),
        0 <= at,
        at + 32 <= n,
    ensures
        Extent::at(a.subrange(at, a.len() as int)) == Extent::at(b.subrange(at, b.len() as int)),
{
    let x = a.subrange(at, a.len() as int);
    let y = b.subrange(at, b.len() as int);
    lemma_same_rest(a, b, n, at);
    lemma_same_part(x, y, n - at, 0, 16);
    lemma_same_part(x, y, n - at, 16, 24);
    lemma_same_part(x, y, n - at, 24, 32);
}

/// A leaf body of any kind is decoded from its own bytes.
pub proof fn law_leaf_body_is_local(marker: u8, a: Seq<u8>, b: Seq<u8>)
    requires
        Leaf::load(marker, a) is Ok,
        same_start(a, b, (Leaf::load(marker, a)->Ok_0).1 as int),
    ensures
        Leaf::load(marker, b) == Leaf::load(marker, a),
{
    let all = (Leaf::load(marker, a)->Ok_0).1 as int;
    match crate::node::node_id_of(crate::node::clear_ctrl_bits(marker)) {
        Some(TrieNodeID::Leaf) => {
            let at = 1 + (path_prefix_spec(a)->Ok_0).len() as int;
            lemma_path(a, b);
            lemma_same_part(a, b, all, at, at + 40);
            if (marker / 16) % 2 == 1 {
                lemma_extent(a, b, all, at + 40);
            }
        },
        Some(TrieNodeID::ValueLeaf) => {
            let at = 1 + (path_prefix_spec(a)->Ok_0).len() as int;
            lemma_path(a, b);
            lemma_extent(a, b, all, at);
        },
        Some(TrieNodeID::RawLeaf) => {
            let path = (raw_leaf::load_spec(a)->Ok_0).0;
            assert(a[0] == b[0]);
            lemma_same_part(a, b, all, 1, 1 + path.len() as int);
            lemma_same_part(a, b, all, 1 + path.len() as int, all);
        },
        Some(TrieNodeID::InlineLeaf) => {
            let at = 1 + (path_prefix_spec(a)->Ok_0).len() as int;
            lemma_path(a, b);
            lemma_same_rest(a, b, all, at);
            let x = a.subrange(at, a.len() as int);
            let y = b.subrange(at, b.len() as int);
            let first = x[0] as int;
            let second = x[1] as int;
            assert(y[0] == x[0] && y[1] == x[1]);
            lemma_same_part(x, y, all - at, 2, 2 + first);
            lemma_same_part(x, y, all - at, 2 + first, 2 + first + second);
            assert(Inline::decode(y) == Inline::decode(x));
        },
        _ => {},
    }
}

/// A patch body is decoded from its own bytes.
pub proof fn law_patch_body_is_local(marker: u8, a: Seq<u8>, b: Seq<u8>)
    requires
        Patch::load(marker, a) is Ok,
        same_start(a, b, (Patch::load(marker, a)->Ok_0).1 as int),
    ensures
        Patch::load(marker, b) == Patch::load(marker, a),
{
    let all = (Patch::load(marker, a)->Ok_0).1 as int;
    let at = (TriePtr::decode_compressed(a)->Ok_0).1 as int;
    lemma_compressed_pointer(a, b);
    assert(a[at] == b[at]);
    lemma_same_rest(a, b, all, at + 1);
    lemma_dense_list(
        a.subrange(at + 1, a.len() as int),
        b.subrange(at + 1, b.len() as int),
        (a[at] + 1) as nat,
    );
}

/// The envelope of a record is split off alike, however the bytes behind the record go on.
proof fn lemma_envelope(format: NodeRecordFormat, a: Seq<u8>, b: Seq<u8>, n: int)
    requires
        format.parsed(a) is Ok,
        same_start(a, b, n),
        (format.parsed(a)->Ok_0).prefix_len <= n,
    ensures
        format.parsed(b) is Ok,
        ({
            let x = format.parsed(a)->Ok_0;
            let y = format.parsed(b)->Ok_0;
            &&& y.format == x.format
            &&& y.marker == x.marker
            &&& y.hash == x.hash
            &&& y.prefix_len == x.prefix_len
            &&& same_start(x.payload, y.payload, n - x.prefix_len)
        }),
{
    let x = format.parsed(a)->Ok_0;
    let at = x.prefix_len as int;
    let start: int = if format is Legacy {
        0
    } else {
        1
    };
    lemma_same_rest(a, b, n, at);
    if x.hash is Some {
        lemma_same_part(a, b, n, start, start + 32);
    }
}

/// Decoding a complete record does not depend on what follows it: bytes that agree on all that the
/// record takes hold the same record, with the same hash, node and length.
pub proof fn law_node_decoding_is_local(
    format: NodeRecordFormat,
    a: Seq<u8>,
    b: Seq<u8>,
    expected_id: u8,
)
    requires
        format.parsed(a) is Ok,
        (format.parsed(a)->Ok_0).decode(expected_id) is Ok,
        same_start(a, b, ((format.parsed(a)->Ok_0).decode(expected_id)->Ok_0).1 as int),
    ensures
        format.parsed(b) is Ok,
        (format.parsed(b)->Ok_0).marker == (format.parsed(a)->Ok_0).marker,
        (format.parsed(b)->Ok_0).hash == (format.parsed(a)->Ok_0).hash,
        (format.parsed(b)->Ok_0).decode(expected_id) == (format.parsed(a)->Ok_0).decode(
            expected_id,
        ),
{
    reveal(Record::decode);
    let x = format.parsed(a)->Ok_0;
    let n = (x.decode(expected_id)->Ok_0).1 as int;
    lemma_envelope(format, a, b, n);
    let y = format.parsed(b)->Ok_0;
    let id = x.logical()->0;
    if id is Leaf {
        law_leaf_body_is_local(x.marker, x.payload, y.payload);
    } else if format.number() > 0 {
        let parts = BranchParts::parse(format, id, x.payload)->Ok_0;
        assert(n - x.prefix_len == parts.length());
        if format is TypeFirstV4 {
            law_packed_parse_is_local(id, x.payload, y.payload);
        } else {
            law_mapped_parse_is_local(id, x.payload, y.payload);
        }
    } else {
        law_branch_body_is_local(id, x.marker, x.payload, y.payload);
    }
}

/// Decoding a complete patch record does not depend on what follows it.
pub proof fn law_patch_decoding_is_local(format: NodeRecordFormat, a: Seq<u8>, b: Seq<u8>)
    requires
        format.parsed(a) is Ok,
        (format.parsed(a)->Ok_0).patch() is Ok,
        same_start(a, b, ((format.parsed(a)->Ok_0).patch()->Ok_0).1 as int),
    ensures
        format.parsed(b) is Ok,
        (format.parsed(b)->Ok_0).hash == (format.parsed(a)->Ok_0).hash,
        (format.parsed(b)->Ok_0).patch() == (format.parsed(a)->Ok_0).patch(),
{
    let x = format.parsed(a)->Ok_0;
    lemma_envelope(format, a, b, (x.patch()->Ok_0).1 as int);
    law_patch_body_is_local(x.marker, x.payload, (format.parsed(b)->Ok_0).payload);
}

/// A decoded node's record lies inside the bytes that it was decoded from.
proof fn lemma_decoded_len(format: NodeRecordFormat, bytes: Seq<u8>, expected_id: u8)
    requires
        format.parsed(bytes) is Ok,
        (format.parsed(bytes)->Ok_0).decode(expected_id) is Ok,
    ensures
        ((format.parsed(bytes)->Ok_0).decode(expected_id)->Ok_0).1 <= bytes.len(),
{
    reveal(Record::decode);
    reveal(Branch::load);
    reveal(Columns::parse);
    reveal(Directory::parse);
    let record = format.parsed(bytes)->Ok_0;
    assert(record.prefix_len + record.payload.len() == bytes.len());
    assert(record.logical() == Some(TrieNodeID::Leaf) ==> ((Leaf::load(
        record.marker,
        record.payload,
    )->Ok_0).1 <= record.payload.len()));
}

/// No record of a node that was cut short decodes, in any layout.
pub proof fn law_record_prefixes_are_refused(
    format: NodeRecordFormat,
    node: Node,
    hash: Seq<u8>,
    compressed: bool,
    len: int,
)
    requires
        storable(format, node, compressed),
        hash.len() == 32,
        format.node_record(node, hash, compressed) is Ok,
        0 <= len < (format.node_record(node, hash, compressed)->Ok_0).len(),
    ensures
        ({
            let cut = (format.node_record(node, hash, compressed)->Ok_0).subrange(0, len);
            format.parsed(cut) is Err || (format.parsed(cut)->Ok_0).decode(
                node.id().code(),
            ) is Err
        }),
{
    let whole = format.node_record(node, hash, compressed)->Ok_0;
    let cut = whole.subrange(0, len);
    let id = node.id().code();
    if format.parsed(cut) is Ok && (format.parsed(cut)->Ok_0).decode(id) is Ok {
        law_record_roundtrip(format, node, hash, compressed, Seq::empty());
        assert(whole + Seq::<u8>::empty() =~= whole);
        lemma_decoded_len(format, cut, id);
        law_node_decoding_is_local(format, cut, whole, id);
    }
}

} // verus!
