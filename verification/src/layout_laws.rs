//! Where the parts of stored things stand in their bytes.
use vstd::prelude::*;

use crate::bitmap::{
    bit, bitmap_of, column_of, lemma_bitmap_bits, lemma_column_entry, lemma_column_len,
    lemma_nibbles, nibble, nibbles_of, slot_bit,
};
use crate::bits::{plain_bytes, plain_len};
use crate::error::Error;
use crate::inline_value::Inline;
use crate::leaf::{Leaf, Node};
use crate::mapped_node::{
    index_byte, mapped_payload, offset_of, offsets_of, path_prefix_spec, pointer_bytes,
};
use crate::merkle_proof::{flat, Step};
use crate::node::{Branch, TriePtr};
use crate::packed_branch::{
    coded_target_width, kind_of, kinds_of, largest_target, max_origin, max_target, origin_flags,
    origin_width_spec, packed_payload, target_width_spec, targets_of,
};
use crate::patch::Patch;
use crate::path::framed;
use crate::proof_codec::{node_wire, sendable, step_wire};
use crate::raw_leaf::{mode_width, raw_payload, value_mode_spec};
use crate::record::NodeRecordFormat;
use crate::slots::{occupancy, occupied};
use crate::value::{zero_from, Extent};
use crate::words::{
    be_bytes, be_value, le_bytes, le_value, lemma_be_len, lemma_be_roundtrip, lemma_le_len,
    lemma_le_roundtrip, lemma_span_monotone, lemma_spans, span,
};

verus! {

/// The bytes of a number are its digits to the base of 256: those of the little-endian form from the
/// lowest up, and those of the big-endian form from the highest down.
pub proof fn law_bytes_are_digits(n: nat, width: nat, i: int)
    requires
        0 <= i < width,
    ensures
        le_bytes(n, width)[i] == (n / span(i as nat)) % 256,
        be_bytes(n, width)[width - 1 - i] == (n / span(i as nat)) % 256,
    decreases width,
{
    let rest = (width - 1) as nat;
    lemma_le_len(n / 256, rest);
    lemma_be_len(n / 256, rest);
    lemma_span_monotone(0, i as nat);
    if i > 0 {
        law_bytes_are_digits(n / 256, rest, i - 1);
        let below = span((i - 1) as nat);
        lemma_span_monotone(0, (i - 1) as nat);
        vstd::arithmetic::div_mod::lemma_div_denominator(n as int, 256, below as int);
        assert(span(i as nat) == 256 * below);
        assert(le_bytes(n, width)[i] == le_bytes(n / 256, rest)[i - 1]);
        assert(be_bytes(n, width)[width - 1 - i] == be_bytes(n / 256, rest)[width - 1 - i]);
    } else {
        assert(span(0) == 1);
    }
}

/// Where a child pointer's parts stand in its encodings: the type with a mark for a wide offset, the
/// byte, the offset in four or eight bytes, and the block. The compressed encoding keeps the block of
/// a back-pointer, and under a mark any other block that there is.
pub proof fn law_pointer_layout(ptr: TriePtr)
    requires
        TriePtr::plain_id(ptr.id) == ptr.id,
    ensures
        ({
            let width: int = if ptr.ptr > 0xffff_ffff {
                8
            } else {
                4
            };
            let plain = ptr.encoded();
            let short = ptr.compressed();
            let kept = ptr.id >= 128 || ptr.back_block != 0;
            &&& plain.len() == 6 + width
            &&& plain[0] == ptr.id + (if width == 8 { 32int } else { 0 })
            &&& plain[1] == ptr.chr
            &&& be_value(plain.subrange(2, 2 + width)) == ptr.ptr
            &&& be_value(plain.subrange(2 + width, 6 + width)) == ptr.back_block
            &&& short.len() == 2 + width + (if kept { 4int } else { 0 })
            &&& short[0] == ptr.id + (if width == 8 { 32int } else { 0 }) + (if ptr.id < 128
                && ptr.back_block != 0 { 16int } else { 0 })
            &&& short[1] == ptr.chr
            &&& be_value(short.subrange(2, 2 + width)) == ptr.ptr
            &&& kept ==> be_value(short.subrange(2 + width, 6 + width)) == ptr.back_block
        }),
{
    lemma_spans();
    let width = ptr.offset_width();
    lemma_be_len(ptr.ptr as nat, width);
    lemma_be_len(ptr.back_block as nat, 4);
    lemma_be_roundtrip(ptr.ptr as nat, width);
    lemma_be_roundtrip(ptr.back_block as nat, 4);
    let w = width as int;
    assert(ptr.encoded().subrange(2, 2 + w) =~= be_bytes(ptr.ptr as nat, width));
    assert(ptr.encoded().subrange(2 + w, 6 + w) =~= be_bytes(ptr.back_block as nat, 4));
    assert(ptr.compressed().subrange(2, 2 + w) =~= be_bytes(ptr.ptr as nat, width));
    if ptr.keeps_block() {
        assert(ptr.compressed().subrange(2 + w, 6 + w) =~= be_bytes(ptr.back_block as nat, 4));
    }
}

/// Where a locator's parts stand: the store, the offset and the length.
pub proof fn law_extent_layout(extent: Extent)
    requires
        extent.store_id.len() == 16,
    ensures
        extent.encoded().len() == 32,
        extent.encoded().subrange(0, 16) == extent.store_id,
        le_value(extent.encoded().subrange(16, 24)) == extent.offset,
        le_value(extent.encoded().subrange(24, 32)) == extent.length,
{
    lemma_spans();
    lemma_le_len(extent.offset as nat, 8);
    lemma_le_len(extent.length as nat, 8);
    lemma_le_roundtrip(extent.offset as nat, 8);
    lemma_le_roundtrip(extent.length as nat, 8);
    assert(extent.encoded().subrange(0, 16) =~= extent.store_id);
    assert(extent.encoded().subrange(16, 24) =~= le_bytes(extent.offset as nat, 8));
    assert(extent.encoded().subrange(24, 32) =~= le_bytes(extent.length as nat, 8));
}

/// Where a leaf's parts stand in its fixed encoding: the type, the path behind its length, the
/// value, and the locator if there is one, which the type is marked for. Without a locator it is
/// what the leaf's hash commits to.
pub proof fn law_leaf_layout(leaf: Leaf)
    requires
        leaf.wf(),
        leaf.data is Some,
    ensures
        ({
            let bytes = Node::Leaf(leaf).plain();
            let n = leaf.path.len() as int;
            &&& bytes.len() == 42 + n + (if leaf.extent is Some { 32int } else { 0 })
            &&& bytes[0] == (if leaf.extent is Some { 17int } else { 1 })
            &&& bytes[1] == n
            &&& bytes.subrange(2, 2 + n) == leaf.path
            &&& bytes.subrange(2 + n, 42 + n) == leaf.data->0
            &&& leaf.extent is Some ==> bytes.skip(42 + n) == leaf.extent->0.encoded()
            &&& leaf.extent is None ==> bytes == leaf.commitment()
            &&& Node::Leaf(leaf).compressed() == bytes
        }),
{
    let bytes = Node::Leaf(leaf).plain();
    let n = leaf.path.len() as int;
    if leaf.extent is Some {
        law_extent_layout(leaf.extent->0);
        assert(bytes.skip(42 + n) =~= leaf.extent->0.encoded());
    } else {
        assert(bytes =~= leaf.commitment());
    }
    assert(bytes.subrange(2, 2 + n) =~= leaf.path);
    assert(bytes.subrange(2 + n, 42 + n) =~= leaf.data->0);
}

proof fn lemma_plain_parts(ptrs: Seq<TriePtr>, i: int)
    requires
        0 <= i < ptrs.len(),
    ensures
        0 <= plain_len(ptrs, i as nat) <= plain_len(ptrs, (i + 1) as nat) <= plain_bytes(ptrs).len(),
        plain_bytes(ptrs).subrange(
            plain_len(ptrs, i as nat) as int,
            plain_len(ptrs, (i + 1) as nat) as int,
        ) == ptrs[i].encoded(),
    decreases ptrs.len(),
{
    let front = ptrs.drop_last();
    let last = ptrs.len() - 1;
    crate::bits::lemma_list_lens(ptrs);
    crate::bits::lemma_list_lens(front);
    crate::node::lemma_ptr_lens(ptrs[i]);
    crate::bits::lemma_plain_prefix(ptrs, last as nat);
    crate::bits::lemma_plain_prefix(ptrs, i as nat);
    let at = plain_len(ptrs, i as nat) as int;
    let next = plain_len(ptrs, (i + 1) as nat) as int;
    if i < last {
        crate::bits::lemma_plain_prefix(ptrs, (i + 1) as nat);
        lemma_plain_parts(front, i);
        assert(front[i] == ptrs[i]);
        assert(plain_len(front, i as nat) == at);
        assert(plain_len(front, (i + 1) as nat) == next);
        assert(plain_bytes(ptrs).subrange(at, next) =~= plain_bytes(front).subrange(at, next));
    } else {
        assert(plain_bytes(ptrs).subrange(at, next) =~= ptrs[i].encoded());
    }
}

/// Where a branch's parts stand in its fixed encoding: the type, the child pointers one after the
/// other, the selectors of a 48-slot branch, and the path behind its length.
pub proof fn law_branch_layout(branch: Branch, i: int)
    requires
        branch.wf(),
        0 <= i < branch.ptrs.len(),
    ensures
        ({
            let bytes = Node::Branch(branch).plain();
            let end = 1 + plain_len(branch.ptrs, branch.ptrs.len()) as int;
            let path = end + branch.indexes.len() as int;
            &&& bytes.len() == path + 1 + branch.path.len()
            &&& bytes[0] == branch.id.code()
            &&& bytes.subrange(
                1 + plain_len(branch.ptrs, i as nat) as int,
                1 + plain_len(branch.ptrs, (i + 1) as nat) as int,
            ) == branch.ptrs[i].encoded()
            &&& bytes[path] == branch.path.len()
            &&& bytes.skip(path + 1) == branch.path
        }),
{
    let bytes = Node::Branch(branch).plain();
    let end = 1 + plain_len(branch.ptrs, branch.ptrs.len()) as int;
    let path = end + branch.indexes.len() as int;
    crate::bits::lemma_list_lens(branch.ptrs);
    lemma_plain_parts(branch.ptrs, i);
    let at = plain_len(branch.ptrs, i as nat) as int;
    let next = plain_len(branch.ptrs, (i + 1) as nat) as int;
    assert(bytes.subrange(1 + at, 1 + next) =~= plain_bytes(branch.ptrs).subrange(at, next));
    assert(bytes.skip(path + 1) =~= branch.path);
}

/// Where the marker and the hash stand in records: the hash first in historical ones and the marker
/// first in others. Leaves whose hash is not stored have their marker first.
pub proof fn law_record_layout(
    format: NodeRecordFormat,
    node: Node,
    hash: Seq<u8>,
    compressed: bool,
)
    requires
        hash.len() == 32,
        node.wf(),
        format.node_record(node, hash, compressed) is Ok,
    ensures
        ({
            let record = format.node_record(node, hash, compressed)->Ok_0;
            match node {
                Node::Branch(branch) => if format is Legacy {
                    &&& record.subrange(0, 32) == hash
                    &&& record.skip(32) == node.encoded(compressed)
                } else {
                    &&& record[0] == branch.id.code()
                    &&& record.subrange(1, 33) == hash
                },
                Node::Leaf(leaf) => {
                    &&& leaf.inline is Some ==> record[0] == 9
                    &&& leaf.inline is None && leaf.extent is Some && format.number() > 0
                        ==> record[0] == 7
                    &&& leaf.inline is None && leaf.extent is None && format.number() > 1
                        ==> record[0] == 8
                    &&& leaf.inline is None && leaf.extent is None && format.number() == 1 ==> {
                        &&& record[0] == 1
                        &&& record.subrange(1, 33) == hash
                        &&& record.skip(33) == leaf.commitment().skip(1)
                    }
                    &&& format is Legacy ==> record.subrange(0, 32) == hash && record.skip(32)
                        == node.encoded(compressed)
                },
            }
        }),
{
    let record = format.node_record(node, hash, compressed)->Ok_0;
    if format is Legacy {
        assert(record.subrange(0, 32) =~= hash);
        assert(record.skip(32) =~= node.encoded(compressed));
    } else {
        match node {
            Node::Branch(branch) => {
                assert(record.subrange(1, 33) =~= hash);
            },
            Node::Leaf(leaf) => {
                if leaf.inline is None && leaf.extent is None && format.number() == 1 {
                    assert(record.subrange(1, 33) =~= hash);
                    assert(record.skip(33) =~= leaf.commitment().skip(1));
                }
            },
        }
    }
}

/// A raw leaf keeps of its value the shortest part that a leaf can keep and be read back from, and
/// says in the two high bits of its first byte which that is.
pub proof fn law_raw_leaf_layout(path: Seq<u8>, value: Seq<u8>, mode: int)
    requires
        path.len() <= 32,
        value.len() == 40,
        0 <= mode <= 3,
        zero_from(value, mode_width(mode) as int),
    ensures
        ({
            let kept = mode_width(value_mode_spec(value)) as int;
            let payload = raw_payload(path, value);
            &&& kept <= mode_width(mode)
            &&& zero_from(value, kept)
            &&& payload.len() == 1 + path.len() + kept
            &&& payload[0] % 64 == path.len()
            &&& mode_width(payload[0] as int / 64) == kept
            &&& payload.subrange(1, 1 + path.len() as int) == path
            &&& payload.skip(1 + path.len() as int) == value.take(kept)
        }),
{
    let payload = raw_payload(path, value);
    let kept = mode_width(value_mode_spec(value)) as int;
    assert(payload.subrange(1, 1 + path.len() as int) =~= path);
    assert(payload.skip(1 + path.len() as int) =~= value.take(kept));
}

/// Where an inline value's parts stand: both lengths, the record and the descriptor.
pub proof fn law_inline_layout(value: Inline)
    requires
        value.bounded(),
    ensures
        value.encoded().len() == 2 + value.record.len() + value.descriptor.len(),
        value.encoded()[0] == value.record.len(),
        value.encoded()[1] == value.descriptor.len(),
        value.encoded().subrange(2, 2 + value.record.len() as int) == value.record,
        value.encoded().skip(2 + value.record.len() as int) == value.descriptor,
{
    assert(value.encoded().subrange(2, 2 + value.record.len() as int) =~= value.record);
    assert(value.encoded().skip(2 + value.record.len() as int) =~= value.descriptor);
}

/// Where a patch's parts stand: its marker, the pointer to what it patches, how many children differ
/// beyond the first, and these.
pub proof fn law_patch_layout(patch: Patch)
    requires
        patch.wf(),
    ensures
        ({
            let n = patch.ptr.compressed().len() as int;
            &&& patch.encoded()[0] == 6
            &&& patch.encoded().subrange(1, 1 + n) == patch.ptr.compressed()
            &&& patch.encoded()[1 + n] + 1 == patch.diff.len()
            &&& patch.encoded().skip(2 + n).len() == crate::bits::dense_size(patch.diff)
        }),
{
    let n = patch.ptr.compressed().len() as int;
    crate::bits::lemma_list_lens(patch.diff);
    assert(patch.encoded().subrange(1, 1 + n) =~= patch.ptr.compressed());
}

/// Where the parts of a proof's step stand on the wire: its type first, then the byte of a branch or
/// leaf, or the place of a shunt; hashes come last.
pub proof fn law_step_layout(step: Step)
    requires
        sendable(step),
    ensures
        match step {
            Step::Branch { chr, node, hashes, capacity } => {
                let at = 11 + node.path.len() as int;
                &&& step_wire(step)[0] < 4
                &&& crate::proof_codec::tag_capacity(step_wire(step)[0]) == capacity
                &&& step_wire(step)[1] == chr
                &&& step_wire(step)[2] == node.id
                &&& be_value(step_wire(step).subrange(3, 7)) == node.path.len()
                &&& step_wire(step).subrange(7, 7 + node.path.len() as int) == node.path
                &&& be_value(step_wire(step).subrange(at - 4, at)) == node.ptrs.len()
                &&& step_wire(step).skip(2 + node_wire(node).len() as int) == flat(hashes)
            },
            Step::Leaf { chr, leaf } => {
                &&& step_wire(step)[0] == 4
                &&& step_wire(step)[1] == chr
                &&& be_value(step_wire(step).subrange(2, 6)) == leaf.path.len()
                &&& step_wire(step).subrange(6, 6 + leaf.path.len() as int) == leaf.path
                &&& step_wire(step).skip(6 + leaf.path.len() as int) == leaf.data->0
            },
            Step::Shunt { idx, hashes } => {
                &&& step_wire(step)[0] == 5
                &&& idx >= 0 ==> be_value(step_wire(step).subrange(1, 9)) == idx
                &&& idx < 0 ==> be_value(step_wire(step).subrange(1, 9)) - 0x1_0000_0000_0000_0000
                    == idx
                &&& be_value(step_wire(step).subrange(9, 13)) == hashes.len()
                &&& step_wire(step).skip(13) == flat(hashes)
            },
        },
{
    lemma_spans();
    let bytes = step_wire(step);
    match step {
        Step::Branch { chr, node, hashes, capacity } => {
            let at = 11 + node.path.len() as int;
            lemma_be_len(node.path.len(), 4);
            lemma_be_len(node.ptrs.len(), 4);
            lemma_be_roundtrip(node.path.len(), 4);
            lemma_be_roundtrip(node.ptrs.len(), 4);
            assert(bytes.subrange(3, 7) =~= be_bytes(node.path.len(), 4));
            assert(bytes.subrange(7, 7 + node.path.len() as int) =~= node.path);
            assert(bytes.subrange(at - 4, at) =~= be_bytes(node.ptrs.len(), 4));
            assert(bytes.skip(2 + node_wire(node).len() as int) =~= flat(hashes));
        },
        Step::Leaf { chr, leaf } => {
            lemma_be_len(leaf.path.len(), 4);
            lemma_be_roundtrip(leaf.path.len(), 4);
            assert(bytes.subrange(2, 6) =~= be_bytes(leaf.path.len(), 4));
            assert(bytes.subrange(6, 6 + leaf.path.len() as int) =~= leaf.path);
            assert(bytes.skip(6 + leaf.path.len() as int) =~= leaf.data->0);
        },
        Step::Shunt { idx, hashes } => {
            let number = crate::proof_codec::place_number(idx);
            lemma_be_len(number, 8);
            lemma_be_len(hashes.len(), 4);
            lemma_be_roundtrip(number, 8);
            lemma_be_roundtrip(hashes.len(), 4);
            assert(bytes.subrange(1, 9) =~= be_bytes(number, 8));
            assert(bytes.subrange(9, 13) =~= be_bytes(hashes.len(), 4));
            assert(bytes.skip(13) =~= flat(hashes));
        },
    }
}

/// The bits of a bitmap are those of its bytes, lowest first, and nibbles are a byte's lower half
/// before its upper one.
pub proof fn law_bitmap_layout(bitmap: Seq<u8>, slot: int)
    requires
        0 <= slot < 8 * bitmap.len(),
    ensures
        ({
            let byte = bitmap[slot / 8];
            let i = (slot % 8) as u8;
            slot_bit(bitmap, slot) == ((byte >> i) & 1 == 1)
        }),
        nibble(bitmap, 2 * (slot / 8)) == bitmap[slot / 8] & 0x0f,
        nibble(bitmap, 2 * (slot / 8) + 1) == bitmap[slot / 8] >> 4,
{
    reveal(bit);
    let byte = bitmap[slot / 8];
    assert(byte % 2 == (byte >> 0u8) & 1) by (bit_vector);
    assert((byte / 2) % 2 == (byte >> 1u8) & 1) by (bit_vector);
    assert((byte / 4) % 2 == (byte >> 2u8) & 1) by (bit_vector);
    assert((byte / 8) % 2 == (byte >> 3u8) & 1) by (bit_vector);
    assert((byte / 16) % 2 == (byte >> 4u8) & 1) by (bit_vector);
    assert((byte / 32) % 2 == (byte >> 5u8) & 1) by (bit_vector);
    assert((byte / 64) % 2 == (byte >> 6u8) & 1) by (bit_vector);
    assert((byte / 128) % 2 == (byte >> 7u8) & 1) by (bit_vector);
    assert(byte % 16 == byte & 0x0f) by (bit_vector);
    assert(byte / 16 == byte >> 4u8) by (bit_vector);
    assert((2 * (slot / 8)) / 2 == slot / 8 && (2 * (slot / 8)) % 2 == 0);
    assert((2 * (slot / 8) + 1) / 2 == slot / 8 && (2 * (slot / 8) + 1) % 2 == 1);
}

/// A path is read from its length and as many bytes behind it, and from nothing else; one of more than
/// 32 bytes is refused.
pub proof fn law_paths_are_framed(path: Seq<u8>, rest: Seq<u8>, bytes: Seq<u8>)
    ensures
        path.len() <= 32 ==> path_prefix_spec(framed(path) + rest) == Ok::<Seq<u8>, Error>(path),
        path_prefix_spec(bytes) matches Ok(found) ==> {
            &&& found.len() <= 32
            &&& found.len() == bytes[0]
            &&& bytes.take(1 + found.len() as int) == framed(found)
        },
        path_prefix_spec(bytes) is Err ==> bytes.len() == 0 || bytes[0] > 32 || bytes.len()
            <= bytes[0],
{
    if path.len() <= 32 {
        let all = framed(path) + rest;
        assert(all[0] == path.len());
        assert(all.subrange(1, 1 + path.len() as int) =~= path);
    }
    if path_prefix_spec(bytes) is Ok {
        let found = path_prefix_spec(bytes)->Ok_0;
        assert(bytes.take(1 + found.len() as int) =~= framed(found));
    }
}

/// Columns of targets and origins are as narrow as the widths that there are allow: every value fits,
/// and no narrower width would do.
pub proof fn law_columns_are_narrowest(target: u64, origin: u32, width: nat)
    ensures
        target < span(target_width_spec(target)),
        origin < span(origin_width_spec(origin)),
        width < target_width_spec(target) && (width == 2 || width == 3 || width == 4 || width == 8)
            ==> target >= span(width),
        0 < width < origin_width_spec(origin) ==> origin >= span(width),
{
    lemma_spans();
}

/// Where the parts of a mapped branch's payload stand: the path behind its length, a bit for each
/// slot that has a child, and at the end the children's pointers, right behind where each of them
/// starts and where they end.
pub proof fn law_mapped_layout(branch: Branch, slot: int, i: int)
    requires
        branch.wf(),
        0 <= slot < branch.ptrs.len(),
        0 <= i <= occupied(branch.ptrs).len(),
    ensures
        ({
            let payload = mapped_payload(branch);
            let children = occupied(branch.ptrs);
            let at = 1 + branch.path.len() as int;
            let bits = payload.subrange(at, at + (branch.ptrs.len() as int + 7) / 8);
            let from = payload.len() - pointer_bytes(children).len();
            let table = from - 2 * (children.len() as int + 1);
            &&& payload.take(at) == framed(branch.path)
            &&& slot_bit(bits, slot) == (branch.ptrs[slot].id != 0)
            &&& payload.skip(from) == pointer_bytes(children)
            &&& le_value(payload.subrange(table + 2 * i, table + 2 * i + 2)) == offset_of(
                children,
                i as nat,
            )
        }),
{
    let payload = mapped_payload(branch);
    let children = occupied(branch.ptrs);
    let flags = occupancy(branch.ptrs);
    let at = 1 + branch.path.len() as int;
    let width = (branch.ptrs.len() as int + 7) / 8;
    let offsets = column_of(offsets_of(children), 2);
    let from = payload.len() - pointer_bytes(children).len();
    let table = from - 2 * (children.len() as int + 1);
    assert(payload.take(at) =~= framed(branch.path));
    lemma_bitmap_bits(flags, slot);
    assert(payload.subrange(at, at + width) =~= bitmap_of(flags));
    assert(payload.skip(from) =~= pointer_bytes(children));
    lemma_column_len(offsets_of(children), 2);
    assert(payload.subrange(table, from) =~= offsets);
    lemma_column_entry(offsets_of(children), 2, i);
    assert(payload.subrange(table + 2 * i, table + 2 * i + 2) =~= offsets.subrange(
        i * 2,
        i * 2 + 2,
    ));
    crate::slots::lemma_occupied_len(branch.ptrs);
    crate::bits::lemma_list_len_bounds(children, i as nat);
    lemma_spans();
    lemma_le_roundtrip(offset_of(children, i as nat), 2);
}

/// Where the first parts of a packed branch's payload stand: the path behind its length, the widths of
/// its columns, and a bit for each slot that has a child.
pub proof fn law_packed_layout(branch: Branch, slot: int)
    requires
        branch.wf(),
        0 <= slot < branch.ptrs.len(),
    ensures
        ({
            let payload = packed_payload(branch);
            let children = occupied(branch.ptrs);
            let at = 2 + branch.path.len() as int;
            let bits = payload.subrange(at, at + (branch.ptrs.len() as int + 7) / 8);
            &&& payload.take(at - 1) == framed(branch.path)
            &&& payload[at - 1] < 16
            &&& coded_target_width(payload[at - 1] as int % 4) == target_width_spec(
                max_target(children),
            )
            &&& payload[at - 1] as int / 4 + 1 == origin_width_spec(max_origin(children))
            &&& slot_bit(bits, slot) == (branch.ptrs[slot].id != 0)
        }),
{
    let payload = packed_payload(branch);
    let flags = occupancy(branch.ptrs);
    let at = 2 + branch.path.len() as int;
    let width = (branch.ptrs.len() as int + 7) / 8;
    assert(payload.take(at - 1) =~= framed(branch.path));
    lemma_bitmap_bits(flags, slot);
    assert(payload.subrange(at, at + width) =~= bitmap_of(flags));
}

/// A compressed branch starts with its type, marked as compressed, and ends with its path behind its
/// length; the selectors of a 48-slot branch stand before that, a negative one as its two's complement.
pub proof fn law_compressed_branch_layout(branch: Branch, chr: int, compressed: bool)
    requires
        branch.wf(),
        0 <= chr < branch.indexes.len(),
    ensures
        ({
            let bytes = Node::Branch(branch).encoded(compressed);
            let n = bytes.len() as int;
            let p = branch.path.len() as int;
            let byte = bytes[n - p - 1 - branch.indexes.len() + chr];
            &&& bytes[0] == branch.id.code() + (if compressed { 64int } else { 0 })
            &&& bytes.skip(n - p) == branch.path
            &&& bytes[n - p - 1] == p
            &&& byte == branch.indexes[chr] + (if branch.indexes[chr] < 0 { 256int } else { 0 })
        }),
{
    let bytes = Node::Branch(branch).encoded(compressed);
    let n = bytes.len() as int;
    let p = branch.path.len() as int;
    assert(bytes.skip(n - p) =~= branch.path);
    assert(branch.table()[chr] == index_byte(branch.indexes[chr]));
    assert(bytes[n - p - 1 - branch.indexes.len() + chr] == branch.table()[chr]);
}

/// A child's kind in four bits: its node type in the lower three, and in the highest whether it is in
/// an ancestor trie.
pub proof fn law_kind_layout(ptr: TriePtr)
    requires
        ptr.id % 16 < 8,
    ensures
        kind_of(ptr) < 16,
        kind_of(ptr) % 8 == ptr.id % 16,
        kind_of(ptr) >= 8 <==> ptr.id >= 128,
{
}

/// Where the columns of a packed branch's payload stand, behind its bitmap: the selectors, the kinds of
/// the children in four bits each, a bit for each child that keeps its block, and the targets.
pub proof fn law_packed_columns_layout(branch: Branch, i: int)
    requires
        branch.wf(),
        0 <= i < occupied(branch.ptrs).len(),
        forall|k: int| 0 <= k < branch.ptrs.len() ==> (#[trigger] branch.ptrs[k]).id % 16 < 8,
    ensures
        ({
            let payload = packed_payload(branch);
            let children = occupied(branch.ptrs);
            let n = children.len() as int;
            let at = 2 + branch.path.len() as int + (branch.ptrs.len() as int + 7) / 8;
            let kinds = at + crate::packed_branch::selectors_of(branch).len() as int;
            let flags = kinds + (n + 1) / 2;
            let targets = flags + (n + 7) / 8;
            let width = target_width_spec(max_target(children)) as int;
            &&& payload.subrange(at, kinds) == crate::packed_branch::selectors_of(branch)
            &&& nibble(payload.subrange(kinds, flags), i) == kind_of(children[i])
            &&& slot_bit(payload.subrange(flags, targets), i) == (children[i].id >= 128
                || children[i].back_block != 0)
            &&& le_value(payload.subrange(targets + i * width, targets + i * width + width))
                == children[i].ptr
        }),
{
    let payload = packed_payload(branch);
    let children = occupied(branch.ptrs);
    let n = children.len() as int;
    let bits = bitmap_of(occupancy(branch.ptrs));
    let selectors = crate::packed_branch::selectors_of(branch);
    let nibbles = nibbles_of(kinds_of(children));
    let marks = bitmap_of(origin_flags(children));
    let width = target_width_spec(max_target(children));
    let column = column_of(targets_of(children), width);
    let at = 2 + branch.path.len() as int + (branch.ptrs.len() as int + 7) / 8;
    let kinds = at + selectors.len() as int;
    let flags = kinds + (n + 1) / 2;
    let targets = flags + (n + 7) / 8;
    let w = width as int;
    assert(payload.subrange(at, kinds) =~= selectors);
    assert(payload.subrange(kinds, flags) =~= nibbles);
    assert(payload.subrange(flags, targets) =~= marks);
    assert forall|k: int| 0 <= k < kinds_of(children).len() implies kinds_of(children)[k] < 16 by {
        let slot = crate::slots::lemma_occupied_source(branch.ptrs, k);
        assert(branch.ptrs[slot].id % 16 < 8);
    }
    lemma_nibbles(kinds_of(children));
    assert(nibble(nibbles, i) == kinds_of(children)[i]);
    lemma_bitmap_bits(origin_flags(children), i);
    lemma_column_len(targets_of(children), width);
    lemma_column_entry(targets_of(children), width, i);
    assert(payload.subrange(targets, targets + column.len()) =~= column);
    assert(payload.subrange(targets + i * w, targets + i * w + w) =~= column.subrange(
        i * w,
        i * w + w,
    ));
    crate::packed_laws::lemma_max_target(children, i);
    law_columns_are_narrowest(max_target(children), 0, 0);
    lemma_le_roundtrip(children[i].ptr as nat, width);
}

/// The largest mapped target of children is one of theirs, or zero, and none of theirs is larger; it
/// is had exactly if all of them are.
pub proof fn law_largest_target_is_largest(
    children: Seq<TriePtr>,
    table: spec_fn(TriePtr) -> Result<u64, Error>,
    n: nat,
    i: int,
)
    requires
        0 <= i < n <= children.len(),
    ensures
        largest_target(children, table, n) matches Ok(largest) ==> {
            &&& table(children[i]) matches Ok(target) && target <= largest
            &&& largest == 0 || exists|k: int|
                0 <= k < n && table(#[trigger] children[k]) == Ok::<u64, Error>(largest)
        },
        largest_target(children, table, n) matches Err(e) ==> exists|k: int|
            0 <= k < n && table(#[trigger] children[k]) == Err::<u64, Error>(e),
    decreases n,
{
    let last = n - 1;
    assert(children[last] == children[n - 1]);
    if last > 0 {
        law_largest_target_is_largest(
            children,
            table,
            last as nat,
            if i < last {
                i
            } else {
                0
            },
        );
    } else {
        assert(largest_target(children, table, 0) == Ok::<u64, Error>(0));
    }
}

} // verus!
