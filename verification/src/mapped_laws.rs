//! What writing a path-first branch and reading it back guarantees.
use vstd::prelude::*;

use crate::bitmap::{
    bitmap_of, column_of, lemma_bitmap_bits, lemma_bitmap_padding, lemma_column_entry,
    lemma_column_len, rank,
};
use crate::error::{Corruption, Error};
use crate::mapped_node::{
    index_byte, lemma_offset_bound, mapped_len, mapped_payload, offset_of, offset_spec, offsets_of,
    path_prefix_spec, pointer_bytes, selector_width, selectors_of, Directory,
};
use crate::node::{
    law_pointer_roundtrip, lemma_ptr_lens, lemma_slot_for, slot_for, Branch, TrieNodeID, TriePtr,
};
use crate::packed_branch::{
    edges_of, lemma_child_kinds, lemma_no_index_fault, lemma_no_slot_fault, lemma_position,
    packing_fault, position, repeats,
};
use crate::packed_laws::{canonical, lemma_no_repeats};
use crate::path::framed;
use crate::slots::{
    lemma_occupied_at, lemma_occupied_len, lemma_occupied_source, lemma_rank_is_place, occupancy,
    occupied, place,
};
use crate::words::{lemma_le_roundtrip, lemma_same_part, lemma_spans, same_start};

verus! {

/// The parts that a branch is written as.
pub open spec fn directory_of(branch: Branch) -> Directory {
    let children = occupied(branch.ptrs);
    Directory {
        id: branch.id,
        path: branch.path,
        bitmap: bitmap_of(occupancy(branch.ptrs)),
        selectors: selectors_of(branch),
        offsets: column_of(offsets_of(children), 2),
        pointers: pointer_bytes(children),
        length: mapped_len(branch),
    }
}

/// Pointer bytes are as long as the offsets say.
proof fn lemma_pointer_bytes_len(children: Seq<TriePtr>)
    ensures
        pointer_bytes(children).len() == offset_of(children, children.len()),
    decreases children.len(),
{
    if children.len() > 0 {
        let front = children.drop_last();
        lemma_pointer_bytes_len(front);
        lemma_ptr_lens(children.last());
        lemma_offset_prefix(children, front.len());
    }
}

proof fn lemma_offset_prefix(children: Seq<TriePtr>, n: nat)
    requires
        n < children.len(),
    ensures
        offset_of(children, n) == offset_of(children.drop_last(), n),
    decreases n,
{
    if n > 0 {
        lemma_offset_prefix(children, (n - 1) as nat);
    }
}

/// Each pointer's bytes are between its offsets.
proof fn lemma_pointer_bytes_at(children: Seq<TriePtr>, i: int)
    requires
        0 <= i < children.len(),
    ensures
        offset_of(children, i as nat) + children[i].compressed_len() == offset_of(
            children,
            (i + 1) as nat,
        ),
        offset_of(children, (i + 1) as nat) <= pointer_bytes(children).len(),
        pointer_bytes(children).subrange(
            offset_of(children, i as nat) as int,
            offset_of(children, (i + 1) as nat) as int,
        ) == children[i].compressed(),
    decreases children.len(),
{
    let front = children.drop_last();
    let all = pointer_bytes(children);
    lemma_pointer_bytes_len(children);
    lemma_pointer_bytes_len(front);
    lemma_ptr_lens(children[i]);
    lemma_offset_prefix(children, i as nat);
    if i < front.len() {
        lemma_pointer_bytes_at(front, i);
        lemma_offset_prefix(children, (i + 1) as nat);
        assert(all.subrange(
            offset_of(children, i as nat) as int,
            offset_of(children, (i + 1) as nat) as int,
        ) =~= pointer_bytes(front).subrange(
            offset_of(front, i as nat) as int,
            offset_of(front, (i + 1) as nat) as int,
        ));
    } else {
        assert(all.subrange(
            offset_of(children, i as nat) as int,
            offset_of(children, (i + 1) as nat) as int,
        ) =~= children[i].compressed());
    }
}

proof fn lemma_directory_entry(children: Seq<TriePtr>, i: int)
    requires
        0 <= i <= children.len() <= 256,
    ensures
        offset_spec(column_of(offsets_of(children), 2), i) == offset_of(children, i as nat),
{
    lemma_spans();
    lemma_offset_bound(children, i as nat);
    lemma_column_entry(offsets_of(children), 2, i);
    lemma_le_roundtrip(offset_of(children, i as nat), 2);
}

pub proof fn lemma_directory_parts(branch: Branch)
    requires
        branch.wf(),
    ensures
        directory_of(branch).wf(),
        directory_of(branch).count() == occupied(branch.ptrs).len(),
        directory_of(branch).pointers.len() == offset_of(
            occupied(branch.ptrs),
            occupied(branch.ptrs).len(),
        ),
        mapped_payload(branch).len() == mapped_len(branch),
{
    let children = occupied(branch.ptrs);
    lemma_occupied_len(branch.ptrs);
    lemma_rank_is_place(branch.ptrs, branch.ptrs.len() as int);
    lemma_column_len(offsets_of(children), 2);
    lemma_pointer_bytes_len(children);
}

/// Where the parts of a concatenation are.
proof fn lemma_layout(
    path: Seq<u8>,
    s1: Seq<u8>,
    s2: Seq<u8>,
    s3: Seq<u8>,
    s4: Seq<u8>,
    tail: Seq<u8>,
)
    requires
        path.len() <= 32,
    ensures
        ({
            let whole = framed(path) + s1 + s2 + s3 + s4 + tail;
            let a0 = 1 + path.len() as int;
            let a1 = a0 + s1.len();
            let a2 = a1 + s2.len();
            let a3 = a2 + s3.len();
            let a4 = a3 + s4.len();
            &&& whole.len() == a4 + tail.len()
            &&& whole[0] == path.len()
            &&& whole.subrange(1, a0) == path
            &&& whole.subrange(a0, a1) == s1
            &&& whole.subrange(a1, a2) == s2
            &&& whole.subrange(a2, a3) == s3
            &&& whole.subrange(a3, a4) == s4
        }),
{
    let whole = framed(path) + s1 + s2 + s3 + s4 + tail;
    let a0 = 1 + path.len() as int;
    let a1 = a0 + s1.len();
    let a2 = a1 + s2.len();
    let a3 = a2 + s3.len();
    let a4 = a3 + s4.len();
    assert(whole.subrange(1, a0) =~= path);
    assert(whole.subrange(a0, a1) =~= s1);
    assert(whole.subrange(a1, a2) =~= s2);
    assert(whole.subrange(a2, a3) =~= s3);
    assert(whole.subrange(a3, a4) =~= s4);
}

/// Parsing a path-first payload finds exactly the parts that were written, whatever follows them.
pub proof fn law_parse_finds_directory(branch: Branch, tail: Seq<u8>)
    requires
        branch.wf(),
        packing_fault(branch) is None,
    ensures
        Directory::parse(branch.id, mapped_payload(branch) + tail) == Ok::<Directory, Error>(
            directory_of(branch),
        ),
        mapped_payload(branch).len() == mapped_len(branch),
{
    reveal(Directory::parse);
    let children = occupied(branch.ptrs);
    let d = directory_of(branch);
    let bytes = mapped_payload(branch) + tail;
    lemma_directory_parts(branch);
    lemma_occupied_len(branch.ptrs);
    lemma_layout(branch.path, d.bitmap, d.selectors, d.offsets, d.pointers, tail);
    lemma_directory_entry(children, 0);
    lemma_directory_entry(children, children.len() as int);
    lemma_no_repeats(branch);
    if branch.id is Node4 {
        lemma_bitmap_padding(occupancy(branch.ptrs));
        reveal(crate::bitmap::dirty_padding);
    }
    let a1 = 1 + branch.path.len() as int + d.bitmap.len();
    assert(Directory::split(branch.id, bytes, branch.path, d.bitmap, a1) == Ok::<
        Directory,
        Error,
    >(d));
}

/// The directory gives every child back at its place.
#[verifier::spinoff_prover]
#[verifier::rlimit(60)]
proof fn lemma_mapped_pointer(branch: Branch, i: int)
    requires
        branch.wf(),
        packing_fault(branch) is None,
        canonical(branch.ptrs),
        0 <= i < occupied(branch.ptrs).len(),
    ensures
        directory_of(branch).pointer_at(i) == Ok::<TriePtr, Error>(occupied(branch.ptrs)[i]),
{
    let children = occupied(branch.ptrs);
    let d = directory_of(branch);
    let ptr = children[i];
    let slot = lemma_occupied_source(branch.ptrs, i);
    lemma_occupied_len(branch.ptrs);
    lemma_child_kinds(branch);
    lemma_directory_entry(children, i);
    lemma_directory_entry(children, i + 1);
    lemma_pointer_bytes_at(children, i);
    assert(TriePtr::plain_id(ptr.id) == ptr.id);
    law_pointer_roundtrip(ptr, Seq::empty());
    assert(ptr.compressed() + Seq::<u8>::empty() =~= ptr.compressed());
}

/// Selecting an edge in a path-first payload is walking that edge in the branch.
pub proof fn law_mapped_child_is_walk(branch: Branch, chr: u8)
    requires
        branch.wf(),
        packing_fault(branch) is None,
        canonical(branch.ptrs),
    ensures
        directory_of(branch).child(chr) == Ok::<Option<TriePtr>, Error>(branch.walk(chr)),
{
    let d = directory_of(branch);
    let ptrs = branch.ptrs;
    let children = occupied(ptrs);
    match branch.id {
        TrieNodeID::Node48 => {
            let slot = branch.indexes[chr as int] as int;
            lemma_no_index_fault(branch, 0, chr as int);
            assert(d.selectors[chr as int] == index_byte(branch.indexes[chr as int]));
            if slot != -1 {
                lemma_bitmap_bits(occupancy(ptrs), slot);
                lemma_rank_is_place(ptrs, slot);
                lemma_occupied_at(ptrs, slot);
                lemma_mapped_pointer(branch, place(ptrs, slot) as int);
            }
        },
        TrieNodeID::Node256 => {
            let slot = chr as int;
            lemma_bitmap_bits(occupancy(ptrs), slot);
            lemma_rank_is_place(ptrs, slot);
            if ptrs[slot].id != 0 {
                lemma_occupied_at(ptrs, slot);
                lemma_mapped_pointer(branch, place(ptrs, slot) as int);
                lemma_no_slot_fault(branch, 0, slot);
            }
        },
        _ => {
            lemma_position(edges_of(children), chr, 0);
            lemma_slot_for(ptrs, chr, 0);
            match slot_for(ptrs, chr, 0) {
                Some(slot) => {
                    lemma_occupied_at(ptrs, slot);
                    let at = place(ptrs, slot) as int;
                    assert(edges_of(children)[at] == chr);
                    lemma_mapped_pointer(branch, at);
                    let found = position(edges_of(children), chr, 0)->0;
                    lemma_no_repeats(branch);
                    assert(found == at);
                },
                None => {
                    if position(edges_of(children), chr, 0) is Some {
                        let at = position(edges_of(children), chr, 0)->0;
                        let slot = lemma_occupied_source(ptrs, at);
                        assert(ptrs[slot].chr == chr);
                    }
                },
            }
        },
    }
}

/// The first slots of a written branch come back as they were.
proof fn lemma_mapped_slots(branch: Branch, slots: nat)
    requires
        branch.wf(),
        packing_fault(branch) is None,
        canonical(branch.ptrs),
        slots <= branch.ptrs.len(),
    ensures
        directory_of(branch).slots_back(slots) == Ok::<Seq<TriePtr>, Error>(
            branch.ptrs.subrange(0, slots as int),
        ),
    decreases slots,
{
    let d = directory_of(branch);
    let ptrs = branch.ptrs;
    if slots == 0 {
        assert(ptrs.subrange(0, 0) =~= Seq::<TriePtr>::empty());
    } else {
        let slot = slots - 1;
        lemma_mapped_slots(branch, slot as nat);
        assert(ptrs.subrange(0, slots as int) =~= ptrs.subrange(0, slot).push(ptrs[slot]));
        lemma_bitmap_bits(occupancy(ptrs), slot);
        lemma_rank_is_place(ptrs, slot);
        if ptrs[slot].id != 0 {
            lemma_occupied_at(ptrs, slot);
            lemma_mapped_pointer(branch, place(ptrs, slot) as int);
            lemma_no_slot_fault(branch, 0, slot);
            assert(d.misplaced(slot, ptrs[slot]) is None);
        }
    }
}

/// Reading a whole path-first payload back gives the branch that was written.
pub proof fn law_mapped_branch_roundtrip(branch: Branch)
    requires
        branch.wf(),
        packing_fault(branch) is None,
        canonical(branch.ptrs),
    ensures
        directory_of(branch).to_branch() == Ok::<Branch, Error>(branch),
{
    reveal(Directory::to_branch);
    let d = directory_of(branch);
    lemma_mapped_slots(branch, branch.ptrs.len());
    assert(branch.ptrs.subrange(0, branch.ptrs.len() as int) =~= branch.ptrs);
    if branch.id is Node48 {
        assert forall|e: int| 0 <= e < 256 implies #[trigger] d.comes_back(branch.ptrs, e)
            && d.slot_table()[e] == branch.indexes[e] by {
            lemma_no_index_fault(branch, 0, e);
            assert(d.selectors[e] == index_byte(branch.indexes[e]));
        }
        assert forall|e: int| 0 <= e < 256 implies d.slot_table()[e] == branch.indexes[e] by {
            assert(d.comes_back(branch.ptrs, e));
        }
        assert(d.slot_table() =~= branch.indexes);
    } else {
        assert(branch.indexes =~= Seq::<i8>::empty());
    }
}

/// No path-first payload is longer than the bound for its branch type.
pub proof fn law_mapped_len_is_bounded(branch: Branch)
    requires
        branch.wf(),
    ensures
        mapped_len(branch) <= 33 + (branch.id.slots() + 7) / 8 + selector_width(
            branch.id.slots(),
            branch.id.slots(),
        ) + (branch.id.slots() + 1) * 2 + branch.id.slots() * 14,
{
    let children = occupied(branch.ptrs);
    lemma_occupied_len(branch.ptrs);
    lemma_offset_bound(children, children.len());
}

/// What a path-first payload takes is all that parsing it looks at.
#[verifier::spinoff_prover]
#[verifier::rlimit(60)]
pub proof fn law_mapped_parse_is_local(id: TrieNodeID, a: Seq<u8>, b: Seq<u8>)
    requires
        Directory::parse(id, a) is Ok,
        same_start(a, b, (Directory::parse(id, a)->Ok_0).length as int),
    ensures
        Directory::parse(id, b) == Directory::parse(id, a),
{
    reveal(Directory::parse);
    let d = Directory::parse(id, a)->Ok_0;
    let n = d.length as int;
    let path = path_prefix_spec(a)->Ok_0;
    let a0 = 1 + path.len() as int;
    let a1 = a0 + (id.slots() as int + 7) / 8;
    let a2 = a1 + selector_width(id.slots(), rank(d.bitmap, id.slots())) as int;
    let a3 = a2 + 2 * (rank(d.bitmap, id.slots()) as int + 1);
    lemma_same_part(a, b, n, 1, a0);
    lemma_same_part(a, b, n, a0, a1);
    lemma_same_part(a, b, n, a1, a2);
    lemma_same_part(a, b, n, a2, a3);
    lemma_same_part(a, b, n, a3, n);
    assert(path_prefix_spec(b) == Ok::<Seq<u8>, Error>(path));
    assert(Directory::split(id, b, path, d.bitmap, a1) == Ok::<Directory, Error>(d));
}

/// A parsed payload lies inside the bytes that it was parsed from.
proof fn lemma_parsed_len(id: TrieNodeID, bytes: Seq<u8>)
    requires
        Directory::parse(id, bytes) is Ok,
    ensures
        (Directory::parse(id, bytes)->Ok_0).length <= bytes.len(),
{
    reveal(Directory::parse);
}

/// No path-first payload that was cut short is accepted.
pub proof fn law_mapped_prefixes_are_refused(branch: Branch, len: int)
    requires
        branch.wf(),
        packing_fault(branch) is None,
        0 <= len < mapped_payload(branch).len(),
    ensures
        Directory::parse(branch.id, mapped_payload(branch).subrange(0, len)) is Err,
{
    let whole = mapped_payload(branch);
    let front = whole.subrange(0, len);
    if Directory::parse(branch.id, front) is Ok {
        law_parse_finds_directory(branch, Seq::empty());
        assert(whole + Seq::<u8>::empty() =~= whole);
        lemma_parsed_len(branch.id, front);
        law_mapped_parse_is_local(branch.id, front, whole);
    }
}

/// A path-first payload in which one child is given another selector.
pub open spec fn with_selector(branch: Branch, i: int, key: u8) -> Seq<u8> {
    mapped_payload(branch).update(
        1 + branch.path.len() + directory_of(branch).bitmap.len() + i,
        key,
    )
}

#[verifier::spinoff_prover]
#[verifier::rlimit(60)]
proof fn lemma_with_selector(branch: Branch, i: int, key: u8, tail: Seq<u8>)
    requires
        branch.wf(),
        packing_fault(branch) is None,
        branch.id is Node4 || branch.id is Node16,
        0 <= i < occupied(branch.ptrs).len(),
        forall|j: int|
            0 <= j < occupied(branch.ptrs).len() ==> (#[trigger] occupied(branch.ptrs)[j]).chr
                != key,
    ensures
        Directory::parse(branch.id, with_selector(branch, i, key) + tail) == Ok::<
            Directory,
            Error,
        >(
            Directory {
                selectors: directory_of(branch).selectors.update(i, key),
                ..directory_of(branch)
            },
        ),
{
    reveal(Directory::parse);
    let children = occupied(branch.ptrs);
    let d = directory_of(branch);
    let selectors = d.selectors.update(i, key);
    let bytes = with_selector(branch, i, key) + tail;
    lemma_directory_parts(branch);
    lemma_occupied_len(branch.ptrs);
    let before = framed(branch.path) + d.bitmap;
    let after = d.offsets + d.pointers;
    assert(mapped_payload(branch) =~= before + d.selectors + after);
    assert(with_selector(branch, i, key) =~= before + selectors + after);
    assert(bytes =~= framed(branch.path) + d.bitmap + selectors + d.offsets + d.pointers + tail);
    lemma_layout(branch.path, d.bitmap, selectors, d.offsets, d.pointers, tail);
    lemma_directory_entry(children, 0);
    lemma_directory_entry(children, children.len() as int);
    lemma_no_repeats(branch);
    assert(!repeats(selectors)) by {
        if repeats(selectors) {
            let (a, b) = choose|a: int, b: int|
                0 <= a < b < selectors.len() && selectors[a] == selectors[b];
            assert(edges_of(children)[a] == children[a].chr);
            assert(edges_of(children)[b] == children[b].chr);
        }
    }
    if branch.id is Node4 {
        lemma_bitmap_padding(occupancy(branch.ptrs));
        reveal(crate::bitmap::dirty_padding);
    }
    let a1 = 1 + branch.path.len() as int + d.bitmap.len();
    assert(Directory::split(branch.id, bytes, branch.path, d.bitmap, a1) is Ok);
}

/// A selector that disagrees with the pointer that it leads to is refused: where a child of a small
/// branch is given an unused selector, the lookup along that selector fails, the child's own edge
/// leads nowhere, and every other lookup is what it was.
pub proof fn law_changed_selector_is_refused(
    branch: Branch,
    i: int,
    key: u8,
    tail: Seq<u8>,
    chr: u8,
)
    requires
        branch.wf(),
        packing_fault(branch) is None,
        canonical(branch.ptrs),
        branch.id is Node4 || branch.id is Node16,
        0 <= i < occupied(branch.ptrs).len(),
        forall|j: int|
            0 <= j < occupied(branch.ptrs).len() ==> (#[trigger] occupied(branch.ptrs)[j]).chr
                != key,
    ensures
        Directory::parse(branch.id, with_selector(branch, i, key) + tail) is Ok,
        (Directory::parse(branch.id, with_selector(branch, i, key) + tail)->Ok_0).child(chr)
            == if chr == key {
            Err::<Option<TriePtr>, Error>(Error::CorruptionError(Corruption::SelectorDisagrees))
        } else if chr == occupied(branch.ptrs)[i].chr {
            Ok(None)
        } else {
            Ok(branch.walk(chr))
        },
{
    let children = occupied(branch.ptrs);
    let edges = edges_of(children);
    let d = directory_of(branch);
    let selectors = d.selectors.update(i, key);
    let changed = Directory { selectors, ..d };
    lemma_with_selector(branch, i, key, tail);
    lemma_directory_parts(branch);
    lemma_occupied_len(branch.ptrs);
    lemma_mapped_pointer(branch, i);
    assert(changed.pointer_at(i) == d.pointer_at(i));
    law_mapped_child_is_walk(branch, chr);
    lemma_no_repeats(branch);
    lemma_position(selectors, chr, 0);
    lemma_position(edges, chr, 0);
    assert(d.selectors =~= edges);
    assert(edges[i] == children[i].chr);
    match position(selectors, chr, 0) {
        Some(j) => {
            if chr == key {
                assert(selectors[i] == key);
                if j != i {
                    assert(edges[j] == children[j].chr);
                }
            } else {
                assert(edges[j] == chr);
                let found = position(edges, chr, 0)->0;
                assert(found == j);
                assert(changed.pointer_at(j) == d.pointer_at(j));
            }
        },
        None => {
            if chr == key {
                assert(selectors[i] == key);
            } else if position(edges, chr, 0) is Some {
                let found = position(edges, chr, 0)->0;
                assert(selectors[found] != chr);
                assert(found == i);
            }
        },
    }
}

} // verus!
