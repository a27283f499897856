//! What packing a branch and reading it back guarantees.
use vstd::prelude::*;

use crate::bitmap::{
    bitmap_of, column_of, column_value, count_true, lemma_bitmap_bits, lemma_bitmap_padding,
    lemma_bitmap_rank, lemma_column_entry, lemma_column_len, lemma_nibbles, lemma_sextets, nibble,
    nibbles_of, rank, sextet,
};
use crate::error::Error;
use crate::mapped_node::path_prefix_spec;
use crate::node::{lemma_slot_for, slot_for, Branch, TrieNodeID, TriePtr};
use crate::packed_branch::{
    coded_target_width, edge_taken, edges_of, kind_of, kinds_of, lemma_child_kinds,
    lemma_no_index_fault, lemma_no_slot_fault, lemma_position, max_origin, max_target, origin_flags,
    origin_width_spec, origins_of, packed_len, packed_payload, packing_fault, position, repeats,
    selector_len_spec, selectors_of, slot_codes, target_width_spec, targets_of, width_code,
    ColumnHead, ColumnMiddle, Columns,
};
use crate::path::framed;
use crate::slots::{
    lemma_occupied_at, lemma_occupied_len, lemma_occupied_source, lemma_place_monotone,
    lemma_rank_is_place, occupancy, occupied, place,
};
use crate::words::{lemma_le_roundtrip, lemma_same_part, lemma_spans, same_start};

verus! {

/// Slots as they are kept in memory: empty slots are blank, and node types carry no encoding bits.
pub open spec fn canonical(ptrs: Seq<TriePtr>) -> bool {
    forall|i: int|
        0 <= i < ptrs.len() ==> {
            let ptr = #[trigger] ptrs[i];
            if ptr.id == 0 {
                ptr == TriePtr::vacant()
            } else {
                ptr.id == ptr.id % 16 + (if ptr.id >= 128 {
                    128int
                } else {
                    0
                })
            }
        }
}

/// The columns that a branch is packed into.
pub open spec fn columns_of(branch: Branch) -> Columns {
    let children = occupied(branch.ptrs);
    Columns {
        id: branch.id,
        path: branch.path,
        occupancy: bitmap_of(occupancy(branch.ptrs)),
        selectors: selectors_of(branch),
        kinds: nibbles_of(kinds_of(children)),
        origin_bitmap: bitmap_of(origin_flags(children)),
        targets: column_of(targets_of(children), target_width_spec(max_target(children))),
        origins: column_of(origins_of(children), origin_width_spec(max_origin(children))),
        target_width: target_width_spec(max_target(children)),
        origin_width: origin_width_spec(max_origin(children)),
        length: packed_len(branch),
    }
}

pub(crate) proof fn lemma_max_target(children: Seq<TriePtr>, i: int)
    requires
        0 <= i < children.len(),
    ensures
        children[i].ptr <= max_target(children),
    decreases children.len(),
{
    if i < children.len() - 1 {
        lemma_max_target(children.drop_last(), i);
    }
}

proof fn lemma_max_origin(children: Seq<TriePtr>, i: int)
    requires
        0 <= i < children.len(),
    ensures
        children[i].back_block <= max_origin(children),
    decreases children.len(),
{
    if i < children.len() - 1 {
        lemma_max_origin(children.drop_last(), i);
    }
}

proof fn lemma_flag_count(children: Seq<TriePtr>, n: nat)
    requires
        n < children.len(),
    ensures
        count_true(origin_flags(children), n) == count_true(
            origin_flags(children.drop_last()),
            n,
        ),
    decreases n,
{
    if n > 0 {
        lemma_flag_count(children, (n - 1) as nat);
    }
}

/// There is one origin per flag.
proof fn lemma_origins_len(children: Seq<TriePtr>)
    ensures
        origins_of(children).len() == count_true(origin_flags(children), children.len()),
    decreases children.len(),
{
    if children.len() > 0 {
        let front = children.drop_last();
        lemma_origins_len(front);
        lemma_flag_count(children, front.len());
    }
}

/// A child's origin stands at its flag's rank.
proof fn lemma_origin_at(children: Seq<TriePtr>, i: int)
    requires
        0 <= i < children.len(),
        children[i].keeps_block(),
    ensures
        count_true(origin_flags(children), i as nat) < origins_of(children).len(),
        origins_of(children)[count_true(origin_flags(children), i as nat) as int]
            == children[i].back_block,
    decreases children.len(),
{
    let front = children.drop_last();
    lemma_origins_len(front);
    lemma_flag_count(children, i as nat);
    if i < front.len() {
        lemma_origin_at(front, i);
    }
}

/// Every part of the packed payload has the length that the columns ask for.
proof fn lemma_part_lens(branch: Branch)
    requires
        branch.wf(),
        packing_fault(branch) is None,
    ensures
        columns_of(branch).wf(),
        columns_of(branch).count() == occupied(branch.ptrs).len(),
        rank(columns_of(branch).origin_bitmap, occupied(branch.ptrs).len()) == origins_of(
            occupied(branch.ptrs),
        ).len(),
        packed_payload(branch).len() == packed_len(branch),
{
    let children = occupied(branch.ptrs);
    let c = columns_of(branch);
    lemma_occupied_len(branch.ptrs);
    lemma_rank_is_place(branch.ptrs, branch.ptrs.len() as int);
    lemma_column_len(targets_of(children), c.target_width);
    lemma_column_len(origins_of(children), c.origin_width);
    lemma_origins_len(children);
    lemma_bitmap_rank(origin_flags(children), children.len());
}

/// Faultless small branches have no repeated edge.
pub proof fn lemma_no_repeats(branch: Branch)
    requires
        branch.wf(),
        packing_fault(branch) is None,
    ensures
        !repeats(edges_of(occupied(branch.ptrs))),
{
    let children = occupied(branch.ptrs);
    if repeats(edges_of(children)) {
        let (i, j) = choose|i: int, j: int|
            0 <= i < j < edges_of(children).len() && edges_of(children)[i] == edges_of(
                children,
            )[j];
        let a = lemma_occupied_source(branch.ptrs, i);
        let b = lemma_occupied_source(branch.ptrs, j);
        if b <= a {
            lemma_place_monotone(branch.ptrs, b, a);
        }
        lemma_no_slot_fault(branch, 0, b);
        assert(edge_taken(branch.ptrs, b));
    }
}

/// Where the parts of a concatenation are.
proof fn lemma_layout(
    path: Seq<u8>,
    code: u8,
    s1: Seq<u8>,
    s2: Seq<u8>,
    s3: Seq<u8>,
    s4: Seq<u8>,
    s5: Seq<u8>,
    s6: Seq<u8>,
    tail: Seq<u8>,
)
    requires
        path.len() <= 32,
    ensures
        ({
            let whole = framed(path) + seq![code] + s1 + s2 + s3 + s4 + s5 + s6 + tail;
            let a0 = 2 + path.len() as int;
            let a1 = a0 + s1.len();
            let a2 = a1 + s2.len();
            let a3 = a2 + s3.len();
            let a4 = a3 + s4.len();
            let a5 = a4 + s5.len();
            let a6 = a5 + s6.len();
            &&& whole.len() == a6 + tail.len()
            &&& whole[0] == path.len()
            &&& whole.subrange(1, 1 + path.len() as int) == path
            &&& whole[1 + path.len() as int] == code
            &&& whole.subrange(a0, a1) == s1
            &&& whole.subrange(a1, a2) == s2
            &&& whole.subrange(a2, a3) == s3
            &&& whole.subrange(a3, a4) == s4
            &&& whole.subrange(a4, a5) == s5
            &&& whole.subrange(a5, a6) == s6
        }),
{
    let whole = framed(path) + seq![code] + s1 + s2 + s3 + s4 + s5 + s6 + tail;
    let a0 = 2 + path.len() as int;
    let a1 = a0 + s1.len();
    let a2 = a1 + s2.len();
    let a3 = a2 + s3.len();
    let a4 = a3 + s4.len();
    let a5 = a4 + s5.len();
    let a6 = a5 + s6.len();
    assert(whole.subrange(1, 1 + path.len() as int) =~= path);
    assert(whole.subrange(a0, a1) =~= s1);
    assert(whole.subrange(a1, a2) =~= s2);
    assert(whole.subrange(a2, a3) =~= s3);
    assert(whole.subrange(a3, a4) =~= s4);
    assert(whole.subrange(a4, a5) =~= s5);
    assert(whole.subrange(a5, a6) =~= s6);
}

proof fn lemma_width_code(children: Seq<TriePtr>)
    ensures
        width_code(children) < 16,
        coded_target_width(width_code(children) as int % 4) == target_width_spec(
            max_target(children),
        ),
        width_code(children) as int / 4 + 1 == origin_width_spec(max_origin(children)),
{
}

proof fn lemma_head(branch: Branch, bytes: Seq<u8>, start: int)
    requires
        branch.wf(),
        packing_fault(branch) is None,
        0 <= start,
        ({
            let c = columns_of(branch);
            let a1 = start + c.occupancy.len();
            let a2 = a1 + c.selectors.len();
            &&& a2 <= bytes.len()
            &&& bytes.subrange(start, a1) == c.occupancy
            &&& bytes.subrange(a1, a2) == c.selectors
        }),
    ensures
        ColumnHead::parse(branch.id, bytes, start) == Ok::<ColumnHead, Error>(
            ColumnHead {
                occupancy: columns_of(branch).occupancy,
                selectors: columns_of(branch).selectors,
                count: occupied(branch.ptrs).len(),
                end: start + columns_of(branch).occupancy.len() + columns_of(
                    branch,
                ).selectors.len(),
            },
        ),
{
    lemma_part_lens(branch);
    lemma_bitmap_padding(occupancy(branch.ptrs));
    lemma_no_repeats(branch);
}

proof fn lemma_middle(branch: Branch, head: ColumnHead, bytes: Seq<u8>)
    requires
        branch.wf(),
        packing_fault(branch) is None,
        head.count == occupied(branch.ptrs).len(),
        0 <= head.end,
        ({
            let c = columns_of(branch);
            let a3 = head.end + c.kinds.len();
            let a4 = a3 + c.origin_bitmap.len();
            &&& a4 <= bytes.len()
            &&& bytes.subrange(head.end, a3) == c.kinds
            &&& bytes.subrange(a3, a4) == c.origin_bitmap
        }),
    ensures
        ColumnMiddle::parse(head, bytes) == Ok::<ColumnMiddle, Error>(
            ColumnMiddle {
                kinds: columns_of(branch).kinds,
                origin_bitmap: columns_of(branch).origin_bitmap,
                end: head.end + columns_of(branch).kinds.len() + columns_of(
                    branch,
                ).origin_bitmap.len(),
            },
        ),
{
    let children = occupied(branch.ptrs);
    lemma_part_lens(branch);
    lemma_bitmap_padding(origin_flags(children));
    lemma_child_kinds(branch);
    lemma_nibbles(kinds_of(children));
}

/// Parsing a packed payload finds exactly the columns that were packed, whatever follows them.
pub proof fn law_parse_finds_packed_columns(branch: Branch, tail: Seq<u8>)
    requires
        branch.wf(),
        packing_fault(branch) is None,
    ensures
        Columns::parse(branch.id, packed_payload(branch) + tail) == Ok::<Columns, Error>(
            columns_of(branch),
        ),
        packed_payload(branch).len() == packed_len(branch),
{
    reveal(Columns::parse);
    let children = occupied(branch.ptrs);
    let c = columns_of(branch);
    let code = width_code(children);
    let bytes = packed_payload(branch) + tail;
    let a0 = 2 + branch.path.len() as int;
    lemma_part_lens(branch);
    lemma_width_code(children);
    lemma_layout(
        branch.path,
        code,
        c.occupancy,
        c.selectors,
        c.kinds,
        c.origin_bitmap,
        c.targets,
        c.origins,
        tail,
    );
    lemma_head(branch, bytes, a0);
    let head = ColumnHead::parse(branch.id, bytes, a0)->Ok_0;
    lemma_middle(branch, head, bytes);
    assert(Columns::split(branch.id, bytes, branch.path, code) == Ok::<Columns, Error>(c));
}

/// The columns give every child back at its place.
#[verifier::spinoff_prover]
#[verifier::rlimit(60)]
proof fn lemma_packed_pointer(branch: Branch, i: int)
    requires
        branch.wf(),
        packing_fault(branch) is None,
        canonical(branch.ptrs),
        0 <= i < occupied(branch.ptrs).len(),
    ensures
        columns_of(branch).pointer_at(i, occupied(branch.ptrs)[i].chr) == Ok::<TriePtr, Error>(
            occupied(branch.ptrs)[i],
        ),
{
    let children = occupied(branch.ptrs);
    let c = columns_of(branch);
    let ptr = children[i];
    let slot = lemma_occupied_source(branch.ptrs, i);
    lemma_child_kinds(branch);
    lemma_nibbles(kinds_of(children));
    assert(nibble(c.kinds, i) == kind_of(ptr));
    lemma_bitmap_bits(origin_flags(children), i);
    lemma_max_target(children, i);
    lemma_max_origin(children, i);
    lemma_spans();
    lemma_column_entry(targets_of(children), c.target_width, i);
    lemma_le_roundtrip(ptr.ptr as nat, c.target_width);
    assert(column_value(c.targets, i, c.target_width as int) == ptr.ptr);
    if ptr.keeps_block() {
        lemma_origin_at(children, i);
        lemma_bitmap_rank(origin_flags(children), i as nat);
        let at = count_true(origin_flags(children), i as nat) as int;
        lemma_column_entry(origins_of(children), c.origin_width, at);
        lemma_le_roundtrip(ptr.back_block as nat, c.origin_width);
        assert(column_value(c.origins, at, c.origin_width as int) == ptr.back_block);
    }
}

/// Selecting an edge in a packed payload is walking that edge in the branch.
pub proof fn law_packed_child_is_walk(branch: Branch, chr: u8)
    requires
        branch.wf(),
        packing_fault(branch) is None,
        canonical(branch.ptrs),
    ensures
        columns_of(branch).child(chr) == Ok::<Option<TriePtr>, Error>(branch.walk(chr)),
{
    let c = columns_of(branch);
    let ptrs = branch.ptrs;
    let children = occupied(ptrs);
    match branch.id {
        TrieNodeID::Node48 => {
            lemma_codes(branch);
            let slot = branch.indexes[chr as int] as int;
            lemma_no_index_fault(branch, 0, chr as int);
            assert(sextet(c.selectors, chr as int) == slot_codes(branch.indexes)[chr as int]);
            if slot != -1 {
                lemma_bitmap_bits(occupancy(ptrs), slot);
                lemma_rank_is_place(ptrs, slot);
                lemma_occupied_at(ptrs, slot);
                lemma_packed_pointer(branch, place(ptrs, slot) as int);
            }
        },
        TrieNodeID::Node256 => {
            let slot = chr as int;
            lemma_bitmap_bits(occupancy(ptrs), slot);
            lemma_rank_is_place(ptrs, slot);
            if ptrs[slot].id != 0 {
                lemma_occupied_at(ptrs, slot);
                lemma_packed_pointer(branch, place(ptrs, slot) as int);
                lemma_no_slot_fault(branch, 0, slot);
            }
        },
        _ => {
            lemma_position(edges_of(children), chr, 0);
            lemma_slot_for(ptrs, chr, 0);
            match slot_for(ptrs, chr, 0) {
                Some(slot) => {
                    lemma_occupied_at(ptrs, slot);
                    let at = place(ptrs, slot) as int;
                    assert(edges_of(children)[at] == chr);
                    lemma_packed_pointer(branch, at);
                    let found = position(edges_of(children), chr, 0)->0;
                    lemma_no_repeats(branch);
                    assert(found == at);
                },
                None => {
                    if position(edges_of(children), chr, 0) is Some {
                        let at = position(edges_of(children), chr, 0)->0;
                        let slot = lemma_occupied_source(ptrs, at);
                        assert(ptrs[slot].chr == chr);
                    }
                },
            }
        },
    }
}

proof fn lemma_codes(branch: Branch)
    requires
        branch.wf(),
        branch.id is Node48,
        packing_fault(branch) is None,
    ensures
        forall|e: int|
            0 <= e < 256 ==> #[trigger] sextet(selectors_of(branch), e) == slot_codes(
                branch.indexes,
            )[e],
{
    let codes = slot_codes(branch.indexes);
    assert forall|e: int| 0 <= e < codes.len() implies codes[e] < 64 by {
        lemma_no_index_fault(branch, 0, e);
    }
    lemma_sextets(codes);
}

/// The first edges of a packed 48-slot branch lead to the slots that hold them.
proof fn lemma_packed_reversed(branch: Branch, edges: nat)
    requires
        branch.wf(),
        branch.id is Node48,
        packing_fault(branch) is None,
        edges <= 256,
    ensures
        columns_of(branch).reversed(edges) is Ok,
        columns_of(branch).reversed(edges)->Ok_0.1 == branch.indexes.subrange(0, edges as int),
        columns_of(branch).reversed(edges)->Ok_0.0.len() == 48,
        forall|s: int|
            0 <= s < 48 ==> #[trigger] columns_of(branch).reversed(edges)->Ok_0.0[s] == (
            if branch.ptrs[s].id != 0 && branch.ptrs[s].chr < edges {
                Some(branch.ptrs[s].chr)
            } else {
                None
            }),
    decreases edges,
{
    let c = columns_of(branch);
    if edges == 0 {
        assert(c.reversed(0)->Ok_0.1 =~= branch.indexes.subrange(0, 0));
    } else {
        let edge = edges - 1;
        lemma_packed_reversed(branch, edge as nat);
        lemma_codes(branch);
        lemma_no_index_fault(branch, 0, edge);
        let slot = branch.indexes[edge] as int;
        assert(sextet(c.selectors, edge) == slot_codes(branch.indexes)[edge]);
        assert(branch.indexes.subrange(0, edges as int) =~= branch.indexes.subrange(0, edge).push(
            branch.indexes[edge],
        ));
        let before = c.reversed(edge as nat)->Ok_0.0;
        if slot != -1 {
            lemma_bitmap_bits(occupancy(branch.ptrs), slot);
            assert(before[slot] is None);
        }
        assert forall|s: int| 0 <= s < 48 implies #[trigger] c.reversed(edges)->Ok_0.0[s] == (
        if branch.ptrs[s].id != 0 && branch.ptrs[s].chr < edges {
            Some(branch.ptrs[s].chr)
        } else {
            None
        }) by {
            assert(before[s] == (if branch.ptrs[s].id != 0 && branch.ptrs[s].chr < edge {
                Some(branch.ptrs[s].chr)
            } else {
                None
            }));
            if branch.ptrs[s].id != 0 && branch.ptrs[s].chr == edge {
                lemma_no_slot_fault(branch, 0, s);
                assert(slot == s);
            }
        }
    }
}

/// The first slots of a packed branch come back as they were.
proof fn lemma_packed_slots(branch: Branch, back: Seq<Option<u8>>, slots: nat)
    requires
        branch.wf(),
        packing_fault(branch) is None,
        canonical(branch.ptrs),
        slots <= branch.ptrs.len(),
        branch.id is Node48 ==> back.len() == 48 && forall|s: int|
            0 <= s < 48 ==> #[trigger] back[s] == (if branch.ptrs[s].id != 0 {
                Some(branch.ptrs[s].chr)
            } else {
                None
            }),
    ensures
        columns_of(branch).slots_back(back, slots) == Ok::<Seq<TriePtr>, Error>(
            branch.ptrs.subrange(0, slots as int),
        ),
    decreases slots,
{
    let c = columns_of(branch);
    let ptrs = branch.ptrs;
    if slots == 0 {
        assert(ptrs.subrange(0, 0) =~= Seq::<TriePtr>::empty());
    } else {
        let slot = slots - 1;
        lemma_packed_slots(branch, back, slot as nat);
        assert(ptrs.subrange(0, slots as int) =~= ptrs.subrange(0, slot).push(ptrs[slot]));
        lemma_bitmap_bits(occupancy(ptrs), slot);
        lemma_rank_is_place(ptrs, slot);
        if ptrs[slot].id != 0 {
            lemma_occupied_at(ptrs, slot);
            lemma_packed_pointer(branch, place(ptrs, slot) as int);
            lemma_no_slot_fault(branch, 0, slot);
            assert(c.edge_of(back, slot) == Ok::<u8, Error>(ptrs[slot].chr));
        }
    }
}

/// Reading a whole packed payload back gives the branch that was packed.
pub proof fn law_packed_branch_roundtrip(branch: Branch)
    requires
        branch.wf(),
        packing_fault(branch) is None,
        canonical(branch.ptrs),
    ensures
        columns_of(branch).to_branch() == Ok::<Branch, Error>(branch),
{
    reveal(Columns::to_branch);
    let c = columns_of(branch);
    if branch.id is Node48 {
        lemma_packed_reversed(branch, 256);
        let back = c.reversed(256)->Ok_0.0;
        lemma_packed_slots(branch, back, 48);
        assert(branch.indexes.subrange(0, 256) =~= branch.indexes);
        assert(branch.ptrs.subrange(0, 48) =~= branch.ptrs);
    } else {
        let back = Seq::<Option<u8>>::empty();
        lemma_packed_slots(branch, back, branch.ptrs.len());
        assert(branch.ptrs.subrange(0, branch.ptrs.len() as int) =~= branch.ptrs);
        assert(branch.indexes =~= Seq::<i8>::empty());
    }
}

/// No packed payload is longer than the bound for its branch type.
pub proof fn law_packed_len_is_bounded(branch: Branch)
    requires
        branch.wf(),
    ensures
        packed_len(branch) <= 34 + (branch.id.slots() + 7) / 8 + selector_len_spec(
            branch.id.slots(),
            branch.id.slots(),
        ) + (branch.id.slots() + 1) / 2 + (branch.id.slots() + 7) / 8 + branch.id.slots() * 12,
{
    let children = occupied(branch.ptrs);
    let n = children.len() as int;
    let slots = branch.ptrs.len() as int;
    let target = target_width_spec(max_target(children)) as int;
    let origin = origin_width_spec(max_origin(children)) as int;
    let linked = origins_of(children).len() as int;
    lemma_occupied_len(branch.ptrs);
    lemma_origins_len(children);
    lemma_count_bound(origin_flags(children), children.len());
    assert(n * target + linked * origin <= slots * 12) by (nonlinear_arith)
        requires
            0 <= linked <= n <= slots,
            0 <= target <= 8,
            0 <= origin <= 4,
    ;
}

proof fn lemma_count_bound(bits: Seq<bool>, n: nat)
    ensures
        count_true(bits, n) <= n,
    decreases n,
{
    if n > 0 {
        lemma_count_bound(bits, (n - 1) as nat);
    }
}

/// What packed columns take is all that parsing them looks at.
#[verifier::spinoff_prover]
#[verifier::rlimit(60)]
pub proof fn law_packed_parse_is_local(id: TrieNodeID, a: Seq<u8>, b: Seq<u8>)
    requires
        Columns::parse(id, a) is Ok,
        same_start(a, b, (Columns::parse(id, a)->Ok_0).length as int),
    ensures
        Columns::parse(id, b) == Columns::parse(id, a),
{
    reveal(Columns::parse);
    let c = Columns::parse(id, a)->Ok_0;
    let n = c.length as int;
    let path = path_prefix_spec(a)->Ok_0;
    let a0 = 2 + path.len() as int;
    let a1 = a0 + (id.slots() as int + 7) / 8;
    let head = ColumnHead::parse(id, a, a0)->Ok_0;
    let middle = ColumnMiddle::parse(head, a)->Ok_0;
    let a2 = head.end;
    let a3 = a2 + (head.count as int + 1) / 2;
    let a4 = middle.end;
    let targets = (head.count * c.target_width) as int;
    let origins = (rank(middle.origin_bitmap, head.count) * c.origin_width) as int;
    assert(targets >= 0) by (nonlinear_arith)
        requires
            targets == head.count * c.target_width,
    ;
    assert(origins >= 0) by (nonlinear_arith)
        requires
            origins == rank(middle.origin_bitmap, head.count) * c.origin_width,
    ;
    let a5 = a4 + targets;
    assert(n == a5 + origins);
    lemma_same_part(a, b, n, 1, 1 + path.len() as int);
    lemma_same_part(a, b, n, a0, a1);
    lemma_same_part(a, b, n, a1, a2);
    lemma_same_part(a, b, n, a2, a3);
    lemma_same_part(a, b, n, a3, a4);
    lemma_same_part(a, b, n, a4, a5);
    lemma_same_part(a, b, n, a5, n);
    assert(path_prefix_spec(b) == Ok::<Seq<u8>, Error>(path));
    assert(ColumnHead::parse(id, b, a0) == Ok::<ColumnHead, Error>(head));
    assert(ColumnMiddle::parse(head, b) == Ok::<ColumnMiddle, Error>(middle));
}

/// Parsed columns lie inside the bytes that they were parsed from.
proof fn lemma_parsed_len(id: TrieNodeID, bytes: Seq<u8>)
    requires
        Columns::parse(id, bytes) is Ok,
    ensures
        (Columns::parse(id, bytes)->Ok_0).length <= bytes.len(),
{
    reveal(Columns::parse);
}

/// No packed payload that was cut short is accepted.
pub proof fn law_packed_prefixes_are_refused(branch: Branch, len: int)
    requires
        branch.wf(),
        packing_fault(branch) is None,
        0 <= len < packed_payload(branch).len(),
    ensures
        Columns::parse(branch.id, packed_payload(branch).subrange(0, len)) is Err,
{
    let whole = packed_payload(branch);
    let front = whole.subrange(0, len);
    if Columns::parse(branch.id, front) is Ok {
        law_parse_finds_packed_columns(branch, Seq::empty());
        assert(whole + Seq::<u8>::empty() =~= whole);
        lemma_parsed_len(branch.id, front);
        law_packed_parse_is_local(branch.id, front, whole);
    }
}

/// A packed payload is refused once its path length is past a path's limit, or its width byte has
/// bits that name no width, whatever follows it.
pub proof fn law_packed_damage_is_refused(branch: Branch, tail: Seq<u8>, path_len: u8, widths: u8)
    requires
        branch.wf(),
        packing_fault(branch) is None,
        path_len > 32,
        widths >= 16,
    ensures
        Columns::parse(branch.id, (packed_payload(branch) + tail).update(0, path_len)) is Err,
        Columns::parse(
            branch.id,
            (packed_payload(branch) + tail).update(1 + branch.path.len() as int, widths),
        ) is Err,
{
    reveal(Columns::parse);
    law_parse_finds_packed_columns(branch, tail);
    let bytes = packed_payload(branch) + tail;
    let at = 1 + branch.path.len() as int;
    let damaged = bytes.update(at, widths);
    assert(bytes[0] == branch.path.len());
    assert(path_prefix_spec(damaged) is Ok ==> (path_prefix_spec(damaged)->Ok_0).len()
        == branch.path.len());
}

/// A packed lookup depends on the selectors and on what the columns hold of the selected child, and
/// on nothing else.
pub proof fn law_packed_lookup_reads_only_its_child(a: Columns, b: Columns, chr: u8)
    requires
        a.id == b.id,
        a.occupancy == b.occupancy,
        a.selectors == b.selectors,
        a.index_for(chr) matches Ok(Some(i)) ==> a.pointer_at(i, chr) == b.pointer_at(i, chr),
    ensures
        a.child(chr) == b.child(chr),
{
}

/// Where a packed payload holds a child's kind: two children share a byte.
pub open spec fn kind_byte_at(branch: Branch, i: int) -> int {
    2 + branch.path.len() + columns_of(branch).occupancy.len() + columns_of(branch).selectors.len()
        + i / 2
}

/// A byte of kinds without the kind of one of the two children that share it.
pub open spec fn kind_cleared(byte: u8, i: int) -> u8 {
    (if i % 2 == 0 {
        byte as int / 16 * 16
    } else {
        byte as int % 16
    }) as u8
}

/// A packed payload in which one child's kind is zeroed.
pub open spec fn without_kind(branch: Branch, i: int) -> Seq<u8> {
    let at = kind_byte_at(branch, i);
    packed_payload(branch).update(at, kind_cleared(packed_payload(branch)[at], i))
}

/// A packed payload in which one child's kind is zeroed still parses, and its kinds are the only
/// column that changed.
#[verifier::spinoff_prover]
#[verifier::rlimit(60)]
proof fn lemma_without_kind(branch: Branch, i: int, tail: Seq<u8>)
    requires
        branch.wf(),
        packing_fault(branch) is None,
        0 <= i < occupied(branch.ptrs).len(),
    ensures
        ({
            let c = columns_of(branch);
            Columns::parse(branch.id, without_kind(branch, i) + tail) == Ok::<Columns, Error>(
                Columns { kinds: c.kinds.update(i / 2, kind_cleared(c.kinds[i / 2], i)), ..c },
            )
        }),
{
    reveal(Columns::parse);
    let children = occupied(branch.ptrs);
    let c = columns_of(branch);
    let code = width_code(children);
    let at = kind_byte_at(branch, i);
    let kinds = c.kinds.update(i / 2, kind_cleared(c.kinds[i / 2], i));
    let bytes = without_kind(branch, i) + tail;
    let a0 = 2 + branch.path.len() as int;
    lemma_part_lens(branch);
    lemma_width_code(children);
    let before = framed(branch.path) + seq![code] + c.occupancy + c.selectors;
    let after = c.origin_bitmap + c.targets + c.origins;
    assert(packed_payload(branch) =~= before + c.kinds + after);
    assert(before.len() == at - i / 2);
    assert(packed_payload(branch)[at] == c.kinds[i / 2]);
    assert(without_kind(branch, i) =~= before + kinds + after);
    assert(bytes =~= framed(branch.path) + seq![code] + c.occupancy + c.selectors + kinds
        + c.origin_bitmap + c.targets + c.origins + tail);
    lemma_layout(
        branch.path,
        code,
        c.occupancy,
        c.selectors,
        kinds,
        c.origin_bitmap,
        c.targets,
        c.origins,
        tail,
    );
    lemma_head(branch, bytes, a0);
    lemma_bitmap_padding(origin_flags(children));
    lemma_child_kinds(branch);
    lemma_nibbles(kinds_of(children));
    let n = children.len() as int;
    assert(n % 2 != 0 ==> kinds[n / 2] < 16);
    let head = ColumnHead::parse(branch.id, bytes, a0)->Ok_0;
    assert(ColumnMiddle::parse(head, bytes) == Ok::<ColumnMiddle, Error>(
        ColumnMiddle {
            kinds,
            origin_bitmap: c.origin_bitmap,
            end: head.end + kinds.len() + c.origin_bitmap.len(),
        },
    ));
}

/// The place that an edge selects is that of the child along it.
proof fn lemma_place_of_edge(branch: Branch, chr: u8)
    requires
        branch.wf(),
        packing_fault(branch) is None,
    ensures
        match columns_of(branch).index_for(chr) {
            Err(_) => false,
            Ok(Some(j)) => 0 <= j < occupied(branch.ptrs).len() && occupied(branch.ptrs)[j].chr
                == chr,
            Ok(None) => forall|j: int|
                0 <= j < occupied(branch.ptrs).len() ==> (#[trigger] occupied(branch.ptrs)[j]).chr
                    != chr,
        },
{
    let c = columns_of(branch);
    let ptrs = branch.ptrs;
    let children = occupied(ptrs);
    if branch.id is Node48 || branch.id is Node256 {
        let slot: int = if branch.id is Node48 {
            branch.indexes[chr as int] as int
        } else {
            chr as int
        };
        if branch.id is Node48 {
            lemma_codes(branch);
            lemma_no_index_fault(branch, 0, chr as int);
            assert(sextet(c.selectors, chr as int) == slot_codes(branch.indexes)[chr as int]);
        }
        if slot != -1 {
            lemma_bitmap_bits(occupancy(ptrs), slot);
            lemma_rank_is_place(ptrs, slot);
            if ptrs[slot].id != 0 {
                lemma_occupied_at(ptrs, slot);
                lemma_no_slot_fault(branch, 0, slot);
            }
        }
        if c.index_for(chr) == Ok::<Option<int>, Error>(None) {
            assert forall|j: int| 0 <= j < children.len() implies (#[trigger] children[j]).chr
                != chr by {
                let source = lemma_occupied_source(ptrs, j);
                lemma_no_slot_fault(branch, 0, source);
            }
        }
    } else {
        lemma_position(edges_of(children), chr, 0);
        assert forall|j: int| 0 <= j < children.len() implies (#[trigger] children[j]).chr
            == edges_of(children)[j] by {}
    }
}

/// Zeroing one child's kind in a packed payload spoils the lookup along that child's edge alone.
pub proof fn law_spoiled_kind_spoils_one_lookup(branch: Branch, i: int, tail: Seq<u8>, chr: u8)
    requires
        branch.wf(),
        packing_fault(branch) is None,
        canonical(branch.ptrs),
        0 <= i < occupied(branch.ptrs).len(),
    ensures
        Columns::parse(branch.id, without_kind(branch, i) + tail) is Ok,
        ({
            let found = (Columns::parse(
                branch.id,
                without_kind(branch, i) + tail,
            )->Ok_0).child(chr);
            if chr == occupied(branch.ptrs)[i].chr {
                found is Err
            } else {
                found == Ok::<Option<TriePtr>, Error>(branch.walk(chr))
            }
        }),
{
    let c = columns_of(branch);
    let d = Columns { kinds: c.kinds.update(i / 2, kind_cleared(c.kinds[i / 2], i)), ..c };
    let children = occupied(branch.ptrs);
    lemma_without_kind(branch, i, tail);
    law_packed_child_is_walk(branch, chr);
    lemma_part_lens(branch);
    assert(nibble(d.kinds, i) == 0);
    lemma_place_of_edge(branch, chr);
    lemma_no_repeats(branch);
    match c.index_for(chr) {
        Ok(Some(j)) => if j != i {
            assert(nibble(d.kinds, j) == nibble(c.kinds, j));
            assert(edges_of(children)[j] != edges_of(children)[i]);
            law_packed_lookup_reads_only_its_child(c, d, chr);
        },
        _ => {},
    }
}

} // verus!
