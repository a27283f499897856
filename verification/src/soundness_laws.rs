//! What a proof that verifies shows, whoever made it.
use vstd::prelude::*;

use crate::commitment_laws::{
    all_wide, blocks_are_wide, collides, law_flat_is_injective, law_flat_keeps_parts,
    law_leaf_commitment_is_injective, law_proof_commitment_is_injective,
    law_proof_commitment_layout,
};
use crate::hash::sha512_256_of;
use crate::merkle_proof::{
    alternates, complete, filled, flat, head_hash, junction_end, junction_hash, leads_on,
    lemma_junction_end, lemma_segment_end, lemma_segment_path_is_short, lemma_shunt_end, placed,
    proves, rooted, segment_end, segment_hash, segment_path, short_path, shunt_end, starts_with,
    step_hash, step_path, tail_hash, well_formed, ProofPtr, Step,
};
use crate::patch::Fault;
use crate::proof_laws::law_values_come_with_proofs;
use crate::read_storage::Forest;

verus! {

/// Whether two different byte strings hash to the same.
pub open spec fn collision() -> bool {
    exists|data: Seq<u8>, other: Seq<u8>| #[trigger] collides(data, other)
}

/// Whether digests are as wide as a hash.
pub open spec fn digests_are_wide() -> bool {
    forall|data: Seq<u8>| (#[trigger] sha512_256_of(data)).len() == 32
}

/// Whether the parts of a step have their widths.
pub open spec fn sized(step: Step) -> bool {
    match step {
        Step::Branch { node, hashes, capacity, .. } => {
            &&& capacity == 4 || capacity == 16 || capacity == 48 || capacity == 256
            &&& node.ptrs.len() == capacity
            &&& hashes.len() == capacity - 1
            &&& all_wide(hashes, 32)
            &&& blocks_are_wide(node.ptrs)
        },
        Step::Leaf { leaf, .. } => leaf.wf() && leaf.data is Some,
        Step::Shunt { hashes, .. } => all_wide(hashes, 32) && hashes.len() <= 256,
    }
}

/// Whether the parts of all steps have their widths, and no step but the first is a leaf.
pub open spec fn all_sized(steps: Seq<Step>) -> bool {
    forall|i: int|
        0 <= i < steps.len() ==> sized(#[trigger] steps[i]) && (i > 0 ==> !(steps[i] is Leaf))
}

/// Whether a proof is that of a trie alone: it has one segment.
pub open spec fn single(steps: Seq<Step>) -> bool {
    segment_end(steps, 1) + 1 >= steps.len()
}

/// A proof of one segment verifies against one root hash alone, whatever it is said to show and
/// whichever blocks are known.
pub proof fn law_single_proof_fixes_root(
    steps: Seq<Step>,
    path: Seq<u8>,
    value: Seq<u8>,
    root: Seq<u8>,
    blocks: spec_fn(Seq<u8>) -> Option<Seq<u8>>,
    another_path: Seq<u8>,
    another_value: Seq<u8>,
    another_root: Seq<u8>,
    other_blocks: spec_fn(Seq<u8>) -> Option<Seq<u8>>,
)
    requires
        single(steps),
        proves(steps, path, value, root, blocks),
        proves(steps, another_path, another_value, another_root, other_blocks),
    ensures
        root == another_root,
        path == another_path,
        value == another_value,
{
}

/// A proof of more than one segment verifies against the root hash of a known block alone.
pub proof fn law_longer_proof_needs_known_root(
    steps: Seq<Step>,
    path: Seq<u8>,
    value: Seq<u8>,
    root: Seq<u8>,
    blocks: spec_fn(Seq<u8>) -> Option<Seq<u8>>,
)
    requires
        !single(steps),
        proves(steps, path, value, root, blocks),
    ensures
        blocks(root) is Some,
{
    lemma_segment_end(steps, 1);
    let end = segment_end(steps, 1);
    let trie = head_hash(steps[end], segment_hash(steps, 0, end, Seq::empty())->0)->0;
    lemma_leads_to_known_root(steps, end + 1, trie, blocks(trie)->0, root, blocks);
}

proof fn lemma_leads_to_known_root(
    steps: Seq<Step>,
    at: int,
    trie: Seq<u8>,
    node: Seq<u8>,
    root: Seq<u8>,
    blocks: spec_fn(Seq<u8>) -> Option<Seq<u8>>,
)
    requires
        0 <= at,
        blocks(trie) is Some,
        leads_on(steps, at, trie, node, root, blocks),
    ensures
        blocks(root) is Some,
    decreases steps.len() - at,
{
    if at < steps.len() {
        lemma_segment_end(steps, at + 1);
        let end = segment_end(steps, at + 1);
        lemma_junction_end(steps, end);
        let stop = junction_end(steps, end);
        let before = tail_hash(steps, end, stop - 1, trie)->0;
        let node_root = segment_hash(steps, at, end, node)->0;
        let next = junction_hash(steps[stop - 1], node_root, before)->0;
        if next != root {
            lemma_leads_to_known_root(steps, stop, next, blocks(next)->0, root, blocks);
        }
    }
}

/// A proof that verifies has its shape: a leaf with the value comes first and a shunt last, the
/// steps from the first shunt down to the leaf spell the path, and below each first shunt of a row
/// stands a 256-slot branch.
pub proof fn law_verified_proofs_have_their_shape(
    steps: Seq<Step>,
    path: Seq<u8>,
    value: Seq<u8>,
    root: Seq<u8>,
    blocks: spec_fn(Seq<u8>) -> Option<Seq<u8>>,
    i: int,
)
    requires
        proves(steps, path, value, root, blocks),
        0 < i < steps.len(),
        steps[i] is Shunt,
        !(steps[i - 1] is Shunt),
    ensures
        steps[0] is Leaf,
        steps[0]->leaf.data == Some(value),
        steps.last() is Shunt,
        steps[i - 1] is Branch,
        steps[i - 1]->capacity == 256,
        (forall|k: int| 0 <= k < i ==> !(#[trigger] steps[k] is Shunt)) ==> segment_path(
            steps,
            0,
            i,
        ) == Some(path),
{
    lemma_alternation_shape(steps, 0, path, i);
    lemma_segment_end(steps, 1);
    if forall|k: int| 0 <= k < i ==> !(#[trigger] steps[k] is Shunt) {
        let end = segment_end(steps, 1);
        if end < i {
            assert(steps[end] is Shunt);
        }
        if i < end {
            assert(!(steps[i] is Shunt));
        }
        assert(end == i);
    }
}

proof fn lemma_alternation_shape(steps: Seq<Step>, at: int, path: Seq<u8>, i: int)
    requires
        0 <= at < steps.len(),
        alternates(steps, at, path),
        at < i < steps.len(),
        steps[i] is Shunt,
        !(steps[i - 1] is Shunt),
    ensures
        steps.last() is Shunt,
        steps[i - 1] is Branch,
        steps[i - 1]->capacity == 256,
    decreases steps.len() - at,
{
    lemma_segment_end(steps, at + 1);
    let end = segment_end(steps, at + 1);
    lemma_shunt_end(steps, end + 1);
    let next = shunt_end(steps, end + 1);
    let prefix = segment_path(steps, at, end)->0;
    if i == end {
        assert(rooted(steps, end));
    } else if i < end {
        assert(!(steps[i] is Shunt));
    } else if i < next {
        assert(i - 1 == end || steps[i - 1] is Shunt);
    } else {
        assert(i > next);
    }
    if next < steps.len() {
        if i > next {
            lemma_alternation_shape(steps, next, prefix, i);
        } else {
            lemma_last_is_shunt(steps, next, prefix);
        }
    } else {
        assert(steps.last() == steps[steps.len() - 1]);
        if next > end + 1 {
            assert(steps[next - 1] is Shunt);
        }
    }
}

proof fn lemma_last_is_shunt(steps: Seq<Step>, at: int, path: Seq<u8>)
    requires
        0 <= at < steps.len(),
        alternates(steps, at, path),
    ensures
        steps.last() is Shunt,
    decreases steps.len() - at,
{
    lemma_segment_end(steps, at + 1);
    let end = segment_end(steps, at + 1);
    lemma_shunt_end(steps, end + 1);
    let next = shunt_end(steps, end + 1);
    if next < steps.len() {
        lemma_last_is_shunt(steps, next, segment_path(steps, at, end)->0);
    } else if next > end + 1 {
        assert(steps[next - 1] is Shunt);
    }
}

proof fn lemma_filled(
    ptrs: Seq<ProofPtr>,
    chr: u8,
    hash: Seq<u8>,
    hashes: Seq<Seq<u8>>,
    at: int,
    used: int,
    before: Seq<Seq<u8>>,
)
    requires
        0 <= at <= ptrs.len(),
        0 <= used,
        before.len() == at,
        all_wide(before, 32),
        all_wide(hashes, 32),
        hash.len() == 32,
        filled(ptrs, chr, hash, hashes, at, used, before) is Some,
    ensures
        filled(ptrs, chr, hash, hashes, at, used, before)->0.len() == ptrs.len(),
        all_wide(filled(ptrs, chr, hash, hashes, at, used, before)->0, 32),
        forall|i: int|
            0 <= i < at ==> filled(ptrs, chr, hash, hashes, at, used, before)->0[i]
                == #[trigger] before[i],
        forall|i: int|
            at <= i < ptrs.len() && (#[trigger] ptrs[i]).id != 0 && ptrs[i].chr == chr ==> filled(
                ptrs,
                chr,
                hash,
                hashes,
                at,
                used,
                before,
            )->0[i] == hash,
        (forall|i: int|
            at <= i < ptrs.len() ==> !((#[trigger] ptrs[i]).id != 0 && ptrs[i].chr == chr)) ==> used
            + ptrs.len() - at <= hashes.len() || at == ptrs.len(),
    decreases ptrs.len() - at,
{
    if at < ptrs.len() {
        if ptrs[at].id != 0 && ptrs[at].chr == chr {
            let more = before.push(hash);
            lemma_filled(ptrs, chr, hash, hashes, at + 1, used, more);
            assert(more[at] == hash);
            assert forall|i: int| 0 <= i < at implies filled(
                ptrs,
                chr,
                hash,
                hashes,
                at,
                used,
                before,
            )->0[i] == #[trigger] before[i] by {
                assert(more[i] == before[i]);
            }
        } else {
            let more = before.push(hashes[used]);
            lemma_filled(ptrs, chr, hash, hashes, at + 1, used + 1, more);
            assert forall|i: int| 0 <= i < at implies filled(
                ptrs,
                chr,
                hash,
                hashes,
                at,
                used,
                before,
            )->0[i] == #[trigger] before[i] by {
                assert(more[i] == before[i]);
            }
        }
    }
}

/// The hashes of all children of a step's branch.
spec fn step_children(step: Step, hash: Seq<u8>) -> Seq<Seq<u8>> {
    filled(step->node.ptrs, step->Branch_chr, hash, step->Branch_hashes, 0, 0, Seq::empty())->0
}

/// What the hash of a step's branch is the hash of.
spec fn step_bytes(step: Step, hash: Seq<u8>) -> Seq<u8> {
    step->node.commitment() + flat(step_children(step, hash))
}

proof fn lemma_step_bytes(step: Step, hash: Seq<u8>)
    requires
        step is Branch,
        sized(step),
        short_path(step),
        hash.len() == 32,
        step_hash(step, hash) is Some,
    ensures
        step_hash(step, hash) == Some(sha512_256_of(step_bytes(step, hash))),
        step_bytes(step, hash).len() == 2 + 66 * step->capacity + step->node.path.len(),
        step_children(step, hash).len() == step->capacity,
        all_wide(step_children(step, hash), 32),
        exists|i: int|
            0 <= i < step->node.ptrs.len() && (#[trigger] step->node.ptrs[i]).id != 0
                && step->node.ptrs[i].chr == step->Branch_chr,
        forall|i: int|
            0 <= i < step->node.ptrs.len() && (#[trigger] step->node.ptrs[i]).id != 0
                && step->node.ptrs[i].chr == step->Branch_chr ==> step_children(step, hash)[i]
                == hash,
{
    let empty: Seq<Seq<u8>> = Seq::empty();
    assert(all_wide(empty, 32));
    lemma_filled(
        step->node.ptrs,
        step->Branch_chr,
        hash,
        step->Branch_hashes,
        0,
        0,
        Seq::empty(),
    );
    law_proof_commitment_layout(step->node, 0);
    law_flat_keeps_parts(step_children(step, hash), 32);
}

/// Whether a hash is that of a branch of a proof.
spec fn is_branch_hash(hash: Seq<u8>) -> bool {
    exists|step: Step, below: Seq<u8>|
        step is Branch && sized(step) && short_path(step) && below.len() == 32
            && #[trigger] step_hash(step, below) == Some(hash)
}

/// Two branches of the same hash are the same node; below the same byte, they have the same child.
proof fn lemma_same_branch(a: Step, b: Step, x: Seq<u8>, y: Seq<u8>)
    requires
        a is Branch,
        b is Branch,
        sized(a),
        sized(b),
        short_path(a),
        short_path(b),
        x.len() == 32,
        y.len() == 32,
        step_hash(a, x) is Some,
        step_hash(a, x) == step_hash(b, y),
        !collision(),
    ensures
        a->node == b->node,
        a->Branch_chr == b->Branch_chr ==> x == y,
{
    lemma_step_bytes(a, x);
    lemma_step_bytes(b, y);
    assert(!collides(step_bytes(a, x), step_bytes(b, y)));
    assert(step_bytes(a, x) == step_bytes(b, y));
    assert(a->capacity == b->capacity);
    law_proof_commitment_is_injective(
        a->node,
        b->node,
        flat(step_children(a, x)),
        flat(step_children(b, y)),
    );
    law_flat_is_injective(step_children(a, x), step_children(b, y), 32);
    if a->Branch_chr == b->Branch_chr {
        let i = choose|i: int|
            0 <= i < a->node.ptrs.len() && (#[trigger] a->node.ptrs[i]).id != 0
                && a->node.ptrs[i].chr == a->Branch_chr;
        assert(step_children(a, x)[i] == x);
        assert(b->node.ptrs[i].id != 0);
        assert(step_children(b, y)[i] == y);
    }
}

proof fn lemma_segment_hash_last(steps: Seq<Step>, at: int, to: int, hash: Seq<u8>)
    requires
        at < to,
    ensures
        segment_hash(steps, at, to, hash) == match segment_hash(steps, at, to - 1, hash) {
            Some(below) => step_hash(steps[to - 1], below),
            None => None,
        },
    decreases to - at,
{
    if at < to - 1 {
        match step_hash(steps[at], hash) {
            Some(next) => {
                lemma_segment_hash_last(steps, at + 1, to, next);
            },
            None => {},
        }
    } else {
        assert(segment_hash(steps, at, to - 1, hash) == Some(hash));
        match step_hash(steps[at], hash) {
            Some(next) => {
                assert(segment_hash(steps, to, to, next) == Some(next));
            },
            None => {},
        }
    }
}

/// Whether steps `at..to` are branches whose parts have their widths.
spec fn branches(steps: Seq<Step>, at: int, to: int) -> bool {
    forall|i: int|
        at <= i < to ==> #[trigger] steps[i] is Branch && sized(steps[i]) && short_path(steps[i])
}

proof fn lemma_segment_hash_wide(steps: Seq<Step>, at: int, to: int, hash: Seq<u8>)
    requires
        0 <= at <= to <= steps.len(),
        branches(steps, at, to),
        hash.len() == 32,
        segment_hash(steps, at, to, hash) is Some,
        digests_are_wide(),
    ensures
        segment_hash(steps, at, to, hash)->0.len() == 32,
    decreases to - at,
{
    if at < to {
        assert(steps[at] is Branch);
        lemma_step_bytes(steps[at], hash);
        lemma_segment_hash_wide(steps, at + 1, to, step_hash(steps[at], hash)->0);
    }
}

/// Two segments that lead up to the same hash along the same path start from the same hash, or
/// one of them starts from the hash of a branch.
proof fn lemma_same_start(
    a: Seq<Step>,
    a_from: int,
    a_to: int,
    x: Seq<u8>,
    b: Seq<Step>,
    b_from: int,
    b_to: int,
    y: Seq<u8>,
    path: Seq<u8>,
)
    requires
        0 <= a_from <= a_to <= a.len(),
        0 <= b_from <= b_to <= b.len(),
        branches(a, a_from, a_to),
        branches(b, b_from, b_to),
        x.len() == 32,
        y.len() == 32,
        digests_are_wide(),
        !collision(),
        segment_hash(a, a_from, a_to, x) is Some,
        segment_hash(a, a_from, a_to, x) == segment_hash(b, b_from, b_to, y),
        segment_path(a, a_from, a_to) is Some,
        segment_path(b, b_from, b_to) is Some,
        starts_with(path, segment_path(a, a_from, a_to)->0),
        starts_with(path, segment_path(b, b_from, b_to)->0),
    ensures
        is_branch_hash(x) || is_branch_hash(y) || (x == y && segment_path(a, a_from, a_to)
            == segment_path(b, b_from, b_to)),
    decreases a_to - a_from,
{
    if a_from == a_to && b_from == b_to {
    } else if a_from == a_to {
        lemma_segment_hash_last(b, b_from, b_to, y);
        let below = segment_hash(b, b_from, b_to - 1, y)->0;
        lemma_segment_hash_wide(b, b_from, b_to - 1, y);
        assert(b[b_to - 1] is Branch);
        assert(step_hash(b[b_to - 1], below) == Some(x));
    } else if b_from == b_to {
        lemma_segment_hash_last(a, a_from, a_to, x);
        let below = segment_hash(a, a_from, a_to - 1, x)->0;
        lemma_segment_hash_wide(a, a_from, a_to - 1, x);
        assert(a[a_to - 1] is Branch);
        assert(step_hash(a[a_to - 1], below) == Some(y));
    } else {
        lemma_segment_hash_last(a, a_from, a_to, x);
        lemma_segment_hash_last(b, b_from, b_to, y);
        let a_below = segment_hash(a, a_from, a_to - 1, x)->0;
        let b_below = segment_hash(b, b_from, b_to - 1, y)->0;
        lemma_segment_hash_wide(a, a_from, a_to - 1, x);
        lemma_segment_hash_wide(b, b_from, b_to - 1, y);
        let p = a[a_to - 1];
        let q = b[b_to - 1];
        assert(p is Branch && q is Branch);
        lemma_same_branch(p, q, a_below, b_below);
        let n = p->node.path.len() as int;
        let a_rest = segment_path(a, a_from, a_to - 1)->0;
        let b_rest = segment_path(b, b_from, b_to - 1)->0;
        let a_path = segment_path(a, a_from, a_to)->0;
        let b_path = segment_path(b, b_from, b_to)->0;
        assert(a_path == p->node.path + seq![p->Branch_chr] + a_rest);
        assert(b_path == q->node.path + seq![q->Branch_chr] + b_rest);
        assert(path[n] == path.subrange(0, a_path.len() as int)[n]);
        assert(path[n] == path.subrange(0, b_path.len() as int)[n]);
        assert(a_path[n] == p->Branch_chr);
        assert(b_path[n] == q->Branch_chr);
        let rest = path.skip(n + 1);
        assert(rest.subrange(0, a_rest.len() as int) =~= path.subrange(
            0,
            a_path.len() as int,
        ).skip(n + 1));
        assert(rest.subrange(0, b_rest.len() as int) =~= path.subrange(
            0,
            b_path.len() as int,
        ).skip(n + 1));
        assert(a_path.skip(n + 1) =~= a_rest);
        assert(b_path.skip(n + 1) =~= b_rest);
        lemma_same_start(a, a_from, a_to - 1, x, b, b_from, b_to - 1, y, rest);
    }
}

proof fn lemma_segment_path_first(steps: Seq<Step>, from: int, to: int)
    requires
        from < to,
        segment_path(steps, from, to) is Some,
    ensures
        segment_path(steps, from + 1, to) is Some,
        step_path(steps[from]) is Some,
        segment_path(steps, from, to)->0 == segment_path(steps, from + 1, to)->0 + step_path(
            steps[from],
        )->0,
    decreases to - from,
{
    if from + 1 < to {
        lemma_segment_path_first(steps, from, to - 1);
        let part = step_path(steps[to - 1])->0;
        assert(segment_path(steps, from, to)->0 =~= segment_path(steps, from + 1, to)->0
            + step_path(steps[from])->0);
    } else {
        let none: Seq<u8> = Seq::empty();
        assert(segment_path(steps, from, to - 1) == Some(none));
        assert(segment_path(steps, from + 1, to) == Some(none));
        assert(step_path(steps[from])->0 + none =~= none + step_path(steps[from])->0);
    }
}

/// How far a proof has come with a trie: where its segment starts and ends and where the next one
/// starts, what the segment starts from, the hash of the trie's root node and what that is hashed
/// with, and the trie's root hash.
struct Stage {
    from: int,
    end: int,
    next: int,
    start: Seq<u8>,
    node_root: Seq<u8>,
    others: Seq<Seq<u8>>,
    trie: Seq<u8>,
}

/// The first trie that a proof leads through.
spec fn first_stage(steps: Seq<Step>) -> Option<Stage> {
    let end = segment_end(steps, 1);
    match segment_hash(steps, 0, end, Seq::empty()) {
        None => None,
        Some(node_root) => match head_hash(steps[end], node_root) {
            None => None,
            Some(trie) => Some(
                Stage {
                    from: 0,
                    end,
                    next: end + 1,
                    start: Seq::empty(),
                    node_root,
                    others: steps[end]->Shunt_hashes,
                    trie,
                },
            ),
        },
    }
}

/// The trie that a proof leads through after another.
spec fn stage_after(
    steps: Seq<Step>,
    blocks: spec_fn(Seq<u8>) -> Option<Seq<u8>>,
    last: Stage,
) -> Option<Stage> {
    let end = segment_end(steps, last.next + 1);
    let stop = junction_end(steps, end);
    if last.next >= steps.len() || end >= steps.len() || stop == end {
        None
    } else {
        match blocks(last.trie) {
            None => None,
            Some(block) => match segment_hash(steps, last.next, end, block) {
                None => None,
                Some(node_root) => match tail_hash(steps, end, stop - 1, last.trie) {
                    None => None,
                    Some(before) => match junction_hash(steps[stop - 1], node_root, before) {
                        None => None,
                        Some(trie) => Some(
                            Stage {
                                from: last.next,
                                end,
                                next: stop,
                                start: block,
                                node_root,
                                others: placed(
                                    before,
                                    steps[stop - 1]->idx,
                                    steps[stop - 1]->Shunt_hashes,
                                )->0,
                                trie,
                            },
                        ),
                    },
                },
            },
        }
    }
}

/// The tries that a proof leads through, one after the other.
spec fn stage(
    steps: Seq<Step>,
    blocks: spec_fn(Seq<u8>) -> Option<Seq<u8>>,
    k: nat,
) -> Option<Stage>
    decreases k,
{
    if k == 0 {
        first_stage(steps)
    } else {
        match stage(steps, blocks, (k - 1) as nat) {
            None => None,
            Some(last) => stage_after(steps, blocks, last),
        }
    }
}

/// Whether the tries that a proof leads through include one with a root hash.
spec fn passes(
    steps: Seq<Step>,
    blocks: spec_fn(Seq<u8>) -> Option<Seq<u8>>,
    root: Seq<u8>,
    k: nat,
) -> bool {
    stage(steps, blocks, k) is Some && stage(steps, blocks, k)->0.trie == root
}

proof fn lemma_leads_through(
    steps: Seq<Step>,
    blocks: spec_fn(Seq<u8>) -> Option<Seq<u8>>,
    root: Seq<u8>,
    k: nat,
) -> (m: nat)
    requires
        stage(steps, blocks, k) is Some,
        0 <= stage(steps, blocks, k)->0.next,
        blocks(stage(steps, blocks, k)->0.trie) is Some,
        leads_on(
            steps,
            stage(steps, blocks, k)->0.next,
            stage(steps, blocks, k)->0.trie,
            blocks(stage(steps, blocks, k)->0.trie)->0,
            root,
            blocks,
        ),
    ensures
        passes(steps, blocks, root, m),
    decreases steps.len() - stage(steps, blocks, k)->0.next,
{
    let last = stage(steps, blocks, k)->0;
    if last.next < steps.len() {
        lemma_segment_end(steps, last.next + 1);
        lemma_junction_end(steps, segment_end(steps, last.next + 1));
        assert(stage(steps, blocks, k + 1) == stage_after(steps, blocks, last));
        let found = stage(steps, blocks, k + 1)->0;
        if found.trie == root {
            k + 1
        } else {
            lemma_leads_through(steps, blocks, root, k + 1)
        }
    } else {
        k
    }
}

proof fn lemma_junction_is_row(steps: Seq<Step>, end: int)
    requires
        0 <= end < steps.len(),
        steps[end] is Shunt,
        junction_end(steps, end) > end,
        junction_end(steps, end) < steps.len() ==> !(steps[junction_end(steps, end)] is Shunt),
    ensures
        junction_end(steps, end) == shunt_end(steps, end + 1),
    decreases steps.len() - end,
{
    lemma_junction_end(steps, end + 1);
    assert(junction_end(steps, end) == junction_end(steps, end + 1));
    if end + 1 < steps.len() && steps[end + 1] is Shunt {
        if junction_end(steps, end + 1) > end + 1 {
            lemma_junction_is_row(steps, end + 1);
        }
    }
}

/// What holds of the tries that a well-formed proof leads through: their segments lead along
/// prefixes of the path, up to a 256-slot branch.
spec fn staged(steps: Seq<Step>, path: Seq<u8>, s: Stage, k: nat) -> bool {
    &&& 0 <= s.from < s.end < steps.len()
    &&& (s.from == 0) == (k == 0)
    &&& s.end == segment_end(steps, s.from + 1)
    &&& s.end < s.next <= steps.len()
    &&& !(steps[s.from] is Shunt)
    &&& steps[s.end] is Shunt
    &&& segment_path(steps, s.from, s.end) is Some
    &&& segment_path(steps, s.from, s.end)->0.len() <= 32
    &&& starts_with(path, segment_path(steps, s.from, s.end)->0)
    &&& k == 0 ==> segment_path(steps, s.from, s.end)->0 == path
    &&& rooted(steps, s.end)
    &&& alternates(
        steps,
        shunt_end(steps, s.end + 1),
        segment_path(steps, s.from, s.end)->0,
    )
    &&& k == 0 && s.next < steps.len() ==> !(steps[s.next] is Shunt)
    &&& k == 0 ==> s.next == s.end + 1
    &&& k > 0 ==> s.next == junction_end(steps, s.end)
}

proof fn lemma_staged(
    steps: Seq<Step>,
    blocks: spec_fn(Seq<u8>) -> Option<Seq<u8>>,
    path: Seq<u8>,
    k: nat,
)
    requires
        well_formed(steps, path),
        path.len() <= 32,
        stage(steps, blocks, k) is Some,
        segment_end(steps, 1) + 1 < steps.len() ==> !(steps[segment_end(steps, 1) + 1] is Shunt),
    ensures
        staged(steps, path, stage(steps, blocks, k)->0, k),
    decreases k,
{
    let s = stage(steps, blocks, k)->0;
    if k == 0 {
        lemma_segment_end(steps, 1);
        assert(path.subrange(0, path.len() as int) =~= path);
    } else {
        let j = (k - 1) as nat;
        let last = stage(steps, blocks, j)->0;
        lemma_staged(steps, blocks, path, j);
        let prefix = segment_path(steps, last.from, last.end)->0;
        lemma_segment_end(steps, last.next + 1);
        lemma_junction_end(steps, s.end);
        lemma_shunt_end(steps, last.end + 1);
        assert(s.from < s.end);
        assert(segment_hash(steps, s.from, s.end, s.start) is Some);
        assert(step_hash(steps[s.from], s.start) is Some);
        assert(!(steps[s.from] is Shunt));
        if j > 0 {
            lemma_junction_is_row(steps, last.end);
        } else {
            assert(shunt_end(steps, last.end + 1) == last.next);
        }
        assert(s.from == shunt_end(steps, last.end + 1));
        assert(alternates(steps, s.from, prefix));
        let own = segment_path(steps, s.from, s.end)->0;
        assert(starts_with(prefix, own));
        assert(starts_with(path, prefix));
        assert(path.subrange(0, own.len() as int) =~= path.subrange(
            0,
            prefix.len() as int,
        ).subrange(0, own.len() as int));
    }
}

/// Whether known root hashes name blocks as they should: by 32 bytes, two root hashes never by the
/// same, and never by the hash of a node.
pub open spec fn names_apart(blocks: spec_fn(Seq<u8>) -> Option<Seq<u8>>) -> bool {
    &&& forall|root: Seq<u8>| (#[trigger] blocks(root)) matches Some(name) ==> name.len() == 32
    &&& forall|root: Seq<u8>, other: Seq<u8>|
        (#[trigger] blocks(root)) is Some && #[trigger] blocks(other) == blocks(root) ==> root
            == other
    &&& forall|root: Seq<u8>, step: Step, below: Seq<u8>|
        (#[trigger] blocks(root)) is Some && !(step is Shunt) ==> #[trigger] step_hash(step, below)
            != blocks(root)
}

/// Where the branches of a stage's segment start.
spec fn first_branch(s: Stage, k: nat) -> int {
    if k == 0 {
        1
    } else {
        s.from
    }
}

/// What the branches of a stage's segment start from.
spec fn start_hash(steps: Seq<Step>, s: Stage, k: nat) -> Seq<u8> {
    if k == 0 {
        sha512_256_of(steps[0]->leaf.commitment())
    } else {
        s.start
    }
}

/// What makes two proofs comparable: their parts have their widths, and they are well-formed proofs
/// for a path.
spec fn comparable(
    steps: Seq<Step>,
    blocks: spec_fn(Seq<u8>) -> Option<Seq<u8>>,
    path: Seq<u8>,
) -> bool {
    &&& well_formed(steps, path)
    &&& path.len() <= 32
    &&& segment_end(steps, 1) + 1 < steps.len() ==> !(steps[segment_end(steps, 1) + 1] is Shunt)
    &&& all_sized(steps)
    &&& digests_are_wide()
    &&& names_apart(blocks)
}

proof fn lemma_stage_segment(
    steps: Seq<Step>,
    blocks: spec_fn(Seq<u8>) -> Option<Seq<u8>>,
    path: Seq<u8>,
    k: nat,
)
    requires
        comparable(steps, blocks, path),
        stage(steps, blocks, k) is Some,
    ensures
        ({
            let s = stage(steps, blocks, k)->0;
            let at = first_branch(s, k);
            &&& staged(steps, path, s, k)
            &&& 0 < at < s.end
            &&& branches(steps, at, s.end)
            &&& start_hash(steps, s, k).len() == 32
            &&& segment_hash(steps, at, s.end, start_hash(steps, s, k)) == Some(s.node_root)
            &&& segment_path(steps, at, s.end) is Some
            &&& starts_with(path, segment_path(steps, at, s.end)->0)
            &&& k == 0 ==> path == segment_path(steps, at, s.end)->0 + steps[0]->leaf.path
            &&& s.node_root.len() == 32
        }),
{
    let s = stage(steps, blocks, k)->0;
    let at = first_branch(s, k);
    lemma_staged(steps, blocks, path, k);
    lemma_segment_end(steps, s.from + 1);
    lemma_segment_path_is_short(steps, s.from, s.end);
    if k == 0 {
        assert(rooted(steps, s.end));
        assert(steps[0] is Leaf);
        assert(s.end > 1);
        lemma_segment_path_first(steps, 0, s.end);
        let above = segment_path(steps, 1, s.end)->0;
        assert(path.subrange(0, above.len() as int) =~= above);
        assert(step_hash(steps[0], Seq::empty()) == Some(start_hash(steps, s, k)));
    } else {
        let last = stage(steps, blocks, (k - 1) as nat)->0;
        assert(blocks(last.trie) is Some);
    }
    assert forall|i: int| at <= i < s.end implies #[trigger] steps[i] is Branch && sized(steps[i])
        && short_path(steps[i]) by {
        assert(!(steps[i] is Shunt));
        assert(!(steps[i] is Leaf));
    }
    lemma_segment_hash_wide(steps, at, s.end, start_hash(steps, s, k));
}

proof fn lemma_tail_hash_wide(steps: Seq<Step>, at: int, to: int, hash: Seq<u8>)
    requires
        hash.len() == 32,
        digests_are_wide(),
        tail_hash(steps, at, to, hash) is Some,
    ensures
        tail_hash(steps, at, to, hash)->0.len() == 32,
    decreases to - at,
{
    if at < to {
        let next = crate::merkle_proof::shunt_hash(steps[at], hash)->0;
        assert(next.len() == 32);
        lemma_tail_hash_wide(steps, at + 1, to, next);
    }
}

/// What a trie's root hash is of: the hash of its root node, alone or followed by others.
proof fn lemma_stage_trie(
    steps: Seq<Step>,
    blocks: spec_fn(Seq<u8>) -> Option<Seq<u8>>,
    path: Seq<u8>,
    k: nat,
)
    requires
        comparable(steps, blocks, path),
        stage(steps, blocks, k) is Some,
    ensures
        ({
            let s = stage(steps, blocks, k)->0;
            &&& all_wide(seq![s.node_root] + s.others, 32)
            &&& s.others.len() <= 257
            &&& s.others.len() == 0 ==> s.trie == s.node_root
            &&& s.others.len() > 0 ==> s.trie == sha512_256_of(flat(seq![s.node_root] + s.others))
            &&& s.trie.len() == 32
        }),
    decreases k,
{
    let s = stage(steps, blocks, k)->0;
    lemma_stage_segment(steps, blocks, path, k);
    let all = seq![s.node_root] + s.others;
    if k == 0 {
        assert(sized(steps[s.end]));
        assert(steps[s.end]->idx == 0);
    } else {
        let j = (k - 1) as nat;
        let last = stage(steps, blocks, j)->0;
        lemma_stage_trie(steps, blocks, path, j);
        lemma_junction_end(steps, s.end);
        let before = tail_hash(steps, s.end, s.next - 1, last.trie)->0;
        lemma_tail_hash_wide(steps, s.end, s.next - 1, last.trie);
        let step = steps[s.next - 1];
        assert(step is Shunt);
        assert(sized(step));
        assert(s.others == step->Shunt_hashes.insert(step->idx - 1, before));
    }
    assert forall|i: int| 0 <= i < all.len() implies (#[trigger] all[i]).len() == 32 by {
        if i > 0 {
            assert(all[i] == s.others[i - 1]);
        }
    }
    law_flat_keeps_parts(all, 32);
}

/// Two tries with the same root hash have the same root node.
proof fn lemma_same_node_root(
    a: Seq<Step>,
    b: Seq<Step>,
    blocks: spec_fn(Seq<u8>) -> Option<Seq<u8>>,
    path: Seq<u8>,
    j: nat,
    k: nat,
)
    requires
        comparable(a, blocks, path),
        comparable(b, blocks, path),
        !collision(),
        stage(a, blocks, j) is Some,
        stage(b, blocks, k) is Some,
        stage(a, blocks, j)->0.trie == stage(b, blocks, k)->0.trie,
    ensures
        stage(a, blocks, j)->0.node_root == stage(b, blocks, k)->0.node_root,
{
    let s = stage(a, blocks, j)->0;
    let t = stage(b, blocks, k)->0;
    lemma_stage_trie(a, blocks, path, j);
    lemma_stage_trie(b, blocks, path, k);
    let p = seq![s.node_root] + s.others;
    let q = seq![t.node_root] + t.others;
    law_flat_keeps_parts(p, 32);
    law_flat_keeps_parts(q, 32);
    if s.others.len() > 0 && t.others.len() > 0 {
        assert(!collides(flat(p), flat(q)));
        assert(flat(p) == flat(q));
        law_flat_is_injective(p, q, 32);
        assert(p[0] == q[0]);
    } else if s.others.len() > 0 {
        lemma_root_node_is_long(b, blocks, path, k, flat(p));
    } else if t.others.len() > 0 {
        lemma_root_node_is_long(a, blocks, path, j, flat(q));
    }
}

/// The hash of a trie's root node is not that of few bytes.
proof fn lemma_root_node_is_long(
    steps: Seq<Step>,
    blocks: spec_fn(Seq<u8>) -> Option<Seq<u8>>,
    path: Seq<u8>,
    k: nat,
    data: Seq<u8>,
)
    requires
        comparable(steps, blocks, path),
        !collision(),
        stage(steps, blocks, k) is Some,
        data.len() < 16898,
    ensures
        stage(steps, blocks, k)->0.node_root != sha512_256_of(data),
{
    let s = stage(steps, blocks, k)->0;
    lemma_stage_segment(steps, blocks, path, k);
    let at = first_branch(s, k);
    let start = start_hash(steps, s, k);
    lemma_segment_hash_last(steps, at, s.end, start);
    let below = segment_hash(steps, at, s.end - 1, start)->0;
    lemma_segment_hash_wide(steps, at, s.end - 1, start);
    let top = steps[s.end - 1];
    assert(top is Branch);
    assert(rooted(steps, s.end));
    lemma_step_bytes(top, below);
    assert(!collides(step_bytes(top, below), data));
}

proof fn lemma_leaf_is_no_branch(steps: Seq<Step>)
    requires
        steps.len() > 0,
        steps[0] is Leaf,
        all_sized(steps),
        !collision(),
    ensures
        !is_branch_hash(sha512_256_of(steps[0]->leaf.commitment())),
{
    let leaf = steps[0]->leaf;
    let hash = sha512_256_of(leaf.commitment());
    assert(sized(steps[0]));
    if is_branch_hash(hash) {
        let (step, below) = choose|step: Step, below: Seq<u8>|
            step is Branch && sized(step) && short_path(step) && below.len() == 32
                && #[trigger] step_hash(step, below) == Some(hash);
        lemma_step_bytes(step, below);
        assert(!collides(step_bytes(step, below), leaf.commitment()));
    }
}

/// Two proofs that lead through a trie of the same root hash start with leaves of the same value.
proof fn lemma_one_leaf(
    a: Seq<Step>,
    b: Seq<Step>,
    blocks: spec_fn(Seq<u8>) -> Option<Seq<u8>>,
    path: Seq<u8>,
    j: nat,
    k: nat,
)
    requires
        comparable(a, blocks, path),
        comparable(b, blocks, path),
        !collision(),
        stage(a, blocks, j) is Some,
        stage(b, blocks, k) is Some,
        stage(a, blocks, j)->0.trie == stage(b, blocks, k)->0.trie,
    ensures
        a[0]->leaf.data == b[0]->leaf.data,
    decreases j,
{
    let s = stage(a, blocks, j)->0;
    let t = stage(b, blocks, k)->0;
    let x = start_hash(a, s, j);
    let y = start_hash(b, t, k);
    lemma_same_node_root(a, b, blocks, path, j, k);
    lemma_stage_segment(a, blocks, path, j);
    lemma_stage_segment(b, blocks, path, k);
    lemma_same_start(a, first_branch(s, j), s.end, x, b, first_branch(t, k), t.end, y, path);
    lemma_leaf_is_no_branch(a);
    lemma_leaf_is_no_branch(b);
    if j > 0 {
        let last = stage(a, blocks, (j - 1) as nat)->0;
        assert(blocks(last.trie) == Some(x));
        assert(!is_branch_hash(x));
        assert(step_hash(b[0], Seq::empty()) != Some(x));
    }
    if k > 0 {
        let last = stage(b, blocks, (k - 1) as nat)->0;
        assert(blocks(last.trie) == Some(y));
        assert(!is_branch_hash(y));
        assert(step_hash(a[0], Seq::empty()) != Some(y));
    }
    assert(x == y);
    if j == 0 && k == 0 {
        let leaf = a[0]->leaf;
        let other = b[0]->leaf;
        assert(sized(a[0]) && sized(b[0]));
        assert(!collides(leaf.commitment(), other.commitment()));
        assert(leaf.commitment() + Seq::<u8>::empty() =~= leaf.commitment());
        assert(other.commitment() + Seq::<u8>::empty() =~= other.commitment());
        law_leaf_commitment_is_injective(leaf, other, Seq::empty(), Seq::empty());
    } else {
        assert(j > 0 && k > 0);
        lemma_one_leaf(a, b, blocks, path, (j - 1) as nat, (k - 1) as nat);
    }
}

proof fn lemma_proves_passes(
    steps: Seq<Step>,
    path: Seq<u8>,
    value: Seq<u8>,
    root: Seq<u8>,
    blocks: spec_fn(Seq<u8>) -> Option<Seq<u8>>,
) -> (k: nat)
    requires
        proves(steps, path, value, root, blocks),
    ensures
        passes(steps, blocks, root, k),
{
    lemma_segment_end(steps, 1);
    if single(steps) {
        assert(stage(steps, blocks, 0) == first_stage(steps));
        0
    } else {
        assert(stage(steps, blocks, 0) == first_stage(steps));
        lemma_leads_through(steps, blocks, root, 0)
    }
}

/// Verification is sound: two proofs that verify for a path against a root hash show the same
/// value, whoever made them and however many tries they lead through, unless two different byte
/// strings hash to the same. Their parts have their widths, only their first step is a leaf, and
/// known root hashes name blocks apart.
pub proof fn law_root_fixes_value(
    steps: Seq<Step>,
    others: Seq<Step>,
    path: Seq<u8>,
    value: Seq<u8>,
    other: Seq<u8>,
    root: Seq<u8>,
    blocks: spec_fn(Seq<u8>) -> Option<Seq<u8>>,
)
    requires
        digests_are_wide(),
        path.len() <= 32,
        all_sized(steps),
        all_sized(others),
        names_apart(blocks),
        proves(steps, path, value, root, blocks),
        proves(others, path, other, root, blocks),
    ensures
        value == other || collision(),
{
    if !collision() {
        let j = lemma_proves_passes(steps, path, value, root, blocks);
        let k = lemma_proves_passes(others, path, other, root, blocks);
        lemma_one_leaf(steps, others, blocks, path, j, k);
    }
}

/// Of proofs of one segment, this needs nothing of the known blocks: such a proof leads to its root
/// through its own trie alone.
pub proof fn law_trie_root_fixes_value(
    steps: Seq<Step>,
    others: Seq<Step>,
    path: Seq<u8>,
    value: Seq<u8>,
    other: Seq<u8>,
    root: Seq<u8>,
    blocks: spec_fn(Seq<u8>) -> Option<Seq<u8>>,
    other_blocks: spec_fn(Seq<u8>) -> Option<Seq<u8>>,
)
    requires
        digests_are_wide(),
        path.len() <= 32,
        all_sized(steps),
        all_sized(others),
        single(steps),
        single(others),
        proves(steps, path, value, root, blocks),
        proves(others, path, other, root, other_blocks),
    ensures
        value == other || collision(),
{
    let none = |known: Seq<u8>| None::<Seq<u8>>;
    assert(names_apart(none));
    law_root_fixes_value(steps, others, path, value, other, root, none);
}

/// A proof whose parts have their widths can be verified.
pub proof fn law_sized_proofs_are_complete(steps: Seq<Step>)
    requires
        all_sized(steps),
    ensures
        complete(steps),
{
    assert forall|i: int| 0 <= i < steps.len() implies match #[trigger] steps[i] {
        Step::Branch { node, capacity, .. } => node.ptrs.len() == capacity,
        Step::Leaf { leaf, .. } => i > 0 ==> leaf.data is Some,
        Step::Shunt { .. } => true,
    } by {
        assert(sized(steps[i]));
    }
}

/// A proof that verifies against the root hash of a block shows what a read of the block gives, whoever
/// made the proof, unless two different byte strings hash to the same. The tries are consistent, and the
/// read comes with a proof of its own whose parts have their widths.
pub proof fn law_verified_values_are_read(
    forest: Forest,
    block: Seq<u8>,
    steps: Seq<Step>,
    path: Seq<u8>,
    value: Seq<u8>,
    blocks: spec_fn(Seq<u8>) -> Option<Seq<u8>>,
)
    requires
        digests_are_wide(),
        forest.consistent(blocks),
        names_apart(blocks),
        path.len() == 32,
        forest.root_hash(block) is Ok,
        forest.value_with_proof(block, path) matches Ok(Some(read)) && all_sized(read.1),
        all_sized(steps),
        proves(steps, path, value, forest.root_hash(block)->Ok_0, blocks),
    ensures
        forest.lookup(block, path) == Ok::<Option<Seq<u8>>, Fault>(Some(value)) || collision(),
{
    let (read, made) = forest.value_with_proof(block, path)->Ok_0->0;
    law_values_come_with_proofs(forest, block, path, blocks);
    law_root_fixes_value(
        steps,
        made,
        path,
        value,
        read,
        forest.root_hash(block)->Ok_0,
        blocks,
    );
}

} // verus!
