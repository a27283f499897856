//! A proof is read from its wire form alone, and from no other bytes.
use vstd::prelude::*;

use crate::hash::TrieHash;
use crate::hex::hex_of;
use crate::merkle_proof::{flat, ProofPtr, Step};
use crate::proof_codec::{
    all_named, all_wide, bytes_at, count_at, hashes_at, leaf_at, leaf_wire, listed, node_at,
    node_wire, number_place, place_number, proof_at, proof_wire, ptr_wire, ptrs_at, ptrs_wire,
    sendable, sendable_node, step_at, step_wire, steps_at, steps_wire, valued,
};
use crate::words::{be_bytes, be_value, lemma_be_bound, lemma_be_len, lemma_spans};

verus! {

proof fn lemma_be_restored(bytes: Seq<u8>)
    ensures
        be_bytes(be_value(bytes), bytes.len()) == bytes,
    decreases bytes.len(),
{
    if bytes.len() > 0 {
        let front = bytes.drop_last();
        lemma_be_restored(front);
        let n = be_value(bytes);
        assert(n / 256 == be_value(front));
        assert(n % 256 == bytes.last());
        lemma_be_len(n, bytes.len());
        assert(be_bytes(n, bytes.len()) =~= front.push(bytes.last()));
        assert(front.push(bytes.last()) =~= bytes);
    } else {
        assert(be_bytes(be_value(bytes), 0) =~= bytes);
    }
}

proof fn lemma_count_at(bytes: Seq<u8>, at: int)
    requires
        0 <= at,
        count_at(bytes, at) is Ok,
    ensures
        ({
            let (n, next) = count_at(bytes, at)->Ok_0;
            &&& next == at + 4
            &&& next <= bytes.len()
            &&& n < 0x1_0000_0000
            &&& be_bytes(n, 4) == bytes.subrange(at, next)
        }),
{
    let part = bytes.subrange(at, at + 4);
    lemma_spans();
    lemma_be_bound(part);
    lemma_be_restored(part);
}

proof fn lemma_bytes_at(bytes: Seq<u8>, at: int)
    requires
        0 <= at,
        bytes_at(bytes, at) is Ok,
    ensures
        ({
            let (part, next) = bytes_at(bytes, at)->Ok_0;
            &&& next == at + 4 + part.len()
            &&& next <= bytes.len()
            &&& part.len() < 0x1_0000_0000
            &&& be_bytes(part.len(), 4) + part == bytes.subrange(at, next)
        }),
{
    lemma_count_at(bytes, at);
    let (part, next) = bytes_at(bytes, at)->Ok_0;
    let n = count_at(bytes, at)->Ok_0.0;
    assert(part.len() == n);
    assert(be_bytes(n, 4) + part =~= bytes.subrange(at, next));
}

proof fn lemma_ptrs_at(bytes: Seq<u8>, at: int, n: nat, before: Seq<ProofPtr>)
    requires
        0 <= at <= bytes.len(),
        all_named(before),
        ptrs_at(bytes, at, n, before) is Ok,
    ensures
        ({
            let (ptrs, end) = ptrs_at(bytes, at, n, before)->Ok_0;
            &&& at <= end <= bytes.len()
            &&& ptrs.len() == before.len() + n
            &&& all_named(ptrs)
            &&& ptrs_wire(ptrs) == ptrs_wire(before) + bytes.subrange(at, end)
        }),
    decreases n,
{
    if n > 0 {
        let ptr = ProofPtr {
            id: bytes[at],
            chr: bytes[at + 1],
            back_block: bytes.subrange(at + 2, at + 34),
        };
        let more = before.push(ptr);
        assert(ptr_wire(ptr) =~= bytes.subrange(at, at + 34));
        assert(more.drop_last() =~= before);
        lemma_ptrs_at(bytes, at + 34, (n - 1) as nat, more);
        let (ptrs, end) = ptrs_at(bytes, at, n, before)->Ok_0;
        assert(bytes.subrange(at, at + 34) + bytes.subrange(at + 34, end) =~= bytes.subrange(
            at,
            end,
        ));
        assert(ptrs_wire(ptrs) =~= ptrs_wire(before) + bytes.subrange(at, end));
    } else {
        assert(ptrs_wire(before) + bytes.subrange(at, at) =~= ptrs_wire(before));
    }
}

proof fn lemma_hashes_at(bytes: Seq<u8>, at: int, n: nat, before: Seq<Seq<u8>>)
    requires
        0 <= at <= bytes.len(),
        all_wide(before),
        hashes_at(bytes, at, n, before) is Ok,
    ensures
        ({
            let (hashes, end) = hashes_at(bytes, at, n, before)->Ok_0;
            &&& at <= end <= bytes.len()
            &&& hashes.len() == before.len() + n
            &&& all_wide(hashes)
            &&& flat(hashes) == flat(before) + bytes.subrange(at, end)
        }),
    decreases n,
{
    if n > 0 {
        let hash = bytes.subrange(at, at + 32);
        let more = before.push(hash);
        assert(more.drop_last() =~= before);
        lemma_hashes_at(bytes, at + 32, (n - 1) as nat, more);
        let (hashes, end) = hashes_at(bytes, at, n, before)->Ok_0;
        assert(hash + bytes.subrange(at + 32, end) =~= bytes.subrange(at, end));
        assert(flat(hashes) =~= flat(before) + bytes.subrange(at, end));
    } else {
        assert(flat(before) + bytes.subrange(at, at) =~= flat(before));
    }
}

proof fn lemma_node_at(bytes: Seq<u8>, at: int)
    requires
        0 <= at <= bytes.len(),
        node_at(bytes, at) is Ok,
    ensures
        ({
            let (node, end) = node_at(bytes, at)->Ok_0;
            &&& at < end <= bytes.len()
            &&& sendable_node(node)
            &&& node_wire(node) == bytes.subrange(at, end)
        }),
{
    let (node, end) = node_at(bytes, at)->Ok_0;
    lemma_bytes_at(bytes, at + 1);
    let next = bytes_at(bytes, at + 1)->Ok_0.1;
    lemma_count_at(bytes, next);
    let (n, from) = count_at(bytes, next)->Ok_0;
    let none: Seq<ProofPtr> = Seq::empty();
    assert(all_named(none));
    lemma_ptrs_at(bytes, from, n, none);
    assert(ptrs_wire(none) + bytes.subrange(from, end) =~= bytes.subrange(from, end));
    let head = bytes.subrange(at + 1, next);
    let count = bytes.subrange(next, from);
    assert(head == be_bytes(node.path.len(), 4) + node.path);
    assert(node_wire(node) =~= seq![bytes[at]] + head + count + bytes.subrange(from, end));
    assert(seq![bytes[at]] + head + count + bytes.subrange(from, end) =~= bytes.subrange(at, end));
}

/// A step is read from its own wire form alone: bytes that a step is read from are what the step is
/// written as.
pub proof fn law_read_step_is_written_so(bytes: Seq<u8>, at: int)
    requires
        0 <= at <= bytes.len(),
        step_at(bytes, at) is Ok,
    ensures
        ({
            let (step, end) = step_at(bytes, at)->Ok_0;
            &&& at < end <= bytes.len()
            &&& sendable(step)
            &&& step_wire(step) == bytes.subrange(at, end)
        }),
{
    let (step, end) = step_at(bytes, at)->Ok_0;
    let none: Seq<Seq<u8>> = Seq::empty();
    assert(all_wide(none));
    if bytes[at] == 5 {
        lemma_count_at(bytes, at + 9);
        let (n, from) = count_at(bytes, at + 9)->Ok_0;
        lemma_hashes_at(bytes, from, n, none);
        let part = bytes.subrange(at + 1, at + 9);
        lemma_spans();
        lemma_be_bound(part);
        lemma_be_restored(part);
        let number = be_value(part);
        assert(place_number(number_place(number)) == number);
        assert(flat(none) + bytes.subrange(from, end) =~= bytes.subrange(from, end));
        let count = bytes.subrange(at + 9, from);
        assert(step_wire(step) =~= seq![5u8] + part + count + bytes.subrange(from, end));
        assert(seq![5u8] + part + count + bytes.subrange(from, end) =~= bytes.subrange(at, end));
    } else if bytes[at] == 4 {
        let leaf = leaf_at(bytes, at + 2)->Ok_0.0;
        lemma_bytes_at(bytes, at + 2);
        let next = bytes_at(bytes, at + 2)->Ok_0.1;
        let head = bytes.subrange(at + 2, next);
        assert(leaf_wire(leaf) =~= head + bytes.subrange(next, end));
        assert(step_wire(step) =~= seq![4u8, bytes[at + 1]] + head + bytes.subrange(next, end));
        assert(seq![4u8, bytes[at + 1]] + head + bytes.subrange(next, end) =~= bytes.subrange(
            at,
            end,
        ));
    } else {
        let capacity = crate::proof_codec::tag_capacity(bytes[at]);
        lemma_node_at(bytes, at + 2);
        let (node, next) = node_at(bytes, at + 2)->Ok_0;
        lemma_hashes_at(bytes, next, (capacity - 1) as nat, none);
        assert(flat(none) + bytes.subrange(next, end) =~= bytes.subrange(next, end));
        let head = seq![bytes[at], bytes[at + 1]];
        assert(step_wire(step) =~= head + bytes.subrange(at + 2, next) + bytes.subrange(
            next,
            end,
        ));
        assert(head + bytes.subrange(at + 2, next) + bytes.subrange(next, end) =~= bytes.subrange(
            at,
            end,
        ));
    }
}

proof fn lemma_steps_at(bytes: Seq<u8>, at: int, n: nat, before: Seq<Step>)
    requires
        0 <= at <= bytes.len(),
        steps_at(bytes, at, n, before) is Ok,
        forall|i: int| 0 <= i < before.len() ==> sendable(#[trigger] before[i]),
    ensures
        ({
            let (steps, end) = steps_at(bytes, at, n, before)->Ok_0;
            &&& at <= end <= bytes.len()
            &&& steps.len() == before.len() + n
            &&& forall|i: int| 0 <= i < steps.len() ==> sendable(#[trigger] steps[i])
            &&& steps_wire(steps) == steps_wire(before) + bytes.subrange(at, end)
        }),
    decreases n,
{
    if n > 0 {
        law_read_step_is_written_so(bytes, at);
        let (step, next) = step_at(bytes, at)->Ok_0;
        let more = before.push(step);
        assert(more.drop_last() =~= before);
        lemma_steps_at(bytes, next, (n - 1) as nat, more);
        let (steps, end) = steps_at(bytes, at, n, before)->Ok_0;
        assert(bytes.subrange(at, next) + bytes.subrange(next, end) =~= bytes.subrange(at, end));
        assert(steps_wire(steps) =~= steps_wire(before) + bytes.subrange(at, end));
    } else {
        assert(steps_wire(before) + bytes.subrange(at, at) =~= steps_wire(before));
    }
}

/// A proof is read from its own wire form alone: bytes that a proof is read from are what the proof
/// is written as, so that no two wire forms are read as the same proof.
pub proof fn law_read_proof_is_written_so(bytes: Seq<u8>)
    requires
        proof_at(bytes) is Ok,
    ensures
        ({
            let (steps, end) = proof_at(bytes)->Ok_0;
            &&& 4 <= end <= bytes.len()
            &&& steps.len() < 0x1_0000_0000
            &&& forall|i: int| 0 <= i < steps.len() ==> sendable(#[trigger] steps[i])
            &&& proof_wire(steps) == bytes.take(end)
        }),
{
    lemma_count_at(bytes, 0);
    let (n, from) = count_at(bytes, 0)->Ok_0;
    let none: Seq<Step> = Seq::empty();
    lemma_steps_at(bytes, from, n, none);
    let (steps, end) = proof_at(bytes)->Ok_0;
    assert(proof_wire(steps) =~= bytes.subrange(0, 4) + bytes.subrange(4, end));
    assert(bytes.subrange(0, 4) + bytes.subrange(4, end) =~= bytes.take(end));
}

/// A proof that can be sent has a value for every leaf.
pub proof fn law_sendable_proofs_are_valued(steps: Seq<Step>)
    requires
        forall|i: int| 0 <= i < steps.len() ==> sendable(#[trigger] steps[i]),
    ensures
        valued(steps),
{
    assert forall|i: int| 0 <= i < steps.len() && #[trigger] steps[i] is Leaf implies steps[i]->leaf.data
        is Some by {
        assert(sendable(steps[i]));
    }
}

/// Where each hash stands in the text of a list: as its hexadecimal digits, one separator apart. A list
/// in groups has a new line before every fourth hash, and all others are parted by commas.
pub proof fn law_listed_hashes_layout(hashes: Seq<TrieHash>, n: nat, grouped: bool, i: int)
    requires
        0 <= i < n <= hashes.len(),
    ensures
        ({
            let text = listed(hashes, n, grouped);
            let first: int = if grouped {
                1
            } else {
                0
            };
            let at = 65 * i + first;
            &&& text.len() == 65 * n - 1 + first
            &&& text.subrange(at, at + 64) == hex_of(hashes[i]@)
            &&& i > 0 || grouped ==> text[at - 1] == (if grouped && i % 4 == 0 { 10int } else { 44 })
        }),
    decreases n,
{
    let text = listed(hashes, n, grouped);
    let first: int = if grouped {
        1
    } else {
        0
    };
    let at = 65 * i + first;
    let last = n - 1;
    let front = listed(hashes, last as nat, grouped);
    let sep = crate::proof_codec::separator(last, grouped);
    let digits = hex_of(hashes[last]@);
    assert(digits.len() == 64);
    if last > 0 {
        law_listed_hashes_layout(hashes, last as nat, grouped, if i < last { i } else { 0 });
        assert(sep.len() == 1);
    } else {
        assert(front.len() == 0);
        assert(sep.len() == first);
    }
    if i < last {
        assert(text.subrange(at, at + 64) =~= front.subrange(at, at + 64));
        if i > 0 || grouped {
            assert(text[at - 1] == front[at - 1]);
        }
    } else {
        assert(text.subrange(at, at + 64) =~= digits);
        if i > 0 || grouped {
            assert(text[at - 1] == sep[0]);
        }
    }
}

} // verus!
