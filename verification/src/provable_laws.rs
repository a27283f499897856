//! When there is a proof to be had.
use vstd::prelude::*;

use crate::cursor::Position;
use crate::error::Error;
use crate::hash::TrieHash;
use crate::height_laws::{chained, law_chain_is_found_at_every_height};
use crate::leaf::{Leaf, Node};
use crate::marf_read::LeafOrBackptr;
use crate::merkle_proof::{ProofPtr, Step};
use crate::node::{is_backptr, Branch, TriePtr};
use crate::patch::Fault;
use crate::proof_build::{
    doublings, law_stride_bounds, other_hashes, proof_hashes, stride, Level,
};
use crate::read_storage::Forest;

verus! {

/// Two to the power of a number.
pub open spec fn power(j: nat) -> nat
    decreases j,
{
    if j == 0 {
        1
    } else {
        2 * power((j - 1) as nat)
    }
}

/// The stride of a distance is the power of two that its doublings count, and a power of two is its
/// own stride.
pub proof fn law_stride_is_power(n: nat, j: nat)
    requires
        n > 0,
    ensures
        stride(n) == power(doublings(n)),
        doublings(power(j)) == j,
    decreases n + j,
{
    if n >= 2 {
        law_stride_is_power(n / 2, 0);
    }
    if j > 0 {
        law_stride_is_power(1, (j - 1) as nat);
        lemma_power_positive((j - 1) as nat);
        let below = power((j - 1) as nat);
        assert((2 * below) / 2 == below);
    }
}

proof fn lemma_power_positive(j: nat)
    ensures
        power(j) > 0,
    decreases j,
{
    if j > 0 {
        lemma_power_positive((j - 1) as nat);
    }
}

proof fn lemma_doublings_monotone(a: nat, b: nat)
    requires
        a <= b,
    ensures
        doublings(a) <= doublings(b),
    decreases b,
{
    if a >= 2 {
        lemma_doublings_monotone(a / 2, b / 2);
    }
}

/// The root hashes of the ancestors that the block of a chain at a height commits to: those at
/// distances that are powers of two.
pub open spec fn committed_ancestors(roots: Seq<Seq<u8>>, height: int) -> Seq<Seq<u8>> {
    Seq::new(
        if height > 0 {
            doublings(height as nat) + 1
        } else {
            0
        },
        |j: int| roots[height - power(j as nat)],
    )
}

/// Whether the blocks of a chain can be opened, have distinct root hashes, and commit to those of
/// their ancestors.
pub open spec fn rooted_chain(
    forest: Forest,
    before: Seq<u8>,
    chain: Seq<Seq<u8>>,
    roots: Seq<Seq<u8>>,
) -> bool {
    &&& chained(forest, before, chain)
    &&& roots.len() == chain.len()
    &&& forest.squash_height() is None
    &&& forall|k: int, height: u32|
        0 <= k < chain.len() ==> #[trigger] forest.indexed_ancestor(chain[k], k as u32, height)
            == Ok::<Option<Seq<u8>>, Fault>(None)
    &&& forall|j: int, k: int|
        0 <= j < k < roots.len() ==> #[trigger] roots[j] != #[trigger] roots[k]
    &&& forall|k: int| 0 <= k < chain.len() ==> #[trigger] opened(forest, chain, roots, k)
}

/// Whether the block of a chain at a height can be opened and has its root.
pub open spec fn opened(
    forest: Forest,
    chain: Seq<Seq<u8>>,
    roots: Seq<Seq<u8>>,
    k: int,
) -> bool {
    &&& forest.opens(chain[k]) is Ok
    &&& forest.root_hash(chain[k]) == Ok::<Seq<u8>, Fault>(roots[k])
    &&& forest.root_node_hash(chain[k]) is Ok
    &&& forest.ancestors(chain[k]) == Ok::<Seq<Seq<u8>>, Fault>(committed_ancestors(roots, k))
}

/// Every block of a chain is linked to every block before it: there are shunts from the one back to
/// the other, however far it is.
pub proof fn law_shunts_reach_every_ancestor(
    forest: Forest,
    before: Seq<u8>,
    chain: Seq<Seq<u8>>,
    roots: Seq<Seq<u8>>,
    current: int,
    ancestor: int,
    steps: Seq<Step>,
)
    requires
        rooted_chain(forest, before, chain, roots),
        0 <= ancestor <= current < chain.len(),
    ensures
        forest.shunts_back(
            chain[current],
            current as u32,
            ancestor as u32,
            roots[ancestor],
            steps,
        ) is Ok,
    decreases current,
{
    assert(opened(forest, chain, roots, current));
    if current > ancestor {
        let distance = (current - ancestor) as nat;
        let place = doublings(distance);
        let hashes = committed_ancestors(roots, current);
        let target = roots[ancestor];
        law_stride_bounds(distance);
        law_stride_is_power(distance, place);
        lemma_doublings_monotone(distance, current as nat);
        let next = current - stride(distance);
        assert(hashes[place as int] == roots[next]);
        if hashes.contains(target) {
            let j = choose|j: int| 0 <= j < hashes.len() && hashes[j] == target;
            lemma_power_positive(j as nat);
            lemma_power_within(current as nat, j as nat);
            let at = current - power(j as nat);
            assert(roots[at] == roots[ancestor]);
            assert(at == ancestor);
            law_stride_is_power(distance, j as nat);
            assert(place == j);
        }
        assert(forest.indexed_ancestor(chain[current], current as u32, next as u32) == Ok::<
            Option<Seq<u8>>,
            Fault,
        >(None));
        law_chain_is_found_at_every_height(forest, before, chain, next, current);
        assert(opened(forest, chain, roots, next));
        let step = forest.shunt_step(chain[current], hashes, place as int, steps.len() == 0)->Ok_0;
        law_shunts_reach_every_ancestor(
            forest,
            before,
            chain,
            roots,
            next,
            ancestor,
            steps.push(step),
        );
    }
}

proof fn lemma_power_within(n: nat, j: nat)
    requires
        n > 0,
        j <= doublings(n),
    ensures
        power(j) <= n,
    decreases n,
{
    if n >= 2 && j > 0 {
        lemma_power_within(n / 2, (j - 1) as nat);
    }
}

/// A back-pointer to any earlier block of a chain has its shunts.
pub proof fn law_backptrs_have_shunts(
    forest: Forest,
    before: Seq<u8>,
    chain: Seq<Seq<u8>>,
    roots: Seq<Seq<u8>>,
    current: int,
    ancestor: int,
    backptr: TriePtr,
)
    requires
        rooted_chain(forest, before, chain, roots),
        0 <= ancestor < current < chain.len(),
        forest.name(backptr.back_block) == Ok::<Seq<u8>, Fault>(chain[ancestor]),
    ensures
        forest.backptr_shunts(chain[current], backptr) is Ok,
{
    assert(opened(forest, chain, roots, ancestor));
    assert(forest.indexed_ancestor(chain[current], current as u32, ancestor as u32) == Ok::<
        Option<Seq<u8>>,
        Fault,
    >(None));
    assert(forest.indexed_ancestor(chain[current], current as u32, current as u32) == Ok::<
        Option<Seq<u8>>,
        Fault,
    >(None));
    law_chain_is_found_at_every_height(forest, before, chain, ancestor, current);
    law_chain_is_found_at_every_height(forest, before, chain, current, current);
    law_shunts_reach_every_ancestor(
        forest,
        before,
        chain,
        roots,
        current,
        ancestor,
        Seq::empty(),
    );
}

/// Whether exactly one slot leads along a byte.
pub open spec fn leads_once(ptrs: Seq<TriePtr>, chr: u8, slot: int) -> bool {
    &&& 0 <= slot < ptrs.len()
    &&& ptrs[slot].id != 0
    &&& ptrs[slot].chr == chr
    &&& forall|i: int|
        0 <= i < ptrs.len() && i != slot ==> (#[trigger] ptrs[i]).id == 0 || ptrs[i].chr != chr
}

proof fn lemma_other_hashes(
    ptrs: Seq<TriePtr>,
    all: Seq<Seq<u8>>,
    chr: u8,
    slot: int,
    at: int,
    before: Seq<Seq<u8>>,
)
    requires
        leads_once(ptrs, chr, slot),
        all.len() == ptrs.len(),
        0 <= at <= ptrs.len(),
        before.len() == at - (if slot < at { 1int } else { 0 }),
        forall|i: int|
            0 <= i < at && i != slot ==> before[if i < slot { i } else { i - 1 }] == if (
            #[trigger] ptrs[i]).id == 0 {
                TrieHash::empty_bytes()
            } else {
                all[i]
            },
    ensures
        ({
            let hashes = other_hashes(ptrs, all, chr, at, before);
            &&& hashes.len() + 1 == ptrs.len()
            &&& forall|i: int|
                0 <= i < ptrs.len() && i != slot ==> hashes[if i < slot { i } else { i - 1 }] == if (
                #[trigger] ptrs[i]).id == 0 {
                    TrieHash::empty_bytes()
                } else {
                    all[i]
                }
        }),
    decreases ptrs.len() - at,
{
    if at < ptrs.len() {
        let hash = if ptrs[at].id == 0 {
            TrieHash::empty_bytes()
        } else {
            all[at]
        };
        if at == slot {
            lemma_other_hashes(ptrs, all, chr, slot, at + 1, before);
        } else {
            let more = before.push(hash);
            assert forall|i: int| 0 <= i < at + 1 && i != slot implies more[if i < slot {
                i
            } else {
                i - 1
            }] == if (#[trigger] ptrs[i]).id == 0 {
                TrieHash::empty_bytes()
            } else {
                all[i]
            } by {
                if i < at {
                    let k = if i < slot {
                        i
                    } else {
                        i - 1
                    };
                    assert(more[k] == before[k]);
                }
            }
            assert(ptrs[at].id == 0 || ptrs[at].chr != chr);
            lemma_other_hashes(ptrs, all, chr, slot, at + 1, more);
        }
    }
}

/// The hashes that a proof shows beside a child are those of all other slots, in their order, where
/// one slot alone leads along the child's byte.
pub proof fn law_proofs_show_other_children(
    ptrs: Seq<TriePtr>,
    all: Seq<Seq<u8>>,
    chr: u8,
    slot: int,
    i: int,
)
    requires
        leads_once(ptrs, chr, slot),
        all.len() == ptrs.len(),
        0 <= i < ptrs.len(),
        i != slot,
    ensures
        proof_hashes(ptrs, all, chr) matches Ok(hashes) && hashes.len() == ptrs.len() - 1
            && hashes[if i < slot { i } else { i - 1 }] == (if ptrs[i].id == 0 {
            TrieHash::empty_bytes()
        } else {
            all[i]
        }),
{
    lemma_other_hashes(ptrs, all, chr, slot, 0, Seq::empty());
}

proof fn lemma_proof_ptrs(forest: Forest, ptrs: Seq<TriePtr>, at: int, before: Seq<ProofPtr>)
    requires
        0 <= at <= ptrs.len(),
        before.len() == at,
        forall|i: int|
            0 <= i < ptrs.len() && (#[trigger] ptrs[i]).id >= 128 ==> forest.name(
                ptrs[i].back_block,
            ) is Ok,
        forall|i: int|
            0 <= i < at ==> Ok::<ProofPtr, Fault>(#[trigger] before[i]) == forest.proof_ptr(ptrs[i]),
    ensures
        forest.proof_ptrs(ptrs, at, before) matches Ok(shown) && shown.len() == ptrs.len() && (
        forall|i: int|
            0 <= i < ptrs.len() ==> Ok::<ProofPtr, Fault>(#[trigger] shown[i]) == forest.proof_ptr(
                ptrs[i],
            )),
    decreases ptrs.len() - at,
{
    if at < ptrs.len() {
        assert(ptrs[at].id >= 128 ==> forest.name(ptrs[at].back_block) is Ok);
        let ptr = forest.proof_ptr(ptrs[at])->Ok_0;
        lemma_proof_ptrs(forest, ptrs, at + 1, before.push(ptr));
    }
}

/// A branch has its proof step above every child that it alone leads to along a byte, if the blocks
/// that its pointers name are known: the step shows the branch, the byte, and the other children.
pub proof fn law_branches_have_steps(
    forest: Forest,
    block: Seq<u8>,
    ptr: TriePtr,
    branch: Branch,
    all: Seq<Seq<u8>>,
    slot: int,
)
    requires
        forest.node(block, ptr) == Ok::<Node, Fault>(Node::Branch(branch)),
        forest.children(block, branch.ptrs) == Ok::<Seq<Seq<u8>>, Fault>(all),
        all.len() == branch.ptrs.len(),
        leads_once(branch.ptrs, branch.ptrs[slot].chr, slot),
        forall|i: int|
            0 <= i < branch.ptrs.len() && (#[trigger] branch.ptrs[i]).id >= 128 ==> forest.name(
                branch.ptrs[i].back_block,
            ) is Ok,
    ensures
        forest.segment_step(block, ptr, branch.ptrs[slot].chr) matches Ok(step) && {
            &&& step is Branch
            &&& step->Branch_chr == branch.ptrs[slot].chr
            &&& step->node.id == branch.id.code()
            &&& step->node.path == branch.path
            &&& step->node.ptrs.len() == branch.ptrs.len()
            &&& step->capacity == branch.id.slots()
            &&& step->Branch_hashes.len() == branch.ptrs.len() - 1
            &&& forall|i: int|
                0 <= i < branch.ptrs.len() ==> (#[trigger] step->node.ptrs[i]).id
                    == branch.ptrs[i].id && step->node.ptrs[i].chr == branch.ptrs[i].chr && (
                branch.ptrs[i].id >= 128 ==> forest.name(branch.ptrs[i].back_block) == Ok::<
                    Seq<u8>,
                    Fault,
                >(step->node.ptrs[i].back_block))
        },
{
    lemma_other_hashes(branch.ptrs, all, branch.ptrs[slot].chr, slot, 0, Seq::empty());
    lemma_proof_ptrs(forest, branch.ptrs, 0, Seq::empty());
    let shown = forest.proof_ptrs(branch.ptrs, 0, Seq::empty())->Ok_0;
    assert forall|i: int| 0 <= i < branch.ptrs.len() implies (#[trigger] shown[i]).id
        == branch.ptrs[i].id && shown[i].chr == branch.ptrs[i].chr && (branch.ptrs[i].id >= 128
        ==> forest.name(branch.ptrs[i].back_block) == Ok::<Seq<u8>, Fault>(
        shown[i].back_block,
    )) by {
        assert(Ok::<ProofPtr, Fault>(shown[i]) == forest.proof_ptr(branch.ptrs[i]));
    }
}

/// A leaf whose value is known has its proof step, which shows the leaf with the value.
pub proof fn law_leaves_have_steps(
    forest: Forest,
    block: Seq<u8>,
    ptr: TriePtr,
    chr: u8,
    leaf: Leaf,
    value: Seq<u8>,
)
    requires
        forest.node(block, ptr) == Ok::<Node, Fault>(Node::Leaf(leaf)),
        forest.children(block, Seq::empty()) is Ok,
        forest.value(leaf) == Ok::<Seq<u8>, Fault>(value),
    ensures
        forest.segment_step(block, ptr, chr) matches Ok(step) && {
            &&& step is Leaf
            &&& step->leaf.path == leaf.path
            &&& step->leaf.data == Some(value)
        },
{
}

/// Whether the walk of a path through a block's own trie leads on to another block, and its nodes have
/// their proof steps.
pub open spec fn leads_to(forest: Forest, block: Seq<u8>, path: Seq<u8>, next: Seq<u8>) -> bool {
    let (found, at) = forest.segment(block, Position::start(path, forest.root(block)), 33);
    &&& found matches Ok(LeafOrBackptr::Backptr(ptr)) && is_backptr(ptr.id) && forest.name(
        ptr.back_block,
    ) == Ok::<Seq<u8>, Fault>(next)
    &&& at.ptrs.last().id != 1
    &&& forest.segment_steps(block, at.ptrs, at.path[at.index - 1], Seq::empty()) is Ok
}

/// Whether the walk of a path through a block's own trie ends at a leaf of a value, and its nodes have
/// their proof steps.
pub open spec fn ends_at(forest: Forest, block: Seq<u8>, path: Seq<u8>, value: Seq<u8>) -> bool {
    let (found, at) = forest.segment(block, Position::start(path, forest.root(block)), 33);
    &&& found matches Ok(LeafOrBackptr::Leaf { ptr, leaf }) && !is_backptr(ptr.id) && forest.value(
        leaf,
    ) == Ok::<Seq<u8>, Fault>(value)
    &&& at.ptrs.last().id == 1
    &&& forest.segment_steps(block, at.ptrs, at.path[at.index - 1], Seq::empty()) is Ok
}

/// Whether a path leads through blocks of a chain, each before the last, to a value in the last one.
pub open spec fn leads_through(
    forest: Forest,
    chain: Seq<Seq<u8>>,
    path: Seq<u8>,
    value: Seq<u8>,
    stops: Seq<int>,
) -> bool {
    &&& stops.len() > 0
    &&& forall|i: int| 0 <= i < stops.len() ==> 0 <= #[trigger] stops[i] < chain.len()
    &&& forall|i: int, j: int|
        0 <= i < j < stops.len() ==> #[trigger] stops[j] < #[trigger] stops[i]
    &&& forall|i: int|
        0 <= i < stops.len() - 1 ==> leads_to(
            forest,
            chain[#[trigger] stops[i]],
            path,
            chain[stops[i + 1]],
        )
    &&& ends_at(forest, chain[stops.last()], path, value)
}

proof fn lemma_levels_are_had(
    forest: Forest,
    before: Seq<u8>,
    chain: Seq<Seq<u8>>,
    roots: Seq<Seq<u8>>,
    path: Seq<u8>,
    value: Seq<u8>,
    stops: Seq<int>,
    i: int,
    levels: Seq<Level>,
    fuel: nat,
)
    requires
        rooted_chain(forest, before, chain, roots),
        leads_through(forest, chain, path, value, stops),
        0 <= i < stops.len(),
        fuel >= stops.len() - i,
    ensures
        forest.proof_levels(chain[stops[i]], path, value, levels, fuel) is Ok,
    decreases stops.len() - i,
{
    let k = stops[i];
    let block = chain[k];
    assert(opened(forest, chain, roots, k));
    let (found, at) = forest.segment(block, Position::start(path, forest.root(block)), 33);
    if i < stops.len() - 1 {
        let next = stops[i + 1];
        assert(leads_to(forest, block, path, chain[next]));
        let ptr = found->Ok_0->Backptr_0;
        assert(stops[i + 1] < stops[i]);
        law_backptrs_have_shunts(forest, before, chain, roots, k, next, ptr);
        let level = forest.level(block, at, ptr)->Ok_0;
        lemma_levels_are_had(
            forest,
            before,
            chain,
            roots,
            path,
            value,
            stops,
            i + 1,
            levels.push(level),
            (fuel - 1) as nat,
        );
    } else {
        assert(ends_at(forest, block, path, value));
    }
}

proof fn lemma_stops_are_few(chain: Seq<Seq<u8>>, stops: Seq<int>, i: int)
    requires
        forall|i: int| 0 <= i < stops.len() ==> 0 <= #[trigger] stops[i] < chain.len(),
        forall|i: int, j: int|
            0 <= i < j < stops.len() ==> #[trigger] stops[j] < #[trigger] stops[i],
        0 <= i < stops.len(),
    ensures
        stops.len() - i <= stops[i] + 1,
    decreases stops.len() - i,
{
    if i + 1 < stops.len() {
        lemma_stops_are_few(chain, stops, i + 1);
        assert(stops[i + 1] < stops[i]);
    }
}

/// A value has its proof from every block of a chain that its path leads to it from, through however
/// many earlier blocks: whenever the nodes on the way have their proof steps, there is a proof.
pub proof fn law_values_can_be_proven(
    forest: Forest,
    before: Seq<u8>,
    chain: Seq<Seq<u8>>,
    roots: Seq<Seq<u8>>,
    path: Seq<u8>,
    value: Seq<u8>,
    stops: Seq<int>,
)
    requires
        rooted_chain(forest, before, chain, roots),
        leads_through(forest, chain, path, value, stops),
    ensures
        forest.proof_of(chain[stops[0]], path, value) is Ok,
        forest.lookup(chain[stops[0]], path) == Ok::<Option<Seq<u8>>, Fault>(Some(value))
            ==> forest.value_with_proof(chain[stops[0]], path) == Ok::<
            Option<(Seq<u8>, Seq<Step>)>,
            Fault,
        >(Some((value, forest.proof_of(chain[stops[0]], path, value)->Ok_0))),
{
    lemma_stops_are_few(chain, stops, 0);
    lemma_levels_are_had(
        forest,
        before,
        chain,
        roots,
        path,
        value,
        stops,
        0,
        Seq::empty(),
        0x1_0000_0000,
    );
}

/// A squashed forest gives no proofs, and an absent path has none; a failed lookup is passed on.
pub proof fn law_what_is_not_there_has_no_proof(
    forest: Forest,
    block: Seq<u8>,
    path: Seq<u8>,
    value: Seq<u8>,
)
    ensures
        forest.squash_height() is Some ==> {
            &&& forest.proof_of(block, path, value) == Err::<Seq<Step>, Fault>(
                Fault::Error(Error::UnsupportedOnSquashedMarf),
            )
            &&& forest.value_with_proof(block, path) == Err::<Option<(Seq<u8>, Seq<Step>)>, Fault>(
                Fault::Error(Error::UnsupportedOnSquashedMarf),
            )
        },
        forest.squash_height() is None && forest.lookup(block, path) == Ok::<
            Option<Seq<u8>>,
            Fault,
        >(None) ==> forest.value_with_proof(block, path) == Ok::<
            Option<(Seq<u8>, Seq<Step>)>,
            Fault,
        >(None),
        forest.squash_height() is None ==> (forest.lookup(block, path) matches Err(fault)
            ==> forest.value_with_proof(block, path) == Err::<
            Option<(Seq<u8>, Seq<Step>)>,
            Fault,
        >(fault)),
{
}

} // verus!
