//! What heights say of a fork as a whole.
use vstd::prelude::*;

use vstd::utf8::encode_utf8;

use crate::error::Error;
use crate::hash::sentinel_bytes;
use crate::hex::hex_of;
use crate::marf_heights::{
    decimal, has_prefix, hash_key_bytes, height_entries, height_key_bytes, holds, own_height_bytes,
    reserved, Kinship, BLOCK_HASH_TO_HEIGHT_MAPPING_KEY, BLOCK_HEIGHT_TO_HASH_MAPPING_KEY,
    OWN_BLOCK_HEIGHT_KEY,
};
use crate::patch::Fault;
use crate::read_storage::Forest;
use crate::value::zero_extended;
use crate::words::le_bytes;

verus! {

/// The number that decimal digits spell.
pub open spec fn decimal_value(digits: Seq<u8>) -> int
    decreases digits.len(),
{
    if digits.len() == 0 {
        0
    } else {
        10 * decimal_value(digits.drop_last()) + (digits.last() - 48)
    }
}

/// A number's decimal digits are digits, spell it, and start with zero for zero alone.
pub proof fn law_decimal_spells_number(n: nat)
    ensures
        decimal_value(decimal(n)) == n,
        decimal(n).len() > 0,
        forall|i: int| 0 <= i < decimal(n).len() ==> 48 <= #[trigger] decimal(n)[i] <= 57,
        n > 0 ==> decimal(n)[0] != 48,
    decreases n,
{
    if n < 10 {
        assert(decimal(n).drop_last() =~= Seq::empty());
        assert(decimal_value(decimal(n).drop_last()) == 0);
    } else {
        law_decimal_spells_number(n / 10);
        assert(decimal(n).drop_last() =~= decimal(n / 10));
    }
}

proof fn lemma_key_prefixes()
    ensures
        encode_utf8(OWN_BLOCK_HEIGHT_KEY@).len() == 24,
        encode_utf8(BLOCK_HASH_TO_HEIGHT_MAPPING_KEY@).len() == 27,
        encode_utf8(BLOCK_HEIGHT_TO_HASH_MAPPING_KEY@).len() == 27,
        encode_utf8(BLOCK_HASH_TO_HEIGHT_MAPPING_KEY@)[14] != encode_utf8(
            BLOCK_HEIGHT_TO_HASH_MAPPING_KEY@,
        )[14],
{
    reveal_strlit("__MARF_BLOCK_HEIGHT_SELF");
    reveal_strlit("__MARF_BLOCK_HASH_TO_HEIGHT");
    reveal_strlit("__MARF_BLOCK_HEIGHT_TO_HASH");
    let own = OWN_BLOCK_HEIGHT_KEY@;
    let hashes = BLOCK_HASH_TO_HEIGHT_MAPPING_KEY@;
    let heights = BLOCK_HEIGHT_TO_HASH_MAPPING_KEY@;
    assert(vstd::utf8::is_ascii_chars(own));
    assert(vstd::utf8::is_ascii_chars(hashes));
    assert(vstd::utf8::is_ascii_chars(heights));
    vstd::utf8::is_ascii_chars_encode_utf8(own);
    vstd::utf8::is_ascii_chars_encode_utf8(hashes);
    vstd::utf8::is_ascii_chars_encode_utf8(heights);
    assert(hashes[14] == 'H' || hashes[14] == 'A');
    assert(heights[14] == 'E' || heights[14] == 'H');
    assert(hashes[14] as u8 != heights[14] as u8);
}

/// The keys under which heights are recorded never fall together: not those of two heights, nor
/// those of two blocks, nor those of different purposes.
pub proof fn law_height_keys_are_distinct(height: u32, other: u32, block: Seq<u8>, another: Seq<u8>)
    ensures
        height != other ==> height_key_bytes(height) != height_key_bytes(other),
        block != another ==> hash_key_bytes(block) != hash_key_bytes(another),
        height_key_bytes(height) != hash_key_bytes(block),
        height_key_bytes(height) != own_height_bytes(),
        hash_key_bytes(block) != own_height_bytes(),
{
    lemma_key_prefixes();
    let hashes = encode_utf8(BLOCK_HASH_TO_HEIGHT_MAPPING_KEY@);
    let heights = encode_utf8(BLOCK_HEIGHT_TO_HASH_MAPPING_KEY@);
    if height_key_bytes(height) == height_key_bytes(other) {
        assert(height_key_bytes(height).skip(29) =~= decimal(height as nat));
        assert(height_key_bytes(other).skip(29) =~= decimal(other as nat));
        law_decimal_spells_number(height as nat);
        law_decimal_spells_number(other as nat);
    }
    if hash_key_bytes(block) == hash_key_bytes(another) {
        assert(hash_key_bytes(block).skip(29) =~= hex_of(block));
        assert(hash_key_bytes(another).skip(29) =~= hex_of(another));
        crate::hex::law_hex_roundtrip(block);
        crate::hex::law_hex_roundtrip(another);
    }
    assert(height_key_bytes(height)[14] == heights[14]);
    assert(hash_key_bytes(block)[14] == hashes[14]);
}

/// Whether a key is the key of one of some entries.
pub open spec fn keyed(entries: Seq<(Seq<u8>, Seq<u8>)>, key: Seq<u8>) -> bool {
    exists|i: int| 0 <= i < entries.len() && (#[trigger] entries[i]).0 == key
}

/// The entries that record heights in the block of a chain at a height. `before` is what the first
/// block follows.
pub open spec fn entries_at(before: Seq<u8>, chain: Seq<Seq<u8>>, k: int) -> Seq<
    (Seq<u8>, Seq<u8>),
> {
    height_entries(
        if k > 0 {
            chain[k - 1]
        } else {
            before
        },
        chain[k],
        k as u32,
    )
}

/// Whether the block of a chain at a height holds the entries of its heights, and what its parent
/// holds under any other key.
pub open spec fn linked(forest: Forest, before: Seq<u8>, chain: Seq<Seq<u8>>, k: int) -> bool {
    &&& holds(forest, chain[k], entries_at(before, chain, k))
    &&& k > 0 ==> forall|key: Seq<u8>|
        !keyed(entries_at(before, chain, k), key) ==> #[trigger] forest.get(chain[k], key)
            == forest.get(chain[k - 1], key)
}

/// Whether blocks form a chain: each holds the entries of its heights, and what its parent holds
/// under any other key.
pub open spec fn chained(forest: Forest, before: Seq<u8>, chain: Seq<Seq<u8>>) -> bool {
    &&& chain.len() <= u32::MAX
    &&& forall|k: int| 0 <= k < chain.len() ==> (#[trigger] chain[k]).len() == 32
    &&& forall|j: int, k: int|
        0 <= j < k < chain.len() ==> #[trigger] chain[j] != #[trigger] chain[k]
    &&& forall|k: int| 0 <= k < chain.len() ==> #[trigger] linked(forest, before, chain, k)
}

proof fn lemma_chain_keeps(
    forest: Forest,
    before: Seq<u8>,
    chain: Seq<Seq<u8>>,
    height: int,
    k: int,
)
    requires
        chained(forest, before, chain),
        0 <= height <= k < chain.len(),
    ensures
        forest.get(chain[k], height_key_bytes(height as u32)) == Ok::<Option<Seq<u8>>, Fault>(
            Some(zero_extended(chain[height], 40)),
        ),
        forest.get(chain[k], hash_key_bytes(chain[height])) == Ok::<Option<Seq<u8>>, Fault>(
            Some(zero_extended(le_bytes(height as nat, 4), 40)),
        ),
    decreases k,
{
    let entries = entries_at(before, chain, k);
    assert(linked(forest, before, chain, k));
    if height == k {
        assert(entries[1].0 == height_key_bytes(height as u32));
        assert(entries[2].0 == hash_key_bytes(chain[height]));
    } else if height == k - 1 {
        assert(entries[3].0 == height_key_bytes(height as u32));
        assert(entries[4].0 == hash_key_bytes(chain[height]));
    } else {
        lemma_chain_keeps(forest, before, chain, height, k - 1);
        assert(chain[height] != chain[k] && chain[height] != chain[k - 1]);
        lemma_key_elsewhere(before, chain, height, k);
        assert(forest.get(chain[k], height_key_bytes(height as u32)) == forest.get(
            chain[k - 1],
            height_key_bytes(height as u32),
        ));
        assert(forest.get(chain[k], hash_key_bytes(chain[height])) == forest.get(
            chain[k - 1],
            hash_key_bytes(chain[height]),
        ));
    }
}

proof fn lemma_key_elsewhere(before: Seq<u8>, chain: Seq<Seq<u8>>, height: int, k: int)
    requires
        0 <= height < k - 1,
        k < chain.len() <= u32::MAX,
        chain[height] != chain[k],
        chain[height] != chain[k - 1],
    ensures
        !keyed(entries_at(before, chain, k), height_key_bytes(height as u32)),
        !keyed(entries_at(before, chain, k), hash_key_bytes(chain[height])),
{
    let entries = entries_at(before, chain, k);
    let at = height as u32;
    law_height_keys_are_distinct(at, k as u32, chain[height], chain[k]);
    law_height_keys_are_distinct(at, (k - 1) as u32, chain[height], chain[k - 1]);
    law_height_keys_are_distinct(k as u32, k as u32, chain[height], chain[k]);
    law_height_keys_are_distinct((k - 1) as u32, k as u32, chain[height], chain[k]);
    law_height_keys_are_distinct(at, at, chain[k], chain[k]);
    law_height_keys_are_distinct(at, at, chain[k - 1], chain[k]);
    assert(entries.len() == 5);
    assert(entries[0].0 == own_height_bytes());
    assert(entries[1].0 == height_key_bytes(k as u32));
    assert(entries[2].0 == hash_key_bytes(chain[k]));
    assert(entries[3].0 == height_key_bytes((k - 1) as u32));
    assert(entries[4].0 == hash_key_bytes(chain[k - 1]));
}

/// Every block of a chain knows its whole fork: the block at each height up to its own is the
/// chain's block there, that block's height is its place in the chain, and it is an ancestor. This
/// holds where neither squashing nor an index of forks answers instead.
pub proof fn law_chain_is_found_at_every_height(
    forest: Forest,
    before: Seq<u8>,
    chain: Seq<Seq<u8>>,
    height: int,
    tip: int,
)
    requires
        chained(forest, before, chain),
        0 <= height <= tip < chain.len(),
        forest.squash_height() is None,
        forest.indexed_ancestor(chain[tip], tip as u32, height as u32) == Ok::<
            Option<Seq<u8>>,
            Fault,
        >(None),
    ensures
        forest.at_height(height as u32, chain[tip]) == Ok::<Option<Seq<u8>>, Fault>(
            Some(chain[height]),
        ),
        forest.height(chain[height], chain[tip]) == Ok::<Option<u32>, Fault>(Some(height as u32)),
        height < tip ==> forest.kinship(chain[height], chain[tip]) == Kinship::Ancestor(
            forest.opens(chain[height]),
        ),
{
    lemma_chain_keeps(forest, before, chain, height, tip);
    lemma_own_height(forest, before, chain, tip);
    crate::marf_heights::lemma_number_in(height as u32);
    crate::marf_heights::lemma_block_in(chain[height]);
    if height < tip {
        assert(chain[height] != chain[tip]);
    }
}

proof fn lemma_own_height(forest: Forest, before: Seq<u8>, chain: Seq<Seq<u8>>, tip: int)
    requires
        chained(forest, before, chain),
        0 <= tip < chain.len(),
    ensures
        forest.height(chain[tip], chain[tip]) == Ok::<Option<u32>, Fault>(Some(tip as u32)),
{
    let entries = entries_at(before, chain, tip);
    assert(linked(forest, before, chain, tip));
    assert(entries[0].0 == own_height_bytes());
    crate::marf_heights::lemma_number_in(tip as u32);
}

proof fn lemma_chain_lacks(
    forest: Forest,
    before: Seq<u8>,
    chain: Seq<Seq<u8>>,
    height: u32,
    stranger: Seq<u8>,
    tip: int,
)
    requires
        chained(forest, before, chain),
        0 <= tip < chain.len(),
    ensures
        height > tip ==> forest.get(chain[tip], height_key_bytes(height)) == forest.get(
            chain[0],
            height_key_bytes(height),
        ),
        !chain.contains(stranger) ==> forest.get(chain[tip], hash_key_bytes(stranger))
            == forest.get(chain[0], hash_key_bytes(stranger)),
    decreases tip,
{
    if tip > 0 {
        lemma_chain_lacks(forest, before, chain, height, stranger, tip - 1);
        assert(linked(forest, before, chain, tip));
        let entries = entries_at(before, chain, tip);
        let at = tip as u32;
        let below = (tip - 1) as u32;
        assert(entries.len() == 5);
        assert(entries[0].0 == own_height_bytes());
        assert(entries[1].0 == height_key_bytes(at));
        assert(entries[2].0 == hash_key_bytes(chain[tip]));
        assert(entries[3].0 == height_key_bytes(below));
        assert(entries[4].0 == hash_key_bytes(chain[tip - 1]));
        law_height_keys_are_distinct(height, at, stranger, chain[tip]);
        law_height_keys_are_distinct(height, below, stranger, chain[tip - 1]);
        law_height_keys_are_distinct(at, below, stranger, chain[tip]);
        law_height_keys_are_distinct(below, below, stranger, chain[tip]);
        law_height_keys_are_distinct(height, height, chain[tip], chain[tip]);
        law_height_keys_are_distinct(height, height, chain[tip - 1], chain[tip]);
        if height > tip {
            assert(!keyed(entries, height_key_bytes(height)));
        }
        if !chain.contains(stranger) {
            assert(!keyed(entries, hash_key_bytes(stranger)));
        }
    }
}

/// A block of a chain knows of no block above itself, and of none outside the chain, where the
/// chain's first block knows of none: such a block is a stranger.
pub proof fn law_chain_knows_only_itself(
    forest: Forest,
    before: Seq<u8>,
    chain: Seq<Seq<u8>>,
    height: u32,
    stranger: Seq<u8>,
    tip: int,
)
    requires
        chained(forest, before, chain),
        0 <= tip < chain.len(),
        forest.squash_height() is None,
        forest.indexed_ancestor(chain[tip], tip as u32, height) == Ok::<Option<Seq<u8>>, Fault>(
            None,
        ),
        forest.get(chain[0], height_key_bytes(height)) == Ok::<Option<Seq<u8>>, Fault>(None),
        forest.get(chain[0], hash_key_bytes(stranger)) == Ok::<Option<Seq<u8>>, Fault>(None),
    ensures
        height > tip ==> forest.at_height(height, chain[tip]) == Ok::<Option<Seq<u8>>, Fault>(None),
        !chain.contains(stranger) ==> {
            &&& forest.height(stranger, chain[tip]) == Ok::<Option<u32>, Fault>(None)
            &&& forest.kinship(stranger, chain[tip]) == Kinship::Stranger
        },
{
    lemma_chain_lacks(forest, before, chain, height, stranger, tip);
    lemma_own_height(forest, before, chain, tip);
}

/// Where an index of forks answers for a height other than the block's own, its answer is the
/// block at that height, whatever the tries record. The block at its own height is itself.
pub proof fn law_index_of_forks_answers_heights(
    forest: Forest,
    block: Seq<u8>,
    own: u32,
    height: u32,
)
    requires
        forest.height(block, block) == Ok::<Option<u32>, Fault>(Some(own)),
        forest.squash_height() is None || own > forest.squash_height()->0,
    ensures
        forest.at_height(own, block) == Ok::<Option<Seq<u8>>, Fault>(Some(block)),
        height != own ==> match forest.indexed_ancestor(block, own, height) {
            Ok(Some(ancestor)) => forest.at_height(height, block) == Ok::<Option<Seq<u8>>, Fault>(
                Some(ancestor),
            ),
            Ok(None) => true,
            Err(fault) => forest.at_height(height, block) == Err::<Option<Seq<u8>>, Fault>(fault),
        },
{
}

/// Of a block in the squashed range, blocks below are those that squashing recorded, and there are
/// none above: whatever an index of forks would answer.
pub proof fn law_squashed_heights_are_recorded(
    forest: Forest,
    block: Seq<u8>,
    own: u32,
    height: u32,
)
    requires
        forest.height(block, block) == Ok::<Option<u32>, Fault>(Some(own)),
        forest.squash_height() matches Some(limit) && own <= limit,
    ensures
        height < own ==> forest.at_height(height, block) == forest.squashed_block(height),
        height == own ==> forest.at_height(height, block) == Ok::<Option<Seq<u8>>, Fault>(
            Some(block),
        ),
        height > own ==> forest.at_height(height, block) == Ok::<Option<Seq<u8>>, Fault>(None),
{
}

/// A block that extends another that opens is one higher than it, and a block that extends no
/// block is at height zero; no block extends one at the largest height.
pub proof fn law_extension_is_one_higher(forest: Forest, parent: Seq<u8>, height: u32)
    requires
        forest.opens(parent) is Ok,
    ensures
        parent == sentinel_bytes() ==> forest.extension_height(parent) == Ok::<u32, Fault>(0),
        parent != sentinel_bytes() && forest.height(parent, parent) == Ok::<Option<u32>, Fault>(
            Some(height),
        ) && height < u32::MAX ==> {
            &&& forest.extension_height(parent) is Ok
            &&& forest.extension_height(parent)->Ok_0 - height == 1
        },
        parent != sentinel_bytes() && forest.height(parent, parent) == Ok::<Option<u32>, Fault>(
            Some(u32::MAX),
        ) ==> forest.extension_height(parent) == Err::<u32, Fault>(
            Fault::Error(Error::OverflowError),
        ),
{
}

/// A chain grows by one height at a time: what extends a block of a chain stands right above that
/// block, and once it holds the entries of the height it was given, it is found there, with its
/// parent right below.
pub proof fn law_chain_grows_by_one(
    forest: Forest,
    before: Seq<u8>,
    chain: Seq<Seq<u8>>,
    tip: int,
    next: Seq<u8>,
)
    requires
        chained(forest, before, chain),
        0 <= tip < chain.len(),
        tip < u32::MAX - 1,
        chain[tip] != sentinel_bytes(),
        forest.opens(chain[tip]) is Ok,
    ensures
        forest.extension_height(chain[tip]) == Ok::<u32, Fault>((tip + 1) as u32),
        holds(
            forest,
            next,
            height_entries(chain[tip], next, forest.extension_height(chain[tip])->Ok_0),
        ) && next != chain[tip] ==> {
            &&& forest.height(next, next) == Ok::<Option<u32>, Fault>(Some((tip + 1) as u32))
            &&& forest.height(chain[tip], next) == Ok::<Option<u32>, Fault>(Some(tip as u32))
            &&& forest.opens(next) is Ok && next != sentinel_bytes()
                ==> forest.extension_height(next) == Ok::<u32, Fault>((tip + 2) as u32)
        },
{
    lemma_own_height(forest, before, chain, tip);
    let above = (tip + 1) as u32;
    let entries = height_entries(chain[tip], next, above);
    crate::marf_heights::lemma_number_in(above);
    crate::marf_heights::lemma_number_in(tip as u32);
    assert(entries[0].0 == own_height_bytes());
    assert(entries[4].0 == hash_key_bytes(chain[tip]));
}

/// The bytes that every key for block heights starts with.
pub open spec fn reserved_start() -> Seq<u8> {
    seq![95u8, 95, 77, 65, 82, 70, 95, 66, 76, 79, 67, 75, 95, 72]
}

/// Only keys that start as those for block heights do are reserved: all others can be written.
pub proof fn law_ordinary_keys_are_not_reserved(key: Seq<u8>)
    requires
        reserved(key),
    ensures
        key.len() >= 24,
        key.take(14) == reserved_start(),
{
    reveal_strlit("__MARF_BLOCK_HEIGHT_SELF");
    reveal_strlit("__MARF_BLOCK_HASH_TO_HEIGHT");
    reveal_strlit("__MARF_BLOCK_HEIGHT_TO_HASH");
    let own = OWN_BLOCK_HEIGHT_KEY@;
    let hashes = BLOCK_HASH_TO_HEIGHT_MAPPING_KEY@;
    let heights = BLOCK_HEIGHT_TO_HASH_MAPPING_KEY@;
    assert(vstd::utf8::is_ascii_chars(own));
    assert(vstd::utf8::is_ascii_chars(hashes));
    assert(vstd::utf8::is_ascii_chars(heights));
    vstd::utf8::is_ascii_chars_encode_utf8(own);
    vstd::utf8::is_ascii_chars_encode_utf8(hashes);
    vstd::utf8::is_ascii_chars_encode_utf8(heights);
    assert(encode_utf8(own).take(14) =~= reserved_start());
    assert(encode_utf8(hashes).take(14) =~= reserved_start());
    assert(encode_utf8(heights).take(14) =~= reserved_start());
    if has_prefix(key, encode_utf8(hashes)) {
        assert(key.take(14) =~= key.subrange(0, 27).take(14));
    }
    if has_prefix(key, encode_utf8(heights)) {
        assert(key.take(14) =~= key.subrange(0, 27).take(14));
    }
}

} // verus!
