//! Block heights, as a fork's tries record them.
use vstd::prelude::*;

use vstd::utf8::encode_utf8;

use crate::error::{corrupt, Corruption, Error};
use crate::hash::{copy_id, same_id, sha512_256_of, MarfTrieId, TrieHash};
use crate::hex::{hex_of, to_hex};
use crate::marf_read::get_by_path;
use crate::patch::{bad, fault_of, Fault};
use crate::read_storage::{shows, Forest, TrieReadStorage};
use crate::value::{is_zero_from, zero_extended, zero_from, MARFValue};
use crate::words::{bytes_eq, le_bytes, le_value, push_bytes};

verus! {

/// Prefix of the keys under which a block's height is recorded.
pub const BLOCK_HASH_TO_HEIGHT_MAPPING_KEY: &'static str = "__MARF_BLOCK_HASH_TO_HEIGHT";

/// Prefix of the keys under which the block at a height is recorded.
pub const BLOCK_HEIGHT_TO_HASH_MAPPING_KEY: &'static str = "__MARF_BLOCK_HEIGHT_TO_HASH";

/// Key under which a block's own height is recorded.
pub const OWN_BLOCK_HEIGHT_KEY: &'static str = "__MARF_BLOCK_HEIGHT_SELF";

/// The bytes of the key under which a block's own height is recorded.
pub open spec fn own_height_bytes() -> Seq<u8> {
    encode_utf8(OWN_BLOCK_HEIGHT_KEY@)
}

/// A number in decimal digits.
pub open spec fn decimal(n: nat) -> Seq<u8>
    decreases n,
{
    if n < 10 {
        seq![(48 + n) as u8]
    } else {
        decimal(n / 10).push((48 + n % 10) as u8)
    }
}

/// What separates a key's prefix from its subject.
pub open spec fn separator() -> Seq<u8> {
    seq![58u8, 58]
}

/// The key under which the block at a height is recorded.
pub open spec fn height_key_bytes(height: u32) -> Seq<u8> {
    encode_utf8(BLOCK_HEIGHT_TO_HASH_MAPPING_KEY@) + separator() + decimal(height as nat)
}

/// The key under which a block's height is recorded.
pub open spec fn hash_key_bytes(block: Seq<u8>) -> Seq<u8> {
    encode_utf8(BLOCK_HASH_TO_HEIGHT_MAPPING_KEY@) + separator() + hex_of(block)
}

/// Append a number in decimal digits.
fn push_decimal(out: &mut Vec<u8>, n: u32)
    ensures
        final(out)@ == old(out)@ + decimal(n as nat),
    decreases n,
{
    if n >= 10 {
        push_decimal(out, n / 10);
    }
    out.push(48 + (n % 10) as u8);
    assert(out@ =~= old(out)@ + decimal(n as nat));
}

/// The key under which a block's own height is recorded.
pub fn own_height_key() -> (key: Vec<u8>)
    ensures
        key@ == own_height_bytes(),
{
    let mut key: Vec<u8> = Vec::new();
    push_bytes(&mut key, OWN_BLOCK_HEIGHT_KEY.as_bytes());
    assert(key@ =~= own_height_bytes());
    key
}

/// The key under which the block at a height is recorded.
pub fn height_key(height: u32) -> (key: Vec<u8>)
    ensures
        key@ == height_key_bytes(height),
{
    let mut key: Vec<u8> = Vec::new();
    push_bytes(&mut key, BLOCK_HEIGHT_TO_HASH_MAPPING_KEY.as_bytes());
    key.push(58);
    key.push(58);
    push_decimal(&mut key, height);
    assert(key@ =~= height_key_bytes(height));
    key
}

/// The key under which a block's height is recorded.
pub fn hash_key<T: MarfTrieId>(block: &T) -> (key: Vec<u8>)
    ensures
        key@ == hash_key_bytes(block.id_bytes()),
{
    let mut key: Vec<u8> = Vec::new();
    push_bytes(&mut key, BLOCK_HASH_TO_HEIGHT_MAPPING_KEY.as_bytes());
    key.push(58);
    key.push(58);
    push_bytes(&mut key, to_hex(block.as_bytes()).as_slice());
    assert(key@ =~= hash_key_bytes(block.id_bytes()));
    key
}

/// Whether bytes start with others.
pub open spec fn has_prefix(bytes: Seq<u8>, prefix: Seq<u8>) -> bool {
    prefix.len() <= bytes.len() && bytes.subrange(0, prefix.len() as int) == prefix
}

fn check_prefix(bytes: &[u8], prefix: &[u8]) -> (starts: bool)
    ensures
        starts == has_prefix(bytes@, prefix@),
{
    prefix.len() <= bytes.len() && bytes_eq(&bytes[0..prefix.len()], prefix)
}

/// Whether a key is reserved for block heights.
pub open spec fn reserved(key: Seq<u8>) -> bool {
    ||| key == own_height_bytes()
    ||| has_prefix(key, encode_utf8(BLOCK_HEIGHT_TO_HASH_MAPPING_KEY@))
    ||| has_prefix(key, encode_utf8(BLOCK_HASH_TO_HEIGHT_MAPPING_KEY@))
}

/// Whether a key is reserved for block heights: writing it outside the recording of heights
/// requires authoritative trie traversal.
pub fn reserved_height_key(key: &[u8]) -> (is_reserved: bool)
    ensures
        is_reserved == reserved(key@),
{
    bytes_eq(key, OWN_BLOCK_HEIGHT_KEY.as_bytes()) || check_prefix(
        key,
        BLOCK_HEIGHT_TO_HASH_MAPPING_KEY.as_bytes(),
    ) || check_prefix(key, BLOCK_HASH_TO_HEIGHT_MAPPING_KEY.as_bytes())
}

/// Every key under which heights are recorded is reserved.
pub proof fn law_recorded_keys_are_reserved(height: u32, block: Seq<u8>)
    ensures
        reserved(own_height_bytes()),
        reserved(height_key_bytes(height)),
        reserved(hash_key_bytes(block)),
{
    let heights = encode_utf8(BLOCK_HEIGHT_TO_HASH_MAPPING_KEY@);
    assert(height_key_bytes(height).subrange(0, heights.len() as int) =~= heights);
    let hashes = encode_utf8(BLOCK_HASH_TO_HEIGHT_MAPPING_KEY@);
    assert(hash_key_bytes(block).subrange(0, hashes.len() as int) =~= hashes);
}

/// The number that a value holds.
pub open spec fn number_in(value: Seq<u8>) -> Result<u32, Fault> {
    if zero_from(value, 4) {
        Ok(le_value(value.subrange(0, 4)) as u32)
    } else {
        Err(bad(Corruption::ValueNotANumber))
    }
}

/// The block identity that a value holds.
pub open spec fn block_in(value: Seq<u8>) -> Result<Seq<u8>, Fault> {
    if zero_from(value, 32) {
        Ok(value.subrange(0, 32))
    } else {
        Err(bad(Corruption::ValueNotABlock))
    }
}

impl Forest {
    /// The value of a key in a block, or its absence.
    pub open spec fn get(self, block: Seq<u8>, key: Seq<u8>) -> Result<Option<Seq<u8>>, Fault> {
        self.lookup(block, TrieHash::digest(key))
    }

    /// A block's height, as a block of its fork records it.
    pub open spec fn height(self, block: Seq<u8>, current: Seq<u8>) -> Result<Option<u32>, Fault> {
        let key = if block == current {
            own_height_bytes()
        } else {
            hash_key_bytes(block)
        };
        match self.get(current, key) {
            Err(Fault::Error(Error::HistoricalReadInSquashedRange { block_height, .. })) => if block
                == current {
                Ok(Some(block_height))
            } else {
                self.squashed_height(block)
            },
            Err(fault) => Err(fault),
            Ok(None) => Ok(None),
            Ok(Some(value)) => match number_in(value) {
                Ok(height) => Ok(Some(height)),
                Err(fault) => Err(fault),
            },
        }
    }

    /// The block at a height, as a block of its fork at height `own` records it.
    pub open spec fn block_at(self, height: u32, current: Seq<u8>, own: u32) -> Result<
        Option<Seq<u8>>,
        Fault,
    > {
        if height == own {
            Ok(Some(current))
        } else if self.squash_height() is Some && own <= self.squash_height()->0 {
            if height > own {
                Ok(None)
            } else {
                self.squashed_block(height)
            }
        } else {
            match self.indexed_ancestor(current, own, height) {
                Err(fault) => Err(fault),
                Ok(Some(ancestor)) => Ok(Some(ancestor)),
                Ok(None) => match self.get(current, height_key_bytes(height)) {
                    Err(fault) => Err(fault),
                    Ok(None) => Ok(None),
                    Ok(Some(value)) => match block_in(value) {
                        Ok(block) => Ok(Some(block)),
                        Err(fault) => Err(fault),
                    },
                },
            }
        }
    }

    /// The block at a height, as a block of its fork records it.
    pub open spec fn at_height(self, height: u32, current: Seq<u8>) -> Result<
        Option<Seq<u8>>,
        Fault,
    > {
        match self.height(current, current) {
            Err(fault) => Err(fault),
            Ok(None) => Ok(None),
            Ok(Some(own)) => self.block_at(height, current, own),
        }
    }

    /// The root hash of a block: a recorded one where its own state is not retained.
    pub open spec fn root_at(self, block: Seq<u8>) -> Result<Seq<u8>, Fault> {
        let kept = match self.squashed_height(block) {
            Err(fault) => Err(fault),
            Ok(None) => Ok(None),
            Ok(Some(height)) => self.squashed_root(height),
        };
        match kept {
            Err(fault) => Err(fault),
            Ok(Some(root)) => Ok(root),
            Ok(None) => match self.opens(block) {
                Err(fault) => Err(fault),
                Ok(()) => self.root_hash(block),
            },
        }
    }
}

/// The value of a key in a block, or its absence.
pub fn get_by_key<T: MarfTrieId, S: TrieReadStorage<T>>(storage: &S, block_hash: &T, key: &[u8]) -> (value:
    Result<Option<MARFValue>, Error>)
    ensures
        forall|forest: Forest| #[trigger]
            shows(storage, forest) ==> match forest.get(block_hash.id_bytes(), key@) {
                Ok(Some(v)) => value matches Ok(Some(found)) && found@ == v,
                Ok(None) => value == Ok::<Option<MARFValue>, Error>(None),
                Err(fault) => value matches Err(e) && fault_of(e) == fault,
            },
{
    get_by_path(storage, block_hash, &TrieHash::from_data(key))
}

fn to_number(value: &MARFValue) -> (number: Result<u32, Error>)
    ensures
        match number_in(value@) {
            Ok(n) => number == Ok::<u32, Error>(n),
            Err(fault) => number matches Err(e) && fault_of(e) == fault,
        },
{
    if is_zero_from(&value.0, 4) {
        Ok(value.to_u32())
    } else {
        Err(corrupt(Corruption::ValueNotANumber))
    }
}

fn to_block<T: MarfTrieId>(value: &MARFValue) -> (block: Result<T, Error>)
    ensures
        match block_in(value@) {
            Ok(b) => block matches Ok(found) && found.id_bytes() == b,
            Err(fault) => block matches Err(e) && fault_of(e) == fault,
        },
{
    if is_zero_from(&value.0, 32) {
        Ok(value.to_block_id())
    } else {
        Err(corrupt(Corruption::ValueNotABlock))
    }
}

/// A block's height, as a block of its fork records it.
pub fn get_block_height_miner_tip<T: MarfTrieId, S: TrieReadStorage<T>>(
    storage: &S,
    block_hash: &T,
    current_block_hash: &T,
) -> (height: Result<Option<u32>, Error>)
    ensures
        forall|forest: Forest| #[trigger]
            shows(storage, forest) ==> match forest.height(
                block_hash.id_bytes(),
                current_block_hash.id_bytes(),
            ) {
                Ok(h) => height == Ok::<Option<u32>, Error>(h),
                Err(fault) => height matches Err(e) && fault_of(e) == fault,
            },
{
    let own: bool = same_id(block_hash, current_block_hash);
    let key: Vec<u8> = if own {
        own_height_key()
    } else {
        hash_key(block_hash)
    };
    match get_by_key(storage, current_block_hash, key.as_slice()) {
        Err(Error::HistoricalReadInSquashedRange { block_height, squash_height }) => {
            if own {
                Ok(Some(block_height))
            } else {
                storage.squashed_block_height(block_hash)
            }
        },
        Err(e) => Err(e),
        Ok(None) => Ok(None),
        Ok(Some(value)) => match to_number(&value) {
            Ok(number) => Ok(Some(number)),
            Err(e) => Err(e),
        },
    }
}

/// A block's height, as a block of its fork records it.
pub fn get_block_height<T: MarfTrieId, S: TrieReadStorage<T>>(
    storage: &S,
    block_hash: &T,
    current_block_hash: &T,
) -> (height: Result<Option<u32>, Error>)
    ensures
        forall|forest: Forest| #[trigger]
            shows(storage, forest) ==> match forest.height(
                block_hash.id_bytes(),
                current_block_hash.id_bytes(),
            ) {
                Ok(h) => height == Ok::<Option<u32>, Error>(h),
                Err(fault) => height matches Err(e) && fault_of(e) == fault,
            },
{
    get_block_height_miner_tip(storage, block_hash, current_block_hash)
}

/// Resolve an ancestor using the current height already read from the same trie view.
pub fn get_block_at_height_with_current_height<T: MarfTrieId, S: TrieReadStorage<T>>(
    storage: &S,
    height: u32,
    current_block_hash: &T,
    current_block_height: u32,
) -> (block: Result<Option<T>, Error>)
    ensures
        forall|forest: Forest| #[trigger]
            shows(storage, forest) ==> match forest.block_at(
                height,
                current_block_hash.id_bytes(),
                current_block_height,
            ) {
                Ok(Some(b)) => block matches Ok(Some(found)) && found.id_bytes() == b,
                Ok(None) => block == Ok::<Option<T>, Error>(None),
                Err(fault) => block matches Err(e) && fault_of(e) == fault,
            },
{
    if height == current_block_height {
        return Ok(Some(copy_id(current_block_hash)));
    }
    match storage.squash_height() {
        Some(limit) => if current_block_height <= limit {
            if height > current_block_height {
                return Ok(None);
            }
            return storage.squashed_block_hash_by_height(height);
        },
        None => {},
    }
    match storage.indexed_ancestor(current_block_hash, current_block_height, height) {
        Ok(Some(ancestor)) => return Ok(Some(ancestor)),
        Ok(None) => {},
        Err(e) => return Err(e),
    }
    match get_by_key(storage, current_block_hash, height_key(height).as_slice()) {
        Ok(Some(value)) => match to_block(&value) {
            Ok(found) => Ok(Some(found)),
            Err(e) => Err(e),
        },
        Ok(None) => Ok(None),
        Err(e) => Err(e),
    }
}

/// The block at a height, as a block of its fork records it.
pub fn get_block_at_height<T: MarfTrieId, S: TrieReadStorage<T>>(
    storage: &S,
    height: u32,
    current_block_hash: &T,
) -> (block: Result<Option<T>, Error>)
    ensures
        forall|forest: Forest| #[trigger]
            shows(storage, forest) ==> match forest.at_height(
                height,
                current_block_hash.id_bytes(),
            ) {
                Ok(Some(b)) => block matches Ok(Some(found)) && found.id_bytes() == b,
                Ok(None) => block == Ok::<Option<T>, Error>(None),
                Err(fault) => block matches Err(e) && fault_of(e) == fault,
            },
{
    match get_block_height(storage, current_block_hash, current_block_hash) {
        Ok(Some(own)) => get_block_at_height_with_current_height(
            storage,
            height,
            current_block_hash,
            own,
        ),
        Ok(None) => Ok(None),
        Err(e) => Err(e),
    }
}

/// The block at a height of a block's fork, if there is one.
pub fn get_bhh_at_height<T: MarfTrieId, S: TrieReadStorage<T>>(
    storage: &S,
    block_hash: &T,
    height: u32,
) -> (block: Result<Option<T>, Error>)
    ensures
        forall|forest: Forest| #[trigger]
            shows(storage, forest) ==> match forest.at_height(height, block_hash.id_bytes()) {
                Ok(Some(b)) => block matches Ok(Some(found)) && found.id_bytes() == b,
                Ok(None) => block == Ok::<Option<T>, Error>(None),
                Err(fault) => block matches Err(e) && fault_of(e) == fault,
            },
{
    get_block_at_height(storage, height, block_hash)
}

/// The root hash of a block: a recorded one where its own state is not retained.
pub fn get_root_hash_at<T: MarfTrieId, S: TrieReadStorage<T>>(storage: &S, block_hash: &T) -> (root: Result<
    TrieHash,
    Error,
>)
    ensures
        forall|forest: Forest| #[trigger]
            shows(storage, forest) ==> match forest.root_at(block_hash.id_bytes()) {
                Ok(r) => root matches Ok(found) && found@ == r,
                Err(fault) => root matches Err(e) && fault_of(e) == fault,
            },
{
    match storage.squashed_block_height(block_hash) {
        Ok(Some(height)) => match storage.squashed_block_root_hash_by_height(height) {
            Ok(Some(root)) => return Ok(root),
            Ok(None) => {},
            Err(e) => return Err(e),
        },
        Ok(None) => {},
        Err(e) => return Err(e),
    }
    match storage.open_block(block_hash) {
        Ok(()) => storage.read_root_hash(block_hash),
        Err(e) => Err(e),
    }
}

/// How a block relates to the fork of another.
pub enum Kinship {
    /// It is the other block, or an ancestor whose opening came out so.
    Ancestor(Result<(), Fault>),
    /// It is in another fork.
    Stranger,
    /// It could not be found out.
    Unknown(Fault),
}

impl Forest {
    /// How a block relates to the fork of another.
    pub open spec fn kinship(self, block: Seq<u8>, current: Seq<u8>) -> Kinship {
        if block == current {
            Kinship::Ancestor(Ok(()))
        } else {
            match self.height(block, current) {
                Err(fault) => Kinship::Unknown(fault),
                Ok(None) => Kinship::Stranger,
                Ok(Some(height)) => match self.at_height(height, current) {
                    Err(fault) => Kinship::Unknown(fault),
                    Ok(None) => Kinship::Unknown(bad(Corruption::MissingBlockAtHeight)),
                    Ok(Some(found)) => if found == block {
                        Kinship::Ancestor(self.opens(block))
                    } else {
                        Kinship::Stranger
                    },
                },
            }
        }
    }
}

/// Check that a block can be opened, and is in the same fork as the current block.
pub fn check_ancestor_block_hash<T: MarfTrieId, S: TrieReadStorage<T>>(
    storage: &S,
    block: &T,
    current: &T,
) -> (done: Result<(), Error>)
    ensures
        forall|forest: Forest| #[trigger]
            shows(storage, forest) ==> match forest.kinship(
                block.id_bytes(),
                current.id_bytes(),
            ) {
                Kinship::Ancestor(Ok(())) => done is Ok,
                Kinship::Ancestor(Err(fault)) => done matches Err(e) && fault_of(e) == fault,
                Kinship::Stranger => done matches Err(Error::NonMatchingForks(a, b)) && a@
                    == block.id_bytes() && b@ == current.id_bytes(),
                Kinship::Unknown(fault) => done matches Err(e) && fault_of(e) == fault,
            },
{
    if same_id(block, current) {
        return Ok(());
    }
    let height: u32 = match get_block_height(storage, block, current) {
        Ok(Some(height)) => height,
        Ok(None) => return Err(strangers(block, current)),
        Err(e) => return Err(e),
    };
    match get_block_at_height(storage, height, current) {
        Ok(Some(found)) => {
            if !same_id(&found, block) {
                return Err(strangers(block, current));
            }
        },
        Ok(None) => return Err(corrupt(Corruption::MissingBlockAtHeight)),
        Err(e) => return Err(e),
    }
    storage.open_block(block)
}

fn strangers<T: MarfTrieId>(block: &T, current: &T) -> (error: Error)
    ensures
        error matches Error::NonMatchingForks(a, b) && a@ == block.id_bytes() && b@
            == current.id_bytes(),
{
    Error::NonMatchingForks(copy_id(block).to_bytes(), copy_id(current).to_bytes())
}

/// The keys and values that record heights in a new block.
pub open spec fn height_entries(parent: Seq<u8>, block: Seq<u8>, height: u32) -> Seq<
    (Seq<u8>, Seq<u8>),
> {
    let own = zero_extended(le_bytes(height as nat, 4), 40);
    let first = seq![
        (own_height_bytes(), own),
        (height_key_bytes(height), zero_extended(block, 40)),
        (hash_key_bytes(block), own),
    ];
    if height > 0 {
        let before = (height - 1) as u32;
        first + seq![
            (height_key_bytes(before), zero_extended(parent, 40)),
            (hash_key_bytes(parent), zero_extended(le_bytes(before as nat, 4), 40)),
        ]
    } else {
        first
    }
}

/// The bytes of keys and values.
pub open spec fn entry_views(entries: Seq<(Vec<u8>, MARFValue)>) -> Seq<(Seq<u8>, Seq<u8>)> {
    Seq::new(entries.len(), |i: int| (entries[i].0@, entries[i].1@))
}

/// The keys and values that record heights in a new block.
pub fn set_block_heights<T: MarfTrieId>(block_hash: &T, next_block_hash: &T, height: u32) -> (entries: Vec<
    (Vec<u8>, MARFValue),
>)
    ensures
        entry_views(entries@) == height_entries(
            block_hash.id_bytes(),
            next_block_hash.id_bytes(),
            height,
        ),
{
    let mut entries: Vec<(Vec<u8>, MARFValue)> = Vec::new();
    entries.push((own_height_key(), MARFValue::from_u32(height)));
    entries.push((height_key(height), MARFValue::from_block_id(next_block_hash)));
    entries.push((hash_key(next_block_hash), MARFValue::from_u32(height)));
    if height > 0 {
        entries.push((height_key(height - 1), MARFValue::from_block_id(block_hash)));
        entries.push((hash_key(block_hash), MARFValue::from_u32(height - 1)));
    }
    assert(entry_views(entries@) =~= height_entries(
        block_hash.id_bytes(),
        next_block_hash.id_bytes(),
        height,
    ));
    entries
}

/// Whether a block holds entries.
pub open spec fn holds(forest: Forest, block: Seq<u8>, entries: Seq<(Seq<u8>, Seq<u8>)>) -> bool {
    forall|i: int|
        0 <= i < entries.len() ==> forest.get(block, (#[trigger] entries[i]).0) == Ok::<
            Option<Seq<u8>>,
            Fault,
        >(Some(entries[i].1))
}

/// A block that holds the entries of its heights gives its own height and its parent's, and the
/// blocks at both, where neither squashing nor an index of forks answers instead.
pub proof fn law_recorded_heights_are_found(
    forest: Forest,
    parent: Seq<u8>,
    block: Seq<u8>,
    height: u32,
)
    requires
        parent.len() == 32,
        block.len() == 32,
        parent != block,
        holds(forest, block, height_entries(parent, block, height)),
        forest.squash_height() is None,
        forall|target: u32| #[trigger]
            forest.indexed_ancestor(block, height, target) == Ok::<Option<Seq<u8>>, Fault>(None),
    ensures
        forest.height(block, block) == Ok::<Option<u32>, Fault>(Some(height)),
        forest.at_height(height, block) == Ok::<Option<Seq<u8>>, Fault>(Some(block)),
        height > 0 ==> forest.height(parent, block) == Ok::<Option<u32>, Fault>(
            Some((height - 1) as u32),
        ),
        height > 0 ==> forest.at_height((height - 1) as u32, block) == Ok::<
            Option<Seq<u8>>,
            Fault,
        >(Some(parent)),
{
    let entries = height_entries(parent, block, height);
    assert(entries[0].0 == own_height_bytes());
    lemma_number_in(height);
    lemma_block_in(block);
    if height > 0 {
        let before = (height - 1) as u32;
        assert(entries[3].0 == height_key_bytes(before));
        assert(entries[4].0 == hash_key_bytes(parent));
        lemma_number_in(before);
        lemma_block_in(parent);
    }
}

pub(crate) proof fn lemma_number_in(number: u32)
    ensures
        number_in(zero_extended(le_bytes(number as nat, 4), 40)) == Ok::<u32, Fault>(number),
{
    crate::value::law_number_value_roundtrip(number);
    crate::words::lemma_le_len(number as nat, 4);
}

pub(crate) proof fn lemma_block_in(block: Seq<u8>)
    requires
        block.len() == 32,
    ensures
        block_in(zero_extended(block, 40)) == Ok::<Seq<u8>, Fault>(block),
{
    crate::value::law_block_value_roundtrip(block);
}

/// Make an unconfirmed chain tip from an existing chain tip, so that it won't conflict with the
/// "true" chain tip after the state it represents is later reprocessed and confirmed.
pub fn make_unconfirmed_chain_tip<T: MarfTrieId>(chain_tip: &T) -> (tip: T)
    ensures
        tip.id_bytes() == sha512_256_of(chain_tip.id_bytes() + chain_tip.id_bytes()),
{
    let mut bytes: Vec<u8> = Vec::new();
    push_bytes(&mut bytes, chain_tip.as_bytes());
    push_bytes(&mut bytes, chain_tip.as_bytes());
    assert(bytes@ =~= chain_tip.id_bytes() + chain_tip.id_bytes());
    T::from_bytes(TrieHash::of_bytes(bytes.as_slice()).0)
}

} // verus!
