//! Hashes and block identities.
use sha2::{Digest, Sha512_256};
use vstd::prelude::*;

use crate::words::{bytes_eq, push_bytes, to_array};

verus! {

/// Byte width of a trie hash, and of the paths that keys hash to.
pub const TRIEHASH_ENCODED_SIZE: usize = 32;

/// The SHA-512/256 digest of a byte sequence.
pub uninterp spec fn sha512_256_of(data: Seq<u8>) -> Seq<u8>;

/// Calls `sha2::Sha512_256`: `new`, one `update` with all of `data`, and `finalize`.
/// The 32 bytes that come back depend on `data` alone.
#[verifier::external_body]
fn sha512_256(data: &[u8]) -> (digest: [u8; 32])
    ensures
        digest@ == sha512_256_of(data@),
{
    let mut hasher = Sha512_256::new();
    hasher.update(data);
    hasher.finalize().into()
}

/// A Merkle hash, or a key's path through a trie.
#[derive(Clone, Copy, Debug, Hash)]
pub struct TrieHash(pub [u8; 32]);

impl PartialEq for TrieHash {
    fn eq(&self, other: &Self) -> (same: bool) {
        let same = bytes_eq(&self.0, &other.0);
        proof {
            if same {
                assert(self.0 =~= other.0);
            }
        }
        same
    }
}

impl vstd::std_specs::cmp::PartialEqSpecImpl for TrieHash {
    open spec fn obeys_eq_spec() -> bool {
        true
    }

    open spec fn eq_spec(&self, other: &Self) -> bool {
        *self == *other
    }
}

impl Eq for TrieHash {

}

impl TrieHash {
    /// The hash's bytes.
    pub open spec fn view(&self) -> Seq<u8> {
        self.0@
    }

    /// The hash of no bytes at all, which stands for an absent child.
    pub open spec fn empty_bytes() -> Seq<u8> {
        seq![
            0xc6u8, 0x72, 0xb8, 0xd1, 0xef, 0x56, 0xed, 0x28, 0xab, 0x87, 0xc3, 0x62, 0x2c, 0x51,
            0x14, 0x06, 0x9b, 0xdd, 0x3a, 0xd7, 0xb8, 0xf9, 0x73, 0x74, 0x98, 0xd0, 0xc0, 0x1e,
            0xce, 0xf0, 0x96, 0x7a,
        ]
    }

    /// The bytes that a key or a list of parts hashes to.
    pub open spec fn digest(data: Seq<u8>) -> Seq<u8> {
        if data.len() == 0 {
            Self::empty_bytes()
        } else {
            sha512_256_of(data)
        }
    }

    /// The hash of no bytes.
    pub fn empty() -> (hash: Self)
        ensures
            hash@ == Self::empty_bytes(),
    {
        let hash = TrieHash(
            [
                0xc6, 0x72, 0xb8, 0xd1, 0xef, 0x56, 0xed, 0x28, 0xab, 0x87, 0xc3, 0x62, 0x2c, 0x51,
                0x14, 0x06, 0x9b, 0xdd, 0x3a, 0xd7, 0xb8, 0xf9, 0x73, 0x74, 0x98, 0xd0, 0xc0, 0x1e,
                0xce, 0xf0, 0x96, 0x7a,
            ],
        );
        assert(hash@ =~= Self::empty_bytes());
        hash
    }

    /// The bytes of the all-zero hash.
    pub open spec fn zero_bytes() -> Seq<u8> {
        Seq::new(32, |i: int| 0u8)
    }

    /// The all-zero hash.
    pub fn zero() -> (hash: Self)
        ensures
            hash@ == Self::zero_bytes(),
    {
        let hash = TrieHash([0u8; 32]);
        assert(hash@ =~= Self::zero_bytes());
        hash
    }

    /// The hash's bytes.
    pub fn as_bytes(&self) -> (bytes: &[u8; 32])
        ensures
            bytes@ == self@,
    {
        &self.0
    }

    /// Hash bytes.
    pub fn from_data(data: &[u8]) -> (hash: Self)
        ensures
            hash@ == Self::digest(data@),
    {
        if data.len() == 0 {
            Self::empty()
        } else {
            TrieHash(sha512_256(data))
        }
    }

    /// Hash bytes without a special case for none.
    pub fn of_bytes(data: &[u8]) -> (hash: Self)
        ensures
            hash@ == sha512_256_of(data@),
    {
        TrieHash(sha512_256(data))
    }

    /// The path of a key.
    pub fn from_key(key: &str) -> (hash: Self)
        ensures
            hash@ == Self::digest(vstd::utf8::encode_utf8(key@)),
    {
        Self::from_data(key.as_bytes())
    }

    /// Hash a list of hashes, one after the other.
    pub fn from_data_array(parts: &[TrieHash]) -> (hash: Self)
        ensures
            hash@ == Self::digest(concat_hashes(parts@)),
    {
        let data = hash_bytes(parts);
        Self::from_data(data.as_slice())
    }

    /// The hash that 32 bytes hold.
    pub fn from_bytes(bytes: &[u8]) -> (hash: Option<Self>)
        ensures
            hash is Some <==> bytes@.len() == 32,
            hash is Some ==> hash->0@ == bytes@,
    {
        if bytes.len() == 32 {
            Some(TrieHash(to_array::<32>(bytes)))
        } else {
            None
        }
    }
}

/// The bytes of hashes, one after the other.
pub open spec fn concat_hashes(parts: Seq<TrieHash>) -> Seq<u8>
    decreases parts.len(),
{
    if parts.len() == 0 {
        Seq::empty()
    } else {
        concat_hashes(parts.drop_last()) + parts.last()@
    }
}

/// The bytes of hashes, one after the other.
pub fn hash_bytes(parts: &[TrieHash]) -> (data: Vec<u8>)
    ensures
        data@ == concat_hashes(parts@),
{
    let mut data: Vec<u8> = Vec::new();
    let mut at: usize = 0;
    assert(parts@.subrange(0, 0) =~= Seq::<TrieHash>::empty());
    while at < parts.len()
        invariant
            at <= parts.len(),
            data@ == concat_hashes(parts@.subrange(0, at as int)),
        decreases parts.len() - at,
    {
        push_bytes(&mut data, &parts[at].0);
        at = at + 1;
        assert(parts@.subrange(0, at as int).drop_last() =~= parts@.subrange(0, at - 1));
    }
    assert(parts@.subrange(0, at as int) =~= parts@);
    data
}

/// The identity of no block.
pub open spec fn sentinel_bytes() -> Seq<u8> {
    Seq::new(32, |i: int| 255u8)
}

/// A 32-byte block identity.
pub trait ClarityMarfTrieId: Sized {
    /// The identity's bytes.
    spec fn id_bytes(&self) -> Seq<u8>;

    fn as_bytes(&self) -> (bytes: &[u8])
        ensures
            bytes@ == self.id_bytes(),
            bytes@.len() == 32,
    ;

    fn to_bytes(self) -> (bytes: [u8; 32])
        ensures
            bytes@ == self.id_bytes(),
    ;

    fn from_bytes(from: [u8; 32]) -> (id: Self)
        ensures
            id.id_bytes() == from@,
    ;

    fn sentinel() -> (id: Self)
        ensures
            id.id_bytes() == sentinel_bytes(),
    ;
}

/// A block identity that can name a trie.
pub trait MarfTrieId: ClarityMarfTrieId {

}

/// An identity with the same bytes.
pub fn copy_id<T: ClarityMarfTrieId>(id: &T) -> (copy: T)
    ensures
        copy.id_bytes() == id.id_bytes(),
{
    T::from_bytes(to_array::<32>(id.as_bytes()))
}

/// Whether two identities name the same block.
pub fn same_id<T: ClarityMarfTrieId>(a: &T, b: &T) -> (same: bool)
    ensures
        same == (a.id_bytes() == b.id_bytes()),
{
    bytes_eq(a.as_bytes(), b.as_bytes())
}

/// The bytes of the identity of no block.
pub fn sentinel_array() -> (bytes: [u8; 32])
    ensures
        bytes@ == sentinel_bytes(),
{
    let bytes = [255u8; 32];
    assert(bytes@ =~= sentinel_bytes());
    bytes
}

/// The identity of a Stacks block.
#[derive(Clone, Copy, Debug, Hash)]
pub struct StacksBlockId(pub [u8; 32]);

impl PartialEq for StacksBlockId {
    fn eq(&self, other: &Self) -> (same: bool) {
        let same = bytes_eq(&self.0, &other.0);
        proof {
            if same {
                assert(self.0 =~= other.0);
            }
        }
        same
    }
}

impl vstd::std_specs::cmp::PartialEqSpecImpl for StacksBlockId {
    open spec fn obeys_eq_spec() -> bool {
        true
    }

    open spec fn eq_spec(&self, other: &Self) -> bool {
        *self == *other
    }
}

impl Eq for StacksBlockId {

}

impl ClarityMarfTrieId for StacksBlockId {
    open spec fn id_bytes(&self) -> Seq<u8> {
        self.0@
    }

    fn as_bytes(&self) -> (bytes: &[u8]) {
        &self.0
    }

    fn to_bytes(self) -> (bytes: [u8; 32]) {
        self.0
    }

    fn from_bytes(from: [u8; 32]) -> (id: Self) {
        StacksBlockId(from)
    }

    fn sentinel() -> (id: Self) {
        StacksBlockId(sentinel_array())
    }
}

impl MarfTrieId for StacksBlockId {

}

/// The header hash of a burn chain block.
#[derive(Clone, Copy, Debug, Hash)]
pub struct BurnchainHeaderHash(pub [u8; 32]);

impl PartialEq for BurnchainHeaderHash {
    fn eq(&self, other: &Self) -> (same: bool) {
        let same = bytes_eq(&self.0, &other.0);
        proof {
            if same {
                assert(self.0 =~= other.0);
            }
        }
        same
    }
}

impl vstd::std_specs::cmp::PartialEqSpecImpl for BurnchainHeaderHash {
    open spec fn obeys_eq_spec() -> bool {
        true
    }

    open spec fn eq_spec(&self, other: &Self) -> bool {
        *self == *other
    }
}

impl Eq for BurnchainHeaderHash {

}

impl ClarityMarfTrieId for BurnchainHeaderHash {
    open spec fn id_bytes(&self) -> Seq<u8> {
        self.0@
    }

    fn as_bytes(&self) -> (bytes: &[u8]) {
        &self.0
    }

    fn to_bytes(self) -> (bytes: [u8; 32]) {
        self.0
    }

    fn from_bytes(from: [u8; 32]) -> (id: Self) {
        BurnchainHeaderHash(from)
    }

    fn sentinel() -> (id: Self) {
        BurnchainHeaderHash(sentinel_array())
    }
}

impl MarfTrieId for BurnchainHeaderHash {

}

/// The identity of a sortition.
#[derive(Clone, Copy, Debug, Hash)]
pub struct SortitionId(pub [u8; 32]);

impl PartialEq for SortitionId {
    fn eq(&self, other: &Self) -> (same: bool) {
        let same = bytes_eq(&self.0, &other.0);
        proof {
            if same {
                assert(self.0 =~= other.0);
            }
        }
        same
    }
}

impl vstd::std_specs::cmp::PartialEqSpecImpl for SortitionId {
    open spec fn obeys_eq_spec() -> bool {
        true
    }

    open spec fn eq_spec(&self, other: &Self) -> bool {
        *self == *other
    }
}

impl Eq for SortitionId {

}

impl ClarityMarfTrieId for SortitionId {
    open spec fn id_bytes(&self) -> Seq<u8> {
        self.0@
    }

    fn as_bytes(&self) -> (bytes: &[u8]) {
        &self.0
    }

    fn to_bytes(self) -> (bytes: [u8; 32]) {
        self.0
    }

    fn from_bytes(from: [u8; 32]) -> (id: Self) {
        SortitionId(from)
    }

    fn sentinel() -> (id: Self) {
        SortitionId(sentinel_array())
    }
}

impl MarfTrieId for SortitionId {

}

} // verus!
