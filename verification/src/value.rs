//! Leaf values and their physical locators.
use vstd::prelude::*;

use crate::error::IoErrorKind;
use crate::hash::{sha512_256_of, ClarityMarfTrieId, TrieHash};
use crate::words::{
    bytes_eq, le_bytes, le_value, lemma_le_len, lemma_le_roundtrip, lemma_spans, push_bytes, push_le,
    read_le, to_array,
};

verus! {

/// Byte width of a leaf value.
pub const MARF_VALUE_ENCODED_SIZE: u32 = 40;

/// The value of a leaf: the hash of some value string and eight bytes for extensions.
#[derive(Clone, Copy, Debug, Hash)]
pub struct MARFValue(pub [u8; 40]);

impl PartialEq for MARFValue {
    fn eq(&self, other: &Self) -> (same: bool) {
        let same = bytes_eq(&self.0, &other.0);
        proof {
            if same {
                assert(self.0 =~= other.0);
            }
        }
        same
    }
}

impl vstd::std_specs::cmp::PartialEqSpecImpl for MARFValue {
    open spec fn obeys_eq_spec() -> bool {
        true
    }

    open spec fn eq_spec(&self, other: &Self) -> bool {
        *self == *other
    }
}

impl Eq for MARFValue {

}

/// Bytes followed by zeros up to `len`.
pub open spec fn zero_extended(bytes: Seq<u8>, len: nat) -> Seq<u8> {
    Seq::new(
        len,
        |i: int|
            if i < bytes.len() {
                bytes[i]
            } else {
                0
            },
    )
}

/// Whether all bytes from `from` on are zero.
pub open spec fn zero_from(bytes: Seq<u8>, from: int) -> bool {
    forall|i: int| from <= i < bytes.len() ==> #[trigger] bytes[i] == 0
}

/// Whether all bytes from `from` on are zero.
pub fn is_zero_from(bytes: &[u8], from: usize) -> (zero: bool)
    ensures
        zero == zero_from(bytes@, from as int),
{
    let mut at: usize = from;
    while at < bytes.len()
        invariant
            from <= at,
            forall|i: int| from <= i < at && i < bytes@.len() ==> #[trigger] bytes@[i] == 0,
        decreases bytes.len() - at,
    {
        if bytes[at] != 0 {
            return false;
        }
        at = at + 1;
    }
    true
}

impl MARFValue {
    /// The value's bytes.
    pub open spec fn view(&self) -> Seq<u8> {
        self.0@
    }

    /// A value of bytes and zeros.
    pub fn padded(bytes: &[u8]) -> (value: Self)
        requires
            bytes@.len() <= 40,
        ensures
            value@ == zero_extended(bytes@, 40),
    {
        let mut data: [u8; 40] = [0u8;40];
        let mut at: usize = 0;
        while at < bytes.len()
            invariant
                at <= bytes.len() <= 40,
                forall|i: int| 0 <= i < at ==> data@[i] == bytes@[i],
                forall|i: int| at <= i < 40 ==> data@[i] == 0,
            decreases bytes.len() - at,
        {
            data[at] = bytes[at];
            at = at + 1;
        }
        assert(data@ =~= zero_extended(bytes@, 40));
        MARFValue(data)
    }

    /// The value of a number.
    pub fn from_u32(number: u32) -> (value: Self)
        ensures
            value@ == zero_extended(le_bytes(number as nat, 4), 40),
    {
        let mut bytes: Vec<u8> = Vec::new();
        push_le(&mut bytes, number as u64, 4);
        assert(bytes@ =~= le_bytes(number as nat, 4));
        proof {
            lemma_le_len(number as nat, 4);
        }
        Self::padded(bytes.as_slice())
    }

    /// The number of a value that holds one.
    pub fn to_u32(&self) -> (number: u32)
        requires
            zero_from(self@, 4),
        ensures
            number as nat == le_value(self@.subrange(0, 4)),
    {
        proof {
            lemma_spans();
        }
        read_le(&self.0, 0, 4) as u32
    }

    /// The value of a block identity.
    pub fn from_block_id<T: ClarityMarfTrieId>(id: &T) -> (value: Self)
        ensures
            value@ == zero_extended(id.id_bytes(), 40),
    {
        Self::padded(id.as_bytes())
    }

    /// The block identity of a value that holds one.
    pub fn to_block_id<T: ClarityMarfTrieId>(&self) -> (id: T)
        requires
            zero_from(self@, 32),
        ensures
            id.id_bytes() == self@.subrange(0, 32),
    {
        T::from_bytes(to_array::<32>(&self.0[0..32]))
    }

    /// Construct from the bytes of a hash.
    pub fn from_value_hash_bytes(h: &[u8; 32]) -> (value: Self)
        ensures
            value@ == zero_extended(h@, 40),
    {
        Self::padded(h)
    }

    /// Construct from a hash.
    pub fn from_value_hash(h: &TrieHash) -> (value: Self)
        ensures
            value@ == zero_extended(h@, 40),
    {
        Self::from_value_hash_bytes(h.as_bytes())
    }

    /// Construct from a string that encodes a value in the underlying data store.
    pub fn from_value(s: &str) -> (value: Self)
        ensures
            value@ == zero_extended(sha512_256_of(vstd::utf8::encode_utf8(s@)), 40),
    {
        let hash = TrieHash::of_bytes(s.as_bytes());
        Self::from_value_hash(&hash)
    }

    /// Convert to a byte vector.
    pub fn to_vec(&self) -> (bytes: Vec<u8>)
        ensures
            bytes@ == self@,
    {
        let mut bytes: Vec<u8> = Vec::new();
        push_bytes(&mut bytes, &self.0);
        assert(bytes@ =~= self@);
        bytes
    }

    /// Extract the value hash from the value.
    pub fn to_value_hash(&self) -> (hash: TrieHash)
        ensures
            hash@ == self@.subrange(0, 32),
    {
        TrieHash(to_array::<32>(&self.0[0..32]))
    }
}

/// A number survives the trip through a value.
pub proof fn law_number_value_roundtrip(number: u32)
    ensures
        zero_from(zero_extended(le_bytes(number as nat, 4), 40), 4),
        le_value(zero_extended(le_bytes(number as nat, 4), 40).subrange(0, 4)) == number,
{
    lemma_spans();
    lemma_le_len(number as nat, 4);
    lemma_le_roundtrip(number as nat, 4);
    assert(zero_extended(le_bytes(number as nat, 4), 40).subrange(0, 4) =~= le_bytes(
        number as nat,
        4,
    ));
}

/// A block identity survives the trip through a value.
pub proof fn law_block_value_roundtrip(id: Seq<u8>)
    requires
        id.len() == 32,
    ensures
        zero_from(zero_extended(id, 40), 32),
        zero_extended(id, 40).subrange(0, 32) == id,
{
    assert(zero_extended(id, 40).subrange(0, 32) =~= id);
}

/// A locator's fields.
#[verifier::ext_equal]
pub struct Extent {
    pub store_id: Seq<u8>,
    pub offset: u64,
    pub length: u64,
}

impl Extent {
    /// The fixed-width representation.
    pub open spec fn encoded(self) -> Seq<u8> {
        self.store_id + le_bytes(self.offset as nat, 8) + le_bytes(self.length as nat, 8)
    }

    /// The locator that `bytes` start with.
    pub open spec fn at(bytes: Seq<u8>) -> Extent {
        Extent {
            store_id: bytes.subrange(0, 16),
            offset: le_value(bytes.subrange(16, 24)) as u64,
            length: le_value(bytes.subrange(24, 32)) as u64,
        }
    }
}

/// Physical address of an immutable value record in a database's extent file.
#[derive(Clone, Copy, Debug)]
pub struct ValueExtent {
    /// Identity binding this locator to one immutable extent-file generation.
    pub store_id: [u8; 16],
    /// Absolute byte offset of the record envelope.
    pub offset: u64,
    /// Complete envelope and payload length.
    pub length: u64,
}

impl PartialEq for ValueExtent {
    fn eq(&self, other: &Self) -> (same: bool) {
        let same = bytes_eq(&self.store_id, &other.store_id);
        proof {
            if same {
                assert(self.store_id =~= other.store_id);
            }
        }
        same && self.offset == other.offset && self.length == other.length
    }
}

impl vstd::std_specs::cmp::PartialEqSpecImpl for ValueExtent {
    open spec fn obeys_eq_spec() -> bool {
        true
    }

    open spec fn eq_spec(&self, other: &Self) -> bool {
        *self == *other
    }
}

impl Eq for ValueExtent {

}

impl ValueExtent {
    /// Fixed physical locator width; never part of a commitment.
    pub const ENCODED_SIZE: usize = 32;

    /// The locator's fields.
    pub open spec fn view(&self) -> Extent {
        Extent { store_id: self.store_id@, offset: self.offset, length: self.length }
    }

    /// Write the physical locator in its fixed-width representation.
    pub fn write_to(&self, out: &mut Vec<u8>)
        ensures
            final(out)@ == old(out)@ + self@.encoded(),
    {
        push_bytes(out, &self.store_id);
        push_le(out, self.offset, 8);
        push_le(out, self.length, 8);
        assert(out@ =~= old(out)@ + self@.encoded());
    }

    /// Read a complete physical locator without trusting its bounds or file identity.
    pub fn read_from(bytes: &[u8]) -> (extent: Result<Self, IoErrorKind>)
        ensures
            match extent {
                Ok(e) => bytes@.len() >= 32 && e@ == Extent::at(bytes@),
                Err(k) => bytes@.len() < 32 && k == IoErrorKind::UnexpectedEof,
            },
    {
        if bytes.len() < 32 {
            return Err(IoErrorKind::UnexpectedEof);
        }
        let extent = ValueExtent {
            store_id: to_array::<16>(&bytes[0..16]),
            offset: read_le(bytes, 16, 8),
            length: read_le(bytes, 24, 8),
        };
        assert(extent@ =~= Extent::at(bytes@));
        Ok(extent)
    }
}

/// A written locator reads back as itself, whatever follows it.
pub proof fn law_extent_roundtrip(extent: Extent, tail: Seq<u8>)
    requires
        extent.store_id.len() == 16,
    ensures
        extent.encoded().len() == 32,
        Extent::at(extent.encoded() + tail) == extent,
{
    lemma_spans();
    lemma_le_len(extent.offset as nat, 8);
    lemma_le_len(extent.length as nat, 8);
    lemma_le_roundtrip(extent.offset as nat, 8);
    lemma_le_roundtrip(extent.length as nat, 8);
    let bytes = extent.encoded() + tail;
    assert(bytes.subrange(0, 16) =~= extent.store_id);
    assert(bytes.subrange(16, 24) =~= le_bytes(extent.offset as nat, 8));
    assert(bytes.subrange(24, 32) =~= le_bytes(extent.length as nat, 8));
}

} // verus!
