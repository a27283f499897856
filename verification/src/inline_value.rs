//! Inline leaf payloads, independent of the value codec.
use std::ops::Range;
use vstd::prelude::*;

use crate::error::{corrupt, Corruption, Error};
use crate::words::{bytes_eq, push_bytes};

verus! {

/// Bytes used by the independent record and descriptor lengths.
pub const LENGTH_BYTES: usize = 2;

/// Writer threshold that does not exceed the physical extent locator.
pub const INLINE_BYTES: usize = 30;

/// Largest payload accepted by the two one-byte length fields.
pub const MAX_BYTES: usize = 510;

/// An encoded record and its reconstruction descriptor.
#[verifier::ext_equal]
pub struct Inline {
    pub record: Seq<u8>,
    pub descriptor: Seq<u8>,
}

impl Inline {
    /// Both lengths, the record and the descriptor.
    pub open spec fn encoded(self) -> Seq<u8> {
        seq![self.record.len() as u8, self.descriptor.len() as u8] + self.record + self.descriptor
    }

    /// Whether both lengths fit a byte.
    pub open spec fn bounded(self) -> bool {
        self.record.len() <= 255 && self.descriptor.len() <= 255
    }

    /// The framed value that `bytes` start with, and its length.
    pub open spec fn decode(bytes: Seq<u8>) -> Result<(Inline, nat), Error> {
        if bytes.len() < 2 {
            Err(Error::CorruptionError(Corruption::TruncatedInlineLengths))
        } else if bytes.len() < 2 + bytes[0] + bytes[1] {
            Err(Error::CorruptionError(Corruption::TruncatedInlinePayload))
        } else {
            Ok(
                (
                    Inline {
                        record: bytes.subrange(2, 2 + bytes[0]),
                        descriptor: bytes.subrange(2 + bytes[0], 2 + bytes[0] + bytes[1]),
                    },
                    (2 + bytes[0] + bytes[1]) as nat,
                ),
            )
        }
    }
}

/// Codec-independent record and descriptor retained by an inline leaf.
#[derive(Debug)]
pub struct InlineValue {
    /// The record and then the descriptor.
    bytes: Vec<u8>,
    /// Split between the encoded record and its reconstruction descriptor.
    record_len: u8,
}

impl PartialEq for InlineValue {
    fn eq(&self, other: &Self) -> (same: bool) {
        proof {
            use_type_invariant(self);
            use_type_invariant(other);
        }
        let same = self.record_len == other.record_len && bytes_eq(
            self.bytes.as_slice(),
            other.bytes.as_slice(),
        );
        proof {
            if self@ == other@ {
                assert(self@.record.len() == other@.record.len());
                assert(self.bytes@ =~= self@.record + self@.descriptor);
                assert(other.bytes@ =~= other@.record + other@.descriptor);
            }
        }
        same
    }
}

impl vstd::std_specs::cmp::PartialEqSpecImpl for InlineValue {
    open spec fn obeys_eq_spec() -> bool {
        true
    }

    open spec fn eq_spec(&self, other: &Self) -> bool {
        self@ == other@
    }
}

impl Eq for InlineValue {

}

impl Clone for InlineValue {
    fn clone(&self) -> (copy: Self)
        ensures
            copy@ == self@,
    {
        proof {
            use_type_invariant(self);
        }
        let mut bytes: Vec<u8> = Vec::new();
        push_bytes(&mut bytes, self.bytes.as_slice());
        assert(bytes@ =~= self.bytes@);
        InlineValue { bytes, record_len: self.record_len }
    }
}

impl InlineValue {
    #[verifier::type_invariant]
    spec fn framed(self) -> bool {
        self.record_len <= self.bytes@.len() <= self.record_len + 255
    }

    /// The record and the descriptor.
    pub closed spec fn view(&self) -> Inline {
        Inline {
            record: self.bytes@.subrange(0, self.record_len as int),
            descriptor: self.bytes@.subrange(self.record_len as int, self.bytes@.len() as int),
        }
    }

    /// Retain bytes after checking physical length bounds.
    pub fn from_parts(record: &[u8], descriptor: &[u8]) -> (value: Result<Self, Error>)
        ensures
            match value {
                Ok(v) => v@.record == record@ && v@.descriptor == descriptor@ && v@.bounded(),
                Err(e) => (record@.len() > 255 || descriptor@.len() > 255) && e
                    == Error::OverflowError,
            },
    {
        if record.len() > 255 || descriptor.len() > 255 {
            return Err(Error::OverflowError);
        }
        let mut bytes: Vec<u8> = Vec::with_capacity(record.len() + descriptor.len());
        push_bytes(&mut bytes, record);
        push_bytes(&mut bytes, descriptor);
        assert(bytes@.subrange(0, record@.len() as int) =~= record@);
        assert(bytes@.subrange(record@.len() as int, bytes@.len() as int) =~= descriptor@);
        Ok(InlineValue { bytes, record_len: record.len() as u8 })
    }

    /// Retain a checked range of published mapping bytes without decoding its payload.
    pub fn from_mapping(mapping: &[u8], range: Range<usize>, record_len: u8) -> (value: Result<
        Self,
        Error,
    >)
        ensures
            ({
                let size = range.end - range.start;
                if size < record_len {
                    value == Err::<Self, Error>(Error::OverflowError)
                } else if range.end > mapping@.len() || size - record_len > 255 {
                    value == Err::<Self, Error>(
                        Error::CorruptionError(Corruption::InvalidMappedRange),
                    )
                } else {
                    value matches Ok(v) && v@.record == mapping@.subrange(
                        range.start as int,
                        range.start + record_len,
                    ) && v@.descriptor == mapping@.subrange(
                        range.start + record_len,
                        range.end as int,
                    ) && v@.bounded()
                }
            }),
    {
        if range.end < range.start || range.end - range.start < record_len as usize {
            return Err(Error::OverflowError);
        }
        let size: usize = range.end - range.start;
        if range.end > mapping.len() || size - record_len as usize > 255 {
            return Err(corrupt(Corruption::InvalidMappedRange));
        }
        let split: usize = range.start + record_len as usize;
        Self::from_parts(&mapping[range.start..split], &mapping[split..range.end])
    }

    /// Borrow the encoded value record.
    pub fn record(&self) -> (record: &[u8])
        ensures
            record@ == self@.record,
            record@.len() <= 255,
    {
        proof {
            use_type_invariant(self);
        }
        &self.bytes.as_slice()[0..self.record_len as usize]
    }

    /// Borrow the exact canonical reconstruction descriptor.
    pub fn descriptor(&self) -> (descriptor: &[u8])
        ensures
            descriptor@ == self@.descriptor,
            descriptor@.len() <= 255,
    {
        proof {
            use_type_invariant(self);
        }
        &self.bytes.as_slice()[self.record_len as usize..self.bytes.len()]
    }

    /// Borrow the record and the descriptor together.
    pub fn owner(&self) -> (bytes: &[u8])
        ensures
            bytes@ == self@.record + self@.descriptor,
    {
        proof {
            use_type_invariant(self);
            assert(self.bytes@ =~= self@.record + self@.descriptor);
        }
        self.bytes.as_slice()
    }

    /// Encoded record range within the retained bytes.
    pub fn record_range(&self) -> (range: Range<usize>)
        ensures
            range.start == 0,
            range.end == self@.record.len(),
    {
        proof {
            use_type_invariant(self);
        }
        0..self.record_len as usize
    }

    /// Reconstruction descriptor range within the retained bytes.
    pub fn descriptor_range(&self) -> (range: Range<usize>)
        ensures
            range.start == self@.record.len(),
            range.end == self@.record.len() + self@.descriptor.len(),
    {
        proof {
            use_type_invariant(self);
        }
        self.record_len as usize..self.bytes.len()
    }

    /// Physical length including both one-byte lengths, excluding path and node marker.
    pub fn encoded_len(&self) -> (n: usize)
        ensures
            n == self@.encoded().len(),
            2 <= n <= 512,
    {
        proof {
            use_type_invariant(self);
        }
        LENGTH_BYTES + self.bytes.len()
    }

    /// Whether this payload fits the standard writer's extent-locator break-even rule.
    pub fn fits_inline(record_len: usize, descriptor_len: usize) -> (fits: bool)
        ensures
            fits == (record_len + descriptor_len <= INLINE_BYTES),
    {
        record_len <= INLINE_BYTES && descriptor_len <= INLINE_BYTES - record_len
    }

    /// Write length framing followed by record and descriptor bytes.
    pub fn write_to(&self, out: &mut Vec<u8>)
        ensures
            final(out)@ == old(out)@ + self@.encoded(),
            self@.bounded(),
    {
        proof {
            use_type_invariant(self);
            assert(self.bytes@ =~= self@.record + self@.descriptor);
        }
        out.push(self.record_len);
        out.push((self.bytes.len() - self.record_len as usize) as u8);
        push_bytes(out, self.bytes.as_slice());
        assert(out@ =~= old(out)@ + self@.encoded());
    }

    /// Decode one framed value, permitting a trailing record.
    pub fn decode(bytes: &[u8]) -> (out: Result<(Self, usize), Error>)
        ensures
            match Inline::decode(bytes@) {
                Ok((value, len)) => out matches Ok((v, n)) && v@ == value && n == len && n
                    <= bytes@.len(),
                Err(e) => out == Err::<(Self, usize), Error>(e),
            },
    {
        let (record, descriptor, used) = match Self::ranges(bytes) {
            Ok(found) => found,
            Err(e) => return Err(e),
        };
        let value = match Self::from_parts(
            &bytes[record.start..record.end],
            &bytes[descriptor.start..descriptor.end],
        ) {
            Ok(value) => value,
            Err(e) => return Err(e),
        };
        assert(value@ =~= Inline::decode(bytes@)->Ok_0.0);
        Ok((value, used))
    }

    /// Check framing and return record/descriptor ranges without inspecting their contents.
    pub fn ranges(bytes: &[u8]) -> (out: Result<(Range<usize>, Range<usize>, usize), Error>)
        ensures
            match Inline::decode(bytes@) {
                Ok((value, len)) => out matches Ok((r, d, n)) && n == len && n <= bytes@.len()
                    && r.start == 2 && r.end == 2 + bytes@[0] && d.start == r.end && d.end == n
                    && d.end - d.start <= 255,
                Err(e) => out == Err::<(Range<usize>, Range<usize>, usize), Error>(e),
            },
    {
        if bytes.len() < LENGTH_BYTES {
            return Err(corrupt(Corruption::TruncatedInlineLengths));
        }
        let record_end: usize = LENGTH_BYTES + bytes[0] as usize;
        let end: usize = record_end + bytes[1] as usize;
        if end > bytes.len() {
            return Err(corrupt(Corruption::TruncatedInlinePayload));
        }
        Ok((LENGTH_BYTES..record_end, record_end..end, end))
    }
}

/// A framed value decodes to itself, whatever follows it.
pub proof fn law_inline_roundtrip(value: Inline, tail: Seq<u8>)
    requires
        value.bounded(),
    ensures
        Inline::decode(value.encoded() + tail) == Ok::<(Inline, nat), Error>(
            (value, value.encoded().len()),
        ),
{
    let bytes = value.encoded() + tail;
    let r = value.record.len() as int;
    let d = value.descriptor.len() as int;
    assert(bytes[0] == r && bytes[1] == d);
    assert(bytes.subrange(2, 2 + r) =~= value.record);
    assert(bytes.subrange(2 + r, 2 + r + d) =~= value.descriptor);
}

/// Every proper prefix of a framed value is rejected.
pub proof fn law_inline_truncation_is_rejected(value: Inline, end: int)
    requires
        value.bounded(),
        0 <= end < value.encoded().len(),
    ensures
        Inline::decode(value.encoded().subrange(0, end)) is Err,
{
}

} // verus!
