//! The header of a trie blob.
//!
//! ```text
//! offset  size  field
//!      0    32  parent_hash         (the sentinel for the squash blob)
//!     32     4  reserved            (historically a local block ID; written as zeros)
//!     36   ...  root node           (first 32 bytes are its hash)
//! ```
//!
//! Type-first stores use a checked version tag and put the root marker before its hash.
use vstd::prelude::*;

use crate::error::{corrupt, Corruption, Error, IoErrorKind};
use crate::hash::{MarfTrieId, TrieHash};
use crate::leaf::Node;
use crate::node::TrieNodeID;
use crate::record::NodeRecordFormat;
use crate::words::{push_bytes, to_array};

verus! {

/// Byte width of a block identity.
pub const BLOCK_HEADER_HASH_ENCODED_SIZE: usize = 32;

/// Offset of the reserved 4-byte field.
pub const RESERVED_FIELD_OFFSET: usize = 32;

/// Length of the reserved field.
pub const RESERVED_FIELD_LEN: usize = 4;

/// Offset where the root node, and therefore the root hash, begins.
pub const ROOT_NODE_OFFSET: usize = 36;

/// Bytes needed to read `parent_hash || reserved || root_hash`.
pub const READER_PREFIX_LEN: usize = 68;

/// Largest prefix needed to read a parent identity and stored root hash.
pub const MAX_READER_PREFIX_LEN: usize = 69;

/// The parsed fixed-layout prefix of a trie blob: the parent block hash and the trie root hash.
#[derive(Debug)]
pub struct BlobHeader<T> {
    pub parent_hash: T,
    pub root_hash: TrieHash,
}

/// What a header says: the parent's identity and the root hash.
#[verifier::ext_equal]
pub struct Header {
    pub parent: Seq<u8>,
    pub root: Seq<u8>,
}

impl NodeRecordFormat {
    /// The reserved field: zeros, or a version tag.
    pub open spec fn tag(self) -> Seq<u8> {
        if self is Legacy {
            seq![0u8, 0, 0, 0]
        } else {
            seq![77u8, 82, 70, self.number()]
        }
    }

    /// What keeps bytes from starting with a header of this layout.
    pub open spec fn header_fault(self, bytes: Seq<u8>) -> Option<Error> {
        if bytes.len() < 36 {
            Some(Error::CorruptionError(Corruption::TruncatedTrieHeader))
        } else if self.number() > 0 && bytes.subrange(32, 36) != self.tag() {
            Some(Error::CorruptionError(Corruption::TrieLayoutMismatch))
        } else {
            None
        }
    }

    /// The header that bytes start with.
    pub open spec fn header(self, bytes: Seq<u8>) -> Result<Header, Error> {
        match self.header_fault(bytes) {
            Some(e) => Err(e),
            None => {
                let fault: Option<Error> = if self.number() == 0 {
                    None
                } else {
                    match self.parsed(bytes.subrange(36, bytes.len() as int)) {
                        Err(e) => Some(e),
                        Ok(record) => if record.logical() == Some(TrieNodeID::Node256)
                            || record.logical() == Some(TrieNodeID::Patch) {
                            None
                        } else {
                            Some(Error::CorruptionError(Corruption::InvalidRootType))
                        },
                    }
                };
                let start: int = if self.number() > 0 {
                    37
                } else {
                    36
                };
                match fault {
                    Some(e) => Err(e),
                    None => if bytes.len() < start + 32 {
                        Err(Error::CorruptionError(Corruption::TruncatedRootHash))
                    } else {
                        Ok(
                            Header {
                                parent: bytes.subrange(0, 32),
                                root: bytes.subrange(start, start + 32),
                            },
                        )
                    },
                }
            },
        }
    }

    /// Number of bytes needed for a root-hash probe in this layout.
    pub fn reader_prefix_len(self) -> (n: usize)
        ensures
            n == if self is Legacy {
                READER_PREFIX_LEN
            } else {
                MAX_READER_PREFIX_LEN
            },
    {
        if self.is_type_first() {
            MAX_READER_PREFIX_LEN
        } else {
            READER_PREFIX_LEN
        }
    }

    fn tag_bytes(self) -> (tag: [u8; 4])
        ensures
            tag@ == self.tag(),
    {
        let tag: [u8; 4] = if self.is_type_first() {
            [77, 82, 70, self.version()]
        } else {
            [0, 0, 0, 0]
        };
        assert(tag@ =~= self.tag());
        tag
    }

    /// Append the parent identity and explicit layout tag before a trie root.
    pub fn write_trie_header<T: MarfTrieId>(self, out: &mut Vec<u8>, parent: &T)
        ensures
            final(out)@ == old(out)@ + parent.id_bytes() + self.tag(),
    {
        push_bytes(out, parent.as_bytes());
        push_bytes(out, &self.tag_bytes());
    }

    /// Check the selected format without interpreting historical local block IDs as versions.
    pub fn validate_trie_header(self, bytes: &[u8]) -> (done: Result<(), Error>)
        ensures
            match self.header_fault(bytes@) {
                Some(e) => done == Err::<(), Error>(e),
                None => done is Ok,
            },
    {
        if bytes.len() < ROOT_NODE_OFFSET {
            return Err(corrupt(Corruption::TruncatedTrieHeader));
        }
        let tag = self.tag_bytes();
        if self.is_type_first() && !crate::words::bytes_eq(
            &bytes[RESERVED_FIELD_OFFSET..ROOT_NODE_OFFSET],
            &tag,
        ) {
            return Err(corrupt(Corruption::TrieLayoutMismatch));
        }
        Ok(())
    }

    /// Check a newly opened inline blob before reading records from it.
    pub fn validate_reader_header(self, blob: &[u8]) -> (done: Result<(), Error>)
        ensures
            if self is Legacy {
                done is Ok
            } else if blob@.len() < 36 {
                done == Err::<(), Error>(Error::IOError(IoErrorKind::UnexpectedEof))
            } else if blob@.subrange(32, 36) != self.tag() {
                done == Err::<(), Error>(Error::CorruptionError(Corruption::TrieLayoutMismatch))
            } else {
                done is Ok
            },
    {
        if !self.is_type_first() {
            return Ok(());
        }
        if blob.len() < ROOT_NODE_OFFSET {
            return Err(Error::IOError(IoErrorKind::UnexpectedEof));
        }
        self.validate_trie_header(blob)
    }
}

impl<T: MarfTrieId> BlobHeader<T> {
    /// What the header says.
    pub open spec fn view(&self) -> Header {
        Header { parent: self.parent_hash.id_bytes(), root: self.root_hash@ }
    }

    /// Parse the first bytes of a historical trie blob.
    pub fn parse(buf: &[u8; 68]) -> (header: BlobHeader<T>)
        ensures
            header@.parent == buf@.subrange(0, 32),
            header@.root == buf@.subrange(36, 68),
    {
        let bytes: &[u8] = buf;
        BlobHeader {
            parent_hash: T::from_bytes(to_array::<32>(&bytes[0..32])),
            root_hash: TrieHash(to_array::<32>(&bytes[36..68])),
        }
    }

    /// Read a root hash using an explicitly selected layout.
    pub fn parse_format(format: NodeRecordFormat, bytes: &[u8]) -> (header: Result<Self, Error>)
        ensures
            match format.header(bytes@) {
                Ok(h) => header matches Ok(found) && found@ == h,
                Err(e) => header matches Err(found) && found == e,
            },
    {
        match format.validate_trie_header(bytes) {
            Ok(()) => {},
            Err(e) => return Err(e),
        }
        let mut start: usize = ROOT_NODE_OFFSET;
        if format.is_type_first() {
            start = start + 1;
            let record = match format.parse(&bytes[ROOT_NODE_OFFSET..bytes.len()]) {
                Ok(record) => record,
                Err(e) => return Err(e),
            };
            let id: TrieNodeID = record.logical_type();
            if id != TrieNodeID::Node256 && id != TrieNodeID::Patch {
                return Err(corrupt(Corruption::InvalidRootType));
            }
        }
        if bytes.len() < start + 32 {
            return Err(corrupt(Corruption::TruncatedRootHash));
        }
        let header = BlobHeader {
            parent_hash: T::from_bytes(to_array::<32>(&bytes[0..32])),
            root_hash: TrieHash(to_array::<32>(&bytes[start..start + 32])),
        };
        assert(header@ =~= format.header(bytes@)->Ok_0);
        Ok(header)
    }
}

/// A header and a root record that were written are read back: the parent and the root's hash.
#[verifier::spinoff_prover]
#[verifier::rlimit(60)]
pub proof fn law_header_roundtrip(
    format: NodeRecordFormat,
    parent: Seq<u8>,
    root: Node,
    hash: Seq<u8>,
    compressed: bool,
    tail: Seq<u8>,
)
    requires
        parent.len() == 32,
        hash.len() == 32,
        root.id() is Node256,
        crate::record_laws::storable(format, root, compressed),
        format.node_record(root, hash, compressed) is Ok,
    ensures
        format.header(
            parent + format.tag() + format.node_record(root, hash, compressed)->Ok_0 + tail,
        ) == Ok::<Header, Error>(Header { parent, root: hash }),
{
    let record = format.node_record(root, hash, compressed)->Ok_0;
    let bytes = parent + format.tag() + record + tail;
    crate::record_laws::law_record_roundtrip(format, root, hash, compressed, tail);
    assert(bytes.subrange(32, 36) =~= format.tag());
    assert(bytes.subrange(0, 32) =~= parent);
    assert(bytes.subrange(36, bytes.len() as int) =~= record + tail);
    let start: int = if format.number() > 0 {
        37
    } else {
        36
    };
    assert(record.len() >= 33);
    assert(bytes.subrange(start, start + 32) =~= hash);
}

} // verus!
