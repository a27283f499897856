//! Nodes read from storage, decoded only as far as a caller needs them.
use vstd::prelude::*;

use crate::bits::stored_id;
use crate::branch_view::{BranchParts, BranchView};
use crate::error::{corrupt, Corruption, Error};
use crate::hash::TrieHash;
use crate::inline_value::InlineValue;
use crate::leaf::{Leaf, Node, TrieLeaf, TrieNodeType};
use crate::mapped_node::{path_prefix, path_prefix_spec};
use crate::node::{TrieNodeID, TrieNodePatch, TrieNodeTransientMeta, TriePtr};
use crate::node_codec::decode_stable_node_bytes;
use crate::patch::{bad, fault_of, Fault, Patch};
use crate::raw_leaf;
use crate::record::{NodeRecord, NodeRecordFormat, Record};
use crate::value::{MARFValue, ValueExtent};

verus! {

/// A leaf's parts, borrowed from wherever they are kept.
#[derive(Clone, Copy, Debug)]
pub struct TrieLeafRef<'a> {
    pub path: &'a [u8],
    pub data: Option<&'a MARFValue>,
    pub extent: Option<ValueExtent>,
    pub inline: Option<&'a InlineValue>,
}

impl<'a> TrieLeafRef<'a> {
    /// The leaf.
    pub open spec fn view(&self) -> Leaf {
        Leaf {
            path: self.path@,
            data: match self.data {
                Some(value) => Some(value@),
                None => None,
            },
            extent: match self.extent {
                Some(extent) => Some(extent@),
                None => None,
            },
            inline: match self.inline {
                Some(value) => Some(value@),
                None => None,
            },
        }
    }

    /// Borrow a leaf's parts.
    pub fn from_leaf(leaf: &'a TrieLeaf) -> (parts: Self)
        ensures
            parts@ == leaf@,
    {
        TrieLeafRef {
            path: leaf.path.as_slice(),
            data: leaf.data.as_ref(),
            extent: leaf.extent,
            inline: leaf.inline.as_ref(),
        }
    }

    /// Copy the parts.
    pub fn to_owned(&self) -> (leaf: TrieLeaf)
        requires
            self.path@.len() <= 32,
        ensures
            leaf@ == self@,
    {
        let mut leaf = TrieLeaf::empty();
        let _ = leaf.path.set_from_slice(self.path);
        match self.data {
            Some(value) => leaf.data = Some(*value),
            None => {},
        }
        leaf.extent = self.extent;
        match self.inline {
            Some(value) => leaf.inline = Some(value.clone()),
            None => {},
        }
        leaf
    }
}

/// What serialized node bytes hold.
pub struct StoredBytes {
    pub node_type: TrieNodeID,
    pub format: NodeRecordFormat,
    pub marker: Option<u8>,
    pub payload: Seq<u8>,
}

impl StoredBytes {
    /// The node.
    pub open spec fn decoded(self) -> Result<Node, Fault> {
        match self.marker {
            None => Err(bad(Corruption::MissingMarker)),
            Some(marker) => match (Record {
                format: self.format,
                marker,
                hash: None,
                payload: self.payload,
                prefix_len: 0,
            }).decode(self.node_type.code()) {
                Ok((node, _)) => Ok(node),
                Err(fault) => Err(fault),
            },
        }
    }

    /// The path of a path-first payload.
    pub open spec fn path(self) -> Result<Option<Seq<u8>>, Error> {
        if self.format.number() == 0 {
            Ok(None)
        } else {
            match if self.marker == Some(8u8) {
                raw_leaf::path_spec(self.payload)
            } else {
                path_prefix_spec(self.payload)
            } {
                Ok(path) => Ok(Some(path)),
                Err(e) => Err(e),
            }
        }
    }

    /// The child along an edge of a mapped branch.
    pub open spec fn child(self, chr: u8) -> Result<Option<Option<TriePtr>>, Error> {
        if self.format.number() == 0 {
            Ok(None)
        } else if self.node_type is Leaf {
            Ok(Some(None))
        } else {
            match BranchParts::parse(self.format, self.node_type, self.payload) {
                Err(e) => Err(e),
                Ok(parts) => match parts.child(chr) {
                    Err(e) => Err(e),
                    Ok(child) => Ok(Some(child)),
                },
            }
        }
    }

    /// A locator leaf.
    pub open spec fn leaf(self) -> Result<Option<Leaf>, Error> {
        if self.format.number() == 0 || self.marker != Some(7u8) {
            Ok(None)
        } else {
            match Leaf::load_located(self.payload) {
                Ok((leaf, _)) => Ok(Some(leaf)),
                Err(e) => Err(e),
            }
        }
    }
}

/// A borrowed slice of serialized trie node bytes (e.g. from a mapped blob).
/// Carries the node type so the decoder knows how to interpret the bytes.
#[derive(Clone, Copy, Debug)]
pub struct BorrowedNodeBytes<'a> {
    node_type: TrieNodeID,
    format: NodeRecordFormat,
    marker: Option<u8>,
    payload: &'a [u8],
}

impl<'a> BorrowedNodeBytes<'a> {
    /// What the bytes hold.
    pub closed spec fn view(&self) -> StoredBytes {
        StoredBytes {
            node_type: self.node_type,
            format: self.format,
            marker: self.marker,
            payload: self.payload@,
        }
    }

    /// Create from a legacy marker-plus-payload slice, excluding its stored hash.
    pub fn new(node_type: TrieNodeID, bytes: &'a [u8]) -> (node: Self)
        ensures
            node@.node_type == node_type,
            node@.format is Legacy,
            if bytes@.len() == 0 {
                node@.marker is None && node@.payload.len() == 0
            } else {
                node@.marker == Some(bytes@[0]) && node@.payload == bytes@.subrange(
                    1,
                    bytes@.len() as int,
                )
            },
    {
        if bytes.len() == 0 {
            return BorrowedNodeBytes {
                node_type,
                format: NodeRecordFormat::Legacy,
                marker: None,
                payload: bytes,
            };
        }
        BorrowedNodeBytes {
            node_type,
            format: NodeRecordFormat::Legacy,
            marker: Some(bytes[0]),
            payload: &bytes[1..bytes.len()],
        }
    }

    /// Retain a separately parsed marker and mapped payload without a byte copy.
    pub fn from_record(record: NodeRecord<'a>) -> (node: Self)
        requires
            record@.logical() is Some,
        ensures
            node@.node_type == record@.logical()->0,
            node@.format == record.format,
            node@.marker == Some(record.marker),
            node@.payload == record.payload@,
    {
        BorrowedNodeBytes {
            node_type: record.logical_type(),
            format: record.format,
            marker: Some(record.marker),
            payload: record.payload,
        }
    }

    /// The logical node type used by traversal.
    pub fn node_type(&self) -> (id: TrieNodeID)
        ensures
            id == self@.node_type,
    {
        self.node_type
    }

    /// Borrow the path directly from a path-first payload.
    pub fn mapped_path(&self) -> (path: Result<Option<&'a [u8]>, Error>)
        ensures
            match self@.path() {
                Ok(Some(p)) => path matches Ok(Some(found)) && found@ == p,
                Ok(None) => path == Ok::<Option<&'a [u8]>, Error>(None),
                Err(e) => path == Err::<Option<&'a [u8]>, Error>(e),
            },
    {
        if !self.format.is_type_first() {
            return Ok(None);
        }
        let raw = match self.marker {
            Some(marker) => marker == TrieNodeID::RawLeaf.as_u8(),
            None => false,
        };
        let found = if raw {
            raw_leaf::path(self.payload)
        } else {
            path_prefix(self.payload)
        };
        match found {
            Ok(path) => Ok(Some(path)),
            Err(e) => Err(e),
        }
    }

    /// Select a child without decoding the full mapped branch.
    pub fn mapped_child(&self, chr: u8) -> (child: Result<Option<Option<TriePtr>>, Error>)
        ensures
            child == self@.child(chr),
    {
        if !self.format.is_type_first() {
            return Ok(None);
        }
        if self.node_type == TrieNodeID::Leaf {
            return Ok(Some(None));
        }
        let view = match BranchView::parse(self.format, self.node_type, self.payload) {
            Ok(view) => view,
            Err(e) => return Err(e),
        };
        match view.child(chr) {
            Ok(child) => Ok(Some(child)),
            Err(e) => Err(e),
        }
    }

    /// Borrow a compact leaf's path and copy only its small physical locator.
    pub fn mapped_leaf(&self) -> (leaf: Result<Option<TrieLeafRef<'a>>, Error>)
        ensures
            match self@.leaf() {
                Ok(Some(l)) => leaf matches Ok(Some(found)) && found@ == l && found.path@.len()
                    <= 32,
                Ok(None) => leaf matches Ok(found) && found is None,
                Err(e) => leaf == Err::<Option<TrieLeafRef<'a>>, Error>(e),
            },
    {
        let located = match self.marker {
            Some(marker) => marker == TrieNodeID::ValueLeaf.as_u8(),
            None => false,
        };
        if !self.format.is_type_first() || !located {
            return Ok(None);
        }
        let path = match path_prefix(self.payload) {
            Ok(path) => path,
            Err(e) => return Err(e),
        };
        let at: usize = 1 + path.len();
        let extent = match ValueExtent::read_from(&self.payload[at..self.payload.len()]) {
            Ok(extent) => extent,
            Err(kind) => return Err(Error::IOError(kind)),
        };
        let leaf = TrieLeafRef { path, data: None, extent: Some(extent), inline: None };
        assert(leaf@ =~~= Leaf::load_located(self.payload@)->Ok_0.0);
        Ok(Some(leaf))
    }

    /// Decode a borrowed payload without assembling a contiguous marker-plus-body buffer.
    pub fn decode_node(&self) -> (node: Result<TrieNodeType, Error>)
        ensures
            match self@.decoded() {
                Ok(n) => node matches Ok(t) && t@ == n && t@.wf() && t.is_fresh(),
                Err(fault) => node matches Err(e) && fault_of(e) == fault,
            },
    {
        let marker: u8 = match self.marker {
            Some(marker) => marker,
            None => return Err(corrupt(Corruption::MissingMarker)),
        };
        let record = NodeRecord {
            format: self.format,
            marker,
            hash: None,
            payload: self.payload,
            prefix_len: 0,
        };
        assert(record@ =~~= (Record {
            format: self.format,
            marker,
            hash: None,
            payload: self.payload@,
            prefix_len: 0,
        }));
        match record.decode_node(self.node_type.as_u8()) {
            Ok((node, _)) => Ok(node),
            Err(e) => Err(e),
        }
    }
}

/// An owned copy of serialized trie node bytes (e.g. from a read buffer).
#[derive(Debug)]
pub struct OwnedNodeBytes {
    node_type: TrieNodeID,
    bytes: Vec<u8>,
}

impl OwnedNodeBytes {
    /// The node type.
    pub closed spec fn kind(&self) -> TrieNodeID {
        self.node_type
    }

    /// The bytes.
    pub closed spec fn view(&self) -> Seq<u8> {
        self.bytes@
    }

    /// Whether the bytes can be decoded as the type: a patch is never decoded as a node.
    pub open spec fn readable(&self) -> bool {
        self.kind() is Patch ==> (stored_id(self@) is Err || stored_id(self@) == Ok::<
            TrieNodeID,
            Error,
        >(TrieNodeID::Patch))
    }

    /// The node that exactly fills the bytes.
    pub open spec fn decoded(&self) -> Result<Node, Fault> {
        match Node::decode(self@, self.kind().code()) {
            Ok((node, len)) => if len == self@.len() {
                Ok(node)
            } else {
                Err(bad(Corruption::LengthMismatch))
            },
            Err(fault) => Err(fault),
        }
    }

    /// Create from a node type and its serialized bytes.
    pub fn new(node_type: TrieNodeID, bytes: Vec<u8>) -> (node: Self)
        ensures
            node.kind() == node_type,
            node@ == bytes@,
    {
        OwnedNodeBytes { node_type, bytes }
    }

    /// The type of trie node these bytes encode.
    pub fn node_type(&self) -> (id: TrieNodeID)
        ensures
            id == self.kind(),
    {
        self.node_type
    }

    /// The raw serialized bytes.
    pub fn bytes(&self) -> (bytes: &[u8])
        ensures
            bytes@ == self@,
    {
        self.bytes.as_slice()
    }
}

/// Serialized node bytes: either borrowed from a mapped region or owned from a read buffer.
#[derive(Debug)]
pub enum BytesBacking<'a> {
    /// Zero-copy reference into mapped blob data.
    Borrowed(BorrowedNodeBytes<'a>),
    /// Owned buffer from input.
    Owned(OwnedNodeBytes),
}

impl<'a> BytesBacking<'a> {
    /// The node type.
    pub open spec fn kind(&self) -> TrieNodeID {
        match self {
            BytesBacking::Borrowed(node) => node@.node_type,
            BytesBacking::Owned(node) => node.kind(),
        }
    }

    /// Whether the bytes can be decoded as their type.
    pub open spec fn readable(&self) -> bool {
        match self {
            BytesBacking::Borrowed(_) => true,
            BytesBacking::Owned(node) => node.readable(),
        }
    }

    /// The node.
    pub open spec fn decoded(&self) -> Result<Node, Fault> {
        match self {
            BytesBacking::Borrowed(node) => node@.decoded(),
            BytesBacking::Owned(node) => node.decoded(),
        }
    }

    /// The type of trie node these bytes encode.
    pub fn node_type(&self) -> (id: TrieNodeID)
        ensures
            id == self.kind(),
    {
        match self {
            BytesBacking::Borrowed(node) => node.node_type(),
            BytesBacking::Owned(node) => node.node_type(),
        }
    }

    /// Decode the logical node, preserving borrowing until decoding is requested.
    pub fn decode_node(&self) -> (node: Result<TrieNodeType, Error>)
        requires
            self.readable(),
        ensures
            match self.decoded() {
                Ok(n) => node matches Ok(t) && t@ == n && t@.wf() && t.is_fresh(),
                Err(fault) => node matches Err(e) && fault_of(e) == fault,
            },
    {
        match self {
            BytesBacking::Borrowed(node) => node.decode_node(),
            BytesBacking::Owned(node) => decode_stable_node_bytes(node.bytes(), node.node_type()),
        }
    }
}

/// How a read node's data is backed in memory.
#[derive(Debug)]
pub enum ReadNodeBacking<'a> {
    /// Decoded node borrowed from scratch or parking state, valid until that slot is reused.
    VolatileDecoded(&'a TrieNodeType),
    /// Decoded node borrowed from persisted storage.
    PersistedDecoded(&'a TrieNodeType),
    /// Raw serialized bytes from persisted storage, decoded lazily on first access.
    PersistedBytes(BytesBacking<'a>),
    /// Fully owned decoded node.
    Owned(TrieNodeType),
}

impl<'a> ReadNodeBacking<'a> {
    /// Whether the backing can be read.
    pub open spec fn readable(&self) -> bool {
        match self {
            ReadNodeBacking::VolatileDecoded(node) => node@.wf(),
            ReadNodeBacking::PersistedDecoded(node) => node@.wf(),
            ReadNodeBacking::PersistedBytes(bytes) => bytes.readable(),
            ReadNodeBacking::Owned(node) => node@.wf(),
        }
    }

    /// The node.
    pub open spec fn node(&self) -> Result<Node, Fault> {
        match self {
            ReadNodeBacking::VolatileDecoded(node) => Ok(node@),
            ReadNodeBacking::PersistedDecoded(node) => Ok(node@),
            ReadNodeBacking::PersistedBytes(bytes) => bytes.decoded(),
            ReadNodeBacking::Owned(node) => Ok(node@),
        }
    }

    /// The node type.
    pub open spec fn kind(&self) -> TrieNodeID {
        match self {
            ReadNodeBacking::VolatileDecoded(node) => node@.id(),
            ReadNodeBacking::PersistedDecoded(node) => node@.id(),
            ReadNodeBacking::PersistedBytes(bytes) => bytes.kind(),
            ReadNodeBacking::Owned(node) => node@.id(),
        }
    }

    /// The path segment, which path-first payloads give without being decoded.
    pub open spec fn path(&self) -> Result<Seq<u8>, Fault> {
        let direct: Result<Option<Seq<u8>>, Error> = match self {
            ReadNodeBacking::PersistedBytes(BytesBacking::Borrowed(bytes)) => bytes@.path(),
            _ => Ok(None),
        };
        match direct {
            Err(e) => Err(fault_of(e)),
            Ok(Some(path)) => Ok(path),
            Ok(None) => match self.node() {
                Ok(node) => Ok(node.path()),
                Err(fault) => Err(fault),
            },
        }
    }

    /// The child along an edge, which mapped branches give without being decoded.
    pub open spec fn child(&self, chr: u8) -> Result<Option<TriePtr>, Fault> {
        let direct: Result<Option<Option<TriePtr>>, Error> = match self {
            ReadNodeBacking::PersistedBytes(BytesBacking::Borrowed(bytes)) => bytes@.child(chr),
            _ => Ok(None),
        };
        match direct {
            Err(e) => Err(fault_of(e)),
            Ok(Some(child)) => Ok(child),
            Ok(None) => match self.node() {
                Ok(node) => Ok(node.walk(chr)),
                Err(fault) => Err(fault),
            },
        }
    }

    /// The leaf, if the node is one; locator leaves are given without being decoded.
    pub open spec fn leaf(&self) -> Result<Option<Leaf>, Fault> {
        if self is PersistedBytes && self.kind() !is Leaf {
            Ok(None)
        } else {
            let direct: Result<Option<Leaf>, Error> = match self {
                ReadNodeBacking::PersistedBytes(BytesBacking::Borrowed(bytes)) => bytes@.leaf(),
                _ => Ok(None),
            };
            match direct {
                Err(e) => Err(fault_of(e)),
                Ok(Some(leaf)) => Ok(Some(leaf)),
                Ok(None) => match self.node() {
                    Ok(Node::Leaf(leaf)) => Ok(Some(leaf)),
                    Ok(Node::Branch(_)) => Ok(None),
                    Err(fault) => Err(fault),
                },
            }
        }
    }
}

/// A trie node read from storage, with lazy decoding.
#[derive(Debug)]
pub struct ReadTrieNode<'a> {
    /// The node's Merkle hash, if read.
    pub hash: Option<TrieHash>,
    /// Number of patch layers resolved to produce this node.
    pub patch_depth: usize,
    /// The node data: may be decoded, raw bytes, or owned.
    pub backing: ReadNodeBacking<'a>,
    /// The node of raw bytes, once some operation needed it.
    pub decoded: Option<TrieNodeType>,
    /// State that the source node carried and a borrowed node cannot.
    pub transient_meta: Option<TrieNodeTransientMeta>,
}

/// A node with the transient state of its source put back.
pub open spec fn with_meta(
    own: Option<TrieNodeTransientMeta>,
    kept: Option<TrieNodeTransientMeta>,
) -> Option<TrieNodeTransientMeta> {
    match (own, kept) {
        (Some(_), Some(meta)) => Some(meta),
        (own, _) => own,
    }
}

impl<'a> ReadTrieNode<'a> {
    /// Whether the backing can be read and what was decoded is what the bytes hold.
    pub open spec fn wf(&self) -> bool {
        &&& self.backing.readable()
        &&& self.decoded is Some ==> self.backing is PersistedBytes && self.backing.node() == Ok::<
            Node,
            Fault,
        >((self.decoded->0)@) && (self.decoded->0)@.wf()
    }

    /// The transient state that was attached.
    pub open spec fn kept_meta(&self) -> Option<TrieNodeTransientMeta> {
        self.transient_meta
    }

    /// The state that the node has once it is owned: what was attached, or else what an owned node
    /// carries itself. Borrowed nodes and bytes carry none.
    pub open spec fn owned_meta(&self) -> TrieNodeTransientMeta {
        match (self.transient_meta, self.backing) {
            (Some(meta), _) => meta,
            (None, ReadNodeBacking::Owned(TrieNodeType::Branch(branch))) => branch.meta,
            _ => TrieNodeTransientMeta::none(),
        }
    }

    /// Whether raw bytes were decoded as a whole.
    pub open spec fn was_decoded(&self) -> bool {
        self.decoded is Some
    }

    fn new(hash: Option<TrieHash>, patch_depth: usize, backing: ReadNodeBacking<'a>) -> (node: Self)
        requires
            backing.readable(),
        ensures
            node.wf(),
            node.hash == hash,
            node.patch_depth == patch_depth,
            node.backing == backing,
            node.kept_meta() is None,
            !node.was_decoded(),
    {
        ReadTrieNode { hash, patch_depth, backing, decoded: None, transient_meta: None }
    }

    /// Attach transient metadata captured from the source node.
    pub fn with_transient_meta(self, meta: TrieNodeTransientMeta) -> (node: Self)
        requires
            self.wf(),
        ensures
            node.wf(),
            node.hash == self.hash,
            node.patch_depth == self.patch_depth,
            node.backing == self.backing,
            node.was_decoded() == self.was_decoded(),
            node.kept_meta() == Some(meta),
    {
        let mut node = self;
        node.transient_meta = Some(meta);
        node
    }

    /// Set the number of resolved patch layers.
    pub fn with_patch_depth(self, patch_depth: usize) -> (node: Self)
        requires
            self.wf(),
        ensures
            node.wf(),
            node.hash == self.hash,
            node.patch_depth == patch_depth,
            node.backing == self.backing,
            node.was_decoded() == self.was_decoded(),
            node.kept_meta() == self.kept_meta(),
    {
        let mut node = self;
        node.patch_depth = patch_depth;
        node
    }

    /// Construct from a decoded persisted node.
    pub fn from_borrowed(node: &'a TrieNodeType, hash: Option<TrieHash>) -> (read: Self)
        requires
            node@.wf(),
        ensures
            read.wf(),
            read.hash == hash,
            read.patch_depth == 0,
            read.backing == ReadNodeBacking::PersistedDecoded(node),
            read.kept_meta() is None,
    {
        Self::new(hash, 0, ReadNodeBacking::PersistedDecoded(node))
    }

    /// Construct from a decoded node in scratch or parking state.
    pub fn from_state_borrowed(node: &'a TrieNodeType, hash: Option<TrieHash>) -> (read: Self)
        requires
            node@.wf(),
        ensures
            read.wf(),
            read.hash == hash,
            read.patch_depth == 0,
            read.backing == ReadNodeBacking::VolatileDecoded(node),
            read.kept_meta() is None,
    {
        Self::new(hash, 0, ReadNodeBacking::VolatileDecoded(node))
    }

    /// Construct from borrowed raw bytes.
    pub fn from_stable_bytes(node: BorrowedNodeBytes<'a>, hash: Option<TrieHash>) -> (read: Self)
        ensures
            read.wf(),
            read.hash == hash,
            read.patch_depth == 0,
            read.backing == ReadNodeBacking::PersistedBytes(BytesBacking::Borrowed(node)),
            read.kept_meta() is None,
            !read.was_decoded(),
    {
        Self::new(hash, 0, ReadNodeBacking::PersistedBytes(BytesBacking::Borrowed(node)))
    }

    /// Construct from owned raw bytes.
    pub fn from_owned_bytes(node: OwnedNodeBytes, hash: Option<TrieHash>) -> (read: Self)
        requires
            node.readable(),
        ensures
            read.wf(),
            read.hash == hash,
            read.patch_depth == 0,
            read.backing == ReadNodeBacking::PersistedBytes(BytesBacking::Owned(node)),
            read.kept_meta() is None,
            !read.was_decoded(),
    {
        Self::new(hash, 0, ReadNodeBacking::PersistedBytes(BytesBacking::Owned(node)))
    }

    /// Construct from a fully owned decoded node.
    pub fn from_owned(node: TrieNodeType, hash: Option<TrieHash>) -> (read: Self)
        requires
            node@.wf(),
        ensures
            read.wf(),
            read.hash == hash,
            read.patch_depth == match node.meta() {
                Some(meta) => meta.patch_depth,
                None => 0,
            },
            read.backing == ReadNodeBacking::Owned(node),
            read.kept_meta() is None,
    {
        let patch_depth: usize = match node.transient_meta() {
            Some(meta) => meta.patch_depth,
            None => 0,
        };
        Self::new(hash, patch_depth, ReadNodeBacking::Owned(node))
    }

    /// Return the node type.
    pub fn node_type(&self) -> (id: Option<TrieNodeID>)
        ensures
            id == Some(self.backing.kind()),
    {
        match &self.backing {
            ReadNodeBacking::VolatileDecoded(node) => TrieNodeID::from_u8(node.id()),
            ReadNodeBacking::PersistedDecoded(node) => TrieNodeID::from_u8(node.id()),
            ReadNodeBacking::PersistedBytes(node) => Some(node.node_type()),
            ReadNodeBacking::Owned(node) => TrieNodeID::from_u8(node.id()),
        }
    }

    /// Return the node type byte.
    pub fn node_type_u8(&self) -> (id: u8)
        ensures
            id == self.backing.kind().code(),
    {
        match &self.backing {
            ReadNodeBacking::VolatileDecoded(node) => node.id(),
            ReadNodeBacking::PersistedDecoded(node) => node.id(),
            ReadNodeBacking::PersistedBytes(node) => node.node_type().as_u8(),
            ReadNodeBacking::Owned(node) => node.id(),
        }
    }

    /// Returns `true` if this is a 256-slot branch.
    pub fn is_node256(&self) -> (found: bool)
        ensures
            found == (self.backing.kind() is Node256),
    {
        match self.node_type() {
            Some(TrieNodeID::Node256) => true,
            _ => false,
        }
    }

    /// Whether raw bytes were decoded as a whole.
    pub fn is_decoded(&self) -> (done: bool)
        ensures
            done == self.was_decoded(),
    {
        self.decoded.is_some()
    }

    /// Returns `true` if this node is a leaf.
    pub fn is_leaf(&self) -> (leaf: Result<bool, Error>)
        requires
            self.wf(),
        ensures
            leaf == Ok::<bool, Error>(self.backing.kind() is Leaf),
    {
        match &self.backing {
            ReadNodeBacking::VolatileDecoded(node) => Ok(node.is_leaf()),
            ReadNodeBacking::PersistedDecoded(node) => Ok(node.is_leaf()),
            ReadNodeBacking::PersistedBytes(node) => Ok(node.node_type() == TrieNodeID::Leaf),
            ReadNodeBacking::Owned(node) => Ok(node.is_leaf()),
        }
    }

    /// Return the decoded node, decoding raw bytes on first use and keeping the result.
    fn decoded_node(&mut self) -> (node: Result<&TrieNodeType, Error>)
        requires
            old(self).wf(),
        ensures
            final(self).wf(),
            final(self).hash == old(self).hash,
            final(self).patch_depth == old(self).patch_depth,
            final(self).backing == old(self).backing,
            final(self).kept_meta() == old(self).kept_meta(),
            match old(self).backing.node() {
                Ok(n) => node matches Ok(t) && t@ == n && t@.wf(),
                Err(fault) => node matches Err(e) && fault_of(e) == fault,
            },
    {
        if self.decoded.is_none() {
            match &self.backing {
                ReadNodeBacking::PersistedBytes(bytes) => match bytes.decode_node() {
                    Ok(node) => self.decoded = Some(node),
                    Err(e) => return Err(e),
                },
                _ => {},
            }
        }
        match &self.decoded {
            Some(node) => return Ok(node),
            None => {},
        }
        match &self.backing {
            ReadNodeBacking::VolatileDecoded(node) => Ok(*node),
            ReadNodeBacking::PersistedDecoded(node) => Ok(*node),
            ReadNodeBacking::PersistedBytes(_) => Err(corrupt(Corruption::MissingMarker)),
            ReadNodeBacking::Owned(node) => Ok(node),
        }
    }

    /// Return the node's compressed path segment bytes.
    pub fn path_bytes(&mut self) -> (path: Result<&[u8], Error>)
        requires
            old(self).wf(),
        ensures
            final(self).wf(),
            final(self).hash == old(self).hash,
            final(self).patch_depth == old(self).patch_depth,
            final(self).backing == old(self).backing,
            final(self).kept_meta() == old(self).kept_meta(),
            match old(self).backing.path() {
                Ok(p) => path matches Ok(found) && found@ == p,
                Err(fault) => path matches Err(e) && fault_of(e) == fault,
            },
    {
        match &self.backing {
            ReadNodeBacking::PersistedBytes(BytesBacking::Borrowed(bytes)) => {
                match bytes.mapped_path() {
                    Ok(Some(path)) => return Ok(path),
                    Ok(None) => {},
                    Err(e) => return Err(e),
                }
            },
            _ => {},
        }
        match self.decoded_node() {
            Ok(node) => Ok(node.path_bytes()),
            Err(e) => Err(e),
        }
    }

    /// Return the node's child pointer array.
    pub fn ptrs(&mut self) -> (ptrs: Result<&[TriePtr], Error>)
        requires
            old(self).wf(),
        ensures
            final(self).wf(),
            final(self).hash == old(self).hash,
            final(self).patch_depth == old(self).patch_depth,
            final(self).backing == old(self).backing,
            final(self).kept_meta() == old(self).kept_meta(),
            match old(self).backing.node() {
                Ok(node) => ptrs matches Ok(found) && found@ == node.ptrs(),
                Err(fault) => ptrs matches Err(e) && fault_of(e) == fault,
            },
    {
        match self.decoded_node() {
            Ok(node) => Ok(node.ptrs()),
            Err(e) => Err(e),
        }
    }

    /// Follow a path byte to the corresponding child pointer, if present.
    pub fn walk(&mut self, chr: u8) -> (child: Result<Option<TriePtr>, Error>)
        requires
            old(self).wf(),
        ensures
            final(self).wf(),
            final(self).hash == old(self).hash,
            final(self).patch_depth == old(self).patch_depth,
            final(self).backing == old(self).backing,
            final(self).kept_meta() == old(self).kept_meta(),
            match old(self).backing.child(chr) {
                Ok(ptr) => child == Ok::<Option<TriePtr>, Error>(ptr),
                Err(fault) => child matches Err(e) && fault_of(e) == fault,
            },
    {
        match &self.backing {
            ReadNodeBacking::PersistedBytes(BytesBacking::Borrowed(bytes)) => {
                match bytes.mapped_child(chr) {
                    Ok(Some(child)) => return Ok(child),
                    Ok(None) => {},
                    Err(e) => return Err(e),
                }
            },
            _ => {},
        }
        match self.decoded_node() {
            Ok(node) => Ok(node.walk(chr)),
            Err(e) => Err(e),
        }
    }

    /// Borrow leaf data if this node is a leaf, without taking ownership.
    pub fn as_leaf(&mut self) -> (leaf: Result<Option<TrieLeafRef<'_>>, Error>)
        requires
            old(self).wf(),
        ensures
            final(self).wf(),
            final(self).hash == old(self).hash,
            final(self).patch_depth == old(self).patch_depth,
            final(self).backing == old(self).backing,
            final(self).kept_meta() == old(self).kept_meta(),
            match old(self).backing.leaf() {
                Ok(Some(l)) => leaf matches Ok(Some(found)) && found@ == l && found.path@.len()
                    <= 32,
                Ok(None) => leaf matches Ok(found) && found is None,
                Err(fault) => leaf matches Err(e) && fault_of(e) == fault,
            },
    {
        match &self.backing {
            ReadNodeBacking::PersistedBytes(bytes) => {
                if bytes.node_type() != TrieNodeID::Leaf {
                    return Ok(None);
                }
                match bytes {
                    BytesBacking::Borrowed(bytes) => match bytes.mapped_leaf() {
                        Ok(Some(leaf)) => return Ok(Some(leaf)),
                        Ok(None) => {},
                        Err(e) => return Err(e),
                    },
                    BytesBacking::Owned(_) => {},
                }
            },
            _ => {},
        }
        match self.decoded_node() {
            Ok(TrieNodeType::Leaf(leaf)) => Ok(Some(TrieLeafRef::from_leaf(leaf))),
            Ok(TrieNodeType::Branch(_)) => Ok(None),
            Err(e) => Err(e),
        }
    }

    /// Borrow the decoded node with its hash.
    pub fn as_node_ref(&mut self) -> (out: Result<(&TrieNodeType, Option<TrieHash>), Error>)
        requires
            old(self).wf(),
        ensures
            final(self).wf(),
            final(self).hash == old(self).hash,
            final(self).patch_depth == old(self).patch_depth,
            final(self).backing == old(self).backing,
            final(self).kept_meta() == old(self).kept_meta(),
            match old(self).backing.node() {
                Ok(node) => out matches Ok((found, hash)) && found@ == node && hash
                    == old(self).hash,
                Err(fault) => out matches Err(e) && fault_of(e) == fault,
            },
    {
        let hash = self.hash;
        match self.decoded_node() {
            Ok(node) => Ok((node, hash)),
            Err(e) => Err(e),
        }
    }

    /// Consume this read node and return an owned node with its hash; captured transient metadata
    /// is put back, and a borrowed node's own is not taken over.
    pub fn into_owned_node(self) -> (out: Result<(TrieNodeType, Option<TrieHash>), Error>)
        requires
            self.wf(),
        ensures
            match self.backing.node() {
                Ok(node) => out matches Ok((found, hash)) && found@ == node && found@.wf() && hash
                    == self.hash && (found.meta() matches Some(meta) ==> meta == self.owned_meta()),
                Err(fault) => out matches Err(e) && fault_of(e) == fault,
            },
    {
        let hash = self.hash;
        let meta = self.transient_meta;
        let mut node: TrieNodeType = match self.backing {
            ReadNodeBacking::VolatileDecoded(node) => without_meta(node),
            ReadNodeBacking::PersistedDecoded(node) => without_meta(node),
            ReadNodeBacking::PersistedBytes(bytes) => match bytes.decode_node() {
                Ok(node) => node,
                Err(e) => return Err(e),
            },
            ReadNodeBacking::Owned(node) => node,
        };
        let ghost plain = node@;
        match meta {
            Some(meta) => apply_meta(&mut node, meta),
            None => {},
        }
        Ok((node, hash))
    }

    /// Consume this read node and return only the hash.
    pub fn into_hash(self) -> (hash: Result<Option<TrieHash>, Error>)
        ensures
            hash == Ok::<Option<TrieHash>, Error>(self.hash),
    {
        Ok(self.hash)
    }
}

/// A copy of a node without transient state.
fn without_meta(node: &TrieNodeType) -> (copy: TrieNodeType)
    ensures
        copy@ == node@,
        copy.is_fresh(),
{
    let mut copy: TrieNodeType = node.clone();
    apply_meta(&mut copy, TrieNodeTransientMeta::default());
    copy
}

/// Put transient state into a branch; leaves have none.
pub fn apply_meta(node: &mut TrieNodeType, meta: TrieNodeTransientMeta)
    ensures
        final(node)@ == old(node)@,
        final(node).meta() == with_meta(old(node).meta(), Some(meta)),
{
    match node {
        TrieNodeType::Branch(branch) => {
            branch.meta = meta;
        },
        TrieNodeType::Leaf(_) => {},
    }
}

/// The kind of item returned when reading from persisted trie storage.
#[derive(Debug)]
pub enum ReadTrieItemKind<'a> {
    /// A resolved trie node (possibly decoded lazily from bytes).
    Node(ReadTrieNode<'a>),
    /// A patch node referencing a base node in an ancestor block.
    Patch(&'a TrieNodePatch),
}

/// A single item read from trie storage, with its hash.
#[derive(Debug)]
pub struct ReadTrieItem<'a> {
    pub hash: Option<TrieHash>,
    pub kind: ReadTrieItemKind<'a>,
}

impl<'a> ReadTrieItem<'a> {
    /// Wrap a resolved node as a read item.
    pub fn from_node(node: ReadTrieNode<'a>) -> (item: Self)
        ensures
            item.hash == node.hash,
            item.kind == ReadTrieItemKind::Node(node),
    {
        ReadTrieItem { hash: node.hash, kind: ReadTrieItemKind::Node(node) }
    }

    /// Wrap an unresolved patch as a read item.
    pub fn from_patch(patch: &'a TrieNodePatch, hash: Option<TrieHash>) -> (item: Self)
        ensures
            item.hash == hash,
            item.kind == ReadTrieItemKind::Patch(patch),
    {
        ReadTrieItem { hash, kind: ReadTrieItemKind::Patch(patch) }
    }

    /// Unwrap into a resolved node, or return the unresolved patch as an error.
    pub fn into_node(self) -> (node: Result<ReadTrieNode<'a>, Error>)
        ensures
            match self.kind {
                ReadTrieItemKind::Node(n) => node == Ok::<ReadTrieNode<'a>, Error>(n),
                ReadTrieItemKind::Patch(patch) => node matches Err(e) && fault_of(e)
                    == Fault::Patch(patch@),
            },
    {
        match self.kind {
            ReadTrieItemKind::Node(node) => Ok(node),
            ReadTrieItemKind::Patch(patch) => Err(Error::Patch(patch.clone())),
        }
    }
}

/// One patch encountered while chasing a compressed patch chain.
#[derive(Debug)]
pub struct PatchChainEntry {
    pub block_id: u32,
    pub ptr: TriePtr,
    pub patch: TrieNodePatch,
}

/// One confirmed row of the block table.
#[derive(Debug)]
pub struct MarfDataEntry<T> {
    /// Local ID of the block.
    pub block_id: u32,
    pub block_hash: T,
    /// Byte offset of the block's trie blob in external storage.
    pub external_offset: u64,
}

} // verus!
