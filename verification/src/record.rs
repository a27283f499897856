//! Physical node envelopes, independent of logical commitments.
use vstd::prelude::*;

use crate::bits::{body_bound, get_read_node_max_byte_len};
use crate::branch_view::{BranchParts, BranchView};
use crate::error::{corrupt, Corruption, Error};
use crate::hash::TrieHash;
use crate::inline_value::Inline;
use crate::leaf::{Leaf, Node, TrieLeaf, TrieNodeType};
use crate::mapped_node::{self, mapped_node_len, mapped_payload, selector_width};
use crate::node::{
    clear_ctrl_bits, logical_node_id, node_id_of, Branch, TrieBranch, TrieNodeID, TrieNodePatch,
};
use crate::packed_branch::{
    self, packed_node_len, packed_payload, packing_fault, selector_len_spec,
};
use crate::patch::{bad, fault_of, Fault, Patch};
use crate::path::framed;
use crate::raw_leaf::{self, mode_width, raw_payload, value_mode_spec};
use crate::value::ValueExtent;
use crate::words::{push_bytes, to_array};

verus! {

/// Schema version that marker-first record formats require.
pub const SQL_MARF_TYPE_FIRST_SCHEMA_VERSION: u64 = 4;

/// Disk layout selected explicitly by the database format metadata.
#[derive(Clone, Copy, Debug, PartialEq, Eq, Structural)]
pub enum NodeRecordFormat {
    /// Historical hash followed by the node marker and payload.
    Legacy,
    /// Marker first; locator leaves omit both logical value and leaf hash.
    TypeFirstV1,
    /// Type-first branches and extents with compact, hashless raw leaves.
    TypeFirstV2,
    /// Compact raw leaves plus owner-backed inline value records.
    TypeFirstV3,
    /// Inline leaves with directly addressed packed branch-pointer columns.
    TypeFirstV4,
}

impl Default for NodeRecordFormat {
    fn default() -> (format: Self)
        ensures
            format is Legacy,
    {
        NodeRecordFormat::Legacy
    }
}

/// The fields of one physical record.
#[verifier::ext_equal]
pub struct Record {
    pub format: NodeRecordFormat,
    pub marker: u8,
    pub hash: Option<Seq<u8>>,
    pub payload: Seq<u8>,
    pub prefix_len: nat,
}

impl NodeRecordFormat {
    /// The version number; zero denotes historical records.
    pub open spec fn number(self) -> u8 {
        match self {
            NodeRecordFormat::Legacy => 0,
            NodeRecordFormat::TypeFirstV1 => 1,
            NodeRecordFormat::TypeFirstV2 => 2,
            NodeRecordFormat::TypeFirstV3 => 3,
            NodeRecordFormat::TypeFirstV4 => 4,
        }
    }

    /// What a physical marker names in this layout.
    pub open spec fn physical(self, marker: u8) -> Result<TrieNodeID, Error> {
        match node_id_of(clear_ctrl_bits(marker)) {
            None => Err(Error::CorruptionError(Corruption::BadNodeId)),
            Some(id) => if id is Empty || (self.number() > 0 && marker != id.code()) {
                Err(Error::CorruptionError(Corruption::InvalidMarker))
            } else if id is ValueLeaf && self.number() < 1 {
                Err(Error::CorruptionError(Corruption::UnsupportedLocatorLeaf))
            } else if id is RawLeaf && self.number() < 2 {
                Err(Error::CorruptionError(Corruption::UnsupportedRawLeaf))
            } else if id is InlineLeaf && self.number() < 3 {
                Err(Error::CorruptionError(Corruption::UnsupportedInlineLeaf))
            } else {
                Ok(id)
            },
        }
    }

    /// Whether records of a physical type store no hash.
    pub open spec fn hashless(id: TrieNodeID) -> bool {
        id is ValueLeaf || id is RawLeaf || id is InlineLeaf
    }

    /// The record that bytes hold.
    pub open spec fn parsed(self, bytes: Seq<u8>) -> Result<Record, Error> {
        let at: int = if self is Legacy {
            32
        } else {
            0
        };
        if bytes.len() <= at {
            Err(Error::CorruptionError(Corruption::MissingMarker))
        } else {
            let marker = bytes[at];
            match self.physical(marker) {
                Err(e) => Err(e),
                Ok(id) => if Self::hashless(id) {
                    Ok(
                        Record {
                            format: self,
                            marker,
                            hash: None,
                            payload: bytes.subrange(1, bytes.len() as int),
                            prefix_len: 1,
                        },
                    )
                } else if bytes.len() < 33 {
                    Err(Error::CorruptionError(Corruption::TruncatedHash))
                } else {
                    let start = 1 - at / 32;
                    Ok(
                        Record {
                            format: self,
                            marker,
                            hash: Some(bytes.subrange(start, start + 32)),
                            payload: bytes.subrange(33, bytes.len() as int),
                            prefix_len: 33,
                        },
                    )
                },
            }
        }
    }

    /// The most bytes that a record of the expected type takes.
    pub open spec fn record_bound(self, expected_id: u8) -> Result<nat, Error> {
        match node_id_of(clear_ctrl_bits(expected_id)) {
            None => Err(Error::CorruptionError(Corruption::BadNodeId)),
            Some(id) => if self.number() > 0 && id.is_branch() {
                let slots = id.slots();
                Ok(
                    if self is TypeFirstV4 {
                        33 + 34 + (slots + 7) / 8 + selector_len_spec(slots, slots) + (slots + 1)
                            / 2 + (slots + 7) / 8 + slots * 12
                    } else {
                        33 + 33 + (slots + 7) / 8 + selector_width(slots, slots) + (slots + 1) * 2
                            + slots * 14
                    },
                )
            } else if self.number() >= 3 && clear_ctrl_bits(logical_node_id(expected_id)) == 1 {
                Ok(546)
            } else {
                match body_bound(expected_id) {
                    Ok(n) => Ok(32 + n),
                    Err(e) => Err(e),
                }
            },
        }
    }

    /// The record that a node is written as, or why it cannot be.
    pub open spec fn node_record(self, node: Node, hash: Seq<u8>, compressed: bool) -> Result<
        Seq<u8>,
        Error,
    > {
        match node {
            Node::Branch(branch) => if self is Legacy {
                Ok(hash + node.encoded(compressed))
            } else if self is TypeFirstV4 {
                match packing_fault(branch) {
                    Some(fault) => Err(Error::CorruptionError(fault)),
                    None => Ok(seq![branch.id.code()] + hash + packed_payload(branch)),
                }
            } else {
                Ok(seq![branch.id.code()] + hash + mapped_payload(branch))
            },
            Node::Leaf(leaf) => match leaf.inline {
                Some(value) => if self.number() < 3 || leaf.extent is Some {
                    Err(Error::CorruptionError(Corruption::InvalidInlineLeaf))
                } else {
                    Ok(seq![9u8] + framed(leaf.path) + value.encoded())
                },
                None => if self.number() >= 1 && leaf.extent is Some {
                    Ok(seq![7u8] + framed(leaf.path) + leaf.extent->0.encoded())
                } else if leaf.data is None {
                    Err(Error::CorruptionError(Corruption::MissingLeafValue))
                } else if self.number() >= 2 {
                    Ok(seq![8u8] + raw_payload(leaf.path, leaf.data->0))
                } else if self is TypeFirstV1 {
                    Ok(seq![leaf.plain_marker()] + hash + leaf.plain_body())
                } else {
                    Ok(hash + node.encoded(compressed))
                },
            },
        }
    }

    /// Length of a node's record.
    pub open spec fn record_len(self, node: Node, compressed: bool) -> nat {
        match node {
            Node::Branch(_) => if self is Legacy {
                32 + node.encoded_len(compressed)
            } else if self is TypeFirstV4 {
                33 + packed_node_len(node)
            } else {
                33 + mapped_node_len(node)
            },
            Node::Leaf(leaf) => if self.number() >= 1 && leaf.inline is Some {
                2 + leaf.path.len() + leaf.inline->0.encoded().len()
            } else if self.number() >= 1 && leaf.extent is Some {
                2 + leaf.path.len() + 32
            } else if self.number() >= 2 {
                2 + leaf.path.len() + match leaf.data {
                    Some(value) => mode_width(value_mode_spec(value)),
                    None => 40,
                }
            } else {
                32 + node.encoded_len(compressed)
            },
        }
    }

    /// The record that a patch is written as.
    pub open spec fn patch_record(self, patch: Patch, hash: Seq<u8>) -> Seq<u8> {
        if self is Legacy {
            hash + patch.encoded()
        } else {
            seq![6u8] + hash + patch.body()
        }
    }

    /// What a node becomes when its record is read back: hashless leaves keep only what they store.
    pub open spec fn kept(self, node: Node) -> Node {
        match node {
            Node::Branch(_) => node,
            Node::Leaf(leaf) => if leaf.inline is Some {
                Node::Leaf(Leaf { data: None, extent: None, ..leaf })
            } else if self.number() >= 1 && leaf.extent is Some {
                Node::Leaf(Leaf { data: None, ..leaf })
            } else {
                node
            },
        }
    }

    /// Whether this codec uses a marker-first envelope and mapped branch directories.
    pub fn is_type_first(self) -> (first: bool)
        ensures
            first == (self.number() > 0),
    {
        match self {
            NodeRecordFormat::Legacy => false,
            _ => true,
        }
    }

    /// Explicit physical format version; zero denotes historical records.
    #[verifier::when_used_as_spec(number)]
    pub fn version(self) -> (version: u8)
        ensures
            version == self.number(),
            version <= 4,
    {
        match self {
            NodeRecordFormat::Legacy => 0,
            NodeRecordFormat::TypeFirstV1 => 1,
            NodeRecordFormat::TypeFirstV2 => 2,
            NodeRecordFormat::TypeFirstV3 => 3,
            NodeRecordFormat::TypeFirstV4 => 4,
        }
    }

    /// Interpret layout metadata: whether its table is present, the version it holds and the
    /// schema version beside it.  Databases without it retain the legacy format.
    pub fn from_metadata(present: bool, version: i64, schema: u64) -> (format: Result<Self, Error>)
        ensures
            if !present {
                format == Ok::<Self, Error>(NodeRecordFormat::Legacy)
            } else if schema != SQL_MARF_TYPE_FIRST_SCHEMA_VERSION {
                format == Err::<Self, Error>(Error::CorruptionError(Corruption::SchemaMismatch))
            } else if 1 <= version <= 4 {
                format matches Ok(f) && f.number() == version
            } else {
                format == Err::<Self, Error>(
                    Error::CorruptionError(Corruption::UnsupportedRecordFormat),
                )
            },
    {
        if !present {
            return Ok(NodeRecordFormat::Legacy);
        }
        if schema != SQL_MARF_TYPE_FIRST_SCHEMA_VERSION {
            return Err(corrupt(Corruption::SchemaMismatch));
        }
        match version {
            1 => Ok(NodeRecordFormat::TypeFirstV1),
            2 => Ok(NodeRecordFormat::TypeFirstV2),
            3 => Ok(NodeRecordFormat::TypeFirstV3),
            4 => Ok(NodeRecordFormat::TypeFirstV4),
            _ => Err(corrupt(Corruption::UnsupportedRecordFormat)),
        }
    }

    /// Whether the layout may be published over what a database holds: never the legacy layout,
    /// and never a lower version.
    pub fn check_publish(self, previous: Option<i64>) -> (done: Result<(), Error>)
        ensures
            if self is Legacy || (previous is Some && previous->0 > self.number()) {
                done == Err::<(), Error>(Error::CorruptionError(Corruption::RecordFormatDowngrade))
            } else {
                done is Ok
            },
    {
        if !self.is_type_first() {
            return Err(corrupt(Corruption::RecordFormatDowngrade));
        }
        match previous {
            Some(version) => if version > self.version() as i64 {
                return Err(corrupt(Corruption::RecordFormatDowngrade));
            },
            None => {},
        }
        Ok(())
    }

    /// Validate a physical marker before interpreting its envelope.
    pub fn physical_id(self, marker: u8) -> (id: Result<TrieNodeID, Error>)
        ensures
            id == self.physical(marker),
    {
        let id: TrieNodeID = match TrieNodeID::from_u8(clear_ctrl_bits(marker)) {
            Some(id) => id,
            None => return Err(corrupt(Corruption::BadNodeId)),
        };
        let version: u8 = self.version();
        if id == TrieNodeID::Empty || (version > 0 && marker != id.as_u8()) {
            return Err(corrupt(Corruption::InvalidMarker));
        }
        if id == TrieNodeID::ValueLeaf && version < 1 {
            return Err(corrupt(Corruption::UnsupportedLocatorLeaf));
        }
        if id == TrieNodeID::RawLeaf && version < 2 {
            return Err(corrupt(Corruption::UnsupportedRawLeaf));
        }
        if id == TrieNodeID::InlineLeaf && version < 3 {
            return Err(corrupt(Corruption::UnsupportedInlineLeaf));
        }
        Ok(id)
    }

    /// Split a physical envelope without allocating or decoding its payload.
    pub fn parse(self, bytes: &[u8]) -> (record: Result<NodeRecord<'_>, Error>)
        ensures
            match self.parsed(bytes@) {
                Ok(r) => record matches Ok(n) && n@ == r && n.prefix_len + n.payload.len()
                    == bytes.len() && self.physical(n.marker) is Ok,
                Err(e) => record == Err::<NodeRecord<'_>, Error>(e),
            },
    {
        let at: usize = if self.is_type_first() { 0 } else { 32 };
        if bytes.len() <= at {
            return Err(corrupt(Corruption::MissingMarker));
        }
        let marker: u8 = bytes[at];
        let id: TrieNodeID = match self.physical_id(marker) {
            Ok(id) => id,
            Err(e) => return Err(e),
        };
        if id == TrieNodeID::ValueLeaf || id == TrieNodeID::RawLeaf || id == TrieNodeID::InlineLeaf {
            return Ok(
                NodeRecord {
                    format: self,
                    marker,
                    hash: None,
                    payload: &bytes[1..bytes.len()],
                    prefix_len: 1,
                },
            );
        }
        if bytes.len() < 33 {
            return Err(corrupt(Corruption::TruncatedHash));
        }
        let start: usize = if self.is_type_first() { 1 } else { 0 };
        let hash = TrieHash(to_array::<32>(&bytes[start..start + 32]));
        Ok(
            NodeRecord {
                format: self,
                marker,
                hash: Some(hash),
                payload: &bytes[33..bytes.len()],
                prefix_len: 33,
            },
        )
    }

    /// Bound a node read before its physical marker and occupancy are known.
    pub fn max_record_len(self, expected_id: u8) -> (len: Result<usize, Error>)
        ensures
            match self.record_bound(expected_id) {
                Ok(n) => len matches Ok(m) && m == n,
                Err(e) => len == Err::<usize, Error>(e),
            },
    {
        let id: TrieNodeID = match TrieNodeID::from_u8(clear_ctrl_bits(expected_id)) {
            Some(id) => id,
            None => return Err(corrupt(Corruption::BadNodeId)),
        };
        if self.is_type_first() && id.capacity() != 0 {
            let payload = if self == NodeRecordFormat::TypeFirstV4 {
                packed_branch::max_payload_len(id)
            } else {
                mapped_node::max_payload_len(id)
            };
            return match payload {
                Ok(len) => Ok(33 + len),
                Err(e) => Err(e),
            };
        }
        if self.version() >= 3 && clear_ctrl_bits(logical_node_id(expected_id)) == 1 {
            return Ok(1 + 33 + 2 + 510);
        }
        get_read_node_max_byte_len(expected_id)
    }

    /// Encoded length including the physical envelope.
    pub fn node_len(self, node: &TrieNodeType, compressed: bool) -> (len: usize)
        requires
            node@.wf(),
        ensures
            len == self.record_len(node@, compressed),
    {
        let version: u8 = self.version();
        match node {
            TrieNodeType::Leaf(leaf) => {
                if version >= 1 {
                    match &leaf.inline {
                        Some(value) => return 2 + leaf.path.len() + value.encoded_len(),
                        None => {},
                    }
                    if leaf.extent.is_some() {
                        return 2 + leaf.path.len() + ValueExtent::ENCODED_SIZE;
                    }
                    if version >= 2 {
                        let width: usize = match &leaf.data {
                            Some(value) => raw_leaf::value_width(value),
                            None => 40,
                        };
                        return 2 + leaf.path.len() + width;
                    }
                }
            },
            TrieNodeType::Branch(_) => {
                if version == 4 {
                    return 33 + packed_branch::payload_len(node);
                }
                if version >= 1 {
                    return 33 + mapped_node::payload_len(node);
                }
            },
        }
        if compressed {
            32 + node.byte_len_compressed()
        } else {
            32 + node.byte_len()
        }
    }

    /// Append a node's record, retaining its logical hash only where the layout stores it.
    /// A node that cannot be written leaves the output alone.
    pub fn write_node(
        self,
        out: &mut Vec<u8>,
        node: &TrieNodeType,
        hash: TrieHash,
        compressed: bool,
    ) -> (done: Result<(), Error>)
        requires
            node@.wf(),
        ensures
            match self.node_record(node@, hash@, compressed) {
                Ok(bytes) => done is Ok && final(out)@ == old(out)@ + bytes,
                Err(e) => done == Err::<(), Error>(e) && final(out)@ == old(out)@,
            },
    {
        match node {
            TrieNodeType::Branch(branch) => self.write_branch_record(
                out,
                node,
                branch,
                hash,
                compressed,
            ),
            TrieNodeType::Leaf(leaf) => self.write_leaf_record(out, node, leaf, hash, compressed),
        }
    }

    fn write_branch_record(
        self,
        out: &mut Vec<u8>,
        node: &TrieNodeType,
        branch: &TrieBranch,
        hash: TrieHash,
        compressed: bool,
    ) -> (done: Result<(), Error>)
        requires
            node@.wf(),
            node@ == Node::Branch(branch@),
        ensures
            match self.node_record(node@, hash@, compressed) {
                Ok(bytes) => done is Ok && final(out)@ == old(out)@ + bytes,
                Err(e) => done == Err::<(), Error>(e) && final(out)@ == old(out)@,
            },
    {
        let mut body: Vec<u8> = Vec::new();
        let done = if !self.is_type_first() {
            if compressed {
                node.write_bytes_compressed(&mut body)
            } else {
                node.write_bytes(&mut body)
            }
        } else if self == NodeRecordFormat::TypeFirstV4 {
            packed_branch::write_payload(&mut body, node)
        } else {
            mapped_node::write_payload(&mut body, node)
        };
        match done {
            Ok(()) => {},
            Err(e) => return Err(e),
        }
        if self.is_type_first() {
            out.push(branch.id());
        }
        push_bytes(out, hash.as_bytes());
        push_bytes(out, body.as_slice());
        assert(out@ =~= old(out)@ + self.node_record(node@, hash@, compressed)->Ok_0);
        Ok(())
    }

    fn write_leaf_record(
        self,
        out: &mut Vec<u8>,
        node: &TrieNodeType,
        leaf: &TrieLeaf,
        hash: TrieHash,
        compressed: bool,
    ) -> (done: Result<(), Error>)
        requires
            node@.wf(),
            node@ == Node::Leaf(leaf@),
        ensures
            match self.node_record(node@, hash@, compressed) {
                Ok(bytes) => done is Ok && final(out)@ == old(out)@ + bytes,
                Err(e) => done == Err::<(), Error>(e) && final(out)@ == old(out)@,
            },
    {
        let version: u8 = self.version();
        match &leaf.inline {
            Some(value) => {
                if version < 3 || leaf.extent.is_some() {
                    return Err(corrupt(Corruption::InvalidInlineLeaf));
                }
                out.push(TrieNodeID::InlineLeaf.as_u8());
                out.push(leaf.path.len() as u8);
                push_bytes(out, leaf.path.as_slice());
                value.write_to(out);
                assert(out@ =~= old(out)@ + self.node_record(node@, hash@, compressed)->Ok_0);
                return Ok(());
            },
            None => {},
        }
        if version >= 1 {
            match &leaf.extent {
                Some(extent) => {
                    out.push(TrieNodeID::ValueLeaf.as_u8());
                    out.push(leaf.path.len() as u8);
                    push_bytes(out, leaf.path.as_slice());
                    extent.write_to(out);
                    assert(out@ =~= old(out)@ + self.node_record(node@, hash@, compressed)->Ok_0);
                    return Ok(());
                },
                None => {},
            }
        }
        if leaf.data.is_none() {
            return Err(corrupt(Corruption::MissingLeafValue));
        }
        let done = if version >= 2 {
            out.push(TrieNodeID::RawLeaf.as_u8());
            raw_leaf::write(leaf, out)
        } else if version == 1 {
            out.push(leaf.plain_marker());
            push_bytes(out, hash.as_bytes());
            leaf.write_plain_body(out)
        } else {
            push_bytes(out, hash.as_bytes());
            if compressed {
                node.write_bytes_compressed(out)
            } else {
                node.write_bytes(out)
            }
        };
        assert(out@ =~= old(out)@ + self.node_record(node@, hash@, compressed)->Ok_0);
        done
    }

    /// Append a branch patch with the selected physical envelope.
    pub fn write_patch(self, out: &mut Vec<u8>, patch: &TrieNodePatch, hash: TrieHash) -> (done:
        Result<(), Error>)
        ensures
            if patch@.wf() {
                done is Ok && final(out)@ == old(out)@ + self.patch_record(patch@, hash@)
            } else {
                done == Err::<(), Error>(Error::CorruptionError(Corruption::OversizedPatch))
                    && final(out)@ == old(out)@
            },
    {
        let mut body: Vec<u8> = Vec::new();
        match patch.write_body(&mut body) {
            Ok(()) => {},
            Err(e) => return Err(e),
        }
        if self.is_type_first() {
            out.push(TrieNodeID::Patch.as_u8());
            push_bytes(out, hash.as_bytes());
        } else {
            push_bytes(out, hash.as_bytes());
            out.push(TrieNodeID::Patch.as_u8());
        }
        push_bytes(out, body.as_slice());
        assert(out@ =~= old(out)@ + self.patch_record(patch@, hash@));
        Ok(())
    }
}

/// Borrowed record fields; the payload excludes the marker and any stored hash.
#[derive(Clone, Copy, Debug)]
pub struct NodeRecord<'a> {
    /// Layout defining the node payload encoding.
    pub format: NodeRecordFormat,
    /// Physical marker including encoding flags.
    pub marker: u8,
    /// Stored hash, absent for locator-only leaves.
    pub hash: Option<TrieHash>,
    /// Payload backed directly by the supplied file bytes.
    pub payload: &'a [u8],
    /// Number of envelope bytes preceding the payload.
    pub prefix_len: usize,
}

impl Record {
    /// The node type that parents name.
    pub open spec fn logical(self) -> Option<TrieNodeID> {
        node_id_of(clear_ctrl_bits(logical_node_id(self.marker)))
    }

    /// The node of the type that a parent names, and the record bytes that it takes.
    #[verifier::opaque]
    pub open spec fn decode(self, expected_id: u8) -> Result<(Node, nat), Fault> {
        match node_id_of(clear_ctrl_bits(logical_node_id(expected_id))) {
            None => Err(bad(Corruption::BadNodeId)),
            Some(expected) => match self.logical() {
                None => Err(bad(Corruption::BadNodeId)),
                Some(TrieNodeID::Patch) => match Patch::load(self.marker, self.payload) {
                    Err(e) => Err(fault_of(e)),
                    Ok((patch, _)) => Err(Fault::Patch(patch)),
                },
                Some(logical) => if logical != expected {
                    Err(bad(Corruption::UnexpectedNodeId))
                } else if expected is Leaf {
                    match Leaf::load(self.marker, self.payload) {
                        Err(e) => Err(fault_of(e)),
                        Ok((leaf, used)) => Ok((Node::Leaf(leaf), self.prefix_len + used)),
                    }
                } else if self.format.number() > 0 {
                    match BranchParts::parse(self.format, expected, self.payload) {
                        Err(e) => Err(fault_of(e)),
                        Ok(parts) => match parts.to_branch() {
                            Err(e) => Err(fault_of(e)),
                            Ok(branch) => Ok(
                                (Node::Branch(branch), self.prefix_len + parts.length()),
                            ),
                        },
                    }
                } else if expected.is_branch() {
                    match Branch::load(expected, self.marker, self.payload) {
                        Err(e) => Err(fault_of(e)),
                        Ok((branch, used)) => Ok((Node::Branch(branch), self.prefix_len + used)),
                    }
                } else {
                    Err(bad(Corruption::StoredEmptyNode))
                },
            },
        }
    }

    /// The patch, and the record bytes that it takes.
    pub open spec fn patch(self) -> Result<(Patch, nat), Error> {
        match Patch::load(self.marker, self.payload) {
            Err(e) => Err(e),
            Ok((patch, used)) => Ok((patch, self.prefix_len + used)),
        }
    }
}

impl<'a> NodeRecord<'a> {
    /// The fields.
    pub open spec fn view(&self) -> Record {
        Record {
            format: self.format,
            marker: self.marker,
            hash: match self.hash {
                Some(hash) => Some(hash@),
                None => None,
            },
            payload: self.payload@,
            prefix_len: self.prefix_len as nat,
        }
    }

    /// Logical node identity used in parent pointers; patches retain their physical identity.
    pub fn logical_type(&self) -> (id: TrieNodeID)
        requires
            self@.logical() is Some,
        ensures
            self@.logical() == Some(id),
    {
        match TrieNodeID::from_u8(clear_ctrl_bits(logical_node_id(self.marker))) {
            Some(id) => id,
            None => TrieNodeID::Empty,
        }
    }

    /// Decode a node payload with no intermediate copy of its serialized bytes.
    pub fn decode_node(&self, expected_id: u8) -> (out: Result<(TrieNodeType, usize), Error>)
        requires
            self.prefix_len + self.payload.len() <= usize::MAX,
        ensures
            match self@.decode(expected_id) {
                Ok((node, len)) => out matches Ok((t, n)) && t@ == node && t@.wf()
                    && t.is_fresh() && n == len,
                Err(fault) => out matches Err(e) && fault_of(e) == fault,
            },
    {
        proof {
            reveal(Record::decode);
        }
        let expected: TrieNodeID = match TrieNodeID::from_u8(
            clear_ctrl_bits(logical_node_id(expected_id)),
        ) {
            Some(id) => id,
            None => return Err(corrupt(Corruption::BadNodeId)),
        };
        let logical: TrieNodeID = match TrieNodeID::from_u8(
            clear_ctrl_bits(logical_node_id(self.marker)),
        ) {
            Some(id) => id,
            None => return Err(corrupt(Corruption::BadNodeId)),
        };
        if logical == TrieNodeID::Patch {
            return match TrieNodePatch::from_parts(self.marker, self.payload) {
                Ok((patch, _)) => Err(Error::Patch(patch)),
                Err(e) => Err(e),
            };
        }
        if logical != expected {
            return Err(corrupt(Corruption::UnexpectedNodeId));
        }
        if expected == TrieNodeID::Leaf {
            return match TrieLeaf::from_parts(self.marker, self.payload) {
                Ok((leaf, used)) => Ok((TrieNodeType::Leaf(leaf), self.prefix_len + used)),
                Err(e) => Err(e),
            };
        }
        if self.format.is_type_first() {
            let view = match BranchView::parse(self.format, expected, self.payload) {
                Ok(view) => view,
                Err(e) => return Err(e),
            };
            return match view.to_owned_node() {
                Ok(branch) => Ok((TrieNodeType::Branch(branch), self.prefix_len + view.byte_len())),
                Err(e) => Err(e),
            };
        }
        if expected.capacity() != 0 {
            return match TrieBranch::from_parts(expected, self.marker, self.payload) {
                Ok((branch, used)) => Ok((TrieNodeType::Branch(branch), self.prefix_len + used)),
                Err(e) => Err(e),
            };
        }
        Err(corrupt(Corruption::StoredEmptyNode))
    }

    /// Decode a patch without copying bytes around its stored hash.
    pub fn decode_patch(&self) -> (out: Result<(TrieNodePatch, usize), Error>)
        requires
            self.prefix_len + self.payload.len() <= usize::MAX,
        ensures
            match self@.patch() {
                Ok((patch, len)) => out matches Ok((p, n)) && p@ == patch && n == len,
                Err(e) => out == Err::<(TrieNodePatch, usize), Error>(e),
            },
    {
        match TrieNodePatch::from_parts(self.marker, self.payload) {
            Ok((patch, used)) => Ok((patch, self.prefix_len + used)),
            Err(e) => Err(e),
        }
    }
}

} // verus!
