//! Leaves, and trie nodes of either sort.
use vstd::prelude::*;

use crate::error::{corrupt, Corruption, Error, IoErrorKind};
use crate::inline_value::{Inline, InlineValue};
use crate::mapped_node::{path_prefix, path_prefix_spec};
use crate::node::{
    clear_ctrl_bits, node_id_of, Branch, TrieBranch, TrieNodeID, TrieNodeTransientMeta, TriePtr,
};
use crate::path::{framed, NodePath};
use crate::raw_leaf;
use crate::value::{Extent, MARFValue, ValueExtent};
use crate::words::push_bytes;

verus! {

/// Leaf of a trie.
#[derive(Debug, PartialEq)]
pub struct TrieLeaf {
    pub path: NodePath,
    /// Logical value, absent until an extent-backed leaf needs hashing or a proof.
    pub data: Option<MARFValue>,
    /// Optional physical locator excluded from logical commitments.
    pub extent: Option<ValueExtent>,
    /// Inline value bytes.
    pub inline: Option<InlineValue>,
}

/// What a leaf is: its path and what is known of its value.
#[verifier::ext_equal]
pub struct Leaf {
    pub path: Seq<u8>,
    pub data: Option<Seq<u8>>,
    pub extent: Option<Extent>,
    pub inline: Option<Inline>,
}

impl Leaf {
    /// Whether the parts have their fixed widths.
    pub open spec fn wf(self) -> bool {
        &&& self.path.len() <= 32
        &&& self.data is Some ==> self.data->0.len() == 40
        &&& self.extent is Some ==> self.extent->0.store_id.len() == 16
        &&& self.inline is Some ==> self.inline->0.bounded()
    }

    /// The bytes that a leaf's hash commits to.
    pub open spec fn commitment(self) -> Seq<u8> {
        seq![1u8] + framed(self.path) + self.data->0
    }

    /// The marker of the fixed encoding; a locator behind the value is flagged.
    pub open spec fn plain_marker(self) -> u8 {
        if self.extent is Some {
            17
        } else {
            1
        }
    }

    /// The fixed encoding behind its marker.
    pub open spec fn plain_body(self) -> Seq<u8> {
        framed(self.path) + self.data->0 + match self.extent {
            Some(extent) => extent.encoded(),
            None => Seq::empty(),
        }
    }

    /// The leaf behind a marker of the fixed encoding.
    pub open spec fn load_plain(located: bool, payload: Seq<u8>) -> Result<(Leaf, nat), Error> {
        match path_prefix_spec(payload) {
            Err(e) => Err(e),
            Ok(path) => {
                let at = 1 + path.len() as int;
                let end = at + 40 + if located {
                    32int
                } else {
                    0
                };
                if payload.len() < end {
                    Err(Error::CorruptionError(Corruption::TruncatedLeaf))
                } else {
                    Ok(
                        (
                            Leaf {
                                path,
                                data: Some(payload.subrange(at, at + 40)),
                                extent: if located {
                                    Some(
                                        Extent::at(
                                            payload.subrange(at + 40, payload.len() as int),
                                        ),
                                    )
                                } else {
                                    None
                                },
                                inline: None,
                            },
                            end as nat,
                        ),
                    )
                }
            },
        }
    }

    /// The leaf behind a locator marker.
    pub open spec fn load_located(payload: Seq<u8>) -> Result<(Leaf, nat), Error> {
        match path_prefix_spec(payload) {
            Err(e) => Err(e),
            Ok(path) => {
                let at = 1 + path.len() as int;
                if payload.len() < at + 32 {
                    Err(Error::IOError(IoErrorKind::UnexpectedEof))
                } else {
                    Ok(
                        (
                            Leaf {
                                path,
                                data: None,
                                extent: Some(
                                    Extent::at(payload.subrange(at, payload.len() as int)),
                                ),
                                inline: None,
                            },
                            (at + 32) as nat,
                        ),
                    )
                }
            },
        }
    }

    /// The leaf behind an inline marker.
    pub open spec fn load_inline(payload: Seq<u8>) -> Result<(Leaf, nat), Error> {
        match path_prefix_spec(payload) {
            Err(e) => Err(e),
            Ok(path) => {
                let at = 1 + path.len() as int;
                match Inline::decode(payload.subrange(at, payload.len() as int)) {
                    Err(e) => Err(e),
                    Ok((value, len)) => Ok(
                        (
                            Leaf { path, data: None, extent: None, inline: Some(value) },
                            (at + len) as nat,
                        ),
                    ),
                }
            },
        }
    }

    /// The leaf behind a compact raw marker.
    pub open spec fn load_raw(payload: Seq<u8>) -> Result<(Leaf, nat), Error> {
        match raw_leaf::load_spec(payload) {
            Err(e) => Err(e),
            Ok((path, value, len)) => Ok(
                (Leaf { path, data: Some(value), extent: None, inline: None }, len),
            ),
        }
    }

    /// The leaf behind any marker, and the payload bytes it takes.
    pub open spec fn load(marker: u8, payload: Seq<u8>) -> Result<(Leaf, nat), Error> {
        match node_id_of(clear_ctrl_bits(marker)) {
            Some(TrieNodeID::Leaf) => Self::load_plain((marker / 16) % 2 == 1, payload),
            Some(TrieNodeID::ValueLeaf) => Self::load_located(payload),
            Some(TrieNodeID::RawLeaf) => Self::load_raw(payload),
            Some(TrieNodeID::InlineLeaf) => Self::load_inline(payload),
            _ => Err(Error::CorruptionError(Corruption::UnexpectedNodeId)),
        }
    }
}

impl Clone for TrieLeaf {
    fn clone(&self) -> (copy: Self)
        ensures
            copy@ == self@,
    {
        let inline: Option<InlineValue> = match &self.inline {
            Some(value) => Some(value.clone()),
            None => None,
        };
        TrieLeaf { path: self.path, data: self.data, extent: self.extent, inline }
    }
}

impl TrieLeaf {
    /// Path and value.
    pub open spec fn view(&self) -> Leaf {
        Leaf {
            path: self.path@,
            data: match self.data {
                Some(value) => Some(value@),
                None => None,
            },
            extent: match self.extent {
                Some(extent) => Some(extent@),
                None => None,
            },
            inline: match self.inline {
                Some(value) => Some(value@),
                None => None,
            },
        }
    }

    /// Every leaf has parts of the right widths.
    pub(crate) fn check(&self)
        ensures
            self@.wf(),
    {
        let _ = self.path.len();
        match &self.inline {
            Some(value) => {
                let _ = value.record();
                let _ = value.descriptor();
            },
            None => {},
        }
    }

    /// A leaf without path and value.
    pub fn empty() -> (leaf: Self)
        ensures
            leaf@ == (Leaf { path: Seq::empty(), data: None, extent: None, inline: None }),
    {
        TrieLeaf { path: NodePath::default(), data: None, extent: None, inline: None }
    }

    /// A leaf with a value.
    pub fn from_value(path: &[u8], value: MARFValue) -> (leaf: Self)
        requires
            path@.len() <= 32,
        ensures
            leaf@ == (Leaf { path: path@, data: Some(value@), extent: None, inline: None }),
    {
        let mut leaf = Self::empty();
        let _ = leaf.path.set_from_slice(path);
        leaf.data = Some(value);
        leaf
    }

    /// A leaf with forty bytes of value.
    pub fn new(path: &[u8], value: &[u8; 40]) -> (leaf: Self)
        requires
            path@.len() <= 32,
        ensures
            leaf@ == (Leaf { path: path@, data: Some(value@), extent: None, inline: None }),
    {
        Self::from_value(path, MARFValue(*value))
    }

    /// The logical value, where it is known.
    pub fn value(&self) -> (value: Result<&MARFValue, Error>)
        ensures
            match self@.data {
                Some(bytes) => value matches Ok(v) && v@ == bytes,
                None => value == Err::<&MARFValue, Error>(
                    Error::CorruptionError(Corruption::MissingLeafValue),
                ),
            },
    {
        match &self.data {
            Some(value) => Ok(value),
            None => Err(corrupt(Corruption::MissingLeafValue)),
        }
    }

    /// Append the bytes that the leaf's hash commits to.
    pub fn write_commitment_bytes(&self, out: &mut Vec<u8>) -> (done: Result<(), Error>)
        ensures
            match self@.data {
                Some(_) => done is Ok && final(out)@ == old(out)@ + self@.commitment(),
                None => done == Err::<(), Error>(
                    Error::CorruptionError(Corruption::MissingLeafValue),
                ) && final(out)@ == old(out)@,
            },
    {
        let value: MARFValue = match self.data {
            Some(value) => value,
            None => return Err(corrupt(Corruption::MissingLeafValue)),
        };
        out.push(1);
        out.push(self.path.len() as u8);
        push_bytes(out, self.path.as_slice());
        push_bytes(out, &value.0);
        assert(out@ =~= old(out)@ + self@.commitment());
        Ok(())
    }

    /// Append the fixed encoding behind its marker.
    pub fn write_plain_body(&self, out: &mut Vec<u8>) -> (done: Result<(), Error>)
        ensures
            match self@.data {
                Some(_) => done is Ok && final(out)@ == old(out)@ + self@.plain_body(),
                None => done == Err::<(), Error>(
                    Error::CorruptionError(Corruption::MissingLeafValue),
                ) && final(out)@ == old(out)@,
            },
    {
        let value: MARFValue = match self.data {
            Some(value) => value,
            None => return Err(corrupt(Corruption::MissingLeafValue)),
        };
        out.push(self.path.len() as u8);
        push_bytes(out, self.path.as_slice());
        push_bytes(out, &value.0);
        match &self.extent {
            Some(extent) => extent.write_to(out),
            None => {},
        }
        assert(out@ =~= old(out)@ + self@.plain_body());
        Ok(())
    }

    /// Marker of the fixed encoding.
    pub fn plain_marker(&self) -> (marker: u8)
        ensures
            marker == self@.plain_marker(),
    {
        if self.extent.is_some() {
            17
        } else {
            1
        }
    }

    fn load_plain(located: bool, payload: &[u8]) -> (out: Result<(Self, usize), Error>)
        ensures
            match Leaf::load_plain(located, payload@) {
                Ok((leaf, len)) => out matches Ok((l, n)) && l@ == leaf && n == len && n
                    <= payload@.len(),
                Err(e) => out == Err::<(Self, usize), Error>(e),
            },
    {
        let path = match path_prefix(payload) {
            Ok(path) => path,
            Err(e) => return Err(e),
        };
        let at: usize = 1 + path.len();
        let end: usize = if located { at + 72 } else { at + 40 };
        if payload.len() < end {
            return Err(corrupt(Corruption::TruncatedLeaf));
        }
        let mut leaf = Self::from_value(path, MARFValue::padded(&payload[at..at + 40]));
        if located {
            match ValueExtent::read_from(&payload[at + 40..payload.len()]) {
                Ok(extent) => leaf.extent = Some(extent),
                Err(_) => {},
            }
        }
        assert(leaf@.data->0 =~= payload@.subrange(at as int, at + 40));
        assert(leaf@ =~~= Leaf::load_plain(located, payload@)->Ok_0.0);
        Ok((leaf, end))
    }

    fn load_located(payload: &[u8]) -> (out: Result<(Self, usize), Error>)
        ensures
            match Leaf::load_located(payload@) {
                Ok((leaf, len)) => out matches Ok((l, n)) && l@ == leaf && n == len && n
                    <= payload@.len(),
                Err(e) => out == Err::<(Self, usize), Error>(e),
            },
    {
        let path = match path_prefix(payload) {
            Ok(path) => path,
            Err(e) => return Err(e),
        };
        let at: usize = 1 + path.len();
        let mut leaf = Self::empty();
        match ValueExtent::read_from(&payload[at..payload.len()]) {
            Ok(extent) => leaf.extent = Some(extent),
            Err(kind) => return Err(Error::IOError(kind)),
        }
        let _ = leaf.path.set_from_slice(path);
        assert(leaf@ =~~= Leaf::load_located(payload@)->Ok_0.0);
        Ok((leaf, at + 32))
    }

    fn load_inline(payload: &[u8]) -> (out: Result<(Self, usize), Error>)
        ensures
            match Leaf::load_inline(payload@) {
                Ok((leaf, len)) => out matches Ok((l, n)) && l@ == leaf && n == len && n
                    <= payload@.len(),
                Err(e) => out == Err::<(Self, usize), Error>(e),
            },
    {
        let path = match path_prefix(payload) {
            Ok(path) => path,
            Err(e) => return Err(e),
        };
        let at: usize = 1 + path.len();
        let mut leaf = Self::empty();
        let used: usize = match InlineValue::decode(&payload[at..payload.len()]) {
            Ok((value, used)) => {
                leaf.inline = Some(value);
                used
            },
            Err(e) => return Err(e),
        };
        let _ = leaf.path.set_from_slice(path);
        assert(leaf@ =~~= Leaf::load_inline(payload@)->Ok_0.0);
        Ok((leaf, at + used))
    }

    /// Decode the leaf behind a marker.
    pub fn from_parts(marker: u8, payload: &[u8]) -> (out: Result<(Self, usize), Error>)
        ensures
            match Leaf::load(marker, payload@) {
                Ok((leaf, len)) => out matches Ok((l, n)) && l@ == leaf && n == len && n
                    <= payload@.len() && l@.wf(),
                Err(e) => out == Err::<(Self, usize), Error>(e),
            },
    {
        let out = match TrieNodeID::from_u8(clear_ctrl_bits(marker)) {
            Some(TrieNodeID::Leaf) => Self::load_plain((marker / 16) % 2 == 1, payload),
            Some(TrieNodeID::ValueLeaf) => Self::load_located(payload),
            Some(TrieNodeID::RawLeaf) => {
                let mut leaf = Self::empty();
                match raw_leaf::load(&mut leaf, payload) {
                    Ok(used) => Ok((leaf, used)),
                    Err(e) => Err(e),
                }
            },
            Some(TrieNodeID::InlineLeaf) => Self::load_inline(payload),
            _ => Err(corrupt(Corruption::UnexpectedNodeId)),
        };
        match &out {
            Ok((leaf, _)) => leaf.check(),
            Err(_) => {},
        }
        out
    }

    /// Decode the leaf behind a marker in place of this one; a failure leaves this one alone.
    pub fn load_from_parts(&mut self, marker: u8, payload: &[u8]) -> (used: Result<usize, Error>)
        ensures
            match Leaf::load(marker, payload@) {
                Ok((leaf, len)) => used matches Ok(n) && n == len && final(self)@ == leaf,
                Err(e) => used == Err::<usize, Error>(e) && final(self)@ == old(self)@,
            },
    {
        match Self::from_parts(marker, payload) {
            Ok((leaf, used)) => {
                *self = leaf;
                Ok(used)
            },
            Err(e) => Err(e),
        }
    }
}

/// A leaf with a value survives its fixed encoding, whatever follows it.
pub proof fn law_plain_leaf_roundtrip(leaf: Leaf, tail: Seq<u8>)
    requires
        leaf.wf(),
        leaf.data is Some,
        leaf.inline is None,
    ensures
        Leaf::load(leaf.plain_marker(), leaf.plain_body() + tail) == Ok::<(Leaf, nat), Error>(
            (leaf, leaf.plain_body().len()),
        ),
{
    let bytes = leaf.plain_body() + tail;
    let at = 1 + leaf.path.len() as int;
    assert(bytes[0] == leaf.path.len());
    assert(bytes.subrange(1, at) =~= leaf.path);
    assert(bytes.subrange(at, at + 40) =~= leaf.data->0);
    match leaf.extent {
        Some(extent) => {
            crate::value::law_extent_roundtrip(extent, tail);
            assert(bytes.subrange(at + 40, bytes.len() as int) =~= extent.encoded() + tail);
        },
        None => {},
    }
    assert(Leaf::load_plain(leaf.extent is Some, bytes)->Ok_0.0 =~~= leaf);
}

/// A locator leaf keeps its path and locator, and gives up its value.
pub proof fn law_located_leaf_roundtrip(path: Seq<u8>, extent: Extent, tail: Seq<u8>)
    requires
        path.len() <= 32,
        extent.store_id.len() == 16,
    ensures
        Leaf::load(7, framed(path) + extent.encoded() + tail) == Ok::<(Leaf, nat), Error>(
            (Leaf { path, data: None, extent: Some(extent), inline: None }, path.len() + 33),
        ),
{
    let bytes = framed(path) + extent.encoded() + tail;
    let at = 1 + path.len() as int;
    crate::value::law_extent_roundtrip(extent, tail);
    assert(bytes[0] == path.len());
    assert(bytes.subrange(1, at) =~= path);
    assert(bytes.subrange(at, bytes.len() as int) =~= extent.encoded() + tail);
}

/// An inline leaf keeps its path, record and descriptor.
pub proof fn law_inline_leaf_roundtrip(path: Seq<u8>, value: Inline, tail: Seq<u8>)
    requires
        path.len() <= 32,
        value.bounded(),
    ensures
        Leaf::load(9, framed(path) + value.encoded() + tail) == Ok::<(Leaf, nat), Error>(
            (
                Leaf { path, data: None, extent: None, inline: Some(value) },
                1 + path.len() + value.encoded().len(),
            ),
        ),
{
    let bytes = framed(path) + value.encoded() + tail;
    let at = 1 + path.len() as int;
    crate::inline_value::law_inline_roundtrip(value, tail);
    assert(bytes[0] == path.len());
    assert(bytes.subrange(1, at) =~= path);
    assert(bytes.subrange(at, bytes.len() as int) =~= value.encoded() + tail);
}

/// A trie node of either sort.
#[derive(Debug, PartialEq)]
pub enum TrieNodeType {
    Branch(TrieBranch),
    Leaf(TrieLeaf),
}

impl Clone for TrieNodeType {
    fn clone(&self) -> (copy: Self)
        ensures
            copy@ == self@,
            copy.meta() == self.meta(),
    {
        match self {
            TrieNodeType::Branch(branch) => TrieNodeType::Branch(branch.clone()),
            TrieNodeType::Leaf(leaf) => TrieNodeType::Leaf(leaf.clone()),
        }
    }
}

/// What a trie node is.
pub enum Node {
    Branch(Branch),
    Leaf(Leaf),
}

impl Node {
    /// Whether the node's parts fit its type.
    pub open spec fn wf(self) -> bool {
        match self {
            Node::Branch(branch) => branch.wf(),
            Node::Leaf(leaf) => leaf.wf(),
        }
    }

    /// The node's path segment.
    pub open spec fn path(self) -> Seq<u8> {
        match self {
            Node::Branch(branch) => branch.path,
            Node::Leaf(leaf) => leaf.path,
        }
    }

    /// The node's child slots.
    pub open spec fn ptrs(self) -> Seq<TriePtr> {
        match self {
            Node::Branch(branch) => branch.ptrs,
            Node::Leaf(_) => Seq::empty(),
        }
    }

    /// The logical node type.
    pub open spec fn id(self) -> TrieNodeID {
        match self {
            Node::Branch(branch) => branch.id,
            Node::Leaf(_) => TrieNodeID::Leaf,
        }
    }

    /// The child along `chr`.
    pub open spec fn walk(self, chr: u8) -> Option<TriePtr> {
        match self {
            Node::Branch(branch) => branch.walk(chr),
            Node::Leaf(_) => None,
        }
    }
}

impl TrieNodeType {
    /// Type, path and children or value.
    pub open spec fn view(&self) -> Node {
        match self {
            TrieNodeType::Branch(branch) => Node::Branch(branch@),
            TrieNodeType::Leaf(leaf) => Node::Leaf(leaf@),
        }
    }

    /// State that encodings do not carry, kept by branches only.
    pub open spec fn meta(&self) -> Option<TrieNodeTransientMeta> {
        match self {
            TrieNodeType::Branch(branch) => Some(branch.meta),
            TrieNodeType::Leaf(_) => None,
        }
    }

    /// Whether a node was neither patched nor copied, as one that was just decoded.
    pub open spec fn is_fresh(&self) -> bool {
        self.meta() matches Some(meta) ==> meta == TrieNodeTransientMeta::none()
    }

    /// State that encodings do not carry, kept by branches only.
    #[verifier::when_used_as_spec(meta)]
    pub fn transient_meta(&self) -> (meta: Option<TrieNodeTransientMeta>)
        ensures
            meta == self.meta(),
    {
        match self {
            TrieNodeType::Branch(branch) => Some(branch.meta),
            TrieNodeType::Leaf(_) => None,
        }
    }

    /// Node type byte.
    pub fn id(&self) -> (byte: u8)
        ensures
            byte == self@.id().code(),
    {
        match self {
            TrieNodeType::Branch(branch) => branch.id(),
            TrieNodeType::Leaf(_) => 1,
        }
    }

    /// Whether the node is a leaf.
    pub fn is_leaf(&self) -> (leaf: bool)
        ensures
            leaf == (self@ is Leaf),
    {
        match self {
            TrieNodeType::Branch(_) => false,
            TrieNodeType::Leaf(_) => true,
        }
    }

    /// The node's path segment.
    pub fn path_bytes(&self) -> (path: &[u8])
        ensures
            path@ == self@.path(),
            path@.len() <= 32,
    {
        match self {
            TrieNodeType::Branch(branch) => branch.path.as_slice(),
            TrieNodeType::Leaf(leaf) => leaf.path.as_slice(),
        }
    }

    /// The node's child slots.
    pub fn ptrs(&self) -> (ptrs: &[TriePtr])
        ensures
            ptrs@ == self@.ptrs(),
    {
        match self {
            TrieNodeType::Branch(branch) => branch.ptrs.as_slice(),
            TrieNodeType::Leaf(_) => {
                let none: &[TriePtr; 0] = &[];
                assert(none@ =~= Seq::<TriePtr>::empty());
                none
            },
        }
    }

    /// The child along `chr`.
    pub fn walk(&self, chr: u8) -> (child: Option<TriePtr>)
        requires
            self@.wf(),
        ensures
            child == self@.walk(chr),
    {
        match self {
            TrieNodeType::Branch(branch) => branch.walk(chr),
            TrieNodeType::Leaf(_) => None,
        }
    }
}

} // verus!
