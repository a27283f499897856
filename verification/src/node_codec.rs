//! Whole node bodies: marker, children or value, and path.
use vstd::prelude::*;

use crate::bits::{
    compressed_list, get_ptrs_byte_len, get_ptrs_byte_len_compressed, kept_slots,
    law_compressed_list_roundtrip, law_plain_list_roundtrip, lemma_compressed_list_len,
    lemma_list_lens, list_spec, plain_bytes, plain_ids, push_compressed_ptrs, push_plain_ptrs,
    read_ptr_list, stored_id, stored_node_id_from_bytes, write_path_to_bytes,
};
use crate::error::{corrupt, Corruption, Error};
use crate::hash::{concat_hashes, hash_bytes, sha512_256_of, TrieHash};
use crate::leaf::{law_plain_leaf_roundtrip, Leaf, Node, TrieLeaf, TrieNodeType};
use crate::mapped_node::{
    index_byte, index_bytes, path_prefix, path_prefix_spec, push_index_bytes,
};
use crate::node::{
    clear_ctrl_bits, node_id_of, Branch, TrieBranch, TrieNodeID, TrieNodeTransientMeta, TriePtr,
};
use crate::packed_laws::canonical;
use crate::patch::{bad, fault_of, Fault, Patch};
use crate::path::{framed, NodePath};
use crate::words::push_bytes;

verus! {

/// A slot table entry from its byte.
pub open spec fn byte_index(byte: u8) -> i8 {
    if byte < 128 {
        byte as i8
    } else {
        (byte - 256) as i8
    }
}

impl Branch {
    /// The slot table, which only 48-slot branches store.
    pub open spec fn table(self) -> Seq<u8> {
        if self.id is Node48 {
            index_bytes(self.indexes)
        } else {
            Seq::empty()
        }
    }

    /// The fixed encoding behind its marker.
    pub open spec fn plain_body(self) -> Seq<u8> {
        plain_bytes(self.ptrs) + self.table() + framed(self.path)
    }

    /// The compressed encoding behind its marker.
    pub open spec fn compressed_body(self) -> Seq<u8> {
        compressed_list(self.id.code(), self.ptrs) + self.table() + framed(self.path)
    }

    /// The branch of a type behind its marker, and the payload bytes it takes.
    #[verifier::opaque]
    pub open spec fn load(id: TrieNodeID, marker: u8, payload: Seq<u8>) -> Result<
        (Branch, nat),
        Error,
    > {
        match list_spec(id.code(), marker, payload, id.slots()) {
            Err(e) => Err(e),
            Ok((ptrs, _, used)) => {
                let table: int = if id is Node48 {
                    256
                } else {
                    0
                };
                let at = used as int + table;
                if payload.len() < at {
                    Err(Error::CorruptionError(Corruption::TruncatedSelectors))
                } else {
                    match path_prefix_spec(payload.subrange(at, payload.len() as int)) {
                        Err(e) => Err(e),
                        Ok(path) => Ok(
                            (
                                Branch {
                                    id,
                                    path,
                                    ptrs,
                                    indexes: Seq::new(
                                        table as nat,
                                        |i: int| byte_index(payload[used as int + i]),
                                    ),
                                },
                                (at + 1 + path.len()) as nat,
                            ),
                        ),
                    }
                }
            },
        }
    }
}

impl TrieBranch {
    /// Append the slot table and the path.
    fn write_tail(&self, out: &mut Vec<u8>)
        requires
            self@.wf(),
        ensures
            final(out)@ == old(out)@ + self@.table() + framed(self@.path),
    {
        if self.id == TrieNodeID::Node48 {
            push_index_bytes(out, self.indexes.as_slice());
        }
        let ghost mid = out@;
        let _ = write_path_to_bytes(self.path.as_slice(), out);
        assert(out@ =~= old(out)@ + self@.table() + framed(self@.path));
    }

    /// Append the fixed encoding behind its marker.
    pub fn write_plain_body(&self, out: &mut Vec<u8>)
        requires
            self@.wf(),
        ensures
            final(out)@ == old(out)@ + self@.plain_body(),
    {
        push_plain_ptrs(out, self.ptrs.as_slice());
        self.write_tail(out);
        assert(out@ =~= old(out)@ + self@.plain_body());
    }

    /// Append the compressed encoding behind its marker.
    pub fn write_compressed_body(&self, out: &mut Vec<u8>)
        requires
            self@.wf(),
        ensures
            final(out)@ == old(out)@ + self@.compressed_body(),
    {
        push_compressed_ptrs(out, self.id.as_u8(), self.ptrs.as_slice());
        self.write_tail(out);
        assert(out@ =~= old(out)@ + self@.compressed_body());
    }

    /// Bytes of the fixed encoding, marker included.
    pub fn byte_len(&self) -> (n: usize)
        requires
            self@.wf(),
        ensures
            n == 1 + self@.plain_body().len(),
            n <= 4000,
    {
        proof {
            lemma_list_lens(self.ptrs@);
        }
        let table: usize = if self.id == TrieNodeID::Node48 { 256 } else { 0 };
        get_ptrs_byte_len(self.ptrs.as_slice()) + table + 1 + self.path.len()
    }

    /// Bytes of the compressed encoding, marker included.
    pub fn byte_len_compressed(&self) -> (n: usize)
        requires
            self@.wf(),
        ensures
            n == 1 + self@.compressed_body().len(),
            n <= 4000,
    {
        proof {
            lemma_compressed_list_len(self.id.code(), self.ptrs@);
        }
        let table: usize = if self.id == TrieNodeID::Node48 { 256 } else { 0 };
        get_ptrs_byte_len_compressed(self.id.as_u8(), self.ptrs.as_slice()) + table + 1
            + self.path.len()
    }

    /// Decode the branch of a type behind its marker.
    pub fn from_parts(id: TrieNodeID, marker: u8, payload: &[u8]) -> (out: Result<
        (Self, usize),
        Error,
    >)
        requires
            id.is_branch(),
        ensures
            match Branch::load(id, marker, payload@) {
                Ok((branch, len)) => out matches Ok((b, n)) && b@ == branch && b@.wf() && n == len
                    && n <= payload.len() && b.meta == TrieNodeTransientMeta::none(),
                Err(e) => out == Err::<(Self, usize), Error>(e),
            },
    {
        proof {
            reveal(Branch::load);
        }
        let (ptrs, _, used) = match read_ptr_list(id.as_u8(), marker, payload, id.capacity()) {
            Ok(found) => found,
            Err(e) => return Err(e),
        };
        let table: usize = if id == TrieNodeID::Node48 { 256 } else { 0 };
        if payload.len() - used < table {
            return Err(corrupt(Corruption::TruncatedSelectors));
        }
        let at: usize = used + table;
        let mut indexes: Vec<i8> = Vec::new();
        let mut i: usize = 0;
        while i < table
            invariant
                i <= table,
                used + table == at,
                at <= payload@.len(),
                indexes@.len() == i,
                forall|j: int| 0 <= j < i ==> indexes@[j] == byte_index(payload@[used + j]),
            decreases table - i,
        {
            let byte: u8 = payload[used + i];
            indexes.push(if byte < 128 { byte as i8 } else { (byte as i16 - 256) as i8 });
            i = i + 1;
        }
        let mut path = NodePath::default();
        match path_prefix(&payload[at..payload.len()]) {
            Ok(bytes) => {
                let _ = path.set_from_slice(bytes);
                let branch = TrieBranch {
                    id,
                    path,
                    ptrs,
                    indexes,
                    meta: TrieNodeTransientMeta::default(),
                };
                assert(branch@ =~= Branch::load(id, marker, payload@)->Ok_0.0);
                Ok((branch, at + 1 + bytes.len()))
            },
            Err(e) => Err(e),
        }
    }
}

/// A branch survives its fixed encoding, whatever follows it.
pub proof fn law_plain_branch_roundtrip(branch: Branch, tail: Seq<u8>)
    requires
        branch.wf(),
        plain_ids(branch.ptrs),
    ensures
        Branch::load(branch.id, branch.id.code(), branch.plain_body() + tail) == Ok::<
            (Branch, nat),
            Error,
        >((branch, branch.plain_body().len())),
{
    reveal(Branch::load);
    let rest = branch.table() + framed(branch.path) + tail;
    let bytes = branch.plain_body() + tail;
    law_plain_list_roundtrip(branch.id, branch.ptrs, rest);
    assert(bytes =~= plain_bytes(branch.ptrs) + rest);
    lemma_branch_tail(branch, plain_bytes(branch.ptrs), tail);
}

/// A branch survives its compressed encoding, whatever follows it.
pub proof fn law_compressed_branch_roundtrip(branch: Branch, tail: Seq<u8>)
    requires
        branch.wf(),
        canonical(branch.ptrs),
    ensures
        Branch::load(branch.id, (branch.id.code() + 64) as u8, branch.compressed_body() + tail)
            == Ok::<(Branch, nat), Error>((branch, branch.compressed_body().len())),
{
    reveal(Branch::load);
    let rest = branch.table() + framed(branch.path) + tail;
    let bytes = branch.compressed_body() + tail;
    law_compressed_list_roundtrip(branch.id, branch.ptrs, rest);
    assert(bytes =~= compressed_list(branch.id.code(), branch.ptrs) + rest);
    lemma_branch_tail(branch, compressed_list(branch.id.code(), branch.ptrs), tail);
}

/// What stands behind the pointers of a branch.
proof fn lemma_branch_tail(branch: Branch, list: Seq<u8>, tail: Seq<u8>)
    requires
        branch.wf(),
    ensures
        ({
            let bytes = list + branch.table() + framed(branch.path) + tail;
            let at = list.len() + branch.table().len() as int;
            &&& bytes.len() >= at
            &&& path_prefix_spec(bytes.subrange(at, bytes.len() as int)) == Ok::<Seq<u8>, Error>(
                branch.path,
            )
            &&& Seq::new(
                branch.table().len(),
                |i: int| byte_index(bytes[list.len() as int + i]),
            ) == branch.indexes
        }),
{
    let bytes = list + branch.table() + framed(branch.path) + tail;
    let at = list.len() + branch.table().len() as int;
    let rest = bytes.subrange(at, bytes.len() as int);
    assert(rest =~= framed(branch.path) + tail);
    assert(rest.subrange(1, 1 + branch.path.len() as int) =~= branch.path);
    let indexes = Seq::new(
        branch.table().len(),
        |i: int| byte_index(bytes[list.len() as int + i]),
    );
    assert forall|i: int| 0 <= i < branch.table().len() implies indexes[i] == branch.indexes[i] by {
        assert(bytes[list.len() as int + i] == index_byte(branch.indexes[i]));
    }
    assert(indexes =~= branch.indexes);
}

impl Node {
    /// The fixed encoding.
    pub open spec fn plain(self) -> Seq<u8> {
        match self {
            Node::Branch(branch) => seq![branch.id.code()] + branch.plain_body(),
            Node::Leaf(leaf) => seq![leaf.plain_marker()] + leaf.plain_body(),
        }
    }

    /// The encoding with compressed children; leaves have none.
    pub open spec fn compressed(self) -> Seq<u8> {
        match self {
            Node::Branch(branch) => seq![(branch.id.code() + 64) as u8]
                + branch.compressed_body(),
            Node::Leaf(leaf) => seq![leaf.plain_marker()] + leaf.plain_body(),
        }
    }

    /// Either encoding.
    pub open spec fn encoded(self, compressed: bool) -> Seq<u8> {
        if compressed {
            self.compressed()
        } else {
            self.plain()
        }
    }

    /// Whether the node can be written: a leaf needs its value.
    pub open spec fn writable(self) -> bool {
        match self {
            Node::Branch(_) => true,
            Node::Leaf(leaf) => leaf.data is Some,
        }
    }

    /// Length of the fixed encoding; leaves count a value whether or not they know it.
    pub open spec fn encoded_len(self, compressed: bool) -> nat {
        match self {
            Node::Branch(branch) => if compressed {
                1 + branch.compressed_body().len()
            } else {
                1 + branch.plain_body().len()
            },
            Node::Leaf(leaf) => 2 + leaf.path.len() + 40 + if leaf.extent is Some {
                32nat
            } else {
                0
            },
        }
    }

    /// The node of the type that a parent names, and the bytes that it takes.
    #[verifier::opaque]
    pub open spec fn decode(bytes: Seq<u8>, ptr_id: u8) -> Result<(Node, nat), Fault> {
        match node_id_of(ptr_id) {
            None => Err(bad(Corruption::BadNodeId)),
            Some(id) => match stored_id(bytes) {
                Err(e) => Err(fault_of(e)),
                Ok(TrieNodeID::Patch) => match Patch::decode(bytes) {
                    Err(e) => Err(fault_of(e)),
                    Ok((patch, _)) => Err(Fault::Patch(patch)),
                },
                Ok(_) => {
                    let payload = bytes.subrange(1, bytes.len() as int);
                    if id.is_branch() {
                        match Branch::load(id, bytes[0], payload) {
                            Err(e) => Err(fault_of(e)),
                            Ok((branch, used)) => Ok((Node::Branch(branch), used + 1)),
                        }
                    } else if id is Empty {
                        Err(bad(Corruption::StoredEmptyNode))
                    } else {
                        match Leaf::load(bytes[0], payload) {
                            Err(e) => Err(fault_of(e)),
                            Ok((leaf, used)) => Ok((Node::Leaf(leaf), used + 1)),
                        }
                    }
                },
            },
        }
    }
}

impl TrieNodeType {
    /// Bytes of the fixed encoding.
    pub fn byte_len(&self) -> (n: usize)
        requires
            self@.wf(),
        ensures
            n == self@.encoded_len(false),
            n <= 4000,
    {
        match self {
            TrieNodeType::Branch(branch) => branch.byte_len(),
            TrieNodeType::Leaf(leaf) => {
                let extent: usize = if leaf.extent.is_some() { 32 } else { 0 };
                42 + leaf.path.len() + extent
            },
        }
    }

    /// Bytes of the encoding with compressed children.
    pub fn byte_len_compressed(&self) -> (n: usize)
        requires
            self@.wf(),
        ensures
            n == self@.encoded_len(true),
            n <= 4000,
    {
        match self {
            TrieNodeType::Branch(branch) => branch.byte_len_compressed(),
            TrieNodeType::Leaf(leaf) => {
                let extent: usize = if leaf.extent.is_some() { 32 } else { 0 };
                42 + leaf.path.len() + extent
            },
        }
    }

    /// Append the fixed encoding.
    pub fn write_bytes(&self, out: &mut Vec<u8>) -> (done: Result<(), Error>)
        requires
            self@.wf(),
        ensures
            if self@.writable() {
                done is Ok && final(out)@ == old(out)@ + self@.plain()
            } else {
                done == Err::<(), Error>(Error::CorruptionError(Corruption::MissingLeafValue))
                    && final(out)@ == old(out)@
            },
    {
        self.write_encoded(out, false)
    }

    /// Append the encoding with compressed children.
    pub fn write_bytes_compressed(&self, out: &mut Vec<u8>) -> (done: Result<(), Error>)
        requires
            self@.wf(),
        ensures
            if self@.writable() {
                done is Ok && final(out)@ == old(out)@ + self@.compressed()
            } else {
                done == Err::<(), Error>(Error::CorruptionError(Corruption::MissingLeafValue))
                    && final(out)@ == old(out)@
            },
    {
        self.write_encoded(out, true)
    }

    fn write_encoded(&self, out: &mut Vec<u8>, compressed: bool) -> (done: Result<(), Error>)
        requires
            self@.wf(),
        ensures
            if self@.writable() {
                done is Ok && final(out)@ == old(out)@ + self@.encoded(compressed)
            } else {
                done == Err::<(), Error>(Error::CorruptionError(Corruption::MissingLeafValue))
                    && final(out)@ == old(out)@
            },
    {
        match self {
            TrieNodeType::Branch(branch) => {
                let id: u8 = branch.id();
                if compressed {
                    out.push(id + 64);
                    branch.write_compressed_body(out);
                } else {
                    out.push(id);
                    branch.write_plain_body(out);
                }
                assert(out@ =~= old(out)@ + self@.encoded(compressed));
                Ok(())
            },
            TrieNodeType::Leaf(leaf) => {
                if leaf.data.is_none() {
                    return Err(corrupt(Corruption::MissingLeafValue));
                }
                out.push(leaf.plain_marker());
                let done = leaf.write_plain_body(out);
                assert(out@ =~= old(out)@ + self@.encoded(compressed));
                done
            },
        }
    }
}

/// A writable node's encodings are as long as announced.
pub proof fn law_encoded_len(node: Node, compressed: bool)
    requires
        node.wf(),
        node.writable(),
    ensures
        node.encoded(compressed).len() == node.encoded_len(compressed),
{
    match node {
        Node::Branch(_) => {},
        Node::Leaf(leaf) => {
            match leaf.extent {
                Some(extent) => crate::value::law_extent_roundtrip(extent, Seq::empty()),
                None => {},
            }
        },
    }
}

/// Decode the node that bytes start with, by the type that its parent names.
/// A stored patch comes back as an error that carries it.
pub fn decode_nodetype_from_slice_at_head(bytes: &[u8], ptr_id: u8) -> (out: Result<
    (TrieNodeType, usize),
    Error,
>)
    requires
        ptr_id == 6 ==> (stored_id(bytes@) is Err || stored_id(bytes@) == Ok::<TrieNodeID, Error>(
            TrieNodeID::Patch,
        )),
    ensures
        match Node::decode(bytes@, ptr_id) {
            Ok((node, len)) => out matches Ok((t, n)) && t@ == node && t@.wf() && t.is_fresh()
                && n == len && n <= bytes.len(),
            Err(fault) => out matches Err(e) && fault_of(e) == fault,
        },
{
    proof {
        reveal(Node::decode);
    }
    let id: TrieNodeID = match TrieNodeID::from_u8(ptr_id) {
        Some(id) => id,
        None => return Err(corrupt(Corruption::BadNodeId)),
    };
    let stored: TrieNodeID = match stored_node_id_from_bytes(bytes) {
        Ok(stored) => stored,
        Err(e) => return Err(e),
    };
    if stored == TrieNodeID::Patch {
        return match crate::node::TrieNodePatch::from_slice(bytes) {
            Ok((patch, _)) => Err(Error::Patch(patch)),
            Err(e) => Err(e),
        };
    }
    let payload = &bytes[1..bytes.len()];
    if id.capacity() != 0 {
        match TrieBranch::from_parts(id, bytes[0], payload) {
            Ok((branch, used)) => Ok((TrieNodeType::Branch(branch), used + 1)),
            Err(e) => Err(e),
        }
    } else if id == TrieNodeID::Empty {
        Err(corrupt(Corruption::StoredEmptyNode))
    } else {
        match TrieLeaf::from_parts(bytes[0], payload) {
            Ok((leaf, used)) => Ok((TrieNodeType::Leaf(leaf), used + 1)),
            Err(e) => Err(e),
        }
    }
}

/// Decode bytes that hold exactly one node of a type.
pub fn decode_stable_node_bytes(bytes: &[u8], node_type: TrieNodeID) -> (out: Result<
    TrieNodeType,
    Error,
>)
    requires
        node_type is Patch ==> (stored_id(bytes@) is Err || stored_id(bytes@) == Ok::<
            TrieNodeID,
            Error,
        >(TrieNodeID::Patch)),
    ensures
        match Node::decode(bytes@, node_type.code()) {
            Ok((node, len)) => if len == bytes@.len() {
                out matches Ok(t) && t@ == node && t@.wf() && t.is_fresh()
            } else {
                out == Err::<TrieNodeType, Error>(
                    Error::CorruptionError(Corruption::LengthMismatch),
                )
            },
            Err(fault) => out matches Err(e) && fault_of(e) == fault,
        },
{
    match decode_nodetype_from_slice_at_head(bytes, node_type.as_u8()) {
        Ok((node, used)) => if used == bytes.len() {
            Ok(node)
        } else {
            Err(corrupt(Corruption::LengthMismatch))
        },
        Err(e) => Err(e),
    }
}

/// What decoding asks of a branch's or a leaf's body.
proof fn lemma_decode_body(node: Node, marker: u8, body: Seq<u8>, tail: Seq<u8>)
    requires
        node_id_of(clear_ctrl_bits(marker)) == Some(node.id()),
        match node {
            Node::Branch(branch) => branch.id.is_branch() && Branch::load(
                branch.id,
                marker,
                body + tail,
            ) == Ok::<(Branch, nat), Error>((branch, body.len())),
            Node::Leaf(leaf) => Leaf::load(marker, body + tail) == Ok::<(Leaf, nat), Error>(
                (leaf, body.len()),
            ),
        },
    ensures
        Node::decode(seq![marker] + body + tail, node.id().code()) == Ok::<(Node, nat), Fault>(
            (node, body.len() + 1),
        ),
{
    reveal(Node::decode);
    let bytes = seq![marker] + body + tail;
    assert(bytes.subrange(1, bytes.len() as int) =~= body + tail);
    assert(node_id_of(node.id().code()) == Some(node.id()));
}

proof fn lemma_decode_compressed(branch: Branch, tail: Seq<u8>)
    requires
        branch.wf(),
        canonical(branch.ptrs),
    ensures
        Node::decode(
            seq![(branch.id.code() + 64) as u8] + branch.compressed_body() + tail,
            branch.id.code(),
        ) == Ok::<(Node, nat), Fault>((Node::Branch(branch), branch.compressed_body().len() + 1)),
{
    law_compressed_branch_roundtrip(branch, tail);
    lemma_decode_body(
        Node::Branch(branch),
        (branch.id.code() + 64) as u8,
        branch.compressed_body(),
        tail,
    );
}

proof fn lemma_decode_plain(branch: Branch, tail: Seq<u8>)
    requires
        branch.wf(),
        plain_ids(branch.ptrs),
    ensures
        Node::decode(seq![branch.id.code()] + branch.plain_body() + tail, branch.id.code()) == Ok::<
            (Node, nat),
            Fault,
        >((Node::Branch(branch), branch.plain_body().len() + 1)),
{
    law_plain_branch_roundtrip(branch, tail);
    lemma_decode_body(Node::Branch(branch), branch.id.code(), branch.plain_body(), tail);
}

proof fn lemma_decode_leaf(leaf: Leaf, tail: Seq<u8>)
    requires
        leaf.wf(),
        leaf.data is Some,
        leaf.inline is None,
    ensures
        Node::decode(seq![leaf.plain_marker()] + leaf.plain_body() + tail, 1) == Ok::<
            (Node, nat),
            Fault,
        >((Node::Leaf(leaf), leaf.plain_body().len() + 1)),
{
    law_plain_leaf_roundtrip(leaf, tail);
    lemma_decode_body(Node::Leaf(leaf), leaf.plain_marker(), leaf.plain_body(), tail);
}

/// Decoding gives back any writable node that either encoding wrote, by the type its parents name.
#[verifier::spinoff_prover]
#[verifier::rlimit(60)]
pub proof fn law_node_roundtrip(node: Node, compressed: bool, tail: Seq<u8>)
    requires
        node.wf(),
        node.writable(),
        kept_slots(node.ptrs(), compressed),
        node is Leaf ==> node->Leaf_0.inline is None,
    ensures
        Node::decode(node.encoded(compressed) + tail, node.id().code()) == Ok::<(Node, nat), Fault>(
            (node, node.encoded(compressed).len()),
        ),
{
    match node {
        Node::Branch(branch) => {
            if compressed {
                lemma_decode_compressed(branch, tail);
            } else {
                lemma_decode_plain(branch, tail);
            }
        },
        Node::Leaf(leaf) => lemma_decode_leaf(leaf, tail),
    }
}

/// Calculate how many bytes a node will be when serialized, including its hash.
pub fn get_node_byte_len(node: &TrieNodeType) -> (n: usize)
    requires
        node@.wf(),
    ensures
        n == 32 + node@.encoded_len(false),
{
    32 + node.byte_len()
}

/// Calculate how many bytes a node with compressed children will be when serialized, including
/// its hash.
pub fn get_node_byte_len_compressed(node: &TrieNodeType) -> (n: usize)
    requires
        node@.wf(),
    ensures
        n == 32 + node@.encoded_len(true),
{
    32 + node.byte_len_compressed()
}

/// Append a node's hash and encoding; the number of bytes appended.
pub fn write_node_bytes(out: &mut Vec<u8>, node: &TrieNodeType, hash: TrieHash, compressed: bool) -> (n:
    Result<u64, Error>)
    requires
        node@.wf(),
    ensures
        if node@.writable() {
            &&& n matches Ok(count) && count == 32 + node@.encoded_len(compressed)
            &&& final(out)@ == old(out)@ + hash@ + node@.encoded(compressed)
        } else {
            &&& n == Err::<u64, Error>(Error::CorruptionError(Corruption::MissingLeafValue))
            &&& final(out)@ == old(out)@ + hash@
        },
{
    push_bytes(out, hash.as_bytes());
    let done = if compressed {
        node.write_bytes_compressed(out)
    } else {
        node.write_bytes(out)
    };
    match done {
        Ok(()) => {
            let len: usize = if compressed { node.byte_len_compressed() } else { node.byte_len() };
            Ok(32 + len as u64)
        },
        Err(e) => Err(e),
    }
}

/// Append a node's hash and encoding without compressed child pointers.
pub fn write_nodetype_bytes(out: &mut Vec<u8>, node: &TrieNodeType, hash: &TrieHash) -> (n: Result<
    u64,
    Error,
>)
    requires
        node@.wf(),
    ensures
        if node@.writable() {
            &&& n matches Ok(count) && count == 32 + node@.encoded_len(false)
            &&& final(out)@ == old(out)@ + hash@ + node@.plain()
        } else {
            &&& n == Err::<u64, Error>(Error::CorruptionError(Corruption::MissingLeafValue))
            &&& final(out)@ == old(out)@ + hash@
        },
{
    write_node_bytes(out, node, *hash, false)
}

/// Append a node's hash and encoding with compressed child pointers.
pub fn write_nodetype_bytes_compressed(out: &mut Vec<u8>, node: &TrieNodeType, hash: TrieHash) -> (n:
    Result<u64, Error>)
    requires
        node@.wf(),
    ensures
        if node@.writable() {
            &&& n matches Ok(count) && count == 32 + node@.encoded_len(true)
            &&& final(out)@ == old(out)@ + hash@ + node@.compressed()
        } else {
            &&& n == Err::<u64, Error>(Error::CorruptionError(Corruption::MissingLeafValue))
            &&& final(out)@ == old(out)@ + hash@
        },
{
    write_node_bytes(out, node, hash, true)
}

/// Whether a block naming function always answers with the table's entry.
pub open spec fn names_blocks<F: Fn(u32) -> [u8; 32]>(
    name: F,
    table: spec_fn(u32) -> Seq<u8>,
) -> bool {
    forall|id: u32, found: [u8; 32]|
        #[trigger] call_ensures(name, (id,), found) ==> found@ == table(id)
}

/// What a hash commits to of a child pointer: its type, its byte and the ancestor it is in.
pub open spec fn ptr_commitment(ptr: TriePtr, table: spec_fn(u32) -> Seq<u8>) -> Seq<u8> {
    seq![ptr.id, ptr.chr] + if ptr.id >= 128 {
        table(ptr.back_block)
    } else {
        Seq::new(32, |i: int| 0u8)
    }
}

/// What a hash commits to of child pointers.
pub open spec fn ptrs_commitment(ptrs: Seq<TriePtr>, table: spec_fn(u32) -> Seq<u8>) -> Seq<u8>
    decreases ptrs.len(),
{
    if ptrs.len() == 0 {
        Seq::empty()
    } else {
        ptrs_commitment(ptrs.drop_last(), table) + ptr_commitment(ptrs.last(), table)
    }
}

impl Branch {
    /// The bytes that a branch's hash commits to before its children's hashes.
    pub open spec fn commitment(self, table: spec_fn(u32) -> Seq<u8>) -> Seq<u8> {
        seq![self.id.code()] + ptrs_commitment(self.ptrs, table) + framed(self.path)
    }
}

/// Append what a hash commits to of child pointers.
fn push_ptrs_commitment<F: Fn(u32) -> [u8; 32]>(out: &mut Vec<u8>, ptrs: &[TriePtr], name: &F)
    requires
        forall|id: u32| call_requires(*name, (id,)),
    ensures
        forall|table: spec_fn(u32) -> Seq<u8>| #[trigger]
            names_blocks(*name, table) ==> final(out)@ == old(out)@ + ptrs_commitment(ptrs@, table),
{
    let mut at: usize = 0;
    proof {
        assert forall|table: spec_fn(u32) -> Seq<u8>| #[trigger]
            names_blocks(*name, table) implies out@ == old(out)@ + ptrs_commitment(
            ptrs@.subrange(0, 0),
            table,
        ) by {
            assert(out@ =~= old(out)@ + ptrs_commitment(ptrs@.subrange(0, 0), table));
        }
    }
    while at < ptrs.len()
        invariant
            at <= ptrs@.len(),
            forall|id: u32| call_requires(*name, (id,)),
            forall|table: spec_fn(u32) -> Seq<u8>| #[trigger]
                names_blocks(*name, table) ==> out@ == old(out)@ + ptrs_commitment(
                    ptrs@.subrange(0, at as int),
                    table,
                ),
        decreases ptrs@.len() - at,
    {
        let ptr: TriePtr = ptrs[at];
        let ghost before = out@;
        out.push(ptr.id);
        out.push(ptr.chr);
        let block: [u8; 32] = if ptr.id >= 128 { name(ptr.back_block) } else { [0u8; 32] };
        push_bytes(out, &block);
        proof {
            let part = ptrs@.subrange(0, at + 1);
            assert(part.drop_last() =~= ptrs@.subrange(0, at as int));
            assert forall|table: spec_fn(u32) -> Seq<u8>| #[trigger]
                names_blocks(*name, table) implies out@ == old(out)@ + ptrs_commitment(
                part,
                table,
            ) by {
                if ptr.id < 128 {
                    assert(block@ =~= Seq::new(32, |i: int| 0u8));
                }
                assert(out@ =~= before + ptr_commitment(ptr, table));
                assert(out@ =~= old(out)@ + ptrs_commitment(part, table));
            }
        }
        at = at + 1;
    }
    assert(ptrs@.subrange(0, at as int) =~= ptrs@);
}

impl TrieBranch {
    /// Append the bytes that the branch's hash commits to before its children's hashes.
    pub fn write_consensus_bytes<F: Fn(u32) -> [u8; 32]>(&self, name: &F, out: &mut Vec<u8>)
        requires
            self@.wf(),
            forall|id: u32| call_requires(*name, (id,)),
        ensures
            forall|table: spec_fn(u32) -> Seq<u8>| #[trigger]
                names_blocks(*name, table) ==> final(out)@ == old(out)@ + self@.commitment(table),
    {
        out.push(self.id());
        let ghost head = out@;
        push_ptrs_commitment(out, self.ptrs.as_slice(), name);
        let _ = write_path_to_bytes(self.path.as_slice(), out);
        proof {
            assert forall|table: spec_fn(u32) -> Seq<u8>| #[trigger]
                names_blocks(*name, table) implies out@ == old(out)@ + self@.commitment(table) by {
                assert(out@ =~= old(out)@ + self@.commitment(table));
            }
        }
    }
}

/// Calculate the hash of a branch, given its children's hashes and the names of the blocks that
/// its back-pointers lead to.
pub fn get_node_hash<F: Fn(u32) -> [u8; 32]>(
    node: &TrieBranch,
    child_hashes: &[TrieHash],
    name: &F,
) -> (hash: TrieHash)
    requires
        node@.wf(),
        forall|id: u32| call_requires(*name, (id,)),
    ensures
        forall|table: spec_fn(u32) -> Seq<u8>| #[trigger]
            names_blocks(*name, table) ==> hash@ == sha512_256_of(
                node@.commitment(table) + concat_hashes(child_hashes@),
            ),
{
    let mut data: Vec<u8> = Vec::new();
    node.write_consensus_bytes(name, &mut data);
    let ghost own = data@;
    push_bytes(&mut data, hash_bytes(child_hashes).as_slice());
    proof {
        assert forall|table: spec_fn(u32) -> Seq<u8>| #[trigger]
            names_blocks(*name, table) implies data@ == node@.commitment(table) + concat_hashes(
            child_hashes@,
        ) by {
            assert(own =~= node@.commitment(table));
        }
    }
    TrieHash::of_bytes(data.as_slice())
}

/// Calculate the hash of a leaf.
pub fn get_leaf_hash(node: &TrieLeaf) -> (hash: TrieHash)
    requires
        node@.data is Some,
    ensures
        hash@ == sha512_256_of(node@.commitment()),
{
    let mut data: Vec<u8> = Vec::new();
    let _ = node.write_commitment_bytes(&mut data);
    assert(data@ =~= node@.commitment());
    TrieHash::of_bytes(data.as_slice())
}

/// Calculate the hash of a node, given its children's hashes and the names of the blocks that its
/// back-pointers lead to.
pub fn get_nodetype_hash_bytes<F: Fn(u32) -> [u8; 32]>(
    node: &TrieNodeType,
    child_hash_bytes: &[TrieHash],
    name: &F,
) -> (hash: TrieHash)
    requires
        node@.wf(),
        node@.writable(),
        forall|id: u32| call_requires(*name, (id,)),
    ensures
        match node@ {
            Node::Branch(branch) => forall|table: spec_fn(u32) -> Seq<u8>| #[trigger]
                names_blocks(*name, table) ==> hash@ == sha512_256_of(
                    branch.commitment(table) + concat_hashes(child_hash_bytes@),
                ),
            Node::Leaf(leaf) => hash@ == sha512_256_of(
                leaf.commitment() + concat_hashes(child_hash_bytes@),
            ),
        },
{
    match node {
        TrieNodeType::Branch(branch) => get_node_hash(branch, child_hash_bytes, name),
        TrieNodeType::Leaf(leaf) => {
            let mut data: Vec<u8> = Vec::new();
            let _ = leaf.write_commitment_bytes(&mut data);
            push_bytes(&mut data, hash_bytes(child_hash_bytes).as_slice());
            assert(data@ =~= leaf@.commitment() + concat_hashes(child_hash_bytes@));
            TrieHash::of_bytes(data.as_slice())
        },
    }
}

} // verus!
