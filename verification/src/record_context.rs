//! Leaf commitments of records whose physical form does not store them.
use vstd::prelude::*;

use crate::error::{corrupt, Corruption, Error, IoErrorKind};
use crate::hash::{sha512_256_of, TrieHash};
use crate::inline_value::{Inline, InlineValue};
use crate::leaf::{Leaf, Node, TrieLeaf, TrieNodeType};
use crate::node::TrieNodeID;
use crate::node_codec::get_leaf_hash;
use crate::patch::fault_of;
use crate::raw_leaf::{self, payload_len_spec};
use crate::record::{NodeRecord, NodeRecordFormat, Record};
use crate::value::{Extent, MARFValue, ValueExtent};

verus! {

/// Resolves logical commitments for physical leaves without coupling the index to a value codec.
pub trait ValueExtentResolver {
    /// Whether this source may answer so for an extent.
    spec fn may_commit(&self, extent: Extent, answer: Result<MARFValue, Error>) -> bool;

    /// Whether this source may answer so for an inline value.
    spec fn may_commit_inline(&self, value: Inline, answer: Result<MARFValue, Error>) -> bool;

    /// Reconstruct the canonical value commitment from an immutable extent record.
    fn commitment(&self, extent: ValueExtent) -> (answer: Result<MARFValue, Error>)
        ensures
            self.may_commit(extent@, answer),
    ;

    /// Reconstruct an inline value commitment only when explicitly requested.
    fn inline_commitment(&self, value: &InlineValue) -> (answer: Result<MARFValue, Error>)
        ensures
            self.may_commit_inline(value@, answer),
    ;
}

/// Physical record layout and source for explicitly requested leaf commitments.
pub struct RecordContext<R: ValueExtentResolver> {
    /// Database-selected physical record layout.
    pub format: NodeRecordFormat,
    /// Immutable value source; unused by ordinary locator lookups.
    pub value_resolver: Option<R>,
}

/// A leaf after a value source answered for it.
pub open spec fn with_answer(leaf: Leaf, answer: Result<MARFValue, Error>) -> Result<Leaf, Error> {
    match answer {
        Ok(value) => Ok(Leaf { data: Some(value@), ..leaf }),
        Err(e) => Err(e),
    }
}

/// Put a value source's answer into a leaf; a failure leaves the leaf alone.
pub fn take_answer(leaf: &mut TrieLeaf, answer: Result<MARFValue, Error>) -> (done: Result<
    (),
    Error,
>)
    ensures
        match with_answer(old(leaf)@, answer) {
            Ok(resolved) => done is Ok && final(leaf)@ == resolved,
            Err(e) => done == Err::<(), Error>(e) && final(leaf)@ == old(leaf)@,
        },
{
    match answer {
        Ok(value) => {
            leaf.data = Some(value);
            Ok(())
        },
        Err(e) => Err(e),
    }
}

/// Bytes of the record that a type-first leaf with stored lengths starts, as far as they are read.
pub open spec fn probe_end(format: NodeRecordFormat, bytes: Seq<u8>) -> Result<nat, Error> {
    let short = Error::IOError(IoErrorKind::UnexpectedEof);
    if format is Legacy {
        if bytes.len() < 33 {
            Err(short)
        } else {
            Ok(33)
        }
    } else if bytes.len() == 0 {
        Err(short)
    } else {
        match format.physical(bytes[0]) {
            Err(e) => Err(e),
            Ok(TrieNodeID::InlineLeaf) => if bytes.len() < 2 {
                Err(short)
            } else if bytes[1] > 32 {
                Err(Error::CorruptionError(Corruption::OversizedPath))
            } else if bytes.len() < 4 + bytes[1] {
                Err(short)
            } else {
                let end = 4 + bytes[1] + bytes[2 + bytes[1]] + bytes[3 + bytes[1]];
                if bytes.len() < end {
                    Err(short)
                } else {
                    Ok(end as nat)
                }
            },
            Ok(TrieNodeID::RawLeaf) => if bytes.len() < 2 {
                Err(short)
            } else {
                match payload_len_spec(bytes[1]) {
                    Err(e) => Err(e),
                    Ok(len) => if bytes.len() < 1 + len {
                        Err(short)
                    } else {
                        Ok(1 + len)
                    },
                }
            },
            Ok(TrieNodeID::ValueLeaf) => if bytes.len() < 2 {
                Err(short)
            } else if bytes[1] > 32 {
                Err(Error::CorruptionError(Corruption::OversizedPath))
            } else if bytes.len() < 34 + bytes[1] {
                Err(short)
            } else {
                Ok((34 + bytes[1]) as nat)
            },
            Ok(_) => if bytes.len() < 33 {
                Err(short)
            } else {
                Ok(33)
            },
        }
    }
}

/// How many bytes a probe must read before it can be completed or extended, given those it has.
pub open spec fn probe_need_spec(format: NodeRecordFormat, have: Seq<u8>) -> Result<nat, Error> {
    if format is Legacy {
        Ok(33)
    } else if have.len() == 0 {
        Ok(1)
    } else {
        match format.physical(have[0]) {
            Err(e) => Err(e),
            Ok(TrieNodeID::InlineLeaf) => if have.len() < 2 {
                Ok(2)
            } else if have[1] > 32 {
                Err(Error::CorruptionError(Corruption::OversizedPath))
            } else if have.len() < 4 + have[1] {
                Ok((4 + have[1]) as nat)
            } else {
                Ok((4 + have[1] + have[2 + have[1]] + have[3 + have[1]]) as nat)
            },
            Ok(TrieNodeID::RawLeaf) => if have.len() < 2 {
                Ok(2)
            } else {
                match payload_len_spec(have[1]) {
                    Err(e) => Err(e),
                    Ok(len) => Ok(1 + len),
                }
            },
            Ok(TrieNodeID::ValueLeaf) => if have.len() < 2 {
                Ok(2)
            } else if have[1] > 32 {
                Err(Error::CorruptionError(Corruption::OversizedPath))
            } else {
                Ok((34 + have[1]) as nat)
            },
            Ok(_) => Ok(33),
        }
    }
}

/// How many bytes a probe must read in all before it can be completed or extended, given those it
/// has; a probe that has as many is complete.
pub fn probe_need(format: NodeRecordFormat, have: &[u8]) -> (need: Result<usize, Error>)
    ensures
        match probe_need_spec(format, have@) {
            Ok(n) => need matches Ok(m) && m == n && m <= 546,
            Err(e) => need == Err::<usize, Error>(e),
        },
{
    if !format.is_type_first() {
        return Ok(33);
    }
    if have.len() == 0 {
        return Ok(1);
    }
    let physical: TrieNodeID = match format.physical_id(have[0]) {
        Ok(id) => id,
        Err(e) => return Err(e),
    };
    match physical {
        TrieNodeID::InlineLeaf => {
            if have.len() < 2 {
                return Ok(2);
            }
            let path: usize = have[1] as usize;
            if path > 32 {
                return Err(corrupt(Corruption::OversizedPath));
            }
            if have.len() < 4 + path {
                return Ok(4 + path);
            }
            Ok(4 + path + have[2 + path] as usize + have[3 + path] as usize)
        },
        TrieNodeID::RawLeaf => {
            if have.len() < 2 {
                return Ok(2);
            }
            match raw_leaf::payload_len(have[1]) {
                Ok(len) => Ok(1 + len),
                Err(e) => Err(e),
            }
        },
        TrieNodeID::ValueLeaf => {
            if have.len() < 2 {
                return Ok(2);
            }
            let path: usize = have[1] as usize;
            if path > 32 {
                return Err(corrupt(Corruption::OversizedPath));
            }
            Ok(34 + path)
        },
        _ => Ok(33),
    }
}

/// Asking again with the bytes asked for reaches the end of the record in at most four reads.
#[verifier::spinoff_prover]
#[verifier::rlimit(40)]
proof fn lemma_probe_step(format: NodeRecordFormat, bytes: Seq<u8>, have: int)
    requires
        0 <= have <= bytes.len(),
    ensures
        match probe_need_spec(format, bytes.subrange(0, have)) {
            Err(e) => probe_end(format, bytes) == Err::<nat, Error>(e),
            Ok(need) => {
                &&& need > bytes.len() ==> probe_end(format, bytes) == Err::<nat, Error>(
                    Error::IOError(IoErrorKind::UnexpectedEof),
                )
                &&& need == have ==> probe_end(format, bytes) == Ok::<nat, Error>(need)
            },
        },
{
    let part = bytes.subrange(0, have);
    assert(have > 0 ==> part[0] == bytes[0]);
    assert(have > 1 ==> part[1] == bytes[1]);
    if have >= 4 {
        let path = bytes[1] as int;
        if have >= 4 + path {
            assert(part[2 + path] == bytes[2 + path]);
            assert(part[3 + path] == bytes[3 + path]);
        }
    }
}

/// Every answer asks for at least the bytes that were asked for before.
proof fn lemma_probe_grows(format: NodeRecordFormat, bytes: Seq<u8>, have: int, need: int)
    requires
        0 <= have <= need <= bytes.len(),
        probe_need_spec(format, bytes.subrange(0, have)) == Ok::<nat, Error>(need as nat),
    ensures
        match probe_need_spec(format, bytes.subrange(0, need)) {
            Ok(next) => next >= need,
            Err(_) => true,
        },
{
    let a = bytes.subrange(0, have);
    let b = bytes.subrange(0, need);
    assert(have > 0 ==> a[0] == b[0]);
    assert(have > 1 ==> a[1] == b[1]);
    if have >= 4 {
        let path = bytes[1] as int;
        if have >= 4 + path {
            assert(a[2 + path] == b[2 + path]);
            assert(a[3 + path] == b[3 + path]);
        }
    }
}

/// The extent of the record that bytes start with.
fn probe_len(format: NodeRecordFormat, bytes: &[u8]) -> (end: Result<usize, Error>)
    ensures
        match probe_end(format, bytes@) {
            Ok(n) => end matches Ok(m) && m == n && m <= bytes.len(),
            Err(e) => end == Err::<usize, Error>(e),
        },
{
    let mut have: usize = 0;
    loop
        invariant
            have <= bytes.len(),
            have <= 546,
            match probe_need_spec(format, bytes@.subrange(0, have as int)) {
                Ok(next) => next >= have,
                Err(_) => true,
            },
        decreases 546 - have,
    {
        proof {
            lemma_probe_step(format, bytes@, have as int);
        }
        let need: usize = match probe_need(format, &bytes[0..have]) {
            Ok(need) => need,
            Err(e) => return Err(e),
        };
        if need > bytes.len() {
            return Err(Error::IOError(IoErrorKind::UnexpectedEof));
        }
        if need == have {
            return Ok(have);
        }
        proof {
            lemma_probe_grows(format, bytes@, have as int, need as int);
        }
        have = need;
    }
}

impl<R: ValueExtentResolver> RecordContext<R> {
    /// Whether a leaf may be resolved so: a known value stays, and otherwise the value source
    /// answers for the leaf's inline value or its extent.
    pub open spec fn resolves(&self, leaf: Leaf, outcome: Result<Leaf, Error>) -> bool {
        if leaf.data is Some {
            outcome == Ok::<Leaf, Error>(leaf)
        } else {
            match self.value_resolver {
                None => outcome == Err::<Leaf, Error>(
                    Error::CorruptionError(Corruption::NoValueSource),
                ),
                Some(source) => match leaf.inline {
                    Some(value) => exists|answer: Result<MARFValue, Error>| #[trigger]
                        source.may_commit_inline(value, answer) && outcome == with_answer(
                            leaf,
                            answer,
                        ),
                    None => match leaf.extent {
                        None => outcome == Err::<Leaf, Error>(
                            Error::CorruptionError(Corruption::HashlessLeafWithoutValue),
                        ),
                        Some(extent) => exists|answer: Result<MARFValue, Error>| #[trigger]
                            source.may_commit(extent, answer) && outcome == with_answer(
                                leaf,
                                answer,
                            ),
                    },
                },
            }
        }
    }

    /// Whether a record may hash so: stored hashes stand, and other records hash as the leaf that
    /// they resolve to.
    pub open spec fn hashes(&self, record: Record, outcome: Result<TrieHash, Error>) -> bool {
        match record.hash {
            Some(hash) => outcome matches Ok(found) && found@ == hash,
            None => match record.decode(1) {
                Err(fault) => outcome matches Err(e) && fault_of(e) == fault,
                Ok((Node::Branch(_), _)) => outcome == Err::<TrieHash, Error>(
                    Error::CorruptionError(Corruption::HashlessNonLeaf),
                ),
                Ok((Node::Leaf(leaf), _)) => exists|resolved: Result<Leaf, Error>| #[trigger]
                    self.resolves(leaf, resolved) && match resolved {
                        Ok(full) => outcome matches Ok(found) && found@ == sha512_256_of(
                            full.commitment(),
                        ),
                        Err(e) => outcome == Err::<TrieHash, Error>(e),
                    },
            },
        }
    }

    /// Resolve a missing logical value only for leaves whose physical representation needs it.
    pub fn resolve_leaf(&self, leaf: &mut TrieLeaf) -> (done: Result<(), Error>)
        ensures
            exists|outcome: Result<Leaf, Error>| #[trigger]
                self.resolves(old(leaf)@, outcome) && match outcome {
                    Ok(resolved) => done is Ok && final(leaf)@ == resolved && resolved.data is Some,
                    Err(e) => done == Err::<(), Error>(e) && final(leaf)@ == old(leaf)@,
                },
    {
        if leaf.data.is_some() {
            assert(self.resolves(old(leaf)@, Ok::<Leaf, Error>(leaf@)));
            return Ok(());
        }
        let source = match &self.value_resolver {
            Some(source) => source,
            None => {
                let e = corrupt(Corruption::NoValueSource);
                assert(self.resolves(old(leaf)@, Err::<Leaf, Error>(e)));
                return Err(e);
            },
        };
        let ghost before = leaf@;
        let answer: Result<MARFValue, Error> = match &leaf.inline {
            Some(value) => {
                let answer = source.inline_commitment(value);
                assert(before.inline == Some(value@));
                assert(source.may_commit_inline(before.inline->0, answer));
                answer
            },
            None => match leaf.extent {
                Some(extent) => {
                    let answer = source.commitment(extent);
                    assert(before.extent == Some(extent@));
                    assert(source.may_commit(before.extent->0, answer));
                    answer
                },
                None => {
                    let e = corrupt(Corruption::HashlessLeafWithoutValue);
                    assert(self.resolves(before, Err::<Leaf, Error>(e)));
                    return Err(e);
                },
            },
        };
        assert(self.resolves(before, with_answer(before, answer)));
        take_answer(leaf, answer)
    }

    /// Return a stored branch hash or compute a compact leaf's logical hash on demand.
    pub fn hash(&self, record: NodeRecord<'_>) -> (hash: Result<TrieHash, Error>)
        requires
            record.prefix_len + record.payload.len() <= usize::MAX,
        ensures
            self.hashes(record@, hash),
    {
        match record.hash {
            Some(hash) => return Ok(hash),
            None => {},
        }
        let node: TrieNodeType = match record.decode_node(1) {
            Ok((node, _)) => node,
            Err(e) => return Err(e),
        };
        match node {
            TrieNodeType::Leaf(leaf) => {
                let mut leaf = leaf;
                match self.resolve_leaf(&mut leaf) {
                    Ok(()) => Ok(get_leaf_hash(&leaf)),
                    Err(e) => Err(e),
                }
            },
            TrieNodeType::Branch(_) => Err(corrupt(Corruption::HashlessNonLeaf)),
        }
    }

    /// Probe a positioned record, reading its payload only when a leaf hash must be computed.
    /// The logical type, the hash and the bytes that were read come back.
    pub fn read_probe(&self, bytes: &[u8]) -> (out: Result<(TrieNodeID, TrieHash, usize), Error>)
        ensures
            match probe_end(self.format, bytes@) {
                Err(e) => out == Err::<(TrieNodeID, TrieHash, usize), Error>(e),
                Ok(end) => match self.format.parsed(bytes@.subrange(0, end as int)) {
                    Err(e) => out == Err::<(TrieNodeID, TrieHash, usize), Error>(e),
                    Ok(record) => exists|hash: Result<TrieHash, Error>| #[trigger]
                        self.hashes(record, hash) && match hash {
                            Ok(found) => out matches Ok((id, h, n)) && record.logical() == Some(id)
                                && h == found && n == end,
                            Err(e) => out == Err::<(TrieNodeID, TrieHash, usize), Error>(e),
                        },
                },
            },
    {
        let end: usize = match probe_len(self.format, bytes) {
            Ok(end) => end,
            Err(e) => return Err(e),
        };
        let record = match self.format.parse(&bytes[0..end]) {
            Ok(record) => record,
            Err(e) => return Err(e),
        };
        let id: TrieNodeID = record.logical_type();
        match self.hash(record) {
            Ok(hash) => Ok((id, hash, end)),
            Err(e) => Err(e),
        }
    }
}

} // verus!
