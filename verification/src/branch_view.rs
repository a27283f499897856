//! Branch payloads of either marker-first codec.
use vstd::prelude::*;

use crate::error::{corrupt, Corruption, Error};
use crate::mapped_node::{Directory, MappedBranch};
use crate::node::{Branch, TrieBranch, TrieNodeID, TrieNodeTransientMeta, TriePtr};
use crate::packed_branch::{Columns, PackedBranch};
use crate::record::NodeRecordFormat;

verus! {

/// The parts of a branch payload in either marker-first codec.
pub enum BranchParts {
    Directory(Directory),
    Packed(Columns),
}

impl BranchParts {
    /// The parts that bytes start with, in the codec of a record format.
    pub open spec fn parse(format: NodeRecordFormat, id: TrieNodeID, bytes: Seq<u8>) -> Result<
        BranchParts,
        Error,
    > {
        match format {
            NodeRecordFormat::TypeFirstV4 => match Columns::parse(id, bytes) {
                Ok(columns) => Ok(BranchParts::Packed(columns)),
                Err(e) => Err(e),
            },
            NodeRecordFormat::Legacy => Err(Error::CorruptionError(Corruption::LegacyBranchView)),
            _ => match Directory::parse(id, bytes) {
                Ok(directory) => Ok(BranchParts::Directory(directory)),
                Err(e) => Err(e),
            },
        }
    }

    /// The child along an edge.
    pub open spec fn child(self, edge: u8) -> Result<Option<TriePtr>, Error> {
        match self {
            BranchParts::Directory(directory) => directory.child(edge),
            BranchParts::Packed(columns) => columns.child(edge),
        }
    }

    /// Payload bytes.
    pub open spec fn length(self) -> nat {
        match self {
            BranchParts::Directory(directory) => directory.length,
            BranchParts::Packed(columns) => columns.length,
        }
    }

    /// The branch with all its logical slots.
    pub open spec fn to_branch(self) -> Result<Branch, Error> {
        match self {
            BranchParts::Directory(directory) => directory.to_branch(),
            BranchParts::Packed(columns) => columns.to_branch(),
        }
    }
}

/// A checked branch payload in either marker-first codec.
#[derive(Clone, Copy, Debug)]
pub enum BranchView<'a> {
    /// Per-child offset directory.
    Directory(MappedBranch<'a>),
    /// Fixed-width pointer columns.
    Packed(PackedBranch<'a>),
}

impl<'a> BranchView<'a> {
    /// The parts.
    pub open spec fn view(&self) -> BranchParts {
        match self {
            BranchView::Directory(v) => BranchParts::Directory(v@),
            BranchView::Packed(v) => BranchParts::Packed(v@),
        }
    }

    /// Select the database's explicitly versioned branch codec.
    pub fn parse(format: NodeRecordFormat, id: TrieNodeID, bytes: &'a [u8]) -> (view: Result<
        Self,
        Error,
    >)
        ensures
            match view {
                Ok(v) => BranchParts::parse(format, id, bytes@) == Ok::<BranchParts, Error>(v@)
                    && v@.length() <= bytes@.len(),
                Err(e) => BranchParts::parse(format, id, bytes@) == Err::<BranchParts, Error>(e),
            },
    {
        match format {
            NodeRecordFormat::TypeFirstV4 => match PackedBranch::parse(id, bytes) {
                Ok(v) => Ok(BranchView::Packed(v)),
                Err(e) => Err(e),
            },
            NodeRecordFormat::Legacy => Err(corrupt(Corruption::LegacyBranchView)),
            _ => match MappedBranch::parse(id, bytes) {
                Ok(v) => Ok(BranchView::Directory(v)),
                Err(e) => Err(e),
            },
        }
    }

    /// Select one child without materializing either branch representation.
    pub fn child(&self, edge: u8) -> (child: Result<Option<TriePtr>, Error>)
        ensures
            child == self@.child(edge),
    {
        match self {
            BranchView::Directory(v) => v.child(edge),
            BranchView::Packed(v) => v.child(edge),
        }
    }

    /// Encoded branch payload size.
    pub fn byte_len(&self) -> (n: usize)
        ensures
            n == self@.length(),
    {
        match self {
            BranchView::Directory(v) => v.byte_len(),
            BranchView::Packed(v) => v.byte_len(),
        }
    }

    /// Reconstruct logical slots when mutation or proof generation requires them.
    pub fn to_owned_node(&self) -> (node: Result<TrieBranch, Error>)
        ensures
            match self@.to_branch() {
                Ok(b) => node matches Ok(t) && t@ == b && t@.wf() && t.meta
                    == TrieNodeTransientMeta::none(),
                Err(e) => node == Err::<TrieBranch, Error>(e),
            },
    {
        match self {
            BranchView::Directory(v) => v.to_owned_node(),
            BranchView::Packed(v) => v.to_owned_node(),
        }
    }
}

} // verus!
