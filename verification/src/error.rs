//! Failures of index operations.
use vstd::prelude::*;

use crate::node::{TrieNodePatch, TriePtr};

verus! {

/// What makes stored bytes or stored structure unusable.
#[derive(Clone, Copy, Debug, PartialEq, Eq, Structural)]
pub enum Corruption {
    /// A pointer list ends before its last pointer does.
    TruncatedPointer,
    /// A node path has no length byte.
    MissingPathLength,
    /// A node path claims more than 32 bytes.
    OversizedPath,
    /// A node path ends early.
    TruncatedPath,
    /// A node type byte names no node type.
    BadNodeId,
    /// The node type has no body to read.
    UnsupportedNodeBody,
    /// There is no first byte to read a node type from.
    MissingNodeId,
    /// The stored node type is not the one the parent pointer names.
    UnexpectedNodeId,
    /// An empty node was stored.
    StoredEmptyNode,
    /// A stored hash ends early.
    TruncatedHash,
    /// A node marker is missing.
    MissingMarker,
    /// A compressed pointer list is missing.
    MissingCompressedPointers,
    /// A sparse pointer list was stored for a node without pointers.
    InvalidSparseNode,
    /// A sparse pointer bitmap ends early.
    TruncatedBitmap,
    /// Decoding left bytes over.
    LengthMismatch,
    /// An inline child was never placed.
    InlineChildUnwritten,
    /// An inline child index is past the end.
    InlineChildOutOfBounds,
    /// A leaf without a logical value was asked for one.
    MissingLeafValue,
    /// A leaf body ends early.
    TruncatedLeaf,
    /// A patch body ends early.
    TruncatedPatch,
    /// A patch lists more pointers than a byte can count.
    OversizedPatch,
    /// The marker is not a patch marker.
    NotAPatch,
    /// The node type is not a branch.
    ExpectedBranch,
    /// An occupancy bitmap ends early.
    TruncatedOccupancy,
    /// Padding bits of a four-slot occupancy bitmap are set.
    InvalidNode4Occupancy,
    /// Child selectors end early.
    TruncatedSelectors,
    /// A child selector occurs twice.
    DuplicateSelector,
    /// A child directory ends early.
    TruncatedDirectory,
    /// The first child offset is not zero.
    NonzeroFirstOffset,
    /// Child pointer bytes end early.
    TruncatedChildPayload,
    /// A child's directory entry points outside the pointer bytes.
    InvalidChildExtent,
    /// An occupied slot does not hold exactly one pointer.
    InvalidChildRecord,
    /// A child pointer names no node type.
    InvalidChildType,
    /// A child pointer names a type that only occurs on disk.
    PhysicalChildType,
    /// A 48-slot selector points to no occupied slot.
    InvalidNode48Selector,
    /// A selector disagrees with the pointer it selects.
    SelectorDisagrees,
    /// A 256-slot child is in the wrong slot.
    Node256WrongSlot,
    /// A 48-slot child is in the wrong slot.
    Node48WrongSlot,
    /// A 48-slot selector does not come back to its edge.
    InvalidNode48ReverseSelector,
    /// The width byte of packed columns is missing.
    MissingWidths,
    /// The width byte of packed columns has unknown bits.
    UnsupportedWidths,
    /// A packed column ends early.
    TruncatedColumn,
    /// Padding bits of a packed bitmap are set.
    NonzeroBitmapPadding,
    /// Padding bits of the packed kinds are set.
    NonzeroKindPadding,
    /// A packed child kind is no logical node type.
    InvalidChildKind,
    /// A packed back-pointer has no origin.
    MissingOrigin,
    /// An occupied 48-slot child has no selector.
    MissingNode48Selector,
    /// A 48-slot selector is negative without denoting absence.
    InvalidNode48Slot,
    /// An edge occurs twice.
    DuplicateEdge,
    /// Historical records have no type-first branch view.
    LegacyBranchView,
    /// A compact raw leaf's path claims more than 32 bytes.
    OversizedRawLeafPath,
    /// A compact raw leaf is empty.
    TruncatedRawLeaf,
    /// A compact raw leaf's path ends early.
    TruncatedRawLeafPath,
    /// A compact raw leaf's value ends early.
    TruncatedRawLeafValue,
    /// Inline value lengths end early.
    TruncatedInlineLengths,
    /// An inline value ends early.
    TruncatedInlinePayload,
    /// A mapped inline value is out of bounds.
    InvalidMappedRange,
    /// A physical marker is not allowed in this layout.
    InvalidMarker,
    /// Locator leaves do not occur in this layout.
    UnsupportedLocatorLeaf,
    /// Compact raw leaves do not occur in this layout.
    UnsupportedRawLeaf,
    /// Inline leaves do not occur in this layout.
    UnsupportedInlineLeaf,
    /// A leaf cannot be written inline in this layout, or also has a locator.
    InvalidInlineLeaf,
    /// A hashless leaf needs a value source.
    NoValueSource,
    /// A hashless leaf has no value at all.
    HashlessLeafWithoutValue,
    /// A record without a hash is not a leaf.
    HashlessNonLeaf,
    /// Type-first metadata needs the matching schema.
    SchemaMismatch,
    /// The record format version is unknown.
    UnsupportedRecordFormat,
    /// A record format cannot be downgraded.
    RecordFormatDowngrade,
    /// A trie header ends early.
    TruncatedTrieHeader,
    /// The trie's layout version is not the database's.
    TrieLayoutMismatch,
    /// A trie root is not a 256-slot branch or a patch of one.
    InvalidRootType,
    /// A trie root hash ends early.
    TruncatedRootHash,
    /// A patch could not be applied.
    PatchNotApplicable,
    /// There is no current node to park.
    NothingToPark,
    /// Patches cannot be parked.
    CannotParkPatch,
    /// Patches apply to branches only.
    CannotPatchNode,
    /// A walk ended at a branch.
    NonLeafAtEndOfPath,
    /// A walk ended at a node that is no leaf.
    PathReachedNonLeaf,
    /// A trie walk does not end.
    TrieCycle,
    /// A full path does not have 32 bytes.
    InvalidLeafPathLength,
    /// A height has no block although it was just found.
    MissingBlockAtHeight,
    /// A block has no height.
    MissingBlockHeight,
    /// An ancestor's root hash is not in its place.
    AncestorMisplaced,
    /// A value that should hold a number has bytes behind it.
    ValueNotANumber,
    /// A value that should hold a block identity has bytes behind it.
    ValueNotABlock,
    /// A source key is not UTF-8.
    KeyNotUtf8,
    /// A source key is not the hexadecimal form of a value.
    KeyNotHex,
    /// A source key is not canonical lowercase hexadecimal.
    KeyNotCanonical,
    /// A source key does not have the width of a value.
    KeyWrongWidth,
    /// A source key has a column type that cannot hold one.
    KeyWrongType,
    /// A source text is not UTF-8.
    TextNotUtf8,
    /// The source has no fork storage table.
    MissingForkStorage,
    /// A read came back short.
    ShortRead,
    /// A read is outside the stored bytes.
    ReadOutOfBounds,
    /// A patch record has no hash.
    PatchWithoutHash,
    /// A node record has no hash although one was asked for.
    MissingNodeHash,
    /// A mapped node disagrees with the pointer to it.
    MappedNodeDisagrees,
    /// Bytes of a message end early or do not decode.
    BadMessage,
    /// The boundaries of a published tail are impossible.
    InvalidCheckpointBounds,
    /// A published tail has holes.
    NoncontiguousTail,
    /// A published tail is incomplete.
    MissingTail,
    /// An external trie is shorter than its header.
    TruncatedExternalTrie,
    /// An inline trie is shorter than its header.
    TruncatedInlineTrie,
    /// The published prefix is longer than the file.
    TruncatedHashPrefix,
}

/// How a byte stream failed.
#[derive(Clone, Copy, Debug, PartialEq, Eq, Structural)]
pub enum IoErrorKind {
    /// The stream ended before enough bytes were read.
    UnexpectedEof,
    /// The stream took no more bytes.
    WriteZero,
    /// A length or an offset is not allowed.
    InvalidInput,
    /// Stored bytes or boundaries do not fit together.
    Invalid(Corruption),
    /// Any other failure.
    Other,
}

/// Why a walk could not take the next step.
#[derive(Clone, Copy, Debug, PartialEq, Eq, Structural)]
pub enum CursorError {
    /// The path differs from the node's path segment.
    PathDiverged,
    /// The child lives in an ancestor trie.
    BackptrEncountered(TriePtr),
    /// The node has no child for the next byte.
    ChrNotFound,
}

/// Failure of an index operation.
#[derive(Debug)]
pub enum Error {
    NotOpenedError,
    IOError(IoErrorKind),
    SQLError(String),
    RequestedIdentifierForExtensionTrie,
    NotFoundError,
    BackptrNotFoundError,
    ExistsError,
    BadSeekValue,
    CorruptionError(Corruption),
    BlockHashMapCorruptionError(Option<Box<Error>>),
    ReadOnlyError,
    UnconfirmedError,
    NotDirectoryError,
    PartialWriteError,
    InProgressError,
    WriteNotBegunError,
    CursorError(CursorError),
    RestoreMarfBlockError(Box<Error>),
    NonMatchingForks([u8; 32], [u8; 32]),
    OverflowError,
    Patch(TrieNodePatch),
    NodeTooDeep,
    /// Read at a block strictly below the squash height of a squashed MARF.
    HistoricalReadInSquashedRange { block_height: u32, squash_height: u32 },
    /// Operation is not supported on a squashed MARF (e.g. proof generation).
    UnsupportedOnSquashedMarf,
    /// Operation requires a different trie file backing.
    UnsupportedTrieFileType,
    /// A destination path required to be empty already exists. Carries the offending path.
    DestinationExists(String),
}

/// Construct an input failure that stored bytes or boundaries cause.
pub fn invalid_input(what: Corruption) -> (error: Error)
    ensures
        error == Error::IOError(IoErrorKind::Invalid(what)),
{
    Error::IOError(IoErrorKind::Invalid(what))
}

/// Construct a malformed-record error.
pub fn corrupt(what: Corruption) -> (error: Error)
    ensures
        error == Error::CorruptionError(what),
{
    Error::CorruptionError(what)
}

} // verus!
