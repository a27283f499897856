//! Flat-file storage of tries: contiguous byte ranges within one append-only byte array.
use std::collections::HashMap;

use vstd::prelude::*;
use vstd::string::*;

use crate::bits::{get_node_max_byte_len, parse_hash_from_bytes, path_from_bytes_slice_into};
use crate::blob_layout::{BlobHeader, Header};
use crate::error::{corrupt, Corruption, Error, IoErrorKind};
use crate::hash::{copy_id, MarfTrieId, TrieHash};
use crate::inline_value::InlineValue;
use crate::leaf::{Leaf, Node, TrieLeaf, TrieNodeType};
use crate::node::{clear_ctrl_bits, node_id_of, TrieNodeID, TriePtr};
use crate::path::NodePath;
use crate::read_node::{
    BorrowedNodeBytes, BytesBacking, MarfDataEntry, ReadNodeBacking, ReadTrieItem, ReadTrieNode,
    StoredBytes,
};
use crate::record::{NodeRecord, NodeRecordFormat, Record};
use crate::record_context::{RecordContext, ValueExtentResolver};
use crate::scratch::{item_reads, read_trie_item_from_slice_format, MarfReadState};
use crate::words::push_bytes;

verus! {

/// A flat in-memory buffer that holds trie blobs.
pub struct TrieFileRAM {
    pub bytes: Vec<u8>,
}

/// A file that holds trie blobs, with the part of it that is mapped into memory.
///
/// `pread` reads at most so many bytes at an offset; it may come back short before the end.
pub struct TrieFileDisk<'m, F> {
    pub pread: F,
    pub mapped: Option<&'m [u8]>,
}

/// The bytes behind a set of tries.
pub enum TrieFile<'m, F> {
    RAM(TrieFileRAM),
    Disk(TrieFileDisk<'m, F>),
}

/// At most `len` bytes of a file from an offset on.
pub open spec fn up_to(content: Seq<u8>, offset: int, len: int) -> Seq<u8> {
    if offset >= content.len() {
        Seq::empty()
    } else if offset + len <= content.len() {
        content.subrange(offset, offset + len)
    } else {
        content.subrange(offset, content.len() as int)
    }
}

/// Whether a positional read of a file may come back so: with a start of what was asked for,
/// which is empty only where nothing was asked for or the file has ended.
pub open spec fn good_read(content: Seq<u8>, offset: u64, len: usize, answer: Result<Vec<u8>, Error>) -> bool {
    answer matches Ok(bytes) && bytes@.len() <= len && bytes@ == up_to(
        content,
        offset as int,
        bytes@.len() as int,
    ) && (bytes@.len() == 0 ==> len == 0 || offset >= content.len())
}

/// Whether positional reads show a file's content.
pub open spec fn reads_file<F: Fn(u64, usize) -> Result<Vec<u8>, Error>>(
    pread: F,
    content: Seq<u8>,
) -> bool {
    forall|offset: u64, len: usize, answer: Result<Vec<u8>, Error>| #[trigger]
        call_ensures(pread, (offset, len), answer) ==> good_read(content, offset, len, answer)
}

/// Whether positional reads can be made anywhere.
pub open spec fn reads_anywhere<F: Fn(u64, usize) -> Result<Vec<u8>, Error>>(pread: F) -> bool {
    forall|offset: u64, len: usize| #[trigger] call_requires(pread, (offset, len))
}

/// Read up to `len` bytes, asking again as long as reads come back short of the end.
pub fn read_up_to<F: Fn(u64, usize) -> Result<Vec<u8>, Error>>(
    pread: &F,
    offset: u64,
    len: usize,
) -> (out: Result<Vec<u8>, Error>)
    requires
        reads_anywhere(*pread),
    ensures
        forall|content: Seq<u8>| #[trigger]
            reads_file(*pread, content) && content.len() <= u64::MAX ==> (out matches Ok(bytes)
                && bytes@ == up_to(content, offset as int, len as int)),
{
    let mut bytes: Vec<u8> = Vec::new();
    while bytes.len() < len
        invariant
            reads_anywhere(*pread),
            forall|content: Seq<u8>| #[trigger]
                reads_file(*pread, content) && content.len() <= u64::MAX ==> bytes@.len() <= len
                    && bytes@ == up_to(content, offset as int, bytes@.len() as int),
        decreases
                if bytes.len() < len {
                    len - bytes.len()
                } else {
                    0
                },
    {
        let total: usize = bytes.len();
        let at: u64 = match offset.checked_add(total as u64) {
            Some(at) => at,
            None => {
                assert forall|content: Seq<u8>|
                    #[trigger] reads_file(*pread, content) && content.len() <= u64::MAX implies false by {
                    assert(bytes@ == up_to(content, offset as int, bytes@.len() as int));
                }
                return Err(Error::OverflowError);
            },
        };
        let chunk = match pread(at, len - total) {
            Ok(chunk) => chunk,
            Err(e) => {
                return Err(e);
            },
        };
        if chunk.len() == 0 {
            assert forall|content: Seq<u8>|
                #[trigger] reads_file(*pread, content) && content.len() <= u64::MAX implies bytes@
                == up_to(content, offset as int, len as int) by {
                assert(good_read(content, at, (len - total) as usize, Ok(chunk)));
                assert(bytes@ == up_to(content, offset as int, bytes@.len() as int));
            }
            return Ok(bytes);
        }
        let ghost before = bytes@;
        push_bytes(&mut bytes, chunk.as_slice());
        proof {
            assert forall|content: Seq<u8>|
                #[trigger] reads_file(*pread, content) && content.len() <= u64::MAX implies bytes@.len()
                <= len && bytes@ == up_to(content, offset as int, bytes@.len() as int) by {
                assert(good_read(content, at, (len - total) as usize, Ok(chunk)));
                assert(before == up_to(content, offset as int, before.len() as int));
                assert(bytes@ =~= up_to(content, offset as int, bytes@.len() as int));
            }
        }
    }
    Ok(bytes)
}

/// The mapped bytes from an offset on, if at least `min_len` of them are mapped.
pub open spec fn mapped_at(mapped: Option<Seq<u8>>, offset: u64, min_len: int) -> Option<Seq<u8>> {
    match mapped {
        None => None,
        Some(bytes) => if offset + min_len <= bytes.len() {
            Some(bytes.subrange(offset as int, bytes.len() as int))
        } else {
            None
        },
    }
}

impl<'m, F> TrieFile<'m, F> {
    /// The mapped part.
    pub open spec fn mapped(&self) -> Option<Seq<u8>> {
        match self {
            TrieFile::RAM(_) => None,
            TrieFile::Disk(disk) => match disk.mapped {
                Some(bytes) => Some(bytes@),
                None => None,
            },
        }
    }

    /// The mapped bytes at an offset, if the mapping covers at least `min_len` of them. There are
    /// none where nothing is mapped or the mapping is stale for the requested range.
    pub fn mmap_slice_at(&self, offset: u64, min_len: usize) -> (out: Option<&[u8]>)
        ensures
            match mapped_at(self.mapped(), offset, min_len as int) {
                Some(bytes) => out matches Some(found) && found@ == bytes && found@.len() >= min_len,
                None => out is None,
            },
    {
        match self {
            TrieFile::RAM(_) => None,
            TrieFile::Disk(disk) => match disk.mapped {
                None => None,
                Some(bytes) => {
                    if offset > bytes.len() as u64 {
                        return None;
                    }
                    let start: usize = offset as usize;
                    if bytes.len() - start < min_len {
                        return None;
                    }
                    Some(&bytes[start..bytes.len()])
                },
            },
        }
    }
}

impl<'m, F: Fn(u64, usize) -> Result<Vec<u8>, Error>> TrieFile<'m, F> {
    /// Whether the file can be read anywhere.
    pub open spec fn readable(&self) -> bool {
        self matches TrieFile::Disk(disk) ==> reads_anywhere(disk.pread)
    }

    /// Whether all reads show this content, of which a prefix may be mapped.
    pub open spec fn holds(&self, content: Seq<u8>) -> bool {
        match self {
            TrieFile::RAM(ram) => content == ram.bytes@,
            TrieFile::Disk(disk) => reads_file(disk.pread, content) && content.len() <= u64::MAX
                && match disk.mapped {
                Some(bytes) => bytes@.len() <= content.len() && bytes@ == content.subrange(
                    0,
                    bytes@.len() as int,
                ),
                None => true,
            },
        }
    }

    /// What reading up to `len` bytes at an offset gives: memory has no bytes past its end, while a
    /// file just has ended there.
    pub open spec fn bytes_at(&self, content: Seq<u8>, offset: u64, len: usize) -> Result<
        Seq<u8>,
        Error,
    > {
        if self is RAM && offset > content.len() {
            Err(Error::NotFoundError)
        } else if self.mapped() is Some && offset + len > usize::MAX {
            Err(Error::OverflowError)
        } else {
            Ok(up_to(content, offset as int, len as int))
        }
    }

    /// Read up to `len` bytes at an offset, from the mapping where it covers all of them and from
    /// the file otherwise: the mapping may be stale, and the file never is.
    pub fn read_bytes_at(&self, offset: u64, len: usize) -> (out: Result<Vec<u8>, Error>)
        requires
            self.readable(),
        ensures
            forall|content: Seq<u8>| #[trigger]
                self.holds(content) ==> match self.bytes_at(content, offset, len) {
                    Ok(bytes) => out matches Ok(found) && found@ == bytes,
                    Err(e) => out matches Err(found) && found == e,
                },
    {
        match self {
            TrieFile::RAM(ram) => {
                if offset > ram.bytes.len() as u64 {
                    return Err(Error::NotFoundError);
                }
                let start: usize = offset as usize;
                let left: usize = ram.bytes.len() - start;
                let count: usize = if len <= left { len } else { left };
                let mut out: Vec<u8> = Vec::with_capacity(count);
                push_bytes(&mut out, &ram.bytes.as_slice()[start..start + count]);
                assert(out@ =~= up_to(ram.bytes@, offset as int, len as int));
                Ok(out)
            },
            TrieFile::Disk(disk) => {
                if let Some(bytes) = disk.mapped {
                    if offset > usize::MAX as u64 || usize::MAX - (offset as usize) < len {
                        return Err(Error::OverflowError);
                    }
                    if let Some(found) = self.mmap_slice_at(offset, len) {
                        let mut out: Vec<u8> = Vec::with_capacity(len);
                        push_bytes(&mut out, &found[0..len]);
                        assert forall|content: Seq<u8>| #[trigger] self.holds(content) implies out@
                            == up_to(content, offset as int, len as int) by {
                            assert(bytes@ == content.subrange(0, bytes@.len() as int));
                            assert(out@ =~= up_to(content, offset as int, len as int));
                        }
                        return Ok(out);
                    }
                }
                let out = read_up_to(&disk.pread, offset, len);
                assert forall|content: Seq<u8>| #[trigger] self.holds(content) implies (out matches Ok(
                    found,
                ) && found@ == up_to(content, offset as int, len as int)) by {
                    assert(reads_file(disk.pread, content));
                }
                out
            },
        }
    }

    /// What reading exactly `len` bytes at an offset gives.
    pub open spec fn exact_at(&self, content: Seq<u8>, offset: u64, len: usize) -> Result<
        Seq<u8>,
        Error,
    > {
        if offset + len <= content.len() {
            Ok(content.subrange(offset as int, offset + len))
        } else if self is Disk {
            if len == 0 {
                Ok(Seq::empty())
            } else {
                Err(Error::IOError(IoErrorKind::UnexpectedEof))
            }
        } else if offset + len > usize::MAX {
            Err(Error::OverflowError)
        } else {
            Err(Error::CorruptionError(Corruption::ReadOutOfBounds))
        }
    }

    /// Read exactly `len` bytes at an offset, never from the mapping.
    pub fn read_blob_bytes_at(&self, offset: u64, len: usize) -> (out: Result<Vec<u8>, Error>)
        requires
            self.readable(),
        ensures
            forall|content: Seq<u8>| #[trigger]
                self.holds(content) ==> match self.exact_at(content, offset, len) {
                    Ok(bytes) => out matches Ok(found) && found@ == bytes,
                    Err(e) => out matches Err(found) && found == e,
                },
    {
        match self {
            TrieFile::RAM(ram) => {
                let size: usize = ram.bytes.len();
                if offset > usize::MAX as u64 || usize::MAX - (offset as usize) < len {
                    return Err(Error::OverflowError);
                }
                let start: usize = offset as usize;
                if start + len > size {
                    return Err(corrupt(Corruption::ReadOutOfBounds));
                }
                let mut out: Vec<u8> = Vec::with_capacity(len);
                push_bytes(&mut out, &ram.bytes.as_slice()[start..start + len]);
                assert(out@ =~= ram.bytes@.subrange(offset as int, offset + len));
                Ok(out)
            },
            TrieFile::Disk(disk) => {
                let out = read_up_to(&disk.pread, offset, len);
                assert forall|content: Seq<u8>| #[trigger] self.holds(content) implies (out matches Ok(
                    found,
                ) && found@ == up_to(content, offset as int, len as int)) by {
                    assert(reads_file(disk.pread, content));
                }
                match out {
                    Ok(bytes) => if bytes.len() < len {
                        Err(Error::IOError(IoErrorKind::UnexpectedEof))
                    } else {
                        Ok(bytes)
                    },
                    Err(e) => Err(e),
                }
            },
        }
    }

    /// Read a trie blob in its entirety.
    pub fn read_trie_blob_bytes(&self, offset: u64, length: usize) -> (out: Result<Vec<u8>, Error>)
        requires
            self.readable(),
        ensures
            forall|content: Seq<u8>| #[trigger]
                self.holds(content) ==> match self.bytes_at(content, offset, length) {
                    Ok(bytes) => if bytes.len() < length {
                        out matches Err(found) && found == Error::CorruptionError(
                            Corruption::ShortRead,
                        )
                    } else {
                        out matches Ok(found) && found@ == bytes
                    },
                    Err(e) => out matches Err(found) && found == e,
                },
    {
        match self.read_bytes_at(offset, length) {
            Ok(bytes) => if bytes.len() < length {
                Err(corrupt(Corruption::ShortRead))
            } else {
                Ok(bytes)
            },
            Err(e) => Err(e),
        }
    }

    /// What keeps the trie at an offset from being read in a layout.
    pub open spec fn header_fault_at(&self, content: Seq<u8>, format: NodeRecordFormat, offset: u64) -> Option<
        Error,
    > {
        if format is Legacy {
            None
        } else {
            match self.bytes_at(content, offset, 36) {
                Ok(bytes) => format.header_fault(bytes),
                Err(e) => Some(e),
            }
        }
    }

    /// Validate an immutable trie's version before its offset is kept.
    pub fn validate_header_at(&self, format: NodeRecordFormat, offset: u64) -> (done: Result<(), Error>)
        requires
            self.readable(),
        ensures
            forall|content: Seq<u8>| #[trigger]
                self.holds(content) ==> match self.header_fault_at(content, format, offset) {
                    Some(e) => done == Err::<(), Error>(e),
                    None => done is Ok,
                },
    {
        if !format.is_type_first() {
            return Ok(());
        }
        match self.read_bytes_at(offset, 36) {
            Ok(bytes) => format.validate_trie_header(bytes.as_slice()),
            Err(e) => Err(e),
        }
    }

    /// Read the header of the trie at an offset.
    pub fn read_blob_header<T: MarfTrieId>(&self, format: NodeRecordFormat, offset: u64) -> (out: Result<
        BlobHeader<T>,
        Error,
    >)
        requires
            self.readable(),
        ensures
            forall|content: Seq<u8>| #[trigger]
                self.holds(content) ==> match self.header_at(content, format, offset) {
                    Ok(header) => out matches Ok(found) && found@ == header,
                    Err(e) => out matches Err(found) && found == e,
                },
    {
        match self.read_blob_bytes_at(offset, format.reader_prefix_len()) {
            Ok(bytes) => BlobHeader::parse_format(format, bytes.as_slice()),
            Err(e) => Err(e),
        }
    }

    /// The header of the trie at an offset.
    pub open spec fn header_at(&self, content: Seq<u8>, format: NodeRecordFormat, offset: u64) -> Result<
        Header,
        Error,
    > {
        match self.exact_at(content, offset, if format is Legacy { 68usize } else { 69usize }) {
            Ok(bytes) => format.header(bytes),
            Err(e) => Err(e),
        }
    }
}

impl<'m, F: Fn(u64, usize) -> Result<Vec<u8>, Error>> TrieFile<'m, F> {
    /// The bytes that decoding a record at an offset gets to see: all that is mapped from there on
    /// where the mapping covers the longest record, and as many as that from the file otherwise.
    pub open spec fn seen_at(&self, content: Seq<u8>, offset: u64, bound: usize) -> Result<
        Seq<u8>,
        Error,
    > {
        match mapped_at(self.mapped(), offset, bound as int) {
            Some(bytes) => Ok(bytes),
            None => self.bytes_at(content, offset, bound),
        }
    }

    /// Read a trie item at a known file position.
    pub fn read_item_at_offset<'a>(
        &self,
        format: NodeRecordFormat,
        offset: u64,
        ptr: &TriePtr,
        scratch: &'a mut MarfReadState,
    ) -> (out: Result<ReadTrieItem<'a>, Error>)
        requires
            self.readable(),
            old(scratch).wf(),
        ensures
            forall|content: Seq<u8>| #[trigger]
                self.holds(content) ==> match self.record_at(content, format, offset, ptr.id) {
                    Err(e) => out matches Err(found) && found == e,
                    Ok(record) => match record.item(ptr.id) {
                        Err(e) => out matches Err(found) && found == e,
                        Ok((item, _)) => out matches Ok(read) && item_reads(read, record.hash, item),
                    },
                },
    {
        let bound: usize = match format.max_record_len(ptr.id) {
            Ok(bound) => bound,
            Err(e) => return Err(e),
        };
        if let Some(bytes) = self.mmap_slice_at(offset, bound) {
            return match read_trie_item_from_slice_format(bytes, ptr.id, format, scratch) {
                Ok((read, _)) => Ok(read),
                Err(e) => Err(e),
            };
        }
        let bytes = match self.read_bytes_at(offset, bound) {
            Ok(bytes) => bytes,
            Err(e) => return Err(e),
        };
        match read_trie_item_from_slice_format(bytes.as_slice(), ptr.id, format, scratch) {
            Ok((read, _)) => Ok(read),
            Err(e) => Err(e),
        }
    }

    /// The record that a pointer of some type leads to at a known file position.
    pub open spec fn record_at(
        &self,
        content: Seq<u8>,
        format: NodeRecordFormat,
        offset: u64,
        ptr_id: u8,
    ) -> Result<Record, Error> {
        match format.record_bound(ptr_id) {
            Err(e) => Err(e),
            Ok(bound) => match self.seen_at(content, offset, bound as usize) {
                Err(e) => Err(e),
                Ok(bytes) => format.parsed(bytes),
            },
        }
    }

    /// The record that a hash probe at a known file position goes by.
    ///
    /// A mapping serves the probe where it shows a stored hash or covers the longest leaf: a
    /// hashless leaf can straddle the mapping's end. From the file, the whole leaf is read once its
    /// first bytes show that no hash is stored.
    pub open spec fn probed_at(&self, content: Seq<u8>, format: NodeRecordFormat, offset: u64) -> Result<
        Record,
        Error,
    > {
        let bound = format.record_bound(1);
        match mapped_at(self.mapped(), offset, 33) {
            Some(bytes) => match format.parsed(bytes) {
                Err(e) => Err(e),
                Ok(record) => if record.hash is Some {
                    Ok(record)
                } else {
                    match bound {
                        Err(e) => Err(e),
                        Ok(len) => if bytes.len() >= len {
                            Ok(record)
                        } else {
                            self.read_at(content, format, offset)
                        },
                    }
                },
            },
            None => self.read_at(content, format, offset),
        }
    }

    /// The record that a hash probe reads from the file.
    pub open spec fn read_at(&self, content: Seq<u8>, format: NodeRecordFormat, offset: u64) -> Result<
        Record,
        Error,
    > {
        match self.bytes_at(content, offset, 33) {
            Err(e) => Err(e),
            Ok(first) => match format.parsed(first) {
                Err(e) => Err(e),
                Ok(record) => if record.hash is Some {
                    Ok(record)
                } else {
                    match self.bytes_at(content, offset, 546) {
                        Err(e) => Err(e),
                        Ok(bytes) => format.parsed(bytes),
                    }
                },
            },
        }
    }

    /// Read node type and hash at a known file position.
    pub fn read_node_type_at<R: ValueExtentResolver>(&self, context: &RecordContext<R>, offset: u64) -> (out:
        Result<(TrieNodeID, TrieHash), Error>)
        requires
            self.readable(),
        ensures
            forall|content: Seq<u8>| #[trigger]
                self.holds(content) ==> match self.probed_at(content, context.format, offset) {
                    Err(e) => out == Err::<(TrieNodeID, TrieHash), Error>(e),
                    Ok(record) => exists|hash: Result<TrieHash, Error>| #[trigger]
                        context.hashes(record, hash) && match hash {
                            Ok(found) => out matches Ok((id, h)) && record.logical() == Some(id) && h
                                == found,
                            Err(e) => out == Err::<(TrieNodeID, TrieHash), Error>(e),
                        },
                },
    {
        if let Some(bytes) = self.mmap_slice_at(offset, 33) {
            let record = match context.format.parse(bytes) {
                Ok(record) => record,
                Err(e) => return Err(e),
            };
            let mut complete: bool = record.hash.is_some();
            if !complete {
                let bound: usize = match context.format.max_record_len(1) {
                    Ok(bound) => bound,
                    Err(e) => return Err(e),
                };
                complete = bytes.len() >= bound;
            }
            if complete {
                let id: TrieNodeID = record.logical_type();
                let hash = context.hash(record);
                assert(context.hashes(record@, hash));
                return match hash {
                    Ok(hash) => Ok((id, hash)),
                    Err(e) => Err(e),
                };
            }
        }
        let first = match self.read_bytes_at(offset, 33) {
            Ok(first) => first,
            Err(e) => return Err(e),
        };
        let record = match context.format.parse(first.as_slice()) {
            Ok(record) => record,
            Err(e) => return Err(e),
        };
        if let Some(hash) = record.hash {
            assert(context.hashes(record@, Ok::<TrieHash, Error>(hash)));
            return Ok((record.logical_type(), hash));
        }
        let bytes = match self.read_bytes_at(offset, 546) {
            Ok(bytes) => bytes,
            Err(e) => return Err(e),
        };
        let record = match context.format.parse(bytes.as_slice()) {
            Ok(record) => record,
            Err(e) => return Err(e),
        };
        let id: TrieNodeID = record.logical_type();
        let hash = context.hash(record);
        assert(context.hashes(record@, hash));
        match hash {
            Ok(hash) => Ok((id, hash)),
            Err(e) => Err(e),
        }
    }
}

/// A mapped node or the already-probed body of its first patch.
pub enum MappedTrieItem<'a> {
    /// Ordinary nodes retain the borrowed, zero-copy representation.
    Node(ReadTrieNode<'a>),
    /// Patch bytes exclude the hash, which has already been decoded.
    Patch { hash: TrieHash, marker: u8, payload: &'a [u8] },
}

/// What borrowing the item of a mapped record comes to.
pub open spec fn borrows_as(record: Record, ptr_id: u8, out: Result<MappedTrieItem<'_>, Error>) -> bool {
    match record.logical() {
        Some(TrieNodeID::Patch) => match record.hash {
            None => out matches Err(e) && e == Error::CorruptionError(Corruption::PatchWithoutHash),
            Some(bytes) => out matches Ok(MappedTrieItem::Patch { hash, marker, payload }) && hash@
                == bytes && marker == record.marker && payload@ == record.payload,
        },
        Some(logical) => if logical.code() != clear_ctrl_bits(ptr_id) {
            out matches Err(e) && e == Error::CorruptionError(Corruption::MappedNodeDisagrees)
        } else if record.marker == 9 {
            match Leaf::load_inline(record.payload) {
                Err(e) => out matches Err(found) && found == e,
                Ok((leaf, _)) => out matches Ok(MappedTrieItem::Node(read)) && read.wf() && (
                read.backing matches ReadNodeBacking::Owned(node) && node@ == Node::Leaf(leaf))
                    && read.hash is None,
            }
        } else {
            out matches Ok(MappedTrieItem::Node(read)) && read.wf() && (
            read.backing matches ReadNodeBacking::PersistedBytes(BytesBacking::Borrowed(bytes))
                && bytes@ == StoredBytes {
                node_type: logical,
                format: record.format,
                marker: Some(record.marker),
                payload: record.payload,
            }) && match read.hash {
                Some(hash) => record.hash == Some(hash@),
                None => record.hash is None,
            }
        },
        None => false,
    }
}

/// Borrow a mapped record: branches and stored leaves stay bytes, and inline leaves keep the
/// ranges of their value.
fn borrow_record<'a>(record: NodeRecord<'a>, ptr_id: u8) -> (out: Result<MappedTrieItem<'a>, Error>)
    requires
        record@.logical() is Some,
    ensures
        borrows_as(record@, ptr_id, out),
{
    let logical: TrieNodeID = record.logical_type();
    if logical == TrieNodeID::Patch {
        return match record.hash {
            Some(hash) => Ok(
                MappedTrieItem::Patch { hash, marker: record.marker, payload: record.payload },
            ),
            None => Err(corrupt(Corruption::PatchWithoutHash)),
        };
    }
    if logical.as_u8() != clear_ctrl_bits(ptr_id) {
        return Err(corrupt(Corruption::MappedNodeDisagrees));
    }
    if record.marker == 9 {
        let mut path = NodePath::default();
        let path_len: usize = match path_from_bytes_slice_into(record.payload, &mut path) {
            Ok(n) => n,
            Err(e) => return Err(e),
        };
        let rest = &record.payload[path_len..record.payload.len()];
        let (value_range, descriptor_range, _) = match InlineValue::ranges(rest) {
            Ok(ranges) => ranges,
            Err(e) => return Err(e),
        };
        let inline = match InlineValue::from_mapping(
            rest,
            value_range.start..descriptor_range.end,
            (value_range.end - value_range.start) as u8,
        ) {
            Ok(inline) => inline,
            Err(e) => return Err(e),
        };
        let leaf = TrieLeaf { path, data: None, extent: None, inline: Some(inline) };
        assert(leaf@ =~= (Leaf::load_inline(record.payload@)->Ok_0).0);
        return Ok(MappedTrieItem::Node(ReadTrieNode::from_owned(TrieNodeType::Leaf(leaf), None)));
    }
    let bytes = BorrowedNodeBytes::from_record(record);
    Ok(MappedTrieItem::Node(ReadTrieNode::from_stable_bytes(bytes, record.hash)))
}

impl<'m, F> TrieFile<'m, F> {
    /// Read a trie item as borrowed bytes of the mapping; there is none where the mapping does not
    /// cover the longest record that the pointer can lead to.
    pub fn read_trie_item_borrowed<'a>(&'a self, format: NodeRecordFormat, offset: u64, ptr: &TriePtr) -> (out:
        Result<Option<MappedTrieItem<'a>>, Error>)
        ensures
            if self.mapped() is None {
                out matches Ok(None)
            } else {
                match format.record_bound(ptr.id) {
                    Err(e) => out matches Err(found) && found == e,
                    Ok(bound) => match mapped_at(self.mapped(), offset, bound as int) {
                        None => out matches Ok(None),
                        Some(bytes) => match format.parsed(bytes) {
                            Err(e) => out matches Err(found) && found == e,
                            Ok(record) => match out {
                                Ok(Some(item)) => borrows_as(
                                    record,
                                    ptr.id,
                                    Ok::<MappedTrieItem<'_>, Error>(item),
                                ),
                                Ok(None) => false,
                                Err(e) => borrows_as(
                                    record,
                                    ptr.id,
                                    Err::<MappedTrieItem<'_>, Error>(e),
                                ),
                            },
                        },
                    },
                }
            },
    {
        let has_map: bool = match self {
            TrieFile::RAM(_) => false,
            TrieFile::Disk(disk) => disk.mapped.is_some(),
        };
        if !has_map {
            return Ok(None);
        }
        let bound: usize = match format.max_record_len(ptr.id) {
            Ok(bound) => bound,
            Err(e) => return Err(e),
        };
        let bytes = match self.mmap_slice_at(offset, bound) {
            Some(bytes) => bytes,
            None => return Ok(None),
        };
        let record = match format.parse(bytes) {
            Ok(record) => record,
            Err(e) => return Err(e),
        };
        match borrow_record(record, ptr.id) {
            Ok(item) => Ok(Some(item)),
            Err(e) => Err(e),
        }
    }
}

impl TrieFileRAM {
    /// The bytes after a blob was written at an offset: zeros fill a gap before it, and bytes
    /// behind it stay.
    pub open spec fn written(bytes: Seq<u8>, offset: int, blob: Seq<u8>) -> Seq<u8> {
        let end = offset + blob.len();
        Seq::new(
            if bytes.len() < end {
                end as nat
            } else {
                bytes.len()
            },
            |i: int|
                if offset <= i < end {
                    blob[i - offset]
                } else if i < bytes.len() {
                    bytes[i]
                } else {
                    0u8
                },
        )
    }

    /// Write a serialized trie at an offset.
    pub fn append_trie_blob(&mut self, offset: usize, blob: &[u8])
        requires
            offset + blob.len() <= usize::MAX,
        ensures
            final(self).bytes@ == Self::written(old(self).bytes@, offset as int, blob@),
    {
        let end: usize = offset + blob.len();
        let ghost before = self.bytes@;
        let kept: usize = self.bytes.len();
        while self.bytes.len() < end
            invariant
                kept == before.len(),
                self.bytes@.len() <= end || self.bytes@.len() == kept,
                self.bytes@.len() >= kept,
                forall|i: int|
                    0 <= i < self.bytes@.len() ==> self.bytes@[i] == if i < kept {
                        before[i]
                    } else {
                        0u8
                    },
            decreases end - self.bytes.len(),
        {
            self.bytes.push(0);
        }
        let ghost sized = self.bytes@;
        let mut i: usize = 0;
        while i < blob.len()
            invariant
                end == offset + blob.len(),
                i <= blob.len(),
                end <= sized.len(),
                self.bytes@.len() == sized.len(),
                forall|k: int|
                    0 <= k < sized.len() ==> self.bytes@[k] == if offset <= k < offset + i {
                        blob@[k - offset]
                    } else {
                        sized[k]
                    },
            decreases blob.len() - i,
        {
            self.bytes.set(offset + i, blob[i]);
            i = i + 1;
        }
        assert(self.bytes@ =~= Self::written(before, offset as int, blob@));
    }
}

/// A blob that was written in memory is read back, whatever the buffer held before.
pub proof fn law_blob_is_read_back(bytes: Seq<u8>, offset: int, blob: Seq<u8>)
    requires
        0 <= offset,
    ensures
        up_to(TrieFileRAM::written(bytes, offset, blob), offset, blob.len() as int) == blob,
{
    let after = TrieFileRAM::written(bytes, offset, blob);
    if blob.len() > 0 {
        assert(after.subrange(offset, offset + blob.len()) =~= blob);
    } else {
        assert(up_to(after, offset, 0) =~= blob);
    }
}

/// Appending a blob leaves all earlier bytes as they are.
pub proof fn law_append_keeps_earlier_bytes(bytes: Seq<u8>, offset: int, blob: Seq<u8>)
    requires
        bytes.len() <= offset,
    ensures
        TrieFileRAM::written(bytes, offset, blob).subrange(0, bytes.len() as int) == bytes,
{
    assert(TrieFileRAM::written(bytes, offset, blob).subrange(0, bytes.len() as int) =~= bytes);
}

impl<'m, F: Fn(u64, usize) -> Result<Vec<u8>, Error>> TrieFile<'m, F> {
    /// The hash that is stored at a known file position of a historical trie.
    pub open spec fn plain_hash_at(&self, content: Seq<u8>, offset: u64) -> Result<Seq<u8>, Error> {
        match mapped_at(self.mapped(), offset, 32) {
            Some(bytes) => Ok(bytes.subrange(0, 32)),
            None => match self.bytes_at(content, offset, 32) {
                Err(e) => Err(e),
                Ok(bytes) => if bytes.len() < 32 {
                    Err(Error::CorruptionError(Corruption::TruncatedHash))
                } else {
                    Ok(bytes)
                },
            },
        }
    }

    /// Whether a node's hash at a known file position may be read so.
    pub open spec fn hash_reads<R: ValueExtentResolver>(
        &self,
        content: Seq<u8>,
        context: &RecordContext<R>,
        offset: u64,
        out: Result<TrieHash, Error>,
    ) -> bool {
        if context.format is Legacy {
            match self.plain_hash_at(content, offset) {
                Ok(bytes) => out matches Ok(hash) && hash@ == bytes,
                Err(e) => out == Err::<TrieHash, Error>(e),
            }
        } else {
            match self.probed_at(content, context.format, offset) {
                Err(e) => out == Err::<TrieHash, Error>(e),
                Ok(record) => context.hashes(record, out),
            }
        }
    }

    /// Read a hash at a known file position.
    pub fn read_hash_at<R: ValueExtentResolver>(&self, context: &RecordContext<R>, offset: u64) -> (out:
        Result<TrieHash, Error>)
        requires
            self.readable(),
        ensures
            forall|content: Seq<u8>| #[trigger]
                self.holds(content) ==> self.hash_reads(content, context, offset, out),
    {
        if context.format.is_type_first() {
            return match self.read_node_type_at(context, offset) {
                Ok((_, hash)) => Ok(hash),
                Err(e) => Err(e),
            };
        }
        if let Some(bytes) = self.mmap_slice_at(offset, 32) {
            return match parse_hash_from_bytes(bytes) {
                Ok((hash, _)) => Ok(hash),
                Err(e) => Err(e),
            };
        }
        match self.read_bytes_at(offset, 32) {
            Ok(bytes) => match parse_hash_from_bytes(bytes.as_slice()) {
                Ok((hash, _)) => {
                    proof {
                        if bytes@.len() == 32 {
                            assert(bytes@.subrange(0, 32) =~= bytes@);
                        }
                    }
                    Ok(hash)
                },
                Err(e) => Err(e),
            },
            Err(e) => Err(e),
        }
    }
}

/// The file offsets of tries whose headers were validated, by block ID.
pub struct TrieIdOffsets {
    offsets: HashMap<u32, u64>,
}

impl TrieIdOffsets {
    /// The offsets by block ID.
    pub closed spec fn view(&self) -> Map<u32, u64> {
        self.offsets@
    }

    /// Know no offset.
    pub fn new() -> (offsets: Self)
        ensures
            offsets@ == Map::<u32, u64>::empty(),
    {
        broadcast use vstd::std_specs::hash::group_hash_axioms;

        TrieIdOffsets { offsets: HashMap::new() }
    }

    /// The known offset of a block's trie.
    pub fn known(&self, block_id: u32) -> (offset: Option<u64>)
        ensures
            match offset {
                Some(found) => self@.dom().contains(block_id) && self@[block_id] == found,
                None => !self@.dom().contains(block_id),
            },
    {
        broadcast use vstd::std_specs::hash::group_hash_axioms;

        match self.offsets.get(&block_id) {
            Some(offset) => Some(*offset),
            None => None,
        }
    }

    /// Keep a trie's offset once the trie's header was validated there.
    pub fn cache_trie_offset<'m, F: Fn(u64, usize) -> Result<Vec<u8>, Error>>(
        &mut self,
        file: &TrieFile<'m, F>,
        format: NodeRecordFormat,
        block_id: u32,
        offset: u64,
    ) -> (done: Result<(), Error>)
        requires
            file.readable(),
        ensures
            forall|content: Seq<u8>| #[trigger]
                file.holds(content) ==> match file.header_fault_at(content, format, offset) {
                    Some(e) => done == Err::<(), Error>(e),
                    None => done is Ok,
                },
            final(self)@ == if done is Ok {
                old(self)@.insert(block_id, offset)
            } else {
                old(self)@
            },
    {
        broadcast use vstd::std_specs::hash::group_hash_axioms;

        match file.validate_header_at(format, offset) {
            Ok(()) => {
                self.offsets.insert(block_id, offset);
                Ok(())
            },
            Err(e) => Err(e),
        }
    }

    /// The file offset where a block's trie starts. Offsets that `lookup` finds are cached
    /// indefinitely once the trie's header was validated.
    pub fn get_trie_offset<
        'm,
        F: Fn(u64, usize) -> Result<Vec<u8>, Error>,
        L: FnOnce(u32) -> Result<u64, Error>,
    >(&mut self, file: &TrieFile<'m, F>, format: NodeRecordFormat, block_id: u32, lookup: L) -> (out:
        Result<u64, Error>)
        requires
            file.readable(),
            call_requires(lookup, (block_id,)),
        ensures
            if old(self)@.dom().contains(block_id) {
                out == Ok::<u64, Error>(old(self)@[block_id]) && final(self)@ == old(self)@
            } else {
                exists|found: Result<u64, Error>| #[trigger]
                    call_ensures(lookup, (block_id,), found) && match found {
                        Err(e) => out == Err::<u64, Error>(e) && final(self)@ == old(self)@,
                        Ok(offset) => (forall|content: Seq<u8>| #[trigger]
                            file.holds(content) ==> match file.header_fault_at(
                                content,
                                format,
                                offset,
                            ) {
                                Some(e) => out == Err::<u64, Error>(e),
                                None => out == Ok::<u64, Error>(offset),
                            }) && final(self)@ == if out is Ok {
                            old(self)@.insert(block_id, offset)
                        } else {
                            old(self)@
                        },
                    }
            },
    {
        if let Some(offset) = self.known(block_id) {
            return Ok(offset);
        }
        let found = lookup(block_id);
        assert(call_ensures(lookup, (block_id,), found));
        match found {
            Ok(offset) => match self.cache_trie_offset(file, format, block_id, offset) {
                Ok(()) => Ok(offset),
                Err(e) => Err(e),
            },
            Err(e) => Err(e),
        }
    }

    /// The file range to prefetch for a node: the longest record of its type from where it starts.
    /// There is none where the trie's offset is not known yet.
    pub fn prefetch_node(&self, block_id: u32, in_block_ptr: u64, node_id: u8, u64_ptr_offsets: bool) -> (range:
        Option<(u64, usize)>)
        ensures
            range == if self@.dom().contains(block_id) && self@[block_id] + in_block_ptr <= u64::MAX {
                match max_node_len(node_id, u64_ptr_offsets) {
                    Some(len) => Some(((self@[block_id] + in_block_ptr) as u64, len as usize)),
                    None => None,
                }
            } else {
                None
            },
    {
        let blob_offset: u64 = match self.known(block_id) {
            Some(offset) => offset,
            None => return None,
        };
        let start: u64 = match blob_offset.checked_add(in_block_ptr) {
            Some(start) => start,
            None => return None,
        };
        match get_node_max_byte_len(node_id, u64_ptr_offsets) {
            Ok(len) => Some((start, len)),
            Err(_) => None,
        }
    }
}

/// The longest stored size of a node type, hash and path included.
pub open spec fn max_node_len(id: u8, u64_ptr_offsets: bool) -> Option<nat> {
    let width: nat = if u64_ptr_offsets {
        14
    } else {
        10
    };
    match node_id_of(clear_ctrl_bits(id)) {
        Some(TrieNodeID::Leaf) => Some(138),
        Some(TrieNodeID::Node4) => Some(66 + 4 * width),
        Some(TrieNodeID::Node16) => Some(66 + 16 * width),
        Some(TrieNodeID::Node48) => Some(322 + 48 * width),
        Some(TrieNodeID::Node256) => Some(66 + 256 * width),
        _ => None,
    }
}

/// Where a node of the trie at `offset` starts.
pub fn node_position(offset: u64, ptr: &TriePtr) -> (at: Result<u64, Error>)
    ensures
        at == if offset + ptr.ptr <= u64::MAX {
            Ok::<u64, Error>((offset + ptr.ptr) as u64)
        } else {
            Err::<u64, Error>(Error::OverflowError)
        },
{
    match offset.checked_add(ptr.ptr) {
        Some(at) => Ok(at),
        None => Err(Error::OverflowError),
    }
}

/// Reader count for the bulk header fan-out on so many cores. The readers spend nearly all their
/// time blocked on small positioned reads, so the count targets a device queue depth.
pub fn header_read_parallelism(cores: usize) -> (readers: usize)
    ensures
        readers == if cores < 8 {
            16
        } else if cores > 16 {
            32
        } else {
            2 * cores
        },
{
    if cores < 8 {
        16
    } else if cores > 16 {
        32
    } else {
        cores * 2
    }
}

/// How many of `entries` headers each reader gets.
pub fn header_chunk_size(entries: usize, cores: usize) -> (size: usize)
    requires
        entries > 0,
    ensures
        ({
            let most: int = if cores < 8 {
                16
            } else if cores > 16 {
                32
            } else {
                2 * cores
            };
            let readers: int = if entries < most {
                entries as int
            } else {
                most
            };
            &&& size >= 1
            &&& size * readers >= entries
            &&& (size - 1) * readers < entries
        }),
{
    let most: usize = header_read_parallelism(cores);
    let readers: usize = if entries < most { entries } else { most };
    let whole: usize = entries / readers;
    let rest: usize = entries % readers;
    assert(entries == readers * whole + rest && rest < readers && whole <= entries)
        by (nonlinear_arith)
        requires
            readers > 0,
            whole == entries / readers,
            rest == entries % readers,
    ;
    if rest == 0 {
        assert((whole - 1) * readers == readers * whole - readers) by (nonlinear_arith);
        assert(whole * readers == readers * whole) by (nonlinear_arith);
        assert(whole >= 1) by (nonlinear_arith)
            requires
                entries == readers * whole + rest,
                rest == 0,
                entries > 0,
        ;
        whole
    } else {
        assert(whole < usize::MAX) by (nonlinear_arith)
            requires
                entries == readers * whole + rest,
                rest > 0,
                readers > 0,
                entries <= usize::MAX,
        ;
        assert((whole + 1) * readers == readers * whole + readers) by (nonlinear_arith);
        assert((whole + 1 - 1) * readers == readers * whole) by (nonlinear_arith);
        whole + 1
    }
}

impl<'m, F: Fn(u64, usize) -> Result<Vec<u8>, Error>> TrieFile<'m, F> {
    /// Obtain the hash of a node of the trie at `trie_offset`.
    pub fn get_node_hash<R: ValueExtentResolver>(
        &self,
        context: &RecordContext<R>,
        trie_offset: u64,
        ptr: &TriePtr,
    ) -> (out: Result<TrieHash, Error>)
        requires
            self.readable(),
        ensures
            if trie_offset + ptr.ptr > u64::MAX {
                out == Err::<TrieHash, Error>(Error::OverflowError)
            } else {
                forall|content: Seq<u8>| #[trigger]
                    self.holds(content) ==> self.hash_reads(
                        content,
                        context,
                        (trie_offset + ptr.ptr) as u64,
                        out,
                    )
            },
    {
        match node_position(trie_offset, ptr) {
            Ok(at) => self.read_hash_at(context, at),
            Err(e) => Err(e),
        }
    }

    /// Read a node or patch of the trie at `trie_offset`.
    pub fn read_trie_item<'a>(
        &self,
        format: NodeRecordFormat,
        trie_offset: u64,
        ptr: &TriePtr,
        scratch: &'a mut MarfReadState,
    ) -> (out: Result<ReadTrieItem<'a>, Error>)
        requires
            self.readable(),
            old(scratch).wf(),
        ensures
            if trie_offset + ptr.ptr > u64::MAX {
                out matches Err(e) && e == Error::OverflowError
            } else {
                forall|content: Seq<u8>| #[trigger]
                    self.holds(content) ==> match self.record_at(
                        content,
                        format,
                        (trie_offset + ptr.ptr) as u64,
                        ptr.id,
                    ) {
                        Err(e) => out matches Err(found) && found == e,
                        Ok(record) => match record.item(ptr.id) {
                            Err(e) => out matches Err(found) && found == e,
                            Ok((item, _)) => out matches Ok(read) && item_reads(
                                read,
                                record.hash,
                                item,
                            ),
                        },
                    }
            },
    {
        match node_position(trie_offset, ptr) {
            Ok(at) => self.read_item_at_offset(format, at, ptr, scratch),
            Err(e) => Err(e),
        }
    }

    /// Read the type and hash of a node of the trie at `trie_offset`.
    pub fn read_node_type_id<R: ValueExtentResolver>(
        &self,
        context: &RecordContext<R>,
        trie_offset: u64,
        ptr: &TriePtr,
    ) -> (out: Result<(TrieNodeID, TrieHash), Error>)
        requires
            self.readable(),
        ensures
            if trie_offset + ptr.ptr > u64::MAX {
                out == Err::<(TrieNodeID, TrieHash), Error>(Error::OverflowError)
            } else {
                forall|content: Seq<u8>| #[trigger]
                    self.holds(content) ==> match self.probed_at(
                        content,
                        context.format,
                        (trie_offset + ptr.ptr) as u64,
                    ) {
                        Err(e) => out == Err::<(TrieNodeID, TrieHash), Error>(e),
                        Ok(record) => exists|hash: Result<TrieHash, Error>| #[trigger]
                            context.hashes(record, hash) && match hash {
                                Ok(found) => out matches Ok((id, h)) && record.logical() == Some(id)
                                    && h == found,
                                Err(e) => out == Err::<(TrieNodeID, TrieHash), Error>(e),
                            },
                    }
            },
    {
        match node_position(trie_offset, ptr) {
            Ok(at) => self.read_node_type_at(context, at),
            Err(e) => Err(e),
        }
    }

    /// The headers of the first `n` entries, or the first failure among them.
    pub open spec fn headers_of<T: MarfTrieId>(
        &self,
        content: Seq<u8>,
        format: NodeRecordFormat,
        entries: Seq<MarfDataEntry<T>>,
        n: nat,
    ) -> Result<Seq<(Seq<u8>, Header)>, Error>
        decreases n,
    {
        if n == 0 {
            Ok(Seq::empty())
        } else {
            match self.headers_of(content, format, entries, (n - 1) as nat) {
                Err(e) => Err(e),
                Ok(before) => {
                    let entry = entries[n - 1];
                    match self.header_at(content, format, entry.external_offset) {
                        Err(e) => Err(e),
                        Ok(header) => Ok(before.push((entry.block_hash.id_bytes(), header))),
                    }
                },
            }
        }
    }

    /// Read the header of every entry in a chunk.
    pub fn read_blob_header_chunk<T: MarfTrieId>(
        &self,
        format: NodeRecordFormat,
        chunk: &[MarfDataEntry<T>],
    ) -> (out: Result<Vec<(T, BlobHeader<T>)>, Error>)
        requires
            self.readable(),
        ensures
            forall|content: Seq<u8>| #[trigger]
                self.holds(content) ==> match self.headers_of(content, format, chunk@, chunk@.len()) {
                    Ok(headers) => out matches Ok(found) && header_views(found@) == headers,
                    Err(e) => out matches Err(found) && found == e,
                },
    {
        let mut headers: Vec<(T, BlobHeader<T>)> = Vec::new();
        assert(header_views(headers@) =~= Seq::<(Seq<u8>, Header)>::empty());
        let mut i: usize = 0;
        while i < chunk.len()
            invariant
                self.readable(),
                i <= chunk.len(),
                forall|content: Seq<u8>| #[trigger]
                    self.holds(content) ==> self.headers_of(content, format, chunk@, i as nat) == Ok::<
                        Seq<(Seq<u8>, Header)>,
                        Error,
                    >(header_views(headers@)),
            decreases chunk.len() - i,
        {
            let read = self.read_blob_header::<T>(format, chunk[i].external_offset);
            match read {
                Ok(header) => {
                    let ghost before = headers@;
                    headers.push((copy_id(&chunk[i].block_hash), header));
                    assert(header_views(headers@) =~= header_views(before).push(
                        (chunk@[i as int].block_hash.id_bytes(), header@),
                    ));
                },
                Err(e) => {
                    assert forall|content: Seq<u8>| #[trigger] self.holds(content) implies self.headers_of(
                        content,
                        format,
                        chunk@,
                        chunk@.len(),
                    ) == Err::<Seq<(Seq<u8>, Header)>, Error>(e) by {
                        assert(self.headers_of(content, format, chunk@, (i + 1) as nat) == Err::<
                            Seq<(Seq<u8>, Header)>,
                            Error,
                        >(e));
                        self.lemma_header_failure_stays(content, format, chunk@, (i + 1) as nat);
                    }
                    return Err(e);
                },
            }
            i = i + 1;
        }
        Ok(headers)
    }

    proof fn lemma_header_failure_stays<T: MarfTrieId>(
        &self,
        content: Seq<u8>,
        format: NodeRecordFormat,
        entries: Seq<MarfDataEntry<T>>,
        n: nat,
    )
        requires
            n <= entries.len(),
            self.headers_of(content, format, entries, n) is Err,
        ensures
            self.headers_of(content, format, entries, entries.len()) == self.headers_of(
                content,
                format,
                entries,
                n,
            ),
        decreases entries.len() - n,
    {
        if n < entries.len() {
            self.lemma_header_failure_stays(content, format, entries, n + 1);
        }
    }
}

/// Blocks and their headers.
pub open spec fn header_views<T: MarfTrieId>(headers: Seq<(T, BlobHeader<T>)>) -> Seq<
    (Seq<u8>, Header),
> {
    Seq::new(headers.len(), |i: int| (headers[i].0.id_bytes(), headers[i].1@))
}

/// Where the blobs of a database are kept: beside it, or in memory for a database in memory.
pub fn blob_path(db_path: &str) -> (path: Option<String>)
    ensures
        match path {
            Some(found) => db_path@ != ":memory:"@ && found@ == db_path@ + ".blobs"@,
            None => db_path@ == ":memory:"@,
        },
{
    let path: String = db_path.to_owned();
    let memory: String = ":memory:".to_owned();
    if path == memory {
        return None;
    }
    Some(path.concat(".blobs"))
}

/// Whether a block's trie is to be copied out of the database, given whether the block is
/// unconfirmed: unconfirmed tries stay, and identifiers that name no block are passed over.
pub fn exports_block(unconfirmed: Result<bool, Error>) -> (exports: Result<bool, Error>)
    ensures
        match unconfirmed {
            Ok(held) => exports == Ok::<bool, Error>(!held),
            Err(Error::NotFoundError) => exports == Ok::<bool, Error>(false),
            Err(e) => exports == Err::<bool, Error>(e),
        },
{
    match unconfirmed {
        Ok(held) => Ok(!held),
        Err(Error::NotFoundError) => Ok(false),
        Err(e) => Err(e),
    }
}

} // verus!
