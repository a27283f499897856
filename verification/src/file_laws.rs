//! What reading a file or a row gives of what it holds.
use vstd::prelude::*;

use vstd::utf8::valid_utf8;

use crate::blob_layout::Header;
use crate::error::{Corruption, Error, IoErrorKind};
use crate::fork_storage::{copies, key_of, row_outcome, Column};
use crate::hash::{MarfTrieId, TrieHash};
use crate::hash_publication::{row_header, TrieRow};
use crate::hex::hex_of;
use crate::leaf::Node;
use crate::node::{Branch, TriePtr};
use crate::read_node::MarfDataEntry;
use crate::record::NodeRecordFormat;
use crate::record_context::{RecordContext, ValueExtentResolver};
use crate::trie_file::{max_node_len, TrieFile, TrieFileRAM};

verus! {

/// Whether bytes are what a content holds from an offset on.
pub open spec fn shows_from(content: Seq<u8>, offset: int, bytes: Seq<u8>) -> bool {
    &&& offset + bytes.len() <= content.len()
    &&& forall|i: int| 0 <= i < bytes.len() ==> #[trigger] bytes[i] == content[offset + i]
}

/// An exact read that succeeds gives as many bytes as were asked for, as the content holds them at
/// the offset; it succeeds wherever the content has them, in memory and on disk alike.
pub proof fn law_exact_reads_show_content<F: Fn(u64, usize) -> Result<Vec<u8>, Error>>(
    file: &TrieFile<'_, F>,
    content: Seq<u8>,
    offset: u64,
    len: usize,
)
    ensures
        file.exact_at(content, offset, len) matches Ok(bytes) ==> bytes.len() == len && (len > 0
            ==> shows_from(content, offset as int, bytes)),
        offset + len <= content.len() ==> file.exact_at(content, offset, len) is Ok,
        file.exact_at(content, offset, len) is Err ==> offset + len > content.len(),
{
}

/// A bounded read that succeeds gives bytes as the content holds them at the offset: all that were
/// asked for, or all that there are.
pub proof fn law_bounded_reads_show_content<F: Fn(u64, usize) -> Result<Vec<u8>, Error>>(
    file: &TrieFile<'_, F>,
    content: Seq<u8>,
    offset: u64,
    len: usize,
)
    ensures
        file.bytes_at(content, offset, len) matches Ok(bytes) ==> {
            &&& bytes.len() <= len
            &&& bytes.len() > 0 ==> shows_from(content, offset as int, bytes)
            &&& bytes.len() == len || offset + bytes.len() >= content.len()
        },
        offset <= content.len() && offset + len <= usize::MAX ==> file.bytes_at(
            content,
            offset,
            len,
        ) is Ok,
{
}

/// What a record is decoded from is what the file holds at its offset, whether it is mapped or not:
/// at least as many bytes as the longest record takes, or all that there are.
pub proof fn law_mapping_shows_the_file<F: Fn(u64, usize) -> Result<Vec<u8>, Error>>(
    file: &TrieFile<'_, F>,
    content: Seq<u8>,
    offset: u64,
    bound: usize,
)
    requires
        file.holds(content),
    ensures
        file.seen_at(content, offset, bound) matches Ok(bytes) ==> {
            &&& bytes.len() > 0 ==> shows_from(content, offset as int, bytes)
            &&& bytes.len() >= bound || offset + bytes.len() >= content.len()
        },
{
}

/// A stored hash is the 32 bytes that the file holds at its offset, whether they are mapped or not;
/// it is had wherever the file has them.
pub proof fn law_stored_hash_is_read<F: Fn(u64, usize) -> Result<Vec<u8>, Error>>(
    file: &TrieFile<'_, F>,
    content: Seq<u8>,
    offset: u64,
)
    requires
        file.holds(content),
    ensures
        file.plain_hash_at(content, offset) matches Ok(hash) ==> hash.len() == 32 && shows_from(
            content,
            offset as int,
            hash,
        ),
        offset + 32 <= content.len() && offset + 32 <= usize::MAX ==> file.plain_hash_at(
            content,
            offset,
        ) is Ok,
        offset + 32 > content.len() ==> file.plain_hash_at(content, offset) is Err,
{
}

/// A trie's header is read where it was written: the parent and the hash of the root, whatever the
/// file holds before and behind the trie.
pub proof fn law_written_header_is_read<F: Fn(u64, usize) -> Result<Vec<u8>, Error>>(
    file: &TrieFile<'_, F>,
    format: NodeRecordFormat,
    parent: Seq<u8>,
    root: Branch,
    hash: Seq<u8>,
    compressed: bool,
    before: Seq<u8>,
    rest: Seq<u8>,
)
    requires
        parent.len() == 32,
        hash.len() == 32,
        root.id is Node256,
        root.wf(),
        format.node_record(Node::Branch(root), hash, compressed) is Ok,
        before.len() <= u64::MAX,
        before.len() + 69 <= usize::MAX,
    ensures
        ({
            let blob = parent + format.tag() + format.node_record(
                Node::Branch(root),
                hash,
                compressed,
            )->Ok_0;
            file.header_at(before + blob + rest, format, before.len() as u64) == Ok::<
                Header,
                Error,
            >(Header { parent, root: hash })
        }),
{
    let record = format.node_record(Node::Branch(root), hash, compressed)->Ok_0;
    let blob = parent + format.tag() + record;
    let content = before + blob + rest;
    let n: int = if format is Legacy {
        68
    } else {
        69
    };
    let at = before.len() as int;
    assert(record.len() >= 33);
    let bytes = content.subrange(at, at + n);
    assert(bytes =~= blob.subrange(0, n));
    assert(bytes.subrange(0, 32) =~= parent);
    assert(bytes.subrange(32, 36) =~= format.tag());
    if format is Legacy {
        assert(bytes.subrange(36, 68) =~= hash);
    } else {
        assert(record[0] == 5);
        assert(bytes[36] == 5);
        assert(bytes.subrange(37, 69) =~= hash);
        let head = bytes.subrange(36, 69);
        assert(head[0] == 5);
        assert(head.len() == 33);
    }
}

/// Headers come in the order of their entries: each with its entry's block, as it is at the entry's
/// offset. They fail only where one of them does.
pub proof fn law_headers_are_their_entries<
    T: MarfTrieId,
    F: Fn(u64, usize) -> Result<Vec<u8>, Error>,
>(
    file: &TrieFile<'_, F>,
    content: Seq<u8>,
    format: NodeRecordFormat,
    entries: Seq<MarfDataEntry<T>>,
    n: nat,
)
    requires
        n <= entries.len(),
    ensures
        match file.headers_of(content, format, entries, n) {
            Ok(headers) => {
                &&& headers.len() == n
                &&& forall|i: int|
                    0 <= i < n ==> (#[trigger] headers[i]).0 == entries[i].block_hash.id_bytes()
                        && Ok::<Header, Error>(headers[i].1) == file.header_at(
                        content,
                        format,
                        entries[i].external_offset,
                    )
            },
            Err(e) => exists|i: int|
                0 <= i < n && Err::<Header, Error>(e) == #[trigger] file.header_at(
                    content,
                    format,
                    entries[i].external_offset,
                ),
        },
    decreases n,
{
    if n > 0 {
        law_headers_are_their_entries(file, content, format, entries, (n - 1) as nat);
    }
}

/// Writing a blob in memory changes the blob's bytes alone: others stay, and a gap before it is
/// filled with zeros.
pub proof fn law_written_blob_changes_its_bytes(
    bytes: Seq<u8>,
    offset: int,
    blob: Seq<u8>,
    i: int,
)
    requires
        0 <= offset,
        0 <= i,
    ensures
        TrieFileRAM::written(bytes, offset, blob).len() >= bytes.len(),
        TrieFileRAM::written(bytes, offset, blob).len() >= offset + blob.len(),
        TrieFileRAM::written(bytes, offset, blob).len() == bytes.len() || TrieFileRAM::written(
            bytes,
            offset,
            blob,
        ).len() == offset + blob.len(),
        i < bytes.len() && !(offset <= i < offset + blob.len()) ==> TrieFileRAM::written(
            bytes,
            offset,
            blob,
        )[i] == bytes[i],
        bytes.len() <= i < offset ==> TrieFileRAM::written(bytes, offset, blob)[i] == 0,
{
}

proof fn lemma_narrow_list(ptrs: Seq<TriePtr>, n: nat)
    requires
        n <= ptrs.len(),
        forall|i: int| 0 <= i < ptrs.len() ==> !(#[trigger] ptrs[i]).wide(),
    ensures
        crate::bits::plain_len(ptrs, n) == 10 * n,
    decreases n,
{
    if n > 0 {
        lemma_narrow_list(ptrs, (n - 1) as nat);
        assert(!ptrs[n - 1].wide());
    }
}

/// A branch and its hash never take more than is set aside for its type, and as much as that with
/// the longest path, where all offsets are short.
pub proof fn law_nodes_fit_what_is_set_aside(branch: Branch, u64_ptr_offsets: bool)
    requires
        branch.wf(),
        !u64_ptr_offsets ==> forall|i: int|
            0 <= i < branch.ptrs.len() ==> !(#[trigger] branch.ptrs[i]).wide(),
    ensures
        max_node_len(branch.id.code(), u64_ptr_offsets) is Some,
        32 + Node::Branch(branch).encoded_len(false) <= max_node_len(
            branch.id.code(),
            u64_ptr_offsets,
        )->0,
        !u64_ptr_offsets && branch.path.len() == 32 ==> 32 + Node::Branch(branch).encoded_len(false)
            == max_node_len(branch.id.code(), u64_ptr_offsets)->0,
{
    crate::bits::lemma_list_lens(branch.ptrs);
    crate::bits::lemma_list_len_bounds(branch.ptrs, branch.ptrs.len());
    if !u64_ptr_offsets {
        lemma_narrow_list(branch.ptrs, branch.ptrs.len());
    }
}

proof fn lemma_ascii_is_utf8(bytes: Seq<u8>)
    requires
        forall|i: int| 0 <= i < bytes.len() ==> (#[trigger] bytes[i]) < 128,
    ensures
        valid_utf8(bytes),
    decreases bytes.len(),
{
    if bytes.len() > 0 {
        let first = bytes[0];
        assert(first < 128 ==> first & 0x80 == 0) by (bit_vector);
        assert(first & 0x7f < 128) by (bit_vector);
        let rest = bytes.subrange(1, bytes.len() as int);
        lemma_ascii_is_utf8(rest);
        assert(vstd::utf8::is_leading_byte_width_1(first));
        assert(vstd::utf8::pop_first_scalar(bytes) == rest);
    }
}

/// A key is told from its column and the column from its key: 40 bytes, as they are or as their
/// hexadecimal text. Nothing else holds a key.
pub proof fn law_columns_hold_keys(column: Column, key: Seq<u8>)
    ensures
        key.len() == 40 ==> key_of(Column::Blob(key)) == Ok::<Seq<u8>, Error>(key),
        key.len() == 40 ==> key_of(Column::Text(hex_of(key))) == Ok::<Seq<u8>, Error>(key),
        key_of(column) == Ok::<Seq<u8>, Error>(key) ==> key.len() == 40 && (column == Column::Blob(
            key,
        ) || column == Column::Text(hex_of(key))),
{
    let text = hex_of(key);
    crate::hex::law_hex_roundtrip(key);
    assert forall|i: int| 0 <= i < text.len() implies (#[trigger] text[i]) < 128 by {
        assert(0 <= i / 2 < key.len());
    }
    lemma_ascii_is_utf8(text);
}

/// A row comes over whole or not at all: it is copied only under a kept key, passed over under any
/// other, whatever its texts, and refused where a kept row has a text that is none.
pub proof fn law_rows_come_over_whole(row: Seq<Column>, keep: Set<Seq<u8>>, key: Seq<u8>, i: int)
    requires
        row.len() > 0,
    ensures
        row_outcome(row, keep) matches Ok(Some(copied)) ==> copied == row && key_of(row[0]) is Ok
            && keep.contains(key_of(row[0])->Ok_0),
        key_of(row[0]) == Ok::<Seq<u8>, Error>(key) && !keep.contains(key) ==> row_outcome(
            row,
            keep,
        ) == Ok::<Option<Seq<Column>>, Error>(None),
        key_of(row[0]) == Ok::<Seq<u8>, Error>(key) && keep.contains(key) && 0 <= i < row.len()
            && !copies(row[i]) ==> row_outcome(row, keep) == Err::<Option<Seq<Column>>, Error>(
            Error::CorruptionError(Corruption::TextNotUtf8),
        ),
        key_of(row[0]) matches Err(e) ==> row_outcome(row, keep) == Err::<
            Option<Seq<Column>>,
            Error,
        >(e),
{
}

/// A layout's header is never taken for that of another layout with a version tag.
pub proof fn law_layouts_are_told_apart(
    format: NodeRecordFormat,
    other: NodeRecordFormat,
    bytes: Seq<u8>,
)
    requires
        bytes.len() >= 36,
        format != other,
        !(format is Legacy),
        !(other is Legacy),
    ensures
        format.header_fault(bytes) is None ==> other.header_fault(bytes) == Some(
            Error::CorruptionError(Corruption::TrieLayoutMismatch),
        ),
{
    if format.tag() == other.tag() {
        assert(format.tag()[3] == other.tag()[3]);
    }
}

/// A hash probe sees the marker that the file holds at its offset, and the hash behind it if one is
/// stored there: what it goes by does not depend on what is mapped.
pub proof fn law_probes_show_stored_hashes<F: Fn(u64, usize) -> Result<Vec<u8>, Error>>(
    file: &TrieFile<'_, F>,
    content: Seq<u8>,
    format: NodeRecordFormat,
    offset: u64,
)
    requires
        file.holds(content),
        !(format is Legacy),
    ensures
        file.probed_at(content, format, offset) matches Ok(record) ==> {
            &&& offset < content.len()
            &&& record.marker == content[offset as int]
            &&& format.physical(record.marker) is Ok
            &&& record.hash is None <==> NodeRecordFormat::hashless(
                format.physical(record.marker)->Ok_0,
            )
            &&& record.hash matches Some(hash) ==> shows_from(content, offset + 1, hash)
                && hash.len() == 32
        },
{
}

/// A record is read with the marker that the file holds at its offset, and the hash behind it.
pub proof fn law_records_show_stored_hashes<F: Fn(u64, usize) -> Result<Vec<u8>, Error>>(
    file: &TrieFile<'_, F>,
    content: Seq<u8>,
    format: NodeRecordFormat,
    offset: u64,
    ptr_id: u8,
)
    requires
        file.holds(content),
    ensures
        file.record_at(content, format, offset, ptr_id) matches Ok(record) ==> {
            let at = if format is Legacy {
                offset + 32
            } else {
                offset as int
            };
            &&& at < content.len()
            &&& record.marker == content[at]
            &&& record.hash matches Some(hash) ==> hash.len() == 32 && shows_from(
                content,
                if format is Legacy {
                    offset as int
                } else {
                    offset + 1
                },
                hash,
            )
        },
{
}

/// A row whose first bytes are those of a trie holds the trie's header, unless its length says that it
/// has none; a row that is too short for one is refused.
pub proof fn law_rows_hold_headers<T>(
    row: TrieRow<T>,
    format: NodeRecordFormat,
    parent: Seq<u8>,
    root: Branch,
    hash: Seq<u8>,
    compressed: bool,
    rest: Seq<u8>,
)
    requires
        parent.len() == 32,
        hash.len() == 32,
        root.id is Node256,
        root.wf(),
        format.node_record(Node::Branch(root), hash, compressed) is Ok,
    ensures
        row.prefix@ == parent + format.tag() + format.node_record(
            Node::Branch(root),
            hash,
            compressed,
        )->Ok_0 + rest && (row.length == 0 || row.length >= 69) ==> row_header(row, format) == Ok::<
            Header,
            Error,
        >(Header { parent, root: hash }),
        row.prefix@.len() < 68 ==> row_header(row, format) is Err,
        0 < row.length < 68 ==> row_header(row, format) is Err,
{
    let record = format.node_record(Node::Branch(root), hash, compressed)->Ok_0;
    let blob = parent + format.tag() + record + rest;
    if row.prefix@ == blob {
        let n: int = if format is Legacy {
            68
        } else {
            69
        };
        assert(record.len() >= 33);
        let bytes = blob.subrange(0, n);
        assert(bytes.subrange(0, 32) =~= parent);
        assert(bytes.subrange(32, 36) =~= format.tag());
        if format is Legacy {
            assert(bytes.subrange(36, 68) =~= hash);
        } else {
            assert(record[0] == 5);
            assert(bytes[36] == 5);
            assert(bytes.subrange(37, 69) =~= hash);
            let head = bytes.subrange(36, 69);
            assert(head[0] == 5);
            assert(head.len() == 33);
        }
    }
}

/// Texts are copied exactly if they are UTF-8, and all other columns are copied.
pub proof fn law_texts_are_copied_as_utf8(column: Column, text: Seq<u8>)
    ensures
        copies(Column::Text(text)) == valid_utf8(text),
        !(column is Text) ==> copies(column),
{
}

/// A row without room for a header is refused for what it lacks: a trie in the file whose length is too
/// small, one whose bytes end too soon, and one in the database that is too short.
pub proof fn law_short_rows_are_refused<T>(row: TrieRow<T>, format: NodeRecordFormat)
    ensures
        0 < row.length < 68 ==> row_header(row, format) == Err::<Header, Error>(
            Error::IOError(IoErrorKind::Invalid(Corruption::TruncatedExternalTrie)),
        ),
        row.length >= 69 && row.prefix@.len() < 68 ==> row_header(row, format) == Err::<
            Header,
            Error,
        >(Error::IOError(IoErrorKind::UnexpectedEof)),
        row.length == 0 && row.prefix@.len() < 68 ==> row_header(row, format) == Err::<
            Header,
            Error,
        >(Error::IOError(IoErrorKind::Invalid(Corruption::TruncatedInlineTrie))),
{
}

/// A trie that was written in a layout with a version tag is found to be of that layout and of no other
/// one with a tag.
pub proof fn law_written_layout_is_found<F: Fn(u64, usize) -> Result<Vec<u8>, Error>>(
    file: &TrieFile<'_, F>,
    format: NodeRecordFormat,
    other: NodeRecordFormat,
    parent: Seq<u8>,
    before: Seq<u8>,
    rest: Seq<u8>,
)
    requires
        parent.len() == 32,
        !(format is Legacy),
        !(other is Legacy),
        before.len() <= u64::MAX,
        before.len() + 36 <= usize::MAX,
    ensures
        ({
            let content = before + (parent + format.tag()) + rest;
            &&& file.header_fault_at(content, format, before.len() as u64) is None
            &&& other != format ==> file.header_fault_at(content, other, before.len() as u64)
                == Some(Error::CorruptionError(Corruption::TrieLayoutMismatch))
        }),
{
    let content = before + (parent + format.tag()) + rest;
    let at = before.len() as int;
    let bytes = content.subrange(at, at + 36);
    assert(bytes =~= parent + format.tag());
    assert(bytes.subrange(32, 36) =~= format.tag());
    if other != format {
        assert(format.header_fault(bytes) is None);
        law_layouts_are_told_apart(format, other, bytes);
    }
}

/// The hash that is read of a node is the one that the file holds at its place, if one is stored there:
/// first in historical records, and behind the marker in others.
pub proof fn law_node_hashes_are_read<
    F: Fn(u64, usize) -> Result<Vec<u8>, Error>,
    R: ValueExtentResolver,
>(
    file: &TrieFile<'_, F>,
    content: Seq<u8>,
    context: &RecordContext<R>,
    offset: u64,
    hash: TrieHash,
)
    requires
        file.holds(content),
        file.hash_reads(content, context, offset, Ok(hash)),
    ensures
        context.format is Legacy ==> shows_from(content, offset as int, hash@),
        !(context.format is Legacy) ==> {
            &&& offset < content.len()
            &&& context.format.physical(content[offset as int]) matches Ok(id) && (
            NodeRecordFormat::hashless(id) || shows_from(content, offset + 1, hash@))
        },
{
    if context.format is Legacy {
        law_stored_hash_is_read(file, content, offset);
    } else {
        law_probes_show_stored_hashes(file, content, context.format, offset);
    }
}

} // verus!
