use marf_index::blob_layout::ROOT_NODE_OFFSET;
use marf_index::error::{Corruption, Error, IoErrorKind};
use marf_index::hash::{StacksBlockId, TrieHash};
use marf_index::inline_value::{Inline, InlineValue};
use marf_index::leaf::{TrieLeaf, TrieNodeType};
use marf_index::node::{TrieBranch, TrieNodeID, TrieNodePatch, TriePtr};
use marf_index::node_codec::get_leaf_hash;
use marf_index::read_node::{MarfDataEntry, ReadTrieItemKind};
use marf_index::record::NodeRecordFormat;
use marf_index::record_context::{RecordContext, ValueExtentResolver};
use marf_index::scratch::MarfReadState;
use marf_index::trie_file::{
    blob_path, exports_block, header_chunk_size, header_read_parallelism, node_position,
    read_up_to, MappedTrieItem, TrieFile, TrieFileDisk, TrieFileRAM, TrieIdOffsets,
};
use marf_index::value::{Extent, MARFValue, ValueExtent};

/// A value source that knows no value.
struct NoValues;

impl ValueExtentResolver for NoValues {
    fn may_commit(&self, _extent: Extent, _answer: Result<MARFValue, Error>) -> bool {
        unreachable!()
    }

    fn may_commit_inline(&self, _value: Inline, _answer: Result<MARFValue, Error>) -> bool {
        unreachable!()
    }

    fn commitment(&self, _extent: ValueExtent) -> Result<MARFValue, Error> {
        Err(Error::NotFoundError)
    }

    fn inline_commitment(&self, _value: &InlineValue) -> Result<MARFValue, Error> {
        Err(Error::NotFoundError)
    }
}

fn context(format: NodeRecordFormat) -> RecordContext<NoValues> {
    RecordContext {
        format,
        value_resolver: None,
    }
}

/// Positional reads of a file that come back three bytes at a time.
fn pread(content: Vec<u8>) -> impl Fn(u64, usize) -> Result<Vec<u8>, Error> {
    move |offset: u64, len: usize| {
        let start = (offset as usize).min(content.len());
        let end = (start + len.min(3)).min(content.len());
        Ok(content[start..end].to_vec())
    }
}

/// A file of which only a prefix is mapped.
fn disk(
    content: &[u8],
    mapped: Option<&'static [u8]>,
) -> TrieFile<'static, impl Fn(u64, usize) -> Result<Vec<u8>, Error>> {
    TrieFile::Disk(TrieFileDisk {
        pread: pread(content.to_vec()),
        mapped,
    })
}

fn leak(bytes: &[u8]) -> &'static [u8] {
    bytes.to_vec().leak()
}

/// Reads at or over the end of the mapped prefix see what was appended since.
#[test]
fn stale_mmap_boundary_reads_fall_back_to_pread() {
    let file = disk(b"abcdefgh", Some(b"abcd"));
    assert!(file.mmap_slice_at(4, 1).is_none());
    assert!(file.mmap_slice_at(2, 4).is_none());
    assert!(file.mmap_slice_at(5, 0).is_none());
    assert_eq!(file.mmap_slice_at(1, 3).unwrap(), b"bcd");
    assert_eq!(file.read_bytes_at(4, 4).unwrap(), b"efgh");
    assert_eq!(file.read_bytes_at(2, 4).unwrap(), b"cdef");
    assert_eq!(file.read_bytes_at(1, 2).unwrap(), b"bc");
    assert_eq!(file.read_bytes_at(6, 9).unwrap(), b"gh");
    assert_eq!(file.read_bytes_at(100, 9).unwrap(), b"");
}

/// Hash probes must read the full leaf when only its prefix lies in mapped complete pages.
#[test]
fn hashless_leaf_crossing_mapped_prefix_uses_file_tail() {
    let page = 4096usize;
    for format in [
        NodeRecordFormat::TypeFirstV2,
        NodeRecordFormat::TypeFirstV3,
        NodeRecordFormat::TypeFirstV4,
    ] {
        let leaf = TrieLeaf::from_value(&[17; 31], MARFValue([7; 40]));
        let expected = get_leaf_hash(&leaf);
        let mut encoded = vec![];
        format
            .write_node(&mut encoded, &TrieNodeType::Leaf(leaf), expected, false)
            .unwrap();
        let offset = page - 40;
        let mut bytes = vec![0; offset];
        bytes.extend(&encoded);
        let file = disk(&bytes, Some(leak(&bytes[..page])));
        assert_eq!(
            file.read_node_type_at(&context(format), offset as u64)
                .unwrap(),
            (TrieNodeID::Leaf, expected)
        );
        assert_eq!(
            file.read_hash_at(&context(format), offset as u64).unwrap(),
            expected
        );
    }
}

/// Short positional reads go on until the bytes or the file end.
#[test]
fn positional_reads_continue_after_short_reads() {
    let read = pread(b"0123456789".to_vec());
    assert_eq!(read_up_to(&read, 1, 8).unwrap(), b"12345678");
    assert_eq!(read_up_to(&read, 7, 8).unwrap(), b"789");
    assert_eq!(read_up_to(&read, 10, 1).unwrap(), b"");
}

/// What is appended is read back, and earlier blobs stay as they were.
#[test]
fn appended_blobs_are_read_back() {
    let mut ram = TrieFileRAM { bytes: vec![] };
    ram.append_trie_blob(0, b"first");
    ram.append_trie_blob(5, b"second");
    ram.append_trie_blob(13, b"!");
    assert_eq!(ram.bytes, b"firstsecond\0\0!");
    let file: TrieFile<'static, fn(u64, usize) -> Result<Vec<u8>, Error>> = TrieFile::RAM(ram);
    assert_eq!(file.read_trie_blob_bytes(5, 6).unwrap(), b"second");
    assert_eq!(file.read_blob_bytes_at(0, 5).unwrap(), b"first");
    assert!(file.mmap_slice_at(0, 1).is_none());
    assert!(matches!(
        file.read_trie_blob_bytes(10, 6),
        Err(Error::CorruptionError(Corruption::ShortRead))
    ));
    assert!(file.read_blob_bytes_at(10, 6).is_err());
}

/// A trie blob with a root, a leaf and a patch; gives their positions in the blob.
fn blob(format: NodeRecordFormat) -> (Vec<u8>, u64, u64) {
    let mut bytes = vec![];
    format.write_trie_header(&mut bytes, &StacksBlockId([5; 32]));
    let mut root = TrieBranch::empty(TrieNodeID::Node256);
    root.insert(&TriePtr::new(1, 9, 3));
    format
        .write_node(
            &mut bytes,
            &TrieNodeType::Branch(root),
            TrieHash([6; 32]),
            true,
        )
        .unwrap();
    let leaf_at = bytes.len() as u64;
    let leaf = TrieLeaf::from_value(&[8; 31], MARFValue([7; 40]));
    let hash = get_leaf_hash(&leaf);
    format
        .write_node(&mut bytes, &TrieNodeType::Leaf(leaf), hash, false)
        .unwrap();
    let patch_at = bytes.len() as u64;
    let patch = TrieNodePatch {
        ptr: TriePtr::new_backptr(5, 0, 36, 2),
        ptr_diff: vec![TriePtr::new(1, 3, 77)],
    };
    format
        .write_patch(&mut bytes, &patch, TrieHash([4; 32]))
        .unwrap();
    (bytes, leaf_at, patch_at)
}

/// Headers and records of blobs behind one another read the same from every backing.
#[test]
fn blobs_read_the_same_from_every_backing() {
    for format in [NodeRecordFormat::Legacy, NodeRecordFormat::TypeFirstV1] {
        let (one, leaf_at, patch_at) = blob(format);
        let start = one.len() as u64;
        let mut content = one.clone();
        content.extend(&one);
        content.extend([0; 65536]);
        let mut ram = TrieFileRAM { bytes: vec![] };
        ram.append_trie_blob(0, &content);
        let ram: TrieFile<'static, fn(u64, usize) -> Result<Vec<u8>, Error>> = TrieFile::RAM(ram);
        let plain = disk(&content, None);
        let mapped = disk(&content, Some(leak(&content)));
        let context = context(format);
        let root = TriePtr::new(5, 0, ROOT_NODE_OFFSET as u64);
        let leaf = TriePtr::new(1, 0, leaf_at);
        let patch = TriePtr::new(5, 0, patch_at);

        assert!(plain.validate_header_at(format, start).is_ok());
        let headers = [
            ram.read_blob_header::<StacksBlockId>(format, start).unwrap(),
            plain
                .read_blob_header::<StacksBlockId>(format, start)
                .unwrap(),
            mapped
                .read_blob_header::<StacksBlockId>(format, start)
                .unwrap(),
        ];
        for header in headers {
            assert_eq!(header.parent_hash, StacksBlockId([5; 32]));
            assert_eq!(header.root_hash, TrieHash([6; 32]));
        }
        let entry = MarfDataEntry {
            block_id: 1,
            block_hash: StacksBlockId([1; 32]),
            external_offset: start,
        };
        let chunk = plain.read_blob_header_chunk(format, &[entry]).unwrap();
        assert_eq!(chunk.len(), 1);
        assert_eq!(chunk[0].0, StacksBlockId([1; 32]));
        assert_eq!(chunk[0].1.root_hash, TrieHash([6; 32]));

        assert_eq!(
            plain.get_node_hash(&context, start, &root).unwrap(),
            TrieHash([6; 32])
        );
        assert_eq!(
            ram.read_node_type_id(&context, start, &patch).unwrap(),
            (TrieNodeID::Patch, TrieHash([4; 32]))
        );
        let mut scratch = MarfReadState::default();
        let item = plain
            .read_trie_item(format, start, &leaf, &mut scratch)
            .unwrap();
        let ReadTrieItemKind::Node(node) = item.kind else {
            panic!("expected a leaf");
        };
        let (owned, _) = node.into_owned_node().unwrap();
        let TrieNodeType::Leaf(found) = owned else {
            panic!("expected a leaf");
        };
        assert_eq!(found.value().unwrap(), &MARFValue([7; 40]));

        assert!(plain
            .read_trie_item_borrowed(format, start + leaf_at, &leaf)
            .unwrap()
            .is_none());
        match mapped
            .read_trie_item_borrowed(format, start + patch_at, &patch)
            .unwrap()
        {
            Some(MappedTrieItem::Patch { hash, .. }) => assert_eq!(hash, TrieHash([4; 32])),
            _ => panic!("expected a patch"),
        }
        assert!(matches!(
            mapped.read_trie_item_borrowed(format, start + leaf_at, &leaf),
            Ok(Some(MappedTrieItem::Node(_)))
        ));
        assert!(matches!(
            plain.get_node_hash(&context, u64::MAX, &root),
            Err(Error::OverflowError)
        ));
    }
    let (legacy, _, _) = blob(NodeRecordFormat::Legacy);
    let file = disk(&legacy, None);
    assert!(matches!(
        file.validate_header_at(NodeRecordFormat::TypeFirstV1, 0),
        Err(Error::CorruptionError(Corruption::TrieLayoutMismatch))
    ));
}

/// Offsets are looked up once, and only where the trie has the right layout.
#[test]
fn offsets_are_cached_once_found() {
    let format = NodeRecordFormat::TypeFirstV1;
    let (bytes, _, _) = blob(format);
    let mut content = vec![1; 7];
    content.extend(&bytes);
    let file = disk(&content, None);
    let mut offsets = TrieIdOffsets::new();
    assert_eq!(offsets.known(3), None);
    assert!(matches!(
        offsets.get_trie_offset(&file, format, 3, |_id: u32| Err(Error::NotFoundError)),
        Err(Error::NotFoundError)
    ));
    assert!(offsets
        .get_trie_offset(&file, format, 3, |_id: u32| Ok(0))
        .is_err());
    assert_eq!(
        offsets
            .get_trie_offset(&file, format, 3, |_id: u32| Ok(7))
            .unwrap(),
        7
    );
    assert_eq!(
        offsets
            .get_trie_offset(&file, format, 3, |_id: u32| Ok(9))
            .unwrap(),
        7
    );
    assert!(offsets.cache_trie_offset(&file, format, 4, 0).is_err());
    assert_eq!(offsets.known(4), None);
    assert!(offsets.cache_trie_offset(&file, format, 4, 7).is_ok());
    assert_eq!(offsets.known(4), Some(7));
    let (at, len) = offsets.prefetch_node(4, 36, 1, false).unwrap();
    assert_eq!(at, 43);
    assert!(len > 0);
    assert_eq!(offsets.prefetch_node(5, 36, 1, false), None);
    assert_eq!(offsets.prefetch_node(4, u64::MAX, 1, false), None);
}

/// Small rules of the file layer.
#[test]
fn file_rules_have_exact_values() {
    assert_eq!(blob_path(":memory:"), None);
    assert_eq!(blob_path("/a/marf.sqlite").unwrap(), "/a/marf.sqlite.blobs");
    assert_eq!(header_read_parallelism(1), 16);
    assert_eq!(header_read_parallelism(12), 24);
    assert_eq!(header_read_parallelism(64), 32);
    assert_eq!(header_chunk_size(100, 1), 7);
    assert_eq!(header_chunk_size(3, 1), 1);
    assert_eq!(node_position(5, &TriePtr::new(1, 0, 6)).unwrap(), 11);
    assert!(exports_block(Ok(false)).unwrap());
    assert!(!exports_block(Ok(true)).unwrap());
    assert!(!exports_block(Err(Error::NotFoundError)).unwrap());
    assert!(matches!(
        exports_block(Err(Error::IOError(IoErrorKind::Other))),
        Err(Error::IOError(IoErrorKind::Other))
    ));
}
