use marf_index::error::{Corruption, Error};
use marf_index::hash::TrieHash;
use marf_index::inline_value::{Inline, InlineValue};
use marf_index::leaf::{TrieLeaf, TrieNodeType};
use marf_index::node::{clear_ctrl_bits, TrieBranch, TrieNodeID, TrieNodePatch, TriePtr};
use marf_index::node_codec::get_leaf_hash;
use marf_index::read_node::{BorrowedNodeBytes, ReadTrieItemKind, ReadTrieNode};
use marf_index::record::{NodeRecordFormat, SQL_MARF_TYPE_FIRST_SCHEMA_VERSION};
use marf_index::record_context::{RecordContext, ValueExtentResolver};
use marf_index::scratch::{read_trie_item_at_head_ref_format, MarfReadState};
use marf_index::value::{Extent, MARFValue, ValueExtent};

/// Branch payloads and logical encodings survive both envelope layouts and compression modes.
#[test]
fn branches_preserve_payloads_and_hashes() {
    let mut n4 = TrieBranch::empty(TrieNodeID::Node4);
    let mut n16 = TrieBranch::empty(TrieNodeID::Node16);
    let mut n48 = TrieBranch::empty(TrieNodeID::Node48);
    let mut n256 = TrieBranch::empty(TrieNodeID::Node256);
    for chr in 0..4 {
        let ptr = TriePtr::new_backptr(1, chr, 900 + u64::from(chr), 12);
        n4.insert(&ptr);
        n16.insert(&ptr);
        n48.insert(&ptr);
        n256.insert(&ptr);
    }
    for branch in [n4, n16, n48, n256] {
        let node = TrieNodeType::Branch(branch);
        for compressed in [false, true] {
            for format in [NodeRecordFormat::Legacy, NodeRecordFormat::TypeFirstV1] {
                let mut bytes = Vec::new();
                let hash = TrieHash([0xab; 32]);
                format
                    .write_node(&mut bytes, &node, hash, compressed)
                    .unwrap();
                assert_eq!(bytes.len(), format.node_len(&node, compressed));
                let record = format.parse(&bytes).unwrap();
                assert_eq!(record.hash, Some(hash));
                let (decoded, consumed) = record.decode_node(node.id()).unwrap();
                assert_eq!(consumed, bytes.len());
                assert_eq!(decoded, node);
                assert_eq!(record.payload.as_ptr(), bytes[record.prefix_len..].as_ptr());
                if format.is_type_first() {
                    assert_eq!(clear_ctrl_bits(bytes[0]), node.id());
                    assert_eq!(&bytes[1..33], &hash.as_bytes()[..]);
                }
            }
        }
    }
}

/// Compact leaves carry no commitment or stored hash and retain their logical parent ID.
#[test]
fn locator_leaf_is_72_bytes_smaller_and_unresolved() {
    let mut leaf = TrieLeaf::from_value(&[2, 3, 4], MARFValue([0xab; 40]));
    let extent = ValueExtent {
        store_id: [5; 16],
        offset: 8192,
        length: 300,
    };
    leaf.extent = Some(extent);
    let logical_hash = get_leaf_hash(&leaf);
    let node = TrieNodeType::Leaf(leaf.clone());
    let mut legacy = Vec::new();
    NodeRecordFormat::Legacy
        .write_node(&mut legacy, &node, logical_hash, false)
        .unwrap();
    let mut compact = Vec::new();
    NodeRecordFormat::TypeFirstV1
        .write_node(&mut compact, &node, logical_hash, false)
        .unwrap();
    assert_eq!(legacy.len() - compact.len(), 72);
    assert_eq!(
        compact.len(),
        1 + 1 + leaf.path.len() + ValueExtent::ENCODED_SIZE
    );
    assert_eq!(compact[0], TrieNodeID::ValueLeaf.as_u8());
    let record = NodeRecordFormat::TypeFirstV1.parse(&compact).unwrap();
    assert_eq!(record.hash, None);
    assert_eq!(record.logical_type(), TrieNodeID::Leaf);
    let (decoded, consumed) = record.decode_node(1).unwrap();
    assert_eq!(consumed, compact.len());
    let TrieNodeType::Leaf(mut decoded) = decoded else {
        panic!("expected leaf")
    };
    assert_eq!(decoded.data, None);
    assert_eq!(decoded.extent, Some(extent));
    assert!(decoded.value().is_err());
    decoded.data = leaf.data;
    assert_eq!(get_leaf_hash(&decoded), logical_hash);
    assert!(record.decode_node(2).is_err());
    for end in 0..compact.len() {
        let result = NodeRecordFormat::TypeFirstV1
            .parse(&compact[..end])
            .and_then(|r| r.decode_node(1));
        assert!(result.is_err(), "accepted truncated locator at {end}");
    }
}

/// Plain system leaves retain their inline value and hash in type-first databases.
#[test]
fn inline_leaf_preserves_value() {
    let node = TrieNodeType::Leaf(TrieLeaf::from_value(&[], MARFValue([6; 40])));
    let mut bytes = Vec::new();
    NodeRecordFormat::TypeFirstV1
        .write_node(&mut bytes, &node, TrieHash([8; 32]), true)
        .unwrap();
    let record = NodeRecordFormat::TypeFirstV1.parse(&bytes).unwrap();
    assert_eq!(record.marker, TrieNodeID::Leaf.as_u8());
    assert_eq!(record.hash, Some(TrieHash([8; 32])));
    assert_eq!(record.decode_node(node.id()).unwrap().0, node);
}

/// Patch envelopes preserve all local and historical pointer fields.
#[test]
fn patches_preserve_pointers() {
    let patch = TrieNodePatch {
        ptr: TriePtr::new_backptr(5, 10, 1000, 9),
        ptr_diff: vec![TriePtr::new(1, 20, 2000)],
    };
    for format in [NodeRecordFormat::Legacy, NodeRecordFormat::TypeFirstV1] {
        let mut bytes = Vec::new();
        format
            .write_patch(&mut bytes, &patch, TrieHash([3; 32]))
            .unwrap();
        let record = format.parse(&bytes).unwrap();
        let (decoded, consumed) = record.decode_patch().unwrap();
        assert_eq!(decoded, patch);
        assert_eq!(consumed, bytes.len());
        assert!(matches!(record.decode_node(5), Err(Error::Patch(_))));
    }
}

/// Buffered and borrowed reads expose an unresolved locator without requiring a hash.
#[test]
fn compact_leaf_reads_match_across_backings() {
    let extent = ValueExtent {
        store_id: [4; 16],
        offset: 100,
        length: 150,
    };
    let mut leaf = TrieLeaf::from_value(&[3, 9], MARFValue([1; 40]));
    leaf.extent = Some(extent);
    let mut bytes = vec![0; 11];
    NodeRecordFormat::TypeFirstV1
        .write_node(
            &mut bytes,
            &TrieNodeType::Leaf(leaf),
            TrieHash([8; 32]),
            true,
        )
        .unwrap();
    let end = bytes.len();
    let record = NodeRecordFormat::TypeFirstV1.parse(&bytes[11..]).unwrap();
    let mut borrowed =
        ReadTrieNode::from_stable_bytes(BorrowedNodeBytes::from_record(record), record.hash);
    assert!(borrowed.is_leaf().unwrap());
    assert_eq!(borrowed.hash, None);
    assert_eq!(borrowed.as_leaf().unwrap().unwrap().data, None);
    assert_eq!(borrowed.as_leaf().unwrap().unwrap().extent, Some(extent));

    let mut scratch = MarfReadState::new();
    let (read, consumed) = read_trie_item_at_head_ref_format(
        &bytes[11..],
        1,
        NodeRecordFormat::TypeFirstV1,
        &mut scratch,
    )
    .unwrap();
    assert_eq!(read.hash, None);
    let ReadTrieItemKind::Node(mut node) = read.kind else {
        panic!("expected node")
    };
    assert_eq!(node.as_leaf().unwrap().unwrap().extent, Some(extent));
    assert_eq!(11 + consumed, end);
}

/// Unknown markers and unassigned locator flags fail before payload decoding.
#[test]
fn invalid_envelopes_fail_closed() {
    for marker in [0, 15, 0x17, 0x87] {
        assert!(NodeRecordFormat::TypeFirstV1.parse(&[marker; 100]).is_err());
    }
    let mut bytes = [0; 100];
    bytes[32] = TrieNodeID::ValueLeaf.as_u8();
    assert!(NodeRecordFormat::Legacy.parse(&bytes).is_err());
}

/// Test resolver isolates physical framing from value codecs.
struct Resolver;

impl ValueExtentResolver for Resolver {
    fn may_commit(&self, _extent: Extent, _answer: Result<MARFValue, Error>) -> bool {
        unreachable!()
    }

    fn may_commit_inline(&self, _value: Inline, _answer: Result<MARFValue, Error>) -> bool {
        unreachable!()
    }

    fn commitment(&self, _extent: ValueExtent) -> Result<MARFValue, Error> {
        Err(Error::NotFoundError)
    }

    fn inline_commitment(&self, value: &InlineValue) -> Result<MARFValue, Error> {
        Ok(MARFValue::from_value(&format!(
            "{:?}:{:?}",
            value.record(),
            value.descriptor()
        )))
    }
}

/// Inline records preserve logical hashes, framing and scratch reuse at every path length.
#[test]
fn inline_codec_paths_hashes_bounds_and_reuse() {
    let format = NodeRecordFormat::TypeFirstV3;
    let context = RecordContext {
        format,
        value_resolver: Some(Resolver),
    };
    for path_len in 0..=32 {
        for (record_len, descriptor_len) in [(0, 0), (1, 29), (30, 0), (255, 255)] {
            let inline =
                InlineValue::from_parts(&vec![7; record_len], &vec![9; descriptor_len]).unwrap();
            let data = Resolver.inline_commitment(&inline).unwrap();
            let mut leaf = TrieLeaf::from_value(&vec![3; path_len], data.clone());
            leaf.inline = Some(inline.clone());
            let hash = get_leaf_hash(&leaf);
            let node = TrieNodeType::Leaf(leaf);
            let mut bytes = Vec::new();
            format.write_node(&mut bytes, &node, hash, true).unwrap();
            assert_eq!(bytes.len(), format.node_len(&node, true));
            assert!(bytes.len() <= format.max_record_len(1).unwrap());
            let record = format.parse(&bytes).unwrap();
            assert_eq!(record.hash, None);
            assert_eq!(context.hash(record).unwrap(), hash);
            let (TrieNodeType::Leaf(mut decoded), used) = record.decode_node(1).unwrap() else {
                panic!("leaf expected")
            };
            assert_eq!(used, bytes.len());
            assert_eq!(decoded.inline, Some(inline));
            assert_eq!(decoded.data, None);
            assert_eq!(decoded.extent, None);
            context.resolve_leaf(&mut decoded).unwrap();
            assert_eq!(decoded.data, Some(data));
            assert_eq!(
                context.read_probe(&bytes).unwrap(),
                (TrieNodeID::Leaf, hash, bytes.len())
            );
            for end in 0..bytes.len() {
                assert!(format
                    .parse(&bytes[..end])
                    .and_then(|record| record.decode_node(1))
                    .is_err());
            }
            for old in [
                NodeRecordFormat::Legacy,
                NodeRecordFormat::TypeFirstV1,
                NodeRecordFormat::TypeFirstV2,
            ] {
                assert!(old.write_node(&mut Vec::new(), &node, hash, true).is_err());
                if old.is_type_first() {
                    assert!(old.parse(&bytes).is_err());
                }
            }
            let raw = TrieLeaf::from_value(&[], MARFValue([0; 40]));
            let mut raw_bytes = Vec::new();
            format
                .write_node(&mut raw_bytes, &TrieNodeType::Leaf(raw), hash, true)
                .unwrap();
            decoded
                .load_from_parts(raw_bytes[0], &raw_bytes[1..])
                .unwrap();
            assert!(decoded.inline.is_none());
            assert_eq!(decoded.data, Some(MARFValue([0; 40])));
        }
    }
}

/// A locator leaf needs a value source for its hash.
#[test]
fn hashless_leaves_need_a_value_source() {
    let mut leaf = TrieLeaf::from_value(&[1], MARFValue([1; 40]));
    leaf.extent = Some(ValueExtent {
        store_id: [4; 16],
        offset: 100,
        length: 150,
    });
    let mut bytes = Vec::new();
    NodeRecordFormat::TypeFirstV1
        .write_node(&mut bytes, &TrieNodeType::Leaf(leaf), TrieHash([8; 32]), true)
        .unwrap();
    let record = NodeRecordFormat::TypeFirstV1.parse(&bytes).unwrap();
    let none: RecordContext<Resolver> = RecordContext {
        format: NodeRecordFormat::TypeFirstV1,
        value_resolver: None,
    };
    assert!(matches!(
        none.hash(record),
        Err(Error::CorruptionError(Corruption::NoValueSource))
    ));
    let refusing = RecordContext {
        format: NodeRecordFormat::TypeFirstV1,
        value_resolver: Some(Resolver),
    };
    assert!(matches!(refusing.hash(record), Err(Error::NotFoundError)));
}

/// Layouts are read from metadata, and never downgraded.
#[test]
fn layouts_follow_metadata() {
    let schema = SQL_MARF_TYPE_FIRST_SCHEMA_VERSION;
    assert_eq!(
        NodeRecordFormat::from_metadata(false, 0, 1).unwrap(),
        NodeRecordFormat::Legacy
    );
    assert_eq!(
        NodeRecordFormat::from_metadata(true, 4, schema).unwrap(),
        NodeRecordFormat::TypeFirstV4
    );
    assert!(matches!(
        NodeRecordFormat::from_metadata(true, 99, schema),
        Err(Error::CorruptionError(Corruption::UnsupportedRecordFormat))
    ));
    assert!(matches!(
        NodeRecordFormat::from_metadata(true, 1, schema - 1),
        Err(Error::CorruptionError(Corruption::SchemaMismatch))
    ));
    assert!(NodeRecordFormat::TypeFirstV2.check_publish(Some(3)).is_err());
    assert!(NodeRecordFormat::TypeFirstV3.check_publish(Some(3)).is_ok());
    assert!(NodeRecordFormat::TypeFirstV3.check_publish(None).is_ok());
}
