use marf_index::bits::get_node_max_byte_len;
use marf_index::blob_layout::{
    BlobHeader, READER_PREFIX_LEN, RESERVED_FIELD_OFFSET, ROOT_NODE_OFFSET,
};
use marf_index::error::{Corruption, Error};
use marf_index::hash::{StacksBlockId, TrieHash};
use marf_index::inline_value::{Inline, InlineValue};
use marf_index::leaf::{TrieLeaf, TrieNodeType};
use marf_index::mapped_node::{self, MappedBranch};
use marf_index::mapping::{
    check_published_len, check_reservation, extension_end, reservation_capacity,
};
use marf_index::node::{TrieBranch, TrieNodeID, TriePtr};
use marf_index::node_codec::get_leaf_hash;
use marf_index::packed_branch::{self, PackedBranch};
use marf_index::path::NodePath;
use marf_index::raw_leaf::{load, payload_len, value_width};
use marf_index::read_node::{BorrowedNodeBytes, ReadTrieNode};
use marf_index::record::NodeRecordFormat;
use marf_index::record_context::{RecordContext, ValueExtentResolver};
use marf_index::scratch::{read_trie_item_at_head_ref_format, MarfReadState};
use marf_index::value::{Extent, MARFValue, ValueExtent};

/// Bytes of the tag of the first marker-first layout.
const TYPE_FIRST_TAG: [u8; 4] = *b"MRF\x01";

/// Widths of compact raw values.
const WIDTHS: [usize; 4] = [0, 4, 32, 40];

struct NoValues;

impl ValueExtentResolver for NoValues {
    fn may_commit(&self, _extent: Extent, _answer: Result<MARFValue, Error>) -> bool {
        unreachable!()
    }

    fn may_commit_inline(&self, _value: Inline, _answer: Result<MARFValue, Error>) -> bool {
        unreachable!()
    }

    fn commitment(&self, _extent: ValueExtent) -> Result<MARFValue, Error> {
        Err(Error::NotFoundError)
    }

    fn inline_commitment(&self, _value: &InlineValue) -> Result<MARFValue, Error> {
        Err(Error::NotFoundError)
    }
}

/// Old reserved block IDs are never interpreted as layout versions.
#[test]
fn legacy_reserved_bytes_remain_opaque() {
    let mut bytes = [0; READER_PREFIX_LEN];
    bytes[RESERVED_FIELD_OFFSET..ROOT_NODE_OFFSET].copy_from_slice(&TYPE_FIRST_TAG);
    bytes[ROOT_NODE_OFFSET..].fill(9);
    let header =
        BlobHeader::<StacksBlockId>::parse_format(NodeRecordFormat::Legacy, &bytes).unwrap();
    assert_eq!(header.root_hash, TrieHash([9; 32]));
    assert!(
        BlobHeader::<StacksBlockId>::parse_format(NodeRecordFormat::TypeFirstV1, &bytes).is_err()
    );
}

/// Versioned headers retain the root's node offset while shifting its stored hash by one byte.
#[test]
fn versioned_root_prefix_is_checked() {
    let format = NodeRecordFormat::TypeFirstV1;
    let parent = StacksBlockId([2; 32]);
    let mut bytes = Vec::new();
    format.write_trie_header(&mut bytes, &parent);
    assert_eq!(bytes.len(), ROOT_NODE_OFFSET);
    format
        .write_node(
            &mut bytes,
            &TrieNodeType::Branch(TrieBranch::empty(TrieNodeID::Node256)),
            TrieHash([3; 32]),
            true,
        )
        .unwrap();
    let header =
        BlobHeader::<StacksBlockId>::parse_format(format, &bytes[..format.reader_prefix_len()])
            .unwrap();
    assert_eq!(header.parent_hash, parent);
    assert_eq!(header.root_hash, TrieHash([3; 32]));
    bytes[RESERVED_FIELD_OFFSET + 3] = 2;
    assert!(BlobHeader::<StacksBlockId>::parse_format(format, &bytes).is_err());
}

/// Reader bounds remain independent of the compact writer threshold.
#[test]
fn inline_framing_preserves_boundaries_and_rejects_truncation() {
    for (record, descriptor) in [(0, 0), (2, 28), (30, 0), (31, 0), (255, 255)] {
        let value = InlineValue::from_parts(&vec![7; record], &vec![9; descriptor]).unwrap();
        let mut encoded = Vec::new();
        value.write_to(&mut encoded);
        assert_eq!(
            InlineValue::decode(&encoded).unwrap(),
            (value.clone(), encoded.len())
        );
        assert_eq!(
            InlineValue::fits_inline(record, descriptor),
            record + descriptor <= 30
        );
        for end in 0..encoded.len() {
            assert!(InlineValue::decode(&encoded[..end]).is_err());
        }
        let length = encoded.len();
        encoded.extend_from_slice(&[17; 32]);
        assert_eq!(InlineValue::decode(&encoded).unwrap(), (value, length));
    }
    assert!(!InlineValue::fits_inline(usize::MAX, 1));
    assert!(InlineValue::from_parts(&[0; 256], &[]).is_err());
    assert!(InlineValue::from_parts(&[], &[0; 256]).is_err());
}

/// The mapped constructor cannot expose unbacked bytes or an invalid descriptor split.
#[test]
fn mapped_inline_ranges_are_bounded() {
    let mapping = vec![0u8; 128 * 1024];
    assert!(InlineValue::from_mapping(&mapping, 10..9, 0).is_err());
    assert!(InlineValue::from_mapping(&mapping, 10..11, 2).is_err());
    assert!(InlineValue::from_mapping(&mapping, 0..256, 0).is_err());
    assert!(InlineValue::from_mapping(&mapping, 0..mapping.len() + 1, 1).is_err());
    assert!(InlineValue::from_mapping(&mapping, 0..510, 255).is_ok());
}

/// Values keep their exact ranges of a mapping.
#[test]
fn mapped_inline_values_keep_their_ranges() {
    let mut mapping = vec![0u8; 64];
    mapping[24..47].copy_from_slice(b"first-shape-second-kind");
    let first = InlineValue::from_mapping(&mapping, 24..35, 5).unwrap();
    let second = InlineValue::from_mapping(&mapping, 36..47, 6).unwrap();
    drop(mapping);
    assert_eq!(first.record(), b"first");
    assert_eq!(first.descriptor(), b"-shape");
    assert_eq!(first.owner(), b"first-shape");
    assert_eq!(first.record_range(), 0..5);
    assert_eq!(first.descriptor_range(), 5..11);
    assert_eq!(second.record(), b"second");
    assert_eq!(second.descriptor(), b"-kind");
}

/// Capacity tracks file size without overflowing the slice address-space limit.
#[test]
fn reservation_headroom_is_bounded() {
    assert_eq!(reservation_capacity(0), Some(64 << 20));
    assert_eq!(reservation_capacity(233_691_445_978), Some(256usize << 30));
    assert_eq!(reservation_capacity(256u64 << 30), Some(512usize << 30));
    assert_eq!(reservation_capacity(u64::MAX), None);
    assert_eq!(reservation_capacity(isize::MAX as u64), None);
}

/// Only complete pages are mapped, and never past what was reserved or written.
#[test]
fn mappings_grow_by_complete_pages() {
    let page = 4096;
    assert_eq!(extension_end(page, 16 * page, page, (3 * page + 5) as u64, (3 * page + 5) as u64).unwrap(), 3 * page);
    assert_eq!(extension_end(3 * page, 16 * page, page, (3 * page + 5) as u64, 1 << 20).unwrap(), 3 * page);
    assert!(extension_end(page, 2 * page, page, (3 * page) as u64, (3 * page) as u64).is_err());
    assert!(check_reservation(4 * page, page, 5 * page as u64, 5 * page as u64).is_err());
    assert!(check_reservation(4 * page, page, 4 * page as u64, 5 * page as u64).is_ok());
    assert!(check_published_len(page, 2 * page as u64, page as u64).is_err());
}

/// Exercise every child selector, holes, wide offsets and both inline and historical children.
#[test]
fn mapped_selection_preserves_logical_slots() {
    for id in [
        TrieNodeID::Node4,
        TrieNodeID::Node16,
        TrieNodeID::Node48,
        TrieNodeID::Node256,
    ] {
        let mut branch = TrieBranch::empty(id);
        let slots = branch.ptrs.len();
        for slot in 0..slots {
            if slot % 3 == 1 {
                continue;
            }
            let chr = if slots == 256 {
                slot as u8
            } else {
                (255 - slot) as u8
            };
            branch.ptrs[slot] = TriePtr {
                id: 1 | if slot % 2 == 0 { 0x80 } else { 0 },
                chr,
                ptr: if slot % 5 == 0 {
                    u64::from(u32::MAX) + 4
                } else {
                    100 + slot as u64
                },
                back_block: slot as u32 + 1,
            };
            if slots == 48 {
                branch.indexes[chr as usize] = slot as i8;
            }
        }
        let node = TrieNodeType::Branch(branch.clone());
        let format = NodeRecordFormat::TypeFirstV1;
        let mut bytes = Vec::new();
        format
            .write_node(&mut bytes, &node, TrieHash([4; 32]), true)
            .unwrap();
        assert_eq!(bytes.len(), format.node_len(&node, true));
        assert!(bytes.len() <= format.max_record_len(node.id()).unwrap());
        let record = format.parse(&bytes).unwrap();
        let view = MappedBranch::parse(record.logical_type(), record.payload).unwrap();
        assert_eq!(view.to_owned_node().unwrap(), branch);
        let mut read =
            ReadTrieNode::from_stable_bytes(BorrowedNodeBytes::from_record(record), record.hash);
        assert_eq!(read.path_bytes().unwrap(), node.path_bytes());
        for chr in 0..=255 {
            assert_eq!(view.child(chr).unwrap(), node.walk(chr));
            assert_eq!(read.walk(chr).unwrap(), node.walk(chr));
        }
        assert!(!read.is_decoded(), "point traversal materialized a node");
        assert_eq!(read.ptrs().unwrap(), node.ptrs());
        assert!(read.is_decoded());
        let mut scratch = MarfReadState::new();
        let (item, consumed) =
            read_trie_item_at_head_ref_format(&bytes, node.id(), format, &mut scratch).unwrap();
        let mut buffered = item.into_node().unwrap();
        assert_eq!(buffered.ptrs().unwrap(), node.ptrs());
        assert_eq!(consumed, format.node_len(&node, true));
    }
}

/// Invalid selected offsets and selectors fail without dereferencing unchecked file bytes.
#[test]
fn invalid_directory_is_rejected() {
    let mut node = TrieBranch::new(TrieNodeID::Node4, &[9]);
    node.insert(&TriePtr::new(1, 7, 50));
    let mut bytes = Vec::new();
    mapped_node::write_payload(&mut bytes, &TrieNodeType::Branch(node)).unwrap();
    for end in 0..bytes.len() {
        assert!(MappedBranch::parse(TrieNodeID::Node4, &bytes[..end]).is_err());
    }
    // path(2), bitmap(1), selector(1), first offset(2), final offset(2)
    bytes[4] = 1;
    assert!(MappedBranch::parse(TrieNodeID::Node4, &bytes).is_err());
    bytes[4] = 0;
    bytes[3] = 8;
    let view = MappedBranch::parse(TrieNodeID::Node4, &bytes).unwrap();
    assert!(view.child(8).is_err());
    assert!(view.to_owned_node().is_err());
}

/// A selector that disagrees with its pointer is refused; the other lookups stay as they were.
#[test]
fn changed_selectors_are_refused() {
    for id in [TrieNodeID::Node4, TrieNodeID::Node16] {
        let mut node = TrieBranch::new(id, &[9, 9]);
        for chr in [7, 3, 200] {
            assert!(node.insert(&TriePtr::new(1, chr, 50 + u64::from(chr))));
        }
        let bitmap = if id == TrieNodeID::Node4 { 1 } else { 2 };
        let mut bytes = Vec::new();
        mapped_node::write_payload(&mut bytes, &TrieNodeType::Branch(node.clone())).unwrap();
        bytes[3 + bitmap + 1] = 99;
        bytes.extend([1, 2, 3]);
        let view = MappedBranch::parse(id, &bytes).unwrap();
        assert!(matches!(
            view.child(99),
            Err(Error::CorruptionError(Corruption::SelectorDisagrees))
        ));
        assert_eq!(view.child(3).unwrap(), None);
        assert_eq!(view.child(7).unwrap(), node.walk(7));
        assert_eq!(view.child(200).unwrap(), node.walk(200));
    }
}

/// Records that were cut short do not decode, and what follows a record changes nothing.
#[test]
fn records_are_read_from_their_own_bytes() {
    for format in [
        NodeRecordFormat::Legacy,
        NodeRecordFormat::TypeFirstV1,
        NodeRecordFormat::TypeFirstV2,
        NodeRecordFormat::TypeFirstV3,
        NodeRecordFormat::TypeFirstV4,
    ] {
        for slots in [4, 16, 48, 256] {
            let node = sample(slots, 2, 70_000, 9);
            let mut bytes = vec![];
            format
                .write_node(&mut bytes, &node, TrieHash([6; 32]), false)
                .unwrap();
            let record = format.parse(&bytes).unwrap();
            let (found, len) = record.decode_node(node.id()).unwrap();
            assert_eq!(found.ptrs(), node.ptrs());
            assert_eq!(len, bytes.len());
            for end in [0, 1, 32, 33, 34, len / 2, len - 2, len - 1] {
                if let Ok(record) = format.parse(&bytes[..end]) {
                    assert!(record.decode_node(node.id()).is_err());
                }
            }
            for tail in [vec![0], vec![0xff; 40], bytes.clone()] {
                let longer = [bytes.clone(), tail].concat();
                let (found, len) = format
                    .parse(&longer)
                    .unwrap()
                    .decode_node(node.id())
                    .unwrap();
                assert_eq!(found.ptrs(), node.ptrs());
                assert_eq!(len, bytes.len());
            }
        }
    }
}

/// Make a branch with reverse edge order, holey slots and squash annotations.
fn sample(slots: usize, mode: usize, target: u64, origin: u32) -> TrieNodeType {
    let mut node = TrieBranch::empty(match slots {
        4 => TrieNodeID::Node4,
        16 => TrieNodeID::Node16,
        48 => TrieNodeID::Node48,
        _ => TrieNodeID::Node256,
    });
    for slot in 0..slots {
        if mode == 0 || (mode == 1 && slot % 3 == 1) {
            continue;
        }
        let edge = if slots == 256 {
            slot as u8
        } else {
            (255 - slot) as u8
        };
        node.ptrs[slot] = TriePtr {
            id: (slot % 5 + 1) as u8 | if slot % 3 == 0 { 0x80 } else { 0 },
            chr: edge,
            ptr: target,
            back_block: if slot % 3 == 2 { 0 } else { origin },
        };
        if slots == 48 {
            node.indexes[usize::from(edge)] = slot as i8;
        }
    }
    TrieNodeType::Branch(node)
}

/// All widths, kinds, occupancies and edges reconstruct exact logical pointers.
#[test]
fn columns_roundtrip_and_direct_selection() {
    for slots in [4, 16, 48, 256] {
        for mode in 0..3 {
            for target in [
                0,
                65535,
                65536,
                16777215,
                16777216,
                u64::from(u32::MAX),
                u64::from(u32::MAX) + 1,
                u64::MAX,
            ] {
                for origin in [0, 255, 256, 65535, 65536, 16777215, 16777216, u32::MAX] {
                    let node = sample(slots, mode, target, origin);
                    let mut bytes = vec![];
                    packed_branch::write_payload(&mut bytes, &node).unwrap();
                    let id = TrieNodeID::from_u8(node.id()).unwrap();
                    assert_eq!(bytes.len(), packed_branch::payload_len(&node));
                    assert!(bytes.len() <= packed_branch::max_payload_len(id).unwrap());
                    let view = PackedBranch::parse(id, &bytes).unwrap();
                    assert_eq!(view.byte_len(), bytes.len());
                    assert_eq!(
                        TrieNodeType::Branch(view.to_owned_node().unwrap()),
                        node
                    );
                    for edge in 0..=255u8 {
                        assert_eq!(view.child(edge).unwrap(), node.walk(edge));
                    }
                }
            }
        }
    }
}

/// A selected lookup need not decode an unrelated child's malformed kind.
#[test]
fn point_lookup_reads_only_selected_pointer() {
    let node = sample(256, 2, 42, 256);
    let mut bytes = vec![];
    packed_branch::write_payload(&mut bytes, &node).unwrap();
    // Empty path, width byte, 32-byte occupancy: first kind lives at byte 34.
    bytes[34] &= 0xf0;
    let view = PackedBranch::parse(TrieNodeID::Node256, &bytes).unwrap();
    assert_eq!(view.child(255).unwrap(), node.walk(255));
    assert!(view.child(0).is_err());
    assert!(view.to_owned_node().is_err());
}

/// Column bounds reject every truncation, flags and incomplete origins.
#[test]
fn truncated_and_malformed_columns() {
    for slots in [4, 16, 48, 256] {
        let node = sample(slots, 2, u64::MAX, u32::MAX);
        let id = TrieNodeID::from_u8(node.id()).unwrap();
        let mut bytes = vec![];
        packed_branch::write_payload(&mut bytes, &node).unwrap();
        for end in 0..bytes.len() {
            assert!(PackedBranch::parse(id, &bytes[..end]).is_err());
        }
        let mut corrupt = bytes.clone();
        corrupt[1] |= 0x10;
        assert!(PackedBranch::parse(id, &corrupt).is_err());
        let mut corrupt = bytes.clone();
        corrupt[0] = 33;
        assert!(PackedBranch::parse(id, &corrupt).is_err());
        if slots == 48 {
            // Selector edge zero is absent in this reverse-edge sample.
            let mut corrupt = bytes.clone();
            corrupt[8] = (corrupt[8] & 0xc0) | 48;
            let view = PackedBranch::parse(id, &corrupt).unwrap();
            assert!(view.child(0).is_err());
            assert!(view.to_owned_node().is_err());
        }
    }
    let node = sample(4, 2, 42, 0);
    let mut bytes = vec![];
    packed_branch::write_payload(&mut bytes, &node).unwrap();
    // 2-byte prefix + 1-byte occupancy + 4 selectors + 2 kind bytes.
    bytes[9] = 0;
    let view = PackedBranch::parse(TrieNodeID::Node4, &bytes).unwrap();
    assert!(view.child(255).is_err());
}

/// Packing reduces actual emitted bytes without per-child reservation padding.
#[test]
fn compact_columns_reduce_record_sizes() {
    for slots in [4, 16, 48, 256] {
        let node = sample(slots, 2, 4000, 1024);
        assert!(packed_branch::payload_len(&node) < mapped_node::payload_len(&node));
    }
}

/// The versioned record dispatch keeps mapped reads lazy and buffered reads exact.
#[test]
fn versioned_mapped_and_buffered_reads() {
    for path_len in [0, 1, 31, 32] {
        let mut branch = TrieBranch::empty(TrieNodeID::Node16);
        branch.path = NodePath::from_slice(&vec![9; path_len]).unwrap();
        branch.ptrs[7] = TriePtr {
            id: 0x81,
            chr: 144,
            ptr: 0x10001,
            back_block: 0xffffff,
        };
        let node = TrieNodeType::Branch(branch);
        for format in [
            NodeRecordFormat::TypeFirstV1,
            NodeRecordFormat::TypeFirstV2,
            NodeRecordFormat::TypeFirstV3,
            NodeRecordFormat::TypeFirstV4,
        ] {
            let mut bytes = vec![];
            format
                .write_node(&mut bytes, &node, TrieHash([17; 32]), true)
                .unwrap();
            assert_eq!(bytes.len(), format.node_len(&node, true));
            assert!(bytes.len() <= format.max_record_len(node.id()).unwrap());
            let record = format.parse(&bytes).unwrap();
            let mut read = ReadTrieNode::from_stable_bytes(
                BorrowedNodeBytes::from_record(record),
                record.hash,
            );
            assert_eq!(read.path_bytes().unwrap(), node.path_bytes());
            for edge in 0..=255 {
                assert_eq!(read.walk(edge).unwrap(), node.walk(edge));
            }
            assert!(!read.is_decoded());
            assert_eq!(read.ptrs().unwrap(), node.ptrs());
            let mut scratch = MarfReadState::new();
            let (item, consumed) =
                read_trie_item_at_head_ref_format(&bytes, node.id(), format, &mut scratch)
                    .unwrap();
            let buffered = item.into_node().unwrap().into_owned_node().unwrap().0;
            assert_eq!(buffered, node);
            assert_eq!(consumed, bytes.len());
        }
    }
}

/// Every path length and value width preserves all forty bytes and the logical hash.
#[test]
fn raw_widths_roundtrip_and_preserve_commitments() {
    let format = NodeRecordFormat::TypeFirstV2;
    for path_len in 0..=32 {
        for last_nonzero in 0..=40 {
            let mut value = [0; 40];
            for (i, byte) in value[..last_nonzero].iter_mut().enumerate() {
                *byte = (i + 1) as u8;
            }
            let leaf = TrieLeaf::from_value(&vec![17; path_len], MARFValue(value));
            let hash = get_leaf_hash(&leaf);
            let node = TrieNodeType::Leaf(leaf);
            let mut bytes = Vec::new();
            format.write_node(&mut bytes, &node, hash, true).unwrap();
            assert_eq!(bytes.len(), 2 + path_len + value_width(&MARFValue(value)));
            assert_eq!(bytes.len(), format.node_len(&node, true));
            let record = format.parse(&bytes).unwrap();
            assert_eq!(record.logical_type(), TrieNodeID::Leaf);
            assert!(record.hash.is_none());
            let (decoded, used) = record.decode_node(1).unwrap();
            assert_eq!(used, bytes.len());
            assert_eq!(decoded, node);
            let context: RecordContext<NoValues> = RecordContext {
                format,
                value_resolver: None,
            };
            assert_eq!(context.hash(record).unwrap(), hash);
            assert_eq!(
                context.read_probe(&bytes).unwrap(),
                (TrieNodeID::Leaf, hash, bytes.len())
            );
            assert!(NodeRecordFormat::TypeFirstV1.parse(&bytes).is_err());
            for end in 0..bytes.len() {
                assert!(format
                    .parse(&bytes[..end])
                    .and_then(|r| r.decode_node(1))
                    .is_err());
            }
        }
    }
}

/// Wider legal width modes still restore the same value; invalid path lengths fail.
#[test]
fn raw_width_modes_accept_zero_tails_and_reject_invalid_paths() {
    for mode in 0..4u8 {
        for length in 33..64 {
            assert!(payload_len((mode << 6) | length).is_err());
        }
        let mut bytes = vec![mode << 6];
        bytes.resize(1 + WIDTHS[mode as usize], 0);
        let mut leaf = TrieLeaf::from_value(&[], MARFValue([1; 40]));
        assert_eq!(load(&mut leaf, &bytes).unwrap(), bytes.len());
        assert_eq!(leaf.value().unwrap(), &MARFValue([0; 40]));
    }
}

/// Prefetch bounds cover the widest nodes only.
#[test]
fn prefetch_bounds_reject_patches_and_empty_nodes() {
    assert_eq!(get_node_max_byte_len(5, true).unwrap(), 66 + 256 * 14);
    assert!(matches!(
        get_node_max_byte_len(0, true),
        Err(Error::CorruptionError(Corruption::UnsupportedNodeBody))
    ));
}
