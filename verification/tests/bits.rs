use marf_index::bits::{
    get_node_body_max_byte_len, get_node_max_byte_len, get_path_byte_len, get_ptrs_byte_len,
    ptrs_from_slice_into, reserved_root_size, resolve_inline_child_offsets,
    SPARSE_PTR_BITMAP_MARKER,
};
use marf_index::error::{Corruption, Error, IoErrorKind};
use marf_index::hash::TrieHash;
use marf_index::leaf::{TrieLeaf, TrieNodeType};
use marf_index::node::{
    clear_ctrl_bits, set_backptr, set_compressed, TrieBranch, TrieNodeID, TrieNodePatch, TriePtr,
};
use marf_index::node_reads::{
    read_hash_bytes, read_node_hash_bytes, read_nodetype, read_nodetype_at_head,
    read_stored_node_type_at_head, read_trie_item,
};
use marf_index::path::NodePath;
use marf_index::read_node::ReadTrieItemKind;
use marf_index::scratch::{read_trie_item_at_head_ref, MarfReadState};

const LEAF: u8 = 1;
const NODE4: u8 = 2;
const NODE16: u8 = 3;
const NODE48: u8 = 4;
const NODE256: u8 = 5;
const PATCH: u8 = 6;

#[test]
fn ptrs_from_slice_into_decodes_node4_dense_compressed() {
    let ptrs = [
        TriePtr::new(LEAF, 0x11, 0x1234),
        TriePtr::default(),
        TriePtr::new_backptr(NODE16, 0x22, 0x4567, 0x89ab),
        TriePtr::default(),
    ];
    let mut bytes = vec![set_compressed(NODE4)];
    for ptr in ptrs {
        ptr.write_bytes_compressed(&mut bytes);
    }

    let mut decoded = [TriePtr::default(); 4];
    let (decoded_id, consumed) = ptrs_from_slice_into(NODE4, &bytes, &mut decoded).unwrap();

    assert_eq!(decoded_id, NODE4);
    assert_eq!(consumed, bytes.len());
    assert_eq!(decoded, ptrs);
}

#[test]
fn ptrs_from_slice_into_decodes_node48_sparse_compressed() {
    let ptrs = [
        TriePtr::new(LEAF, 0x01, 0x1234),
        TriePtr::new_backptr(NODE16, 0x11, 0x4567, 0x89ab),
        TriePtr::new(NODE4, 0x2f, 0xcdef),
        TriePtr::new_backptr(NODE256, 0x30, 0x1111, 0x2222),
    ];
    let bitmap = [0x02, 0x02, 0x00, 0x00, 0x00, 0x81];

    let mut bytes = vec![set_compressed(NODE48), SPARSE_PTR_BITMAP_MARKER];
    bytes.extend_from_slice(&bitmap);
    for ptr in ptrs {
        ptr.write_bytes_compressed(&mut bytes);
    }

    let mut decoded = [TriePtr::default(); 48];
    let (decoded_id, consumed) = ptrs_from_slice_into(NODE48, &bytes, &mut decoded).unwrap();

    assert_eq!(decoded_id, NODE48);
    assert_eq!(consumed, bytes.len());
    assert_eq!(decoded[1], ptrs[0]);
    assert_eq!(decoded[9], ptrs[1]);
    assert_eq!(decoded[40], ptrs[2]);
    assert_eq!(decoded[47], ptrs[3]);
}

#[test]
fn read_trie_item_at_head_ref_decodes_node4_from_bulk_buffer() {
    let hash = TrieHash([0x11; 32]);
    let mut node = TrieBranch::new(TrieNodeID::Node4, &[0xaa, 0xbb, 0xcc]);
    node.insert(&TriePtr::new(LEAF, 0x21, 0x1234));

    let mut bytes = Vec::new();
    bytes.extend_from_slice(hash.as_bytes());
    TrieNodeType::Branch(node.clone())
        .write_bytes_compressed(&mut bytes)
        .unwrap();
    let expected_len = bytes.len();

    let mut scratch = MarfReadState::new();
    let (read, consumed) = read_trie_item_at_head_ref(&bytes, NODE4, &mut scratch).unwrap();
    let mut read = read.into_node().unwrap();
    let (node_ref, got_hash) = read.as_node_ref().unwrap();
    let got_hash = got_hash.expect("missing hash");

    assert_eq!(got_hash, hash);
    assert_eq!(node_ref.id(), NODE4);
    assert_eq!(node_ref.path_bytes(), node.path.as_slice());
    assert_eq!(node_ref.ptrs(), &node.ptrs[..]);
    assert_eq!(consumed, expected_len);
}

#[test]
fn read_trie_item_at_head_ref_decodes_patch_from_bulk_buffer() {
    let hash = TrieHash([0x22; 32]);
    let patch = TrieNodePatch {
        ptr: TriePtr::new_backptr(NODE4, 0x33, 0x4567, 0x89ab),
        ptr_diff: vec![
            TriePtr::new_backptr(LEAF, 0x44, 0x1111, 0x2222),
            TriePtr::new(NODE16, 0x55, 0x3333),
        ],
    };

    let mut bytes = Vec::new();
    bytes.extend_from_slice(hash.as_bytes());
    patch.consensus_serialize(&mut bytes).unwrap();
    let expected_len = bytes.len();

    let mut scratch = MarfReadState::new();
    let (read, consumed) = read_trie_item_at_head_ref(&bytes, PATCH, &mut scratch).unwrap();
    match read.kind {
        ReadTrieItemKind::Patch(got_patch) => {
            let got_hash = read.hash.expect("missing hash");
            assert_eq!(got_hash, hash);
            assert_eq!(got_patch.ptr, patch.ptr);
            assert_eq!(got_patch.ptr_diff, patch.ptr_diff);
        }
        _ => panic!("unexpected artifact"),
    }
    assert_eq!(consumed, expected_len);
}

#[test]
fn read_trie_item_at_head_ref_returns_patch_view_from_bulk_buffer() {
    let hash = TrieHash([0x24; 32]);
    let patch = TrieNodePatch {
        ptr: TriePtr::new_backptr(NODE4, 0x33, 0x4567, 0x89ab),
        ptr_diff: vec![TriePtr::new(NODE16, 0x55, 0x3333)],
    };

    let mut bytes = Vec::new();
    bytes.extend_from_slice(hash.as_bytes());
    patch.consensus_serialize(&mut bytes).unwrap();
    let expected_len = bytes.len();

    let mut scratch = MarfReadState::new();
    let (result, consumed) = read_trie_item_at_head_ref(&bytes, PATCH, &mut scratch).unwrap();

    match result.kind {
        ReadTrieItemKind::Patch(got_patch) => {
            let got_hash = result.hash.expect("missing hash");
            assert_eq!(got_hash, hash);
            assert_eq!(got_patch.ptr, patch.ptr);
            assert_eq!(got_patch.ptr_diff, patch.ptr_diff);
        }
        _ => panic!("unexpected borrowed result"),
    }
    assert_eq!(consumed, expected_len);
}

#[test]
fn read_trie_item_at_head_ref_decodes_leaf_from_bulk_buffer() {
    let hash = TrieHash([0x35; 32]);
    let leaf = TrieLeaf::new(&[0xca, 0xfe, 0xba, 0xbe], &[0x77; 40]);

    let mut bytes = Vec::new();
    bytes.extend_from_slice(hash.as_bytes());
    TrieNodeType::Leaf(leaf.clone())
        .write_bytes_compressed(&mut bytes)
        .unwrap();
    let expected_len = bytes.len();

    let mut scratch = MarfReadState::new();
    let (read, consumed) = read_trie_item_at_head_ref(&bytes, LEAF, &mut scratch).unwrap();
    let mut read = read.into_node().unwrap();
    let (node_ref, got_hash) = read.as_node_ref().unwrap();
    let got_hash = got_hash.expect("missing hash");

    assert_eq!(got_hash, hash);
    match node_ref {
        TrieNodeType::Leaf(found) => {
            assert_eq!(found.path.as_slice(), leaf.path.as_slice());
            assert_eq!(found.data, leaf.data);
        }
        _ => panic!("unexpected node"),
    }
    assert_eq!(consumed, expected_len);
}

#[test]
fn patch_node_body_max_len_covers_max_patch_encoding() {
    let patch = TrieNodePatch {
        ptr: TriePtr::new_backptr(NODE256, 0x01, 0x0203, 0x0405),
        ptr_diff: vec![TriePtr::new_backptr(LEAF, 0x7f, 0x0809, 0x0a0b); 256],
    };

    let mut encoded = Vec::new();
    patch.consensus_serialize(&mut encoded).unwrap();
    let max_len = get_node_body_max_byte_len(PATCH).unwrap();
    assert!(max_len >= encoded.len());
    assert_eq!(
        max_len,
        1 + TriePtr::max_encoded_size() + 1 + 256 * TriePtr::max_encoded_size()
    );
    assert_eq!(clear_ctrl_bits(set_backptr(PATCH)), PATCH);
}

#[test]
fn node_body_max_len_constants_match_runtime_encoding_bounds() {
    let path_max_len = get_path_byte_len(&[0; 32]);
    let widest_ptr = TriePtr::widest_encoded();
    let patch_ptr_max_len = TriePtr {
        id: set_backptr(NODE256),
        chr: 0,
        ptr: widest_ptr.ptr(),
        back_block: u32::MAX,
    }
    .compressed_size();

    assert_eq!(
        TrieNodeID::Leaf.max_body_byte_len().unwrap(),
        1 + path_max_len + 40 + 32
    );
    assert_eq!(
        TrieNodeID::Node4.max_body_byte_len().unwrap(),
        get_ptrs_byte_len(&[widest_ptr; 4]) + path_max_len
    );
    assert_eq!(
        TrieNodeID::Node16.max_body_byte_len().unwrap(),
        get_ptrs_byte_len(&[widest_ptr; 16]) + path_max_len
    );
    assert_eq!(
        TrieNodeID::Node48.max_body_byte_len().unwrap(),
        get_ptrs_byte_len(&[widest_ptr; 48]) + 256 + path_max_len
    );
    assert_eq!(
        TrieNodeID::Node256.max_body_byte_len().unwrap(),
        get_ptrs_byte_len(&[widest_ptr; 256]) + path_max_len
    );
    assert_eq!(
        TrieNodeID::Patch.max_body_byte_len().unwrap(),
        1 + patch_ptr_max_len + 1 + 256 * patch_ptr_max_len
    );
}

/// Path equality must compare only the active prefix, not stale tail bytes. A shorter path decoded
/// into a scratch slot after a longer one must compare equal to a freshly-constructed path with the
/// same active bytes.
#[test]
fn nodepath_equality_ignores_stale_tail_bytes() {
    // Simulate scratch reuse: first decode a long path, then a short one into the same slot.
    let mut path = NodePath::from_slice(&[0xaa; 20]).unwrap();
    assert_eq!(path.len(), 20);

    // Overwrite with a shorter path (as set_from_slice does in decode).
    path.set_from_slice(&[0xbb; 5]).unwrap();

    // A freshly-constructed path with the same active content must be equal.
    let fresh = NodePath::from_slice(&[0xbb; 5]).unwrap();
    assert_eq!(path, fresh);
    assert_eq!(path.as_slice(), fresh.as_slice());

    // Same test via read_from.
    let mut path2 = NodePath::from_slice(&[0xcc; 32]).unwrap();
    let short_data = [0xdd; 3];
    path2.read_from(3, &short_data).unwrap();
    let fresh2 = NodePath::from_slice(&[0xdd; 3]).unwrap();
    assert_eq!(path2, fresh2);

    // from_slice rejects oversized input
    assert!(NodePath::from_slice(&[0xff; 33]).is_none());

    // set_from_slice rejects oversized input
    let mut p = NodePath::default();
    assert!(p.set_from_slice(&[0xff; 33]).is_none());
}

/// Deserializing a leaf must return an error (not panic) when the wire path exceeds 32 bytes.
#[test]
fn trieleaf_deserialize_rejects_oversized_path() {
    // Build a valid-looking wire payload with a 33-byte path.
    let mut wire = Vec::new();
    // 4-byte big-endian length prefix = 33
    wire.extend_from_slice(&33u32.to_be_bytes());
    // 33 bytes of path data
    wire.extend_from_slice(&[0xaa; 33]);
    // 40 bytes of value (would follow in a valid leaf)
    wire.extend_from_slice(&[0x00; 40]);

    let result = TrieLeaf::consensus_deserialize(&wire, 0);
    assert!(result.is_err(), "expected an error for an oversized path");
}

#[test]
fn nodes_are_read_at_pointers() {
    let hash = TrieHash([0x44; 32]);
    let leaf = TrieNodeType::Leaf(TrieLeaf::new(&[1, 2, 3], &[9; 40]));
    let mut stream = vec![0xee; 7];
    marf_index::node_codec::write_node_bytes(&mut stream, &leaf, hash, false).unwrap();
    let at = TriePtr::new(LEAF, 0, 7);

    let (node, found) = read_nodetype(&stream, &at).unwrap();
    assert_eq!(found, hash);
    assert_eq!(node.path_bytes(), &[1, 2, 3]);
    let (node, _, len) = read_nodetype_at_head(&stream[7..], LEAF).unwrap();
    assert!(node.is_leaf());
    assert_eq!(len, stream.len() - 7);
    assert_eq!(read_node_hash_bytes(&stream, &at).unwrap(), [0x44; 32]);
    assert_eq!(
        read_stored_node_type_at_head(&stream[7..]).unwrap(),
        (TrieNodeID::Leaf, hash)
    );
    let mut scratch = MarfReadState::new();
    let (item, used) = read_trie_item(&stream, &at, &mut scratch).unwrap();
    assert_eq!(used, stream.len() - 7);
    assert_eq!(item.into_node().unwrap().node_type_u8(), LEAF);

    assert!(matches!(
        read_hash_bytes(&stream[..31]),
        Err(Error::CorruptionError(Corruption::TruncatedHash))
    ));
    assert!(matches!(
        read_stored_node_type_at_head(&stream[7..39]),
        Err(Error::IOError(IoErrorKind::UnexpectedEof))
    ));
    assert!(matches!(
        read_nodetype(&stream, &TriePtr::new(NODE4, 0, 7)),
        Err(Error::CorruptionError(Corruption::UnexpectedNodeId))
    ));
    assert!(read_nodetype(&stream, &TriePtr::new(LEAF, 0, 1 << 40)).is_err());
}

/// A node ID that names no node type is refused, whatever the bytes say.
#[test]
fn invalid_node_ids_are_refused() {
    for id in [10, 11, 12, 13, 14, 15, 0x1f, 0x8f] {
        assert!(matches!(
            ptrs_from_slice_into(id, &[id], &mut []),
            Err(Error::CorruptionError(Corruption::BadNodeId))
        ));
        assert!(ptrs_from_slice_into(id, &[NODE4], &mut []).is_err());
    }
    assert!(matches!(
        ptrs_from_slice_into(NODE4, &[15], &mut []),
        Err(Error::CorruptionError(Corruption::BadNodeId))
    ));
}

/// The fixed encoding keeps what an empty slot holds.
#[test]
fn plain_encodings_keep_empty_slots() {
    let mut branch = TrieBranch::new(TrieNodeID::Node4, &[3]);
    assert!(branch.insert(&TriePtr::new(LEAF, 9, 77)));
    branch.ptrs[2] = TriePtr {
        id: 0,
        chr: 5,
        ptr: 6,
        back_block: 7,
    };
    let node = TrieNodeType::Branch(branch);
    let mut stream = vec![0xee; 3];
    marf_index::node_codec::write_node_bytes(&mut stream, &node, TrieHash([1; 32]), false).unwrap();
    let (found, _) = read_nodetype(&stream, &TriePtr::new(NODE4, 0, 3)).unwrap();
    assert_eq!(found.ptrs(), node.ptrs());
}

#[test]
fn patches_are_no_nodes() {
    let patch = TrieNodePatch {
        ptr: TriePtr::new_backptr(NODE4, 0x33, 0x4567, 0x89ab),
        ptr_diff: vec![TriePtr::new(NODE16, 0x55, 0x3333)],
    };
    let mut stream = vec![0x24; 32];
    patch.consensus_serialize(&mut stream).unwrap();
    match read_nodetype_at_head(&stream, PATCH) {
        Err(Error::Patch(found)) => {
            assert_eq!(found.ptr, patch.ptr);
            assert_eq!(found.ptr_diff, patch.ptr_diff);
        }
        _ => panic!("expected the patch"),
    }
}

#[test]
fn root_reservations_cover_wider_offsets() {
    let ptrs = [
        TriePtr::new(LEAF, 1, 1),
        TriePtr::default(),
        TriePtr::new_backptr(LEAF, 2, 5, 6),
        TriePtr::new(NODE4, 3, 2),
    ];
    assert_eq!(reserved_root_size(100, &ptrs).unwrap(), 108);
    assert_eq!(get_node_max_byte_len(LEAF, false).unwrap(), 138);
    assert_eq!(get_node_max_byte_len(NODE4, true).unwrap(), 66 + 4 * 14);
    assert!(get_node_max_byte_len(PATCH, true).is_err());
}

#[test]
fn inline_children_get_their_offsets() {
    let mut ptrs = [
        TriePtr::new(LEAF, 1, 1),
        TriePtr::default(),
        TriePtr::new_backptr(LEAF, 2, 1, 6),
        TriePtr::new(NODE4, 3, 0),
    ];
    resolve_inline_child_offsets(&mut ptrs, &[70, 90]).unwrap();
    assert_eq!(ptrs[0].ptr(), 90);
    assert_eq!(ptrs[2].ptr(), 1);
    assert_eq!(ptrs[3].ptr(), 70);
    let mut late = [TriePtr::new(LEAF, 1, 2)];
    assert!(matches!(
        resolve_inline_child_offsets(&mut late, &[70, 90]),
        Err(Error::CorruptionError(Corruption::InlineChildOutOfBounds))
    ));
    let mut unwritten = [TriePtr::new(LEAF, 1, 0)];
    assert!(matches!(
        resolve_inline_child_offsets(&mut unwritten, &[0]),
        Err(Error::CorruptionError(Corruption::InlineChildUnwritten))
    ));
}
