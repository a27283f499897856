use marf_index::bits::{
    get_read_node_max_byte_len, is_inline_child_ptr, parse_hash_from_bytes,
    read_stored_node_type_from_slice, stored_node_id_from_bytes,
};
use marf_index::cursor::TrieCursor;
use marf_index::error::{Corruption, CursorError, Error, IoErrorKind};
use marf_index::hash::{StacksBlockId, TrieHash};
use marf_index::leaf::{TrieLeaf, TrieNodeType};
use marf_index::node::{
    clear_backptr, clear_compressed, is_compressed, logical_node_id, set_backptr, set_compressed,
    TrieBranch, TrieCowPtr, TrieNodeID, TrieNodePatch, TrieNodeTransientMeta, TriePtr,
};
use marf_index::node_codec::{decode_stable_node_bytes, get_leaf_hash, get_nodetype_hash_bytes};
use marf_index::packed_branch::payload_len_with_targets;
use marf_index::read_node::{
    BorrowedNodeBytes, OwnedNodeBytes, PatchChainEntry, ReadTrieItem, ReadTrieNode, TrieLeafRef,
};
use marf_index::record::NodeRecordFormat;
use marf_index::scratch::{read_trie_item_from_slice, MarfReadState};

fn branch() -> TrieBranch {
    let mut branch = TrieBranch::new(TrieNodeID::Node16, &[7, 8]);
    for chr in 0..5u8 {
        branch.insert(&TriePtr::new(1, chr * 3, 100 + u64::from(chr)));
    }
    branch
}

/// A stored record of a node, with its hash in front.
fn stored(node: &TrieNodeType) -> Vec<u8> {
    let mut bytes = vec![];
    NodeRecordFormat::Legacy
        .write_node(&mut bytes, node, TrieHash([3; 32]), false)
        .unwrap();
    bytes
}

/// Marks on node type bytes come off as they went on.
#[test]
fn marks_come_off_as_they_went_on() {
    for id in 0..7u8 {
        assert_eq!(clear_backptr(set_backptr(id)), id);
        assert_eq!(clear_compressed(set_compressed(id)), id);
        assert!(is_compressed(set_compressed(id)));
        assert!(!is_compressed(id));
    }
    assert_eq!(logical_node_id(TrieNodeID::Node16.as_u8()), TrieNodeID::Node16.as_u8());
    assert_eq!(logical_node_id(TrieNodeID::InlineLeaf.as_u8()), TrieNodeID::Leaf.as_u8());
    assert!(get_read_node_max_byte_len(TrieNodeID::Node256.as_u8()).unwrap() > 256 * 6);
    assert!(get_read_node_max_byte_len(15).is_err());
    assert!(is_inline_child_ptr(&TriePtr::new(1, 0, 5)));
    assert!(!is_inline_child_ptr(&TriePtr::new_backptr(1, 0, 5, 2)));
}

/// A record's head tells its type and hash.
#[test]
fn record_heads_tell_type_and_hash() {
    let bytes = stored(&TrieNodeType::Branch(branch()));
    assert_eq!(
        read_stored_node_type_from_slice(&bytes).unwrap(),
        (TrieNodeID::Node16, TrieHash([3; 32]))
    );
    assert!(matches!(
        read_stored_node_type_from_slice(&bytes[..31]),
        Err(Error::CorruptionError(Corruption::TruncatedHash))
    ));
    assert!(read_stored_node_type_from_slice(&bytes[..32]).is_err());
    let (hash, rest) = parse_hash_from_bytes(&bytes).unwrap();
    assert_eq!(hash, TrieHash([3; 32]));
    assert_eq!(stored_node_id_from_bytes(rest).unwrap(), TrieNodeID::Node16);
    let node = decode_stable_node_bytes(rest, TrieNodeID::Node16).unwrap();
    assert_eq!(node.ptrs(), branch().ptrs.as_slice());

    let format = NodeRecordFormat::TypeFirstV1;
    let mut blob = vec![];
    format.write_trie_header(&mut blob, &StacksBlockId([1; 32]));
    assert!(format.validate_reader_header(&blob).is_ok());
    assert!(matches!(
        format.validate_reader_header(&blob[..35]),
        Err(Error::IOError(IoErrorKind::UnexpectedEof))
    ));
    assert!(NodeRecordFormat::TypeFirstV2
        .validate_reader_header(&blob)
        .is_err());
    assert!(NodeRecordFormat::Legacy.validate_reader_header(&[]).is_ok());
}

/// Nodes read the same from every backing, and lookups decode no more than they need.
#[test]
fn nodes_read_the_same_from_every_backing() {
    let node = TrieNodeType::Branch(branch());
    let bytes = stored(&node);
    let body = &bytes[32..];
    let hash = Some(TrieHash([3; 32]));
    let reads = [
        ReadTrieNode::from_borrowed(&node, hash),
        ReadTrieNode::from_state_borrowed(&node, hash),
        ReadTrieNode::from_owned(node.clone(), hash),
        ReadTrieNode::from_stable_bytes(BorrowedNodeBytes::new(TrieNodeID::Node16, body), hash),
        ReadTrieNode::from_owned_bytes(
            OwnedNodeBytes::new(TrieNodeID::Node16, body.to_vec()),
            hash,
        ),
    ];
    for mut read in reads {
        assert!(!read.is_leaf().unwrap());
        assert!(!read.is_node256());
        assert_eq!(read.node_type(), Some(TrieNodeID::Node16));
        assert_eq!(read.node_type_u8(), TrieNodeID::Node16.as_u8());
        assert_eq!(read.path_bytes().unwrap(), [7, 8]);
        assert_eq!(read.walk(6).unwrap(), Some(TriePtr::new(1, 6, 102)));
        assert_eq!(read.walk(7).unwrap(), None);
        assert_eq!(read.ptrs().unwrap(), branch().ptrs.as_slice());
        assert!(read.as_leaf().unwrap().is_none());

        let mut path = [0; 32];
        path[..3].copy_from_slice(&[7, 8, 6]);
        let mut cursor: TrieCursor<StacksBlockId> =
            TrieCursor::new(&TrieHash(path), TriePtr::new(3, 0, 36));
        let next = cursor.walk_read(&mut read, &StacksBlockId([1; 32])).unwrap();
        assert_eq!(next, Some(TriePtr::new(1, 6, 102)));
        assert_eq!(cursor.index, 3);
        path[1] = 9;
        cursor.reset(&TrieHash(path), TriePtr::new(3, 0, 36));
        assert!(matches!(
            cursor.walk_read(&mut read, &StacksBlockId([1; 32])),
            Err(Error::CursorError(CursorError::PathDiverged))
        ));

        let meta = TrieNodeTransientMeta {
            patch_depth: 2,
            last_patch_source: None,
            cow_ptr: Some(TrieCowPtr {
                block_hash: [4; 32],
                ptr: TriePtr::new(3, 0, 9),
            }),
        };
        let read = read.with_patch_depth(2).with_transient_meta(meta);
        assert_eq!(read.patch_depth, 2);
        let (owned, found) = ReadTrieItem::from_node(read)
            .into_node()
            .unwrap()
            .into_owned_node()
            .unwrap();
        assert_eq!(found, hash);
        assert_eq!(owned.transient_meta(), Some(meta));
        assert_eq!(owned.ptrs(), node.ptrs());
    }
    let leaf = TrieLeaf::new(&[1, 2], &[5; 40]);
    let mut read = ReadTrieNode::from_owned(TrieNodeType::Leaf(leaf.clone()), None);
    assert!(read.is_leaf().unwrap());
    let found: TrieLeafRef<'_> = read.as_leaf().unwrap().unwrap();
    assert_eq!(found.to_owned(), leaf);
    assert_eq!(TrieLeafRef::from_leaf(&leaf).to_owned(), leaf);
    assert_eq!(read.into_hash().unwrap(), None);
}

/// A chain of patches is applied oldest first, as far as it can be.
#[test]
fn patch_chains_apply_oldest_first() {
    let entry = |block_id: u32, ptr: u64, chr: u8, child: u64| PatchChainEntry {
        block_id,
        ptr: TriePtr::new(3, 0, ptr),
        patch: TrieNodePatch {
            ptr: TriePtr::new_backptr(3, 0, 36, 2),
            ptr_diff: vec![TriePtr::new(1, chr, child)],
        },
    };
    let mut scratch = MarfReadState::new();
    scratch.store(TrieNodeType::Branch(branch()));
    scratch
        .apply_patches_in_place(&[entry(4, 50, 6, 1), entry(5, 60, 6, 2)], 5)
        .unwrap();
    let node = scratch.get_ref();
    assert_eq!(node.walk(6), Some(TriePtr::new(1, 6, 2)));
    assert_eq!(node.walk(0), Some(TriePtr::new_backptr(1, 0, 100, 2)));
    let meta = scratch.transient_meta().unwrap();
    assert_eq!(meta.patch_depth, 2);
    assert_eq!(meta.last_patch_source, Some((5, TriePtr::new(3, 0, 60))));

    scratch.store(TrieNodeType::Leaf(TrieLeaf::new(&[], &[0; 40])));
    assert!(matches!(
        scratch.apply_patches_in_place(&[entry(4, 50, 6, 1)], 5),
        Err(Error::CorruptionError(Corruption::CannotPatchNode))
    ));
    let mut full = TrieBranch::new(TrieNodeID::Node4, &[]);
    for chr in 10..14u8 {
        full.insert(&TriePtr::new(1, chr, 1));
    }
    scratch.store(TrieNodeType::Branch(full));
    assert!(matches!(
        scratch.apply_patches_in_place(&[entry(4, 50, 6, 1)], 5),
        Err(Error::CorruptionError(Corruption::PatchNotApplicable))
    ));
    assert_eq!(scratch.get_ref().walk(6), None);

    let mut roomy = TrieBranch::new(TrieNodeID::Node4, &[]);
    for chr in 10..13u8 {
        roomy.insert(&TriePtr::new(1, chr, 1));
    }
    scratch.store(TrieNodeType::Branch(roomy));
    assert!(matches!(
        scratch.apply_patches_in_place(
            &[entry(4, 50, 6, 1), entry(5, 60, 6, 2), entry(5, 61, 7, 3)],
            5
        ),
        Err(Error::CorruptionError(Corruption::PatchNotApplicable))
    ));
    assert_eq!(scratch.get_ref().walk(6).map(|ptr| ptr.ptr()), Some(2));
    assert_eq!(scratch.get_ref().walk(7), None);
    let meta = scratch.transient_meta().unwrap();
    assert_eq!(meta.patch_depth, 0);
    assert_eq!(meta.last_patch_source, None);
}

/// A patch that is read where a node was expected is given back as such.
#[test]
fn unresolved_patches_are_no_nodes() {
    let patch = TrieNodePatch {
        ptr: TriePtr::new_backptr(3, 0, 36, 2),
        ptr_diff: vec![TriePtr::new(1, 6, 9)],
    };
    let mut bytes = vec![];
    NodeRecordFormat::Legacy
        .write_patch(&mut bytes, &patch, TrieHash([4; 32]))
        .unwrap();
    let mut scratch = MarfReadState::new();
    let (item, used) = read_trie_item_from_slice(&bytes, 3, &mut scratch).unwrap();
    assert_eq!(used, bytes.len());
    assert_eq!(item.hash, Some(TrieHash([4; 32])));
    assert!(matches!(
        item.into_node(),
        Err(Error::Patch(found)) if found.ptr == patch.ptr
    ));
    assert_eq!(scratch.take_patch().ptr_diff, patch.ptr_diff);
    assert!(scratch.patch_slot.is_none());
    assert!(matches!(
        scratch.park_current_node(),
        Err(Error::CorruptionError(Corruption::CannotParkPatch))
    ));
    assert!(matches!(
        scratch.park_current_node(),
        Err(Error::CorruptionError(Corruption::NothingToPark))
    ));
    let item = ReadTrieItem::from_patch(&patch, None);
    assert!(item.into_node().is_err());

    let kept = scratch.take_node_bytes();
    scratch.restore_node_bytes(kept);
    scratch.patch_chain_buf.push(PatchChainEntry {
        block_id: 2,
        ptr: patch.ptr,
        patch: TrieNodePatch {
            ptr: patch.ptr,
            ptr_diff: vec![],
        },
    });
    let chain = scratch.take_patch_chain_buf();
    assert!(chain.is_empty());
    assert!(scratch.patch_chain_buf.is_empty());
    scratch.restore_patch_chain_buf(chain);
    assert!(scratch.patch_slot.is_none());
    let link = |ptr_diff: Vec<TriePtr>| PatchChainEntry {
        block_id: 2,
        ptr: patch.ptr,
        patch: TrieNodePatch {
            ptr: patch.ptr,
            ptr_diff,
        },
    };
    scratch.restore_patch_chain_buf(vec![link(vec![]), link(vec![]), link(vec![])]);
    assert!(scratch.patch_slot.is_none());
    scratch.restore_patch_chain_buf(vec![
        link(vec![]),
        link(Vec::with_capacity(40)),
        link(patch.ptr_diff.clone()),
    ]);
    let kept = scratch.patch();
    assert_eq!(kept.ptr, TriePtr::default());
    assert!(kept.ptr_diff.is_empty() && kept.ptr_diff.capacity() >= 40);
    assert!(scratch.patch_chain_buf.is_empty());
    scratch.patch_slot = Some(TrieNodePatch {
        ptr: patch.ptr,
        ptr_diff: Vec::with_capacity(90),
    });
    scratch.restore_patch_chain_buf(vec![link(patch.ptr_diff.clone())]);
    assert_eq!(scratch.patch().ptr, patch.ptr);
    scratch.clear_parked_nodes();
    scratch.clear_current_node();
    assert_eq!(scratch.decode_patch_from_slice(&bytes[32..]).unwrap(), bytes.len() - 32);
    let node = stored(&TrieNodeType::Branch(branch()));
    let used = scratch
        .decode_node_from_slice(TrieNodeID::Node16, &node[32..])
        .unwrap();
    assert_eq!(used, node.len() - 32);
    assert_eq!(scratch.get_ref().ptrs(), branch().ptrs.as_slice());
    for id in [TrieNodeID::Empty, TrieNodeID::Patch, TrieNodeID::RawLeaf] {
        for bytes in [&node[32..], &[]] {
            assert!(matches!(
                scratch.decode_node_from_slice(id, bytes),
                Err(Error::CorruptionError(Corruption::UnsupportedNodeBody))
            ));
            assert_eq!(scratch.get_ref().ptrs(), branch().ptrs.as_slice());
        }
    }
    assert!(matches!(
        scratch.decode_node_from_slice(TrieNodeID::Node16, &[]),
        Err(Error::CorruptionError(Corruption::MissingMarker))
    ));
    assert!(scratch.transient_meta().is_none());
    scratch.patch_slot = None;
    assert!(scratch.decode_patch_from_slice(&bytes[32..34]).is_err());
    assert!(scratch.patch_slot.is_some());
    scratch.patch_slot = None;
    assert!(scratch.decode_patch_from_slice(&[]).is_err());
    assert!(scratch.patch_slot.is_some());
}

/// Hashes of nodes commit to the node and to what is handed in for its children.
#[test]
fn node_hashes_commit_to_children() {
    let leaf = TrieLeaf::new(&[5, 6], &[7; 40]);
    let name = |_id: u32| [0; 32];
    let node = TrieNodeType::Leaf(leaf.clone());
    assert_eq!(
        get_nodetype_hash_bytes(&node, &[], &name),
        get_leaf_hash(&leaf)
    );
    let node = TrieNodeType::Branch(branch());
    let one = get_nodetype_hash_bytes(&node, &[TrieHash([1; 32]); 16], &name);
    let two = get_nodetype_hash_bytes(&node, &[TrieHash([2; 32]); 16], &name);
    assert_ne!(one, two);
}

/// The size of a packed branch follows the places that its children get.
#[test]
fn packed_sizes_follow_targets() {
    let node = TrieNodeType::Branch(branch());
    let near = payload_len_with_targets(&node, |_: &TriePtr| Ok(1)).unwrap();
    let far = payload_len_with_targets(&node, |_: &TriePtr| Ok(u64::MAX)).unwrap();
    assert!(far > near);
    assert_eq!((far - near) % 5, 0);
    assert!(matches!(
        payload_len_with_targets(&node, |_: &TriePtr| Err(Error::OverflowError)),
        Err(Error::OverflowError)
    ));
}
