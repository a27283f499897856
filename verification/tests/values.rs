use marf_index::audit::{sampled_heights, sampled_ids};
use marf_index::error::{Corruption, Error, IoErrorKind};
use marf_index::fork_storage::{
    check_fork_storage, copy_referenced_row, decode_key, owned_sql_value, CopyProgress,
    LeafHashes, SqlValue,
};
use marf_index::hash::{BurnchainHeaderHash, SortitionId, StacksBlockId, TrieHash};
use marf_index::hex::{hex_bytes, to_hex};
use marf_index::leaf::{TrieLeaf, TrieNodeType};
use marf_index::marf::{
    fault_injection_marf_compression, test_override_marf_compression, MARFOpenOpts, MarfTransaction,
    StorageStep, TrieHashCalculationMode, WriteState, MARF,
};
use marf_index::marf_extend::{
    extend_trie, finish_insert_batch, fresh_root, insert_leaf, insert_leaf_in_batch,
    plan_insert_batch, root_copy, ExtendTrie,
};
use marf_index::node::{is_backptr, TrieBranch, TrieNodeID, TrieNodePatch, TriePtr};
use marf_index::node_codec::{
    decode_nodetype_from_slice_at_head, get_leaf_hash, get_node_byte_len,
    get_node_byte_len_compressed, get_node_hash, write_nodetype_bytes,
    write_nodetype_bytes_compressed,
};
use marf_index::node_reads::{
    read_hash_bytes, read_node_hash_bytes, read_nodetype, read_nodetype_at_head, seek_to,
};
use marf_index::proof_codec::hashes_fmt;
use marf_index::result_cache::ResultCacheControl;
use marf_index::scratch::MarfReadState;
use marf_index::value::{MARFValue, ValueExtent};

/// Hashes are SHA-512/256, and the hash of nothing is known beforehand.
#[test]
fn hashes_have_known_values() {
    let text = |hash: TrieHash| String::from_utf8(to_hex(hash.as_bytes())).unwrap();
    assert_eq!(
        text(TrieHash::of_bytes(b"abc")),
        "53048e2681941ef99b2e29b76b4c7dabe4c2d0c634fc6d46e0e2f13107e7af23"
    );
    assert_eq!(
        text(TrieHash::from_data(b"")),
        "c672b8d1ef56ed28ab87c3622c5114069bdd3ad7b8f9737498d0c01ecef0967a"
    );
    assert_eq!(TrieHash::of_bytes(b""), TrieHash::empty());
    assert_eq!(TrieHash::from_key("abc"), TrieHash::of_bytes(b"abc"));
    let parts = [TrieHash([1; 32]), TrieHash([2; 32])];
    let mut data = vec![1; 32];
    data.extend([2; 32]);
    assert_eq!(TrieHash::from_data_array(&parts), TrieHash::of_bytes(&data));
    assert_eq!(TrieHash::from_data_array(&[]), TrieHash::empty());
    assert_eq!(TrieHash::from_bytes(&[4; 32]), Some(TrieHash([4; 32])));
    assert_eq!(TrieHash::from_bytes(&[4; 31]), None);
    assert_eq!(TrieHash::zero(), TrieHash([0; 32]));
}

/// Hexadecimal text gives back its bytes.
#[test]
fn hexadecimal_gives_back_its_bytes() {
    let bytes: Vec<u8> = (0..=255).collect();
    let text = to_hex(&bytes);
    assert_eq!(&text[..8], b"00010203");
    assert_eq!(&text[508..], b"feff");
    assert_eq!(hex_bytes(&text).unwrap(), bytes);
    assert_eq!(hex_bytes(b"FF0a").unwrap(), [255, 10]);
    assert!(hex_bytes(b"0").is_none());
    assert!(hex_bytes(b"0g").is_none());
    assert_eq!(hex_bytes(b"").unwrap(), b"");
}

/// Values hold numbers, identities and value hashes.
#[test]
fn values_give_back_what_they_hold() {
    assert_eq!(MARFValue::from_u32(0x01020304).to_u32(), 0x01020304);
    assert_eq!(MARFValue::from_u32(0x01020304).0[..5], [4, 3, 2, 1, 0]);
    let id = StacksBlockId([7; 32]);
    assert_eq!(
        MARFValue::from_block_id(&id).to_block_id::<StacksBlockId>(),
        id
    );
    let hash = MARFValue::from_value_hash_bytes(&[5; 32]);
    assert_eq!(hash.to_value_hash(), TrieHash([5; 32]));
    assert_eq!(hash, MARFValue::from_value_hash(&TrieHash([5; 32])));
    assert_eq!(hash.to_vec().len(), 40);
    assert_eq!(
        MARFValue::from_value("abc").to_value_hash(),
        TrieHash::of_bytes(b"abc")
    );
    assert_ne!(BurnchainHeaderHash([1; 32]), BurnchainHeaderHash([2; 32]));
    assert_eq!(SortitionId([1; 32]), SortitionId([1; 32]));
}

/// Extents give back what was written.
#[test]
fn extents_give_back_their_fields() {
    let mut bytes = vec![];
    let extent = ValueExtent {
        store_id: [3; 16],
        offset: 0x0102030405060708,
        length: 77,
    };
    extent.write_to(&mut bytes);
    assert_eq!(ValueExtent::read_from(&bytes).unwrap(), extent);
    assert!(ValueExtent::read_from(&bytes[..bytes.len() - 1]).is_err());
}

/// Records of nodes are read back at any offset, compressed or not.
#[test]
fn nodes_are_read_back_at_their_offset() {
    for compressed in [false, true] {
        for id in [
            TrieNodeID::Node4,
            TrieNodeID::Node16,
            TrieNodeID::Node48,
            TrieNodeID::Node256,
        ] {
            let mut branch = TrieBranch::new(id, &[1, 2, 3]);
            for chr in 0..4u8 {
                assert!(branch.insert(&TriePtr::new_backptr(1, chr, 900 + u64::from(chr), 12)));
            }
            let node = TrieNodeType::Branch(branch);
            let mut stream = vec![0; 5];
            let used = if compressed {
                write_nodetype_bytes_compressed(&mut stream, &node, TrieHash([8; 32])).unwrap()
            } else {
                write_nodetype_bytes(&mut stream, &node, &TrieHash([8; 32])).unwrap()
            };
            assert_eq!(stream.len() as u64, used + 5);
            let body = if compressed {
                get_node_byte_len_compressed(&node)
            } else {
                get_node_byte_len(&node)
            };
            assert_eq!(stream.len(), 5 + body);
            let ptr = TriePtr::new(id.as_u8(), 0, 5);
            let (found, hash) = read_nodetype(&stream, &ptr).unwrap();
            assert_eq!(found.ptrs(), node.ptrs());
            assert_eq!(found.path_bytes(), [1, 2, 3]);
            assert_eq!(hash, TrieHash([8; 32]));
            assert_eq!(read_node_hash_bytes(&stream, &ptr).unwrap(), [8; 32]);
            assert!(read_nodetype(&stream[..stream.len() - 1], &ptr).is_err());
            stream.extend([0xee; 9]);
            let (found, hash, len) =
                read_nodetype_at_head(seek_to(&stream, 5), id.as_u8()).unwrap();
            assert_eq!(found.ptrs(), node.ptrs());
            assert_eq!(hash, TrieHash([8; 32]));
            assert_eq!(len as u64, used);
            let (found, _) = read_nodetype(&stream, &ptr).unwrap();
            assert_eq!(found.ptrs(), node.ptrs());
            assert!(read_nodetype_at_head(seek_to(&stream, 5), 1).is_err());
            let (_, used) =
                decode_nodetype_from_slice_at_head(&stream[37..], id.as_u8()).unwrap();
            assert_eq!(used + 32, body);
        }
    }
    assert!(matches!(
        read_hash_bytes(&[1; 31]),
        Err(Error::CorruptionError(Corruption::TruncatedHash))
    ));
}

/// A branch's hash depends on its children and on the blocks that it points back to.
#[test]
fn branch_hashes_commit_to_children_and_blocks() {
    let mut branch = TrieBranch::new(TrieNodeID::Node4, &[]);
    branch.insert(&TriePtr::new_backptr(1, 3, 40, 9));
    let children = [TrieHash([1; 32]); 4];
    let hash = get_node_hash(&branch, &children, &|id: u32| [id as u8; 32]);
    assert_ne!(
        hash,
        get_node_hash(&branch, &children, &|id: u32| [id as u8 + 1; 32])
    );
    assert_ne!(
        hash,
        get_node_hash(&branch, &[TrieHash([2; 32]); 4], &|id: u32| [id as u8; 32])
    );
    let mut data = vec![TrieNodeID::Node4.as_u8()];
    for ptr in &branch.ptrs {
        data.extend([ptr.id(), ptr.chr()]);
        data.extend(if is_backptr(ptr.id()) { [9; 32] } else { [0; 32] });
    }
    data.push(0);
    for child in &children {
        data.extend(child.as_bytes());
    }
    assert_eq!(hash, TrieHash::of_bytes(&data));
    let leaf = TrieLeaf::new(&[5, 6], &[7; 40]);
    let mut data = vec![TrieNodeID::Leaf.as_u8(), 2, 5, 6];
    data.extend([7; 40]);
    assert_eq!(get_leaf_hash(&leaf), TrieHash::of_bytes(&data));
}

/// Patches are applied in place; a patch of a node that cannot take it is refused.
#[test]
fn patches_apply_to_the_node_they_name() {
    let mut branch = TrieBranch::new(TrieNodeID::Node4, &[]);
    branch.insert(&TriePtr::new(1, 1, 10));
    branch.insert(&TriePtr::new(1, 2, 20));
    let patch = TrieNodePatch {
        ptr: TriePtr::new_backptr(2, 0, 36, 4),
        ptr_diff: vec![TriePtr::new(1, 2, 99), TriePtr::new(1, 3, 98)],
    };
    assert!(patch.apply_to(&mut branch, 6, 6));
    assert_eq!(branch.walk(1), Some(TriePtr::new_backptr(1, 1, 10, 4)));
    assert_eq!(branch.walk(2), Some(TriePtr::new(1, 2, 99)));
    assert_eq!(branch.walk(3), Some(TriePtr::new(1, 3, 98)));
    let mut bytes = vec![];
    patch.consensus_serialize(&mut bytes).unwrap();
    let (again, used) = TrieNodePatch::from_slice(&bytes).unwrap();
    assert_eq!(used, bytes.len());
    assert_eq!(again.ptr, patch.ptr);
    assert_eq!(again.ptr_diff, patch.ptr_diff);
    let full = TrieNodePatch {
        ptr: TriePtr::new_backptr(2, 0, 36, 4),
        ptr_diff: (10..20u8).map(|chr| TriePtr::new(1, chr, 1)).collect(),
    };
    assert!(!full.apply_to(&mut branch, 6, 6));
    assert_eq!(branch.walk(10), Some(TriePtr::new(1, 10, 1)));
    assert_eq!(branch.walk(11), None);
}

/// Nodes that are set aside are kept while others are read.
#[test]
fn parked_nodes_are_kept() {
    let mut scratch = MarfReadState::new();
    assert!(matches!(
        scratch.park_current_node(),
        Err(Error::CorruptionError(Corruption::NothingToPark))
    ));
    scratch.store(TrieNodeType::Leaf(TrieLeaf::new(&[1], &[2; 40])));
    let first = scratch.park_current_node().unwrap();
    let second = scratch.park_owned_node(TrieNodeType::Leaf(TrieLeaf::new(&[3], &[4; 40])));
    assert_eq!(scratch.get_parked_ref(first).path_bytes(), [1]);
    assert_eq!(scratch.get_parked_ref(second).path_bytes(), [3]);
    assert_ne!(first.slot(), second.slot());
}

/// Rows are copied where a leaf refers to them.
#[test]
fn referenced_rows_are_copied() {
    let mut keep = LeafHashes::new();
    keep.insert(MARFValue([0xab; 40]));
    keep.insert(MARFValue([0xab; 40]));
    assert!(keep.contains(&MARFValue([0xab; 40])));
    assert!(!keep.contains(&MARFValue([0xac; 40])));
    let text = |byte: u8| SqlValue::Text(to_hex(&[byte; 40]));
    let row = [text(0xab), SqlValue::Integer(-3), SqlValue::Real(5)];
    let copy = copy_referenced_row(&row, &keep).unwrap().unwrap();
    assert_eq!(copy.len(), 3);
    assert!(matches!(copy[1], SqlValue::Integer(-3)));
    assert!(matches!(copy[2], SqlValue::Real(5)));
    assert!(copy_referenced_row(&[text(0xac)], &keep).unwrap().is_none());
    assert!(matches!(CopyProgress::start(true), Err(Error::ExistsError)));
    let mut progress = CopyProgress::start(false).unwrap();
    assert!(progress.step(&row, &keep).unwrap().is_some());
    assert!(progress.step(&[text(0xac)], &keep).unwrap().is_none());
    assert_eq!((progress.scanned, progress.rows), (2, 1));

    let fault = |column: SqlValue| match decode_key(&column) {
        Err(Error::CorruptionError(what)) => what,
        other => panic!("unexpected {other:?}"),
    };
    assert_eq!(
        decode_key(&SqlValue::Blob(vec![3; 40])).unwrap(),
        MARFValue([3; 40])
    );
    assert_eq!(fault(SqlValue::Blob(vec![3; 39])), Corruption::KeyWrongWidth);
    assert_eq!(fault(SqlValue::Null), Corruption::KeyWrongType);
    assert_eq!(fault(SqlValue::Integer(1)), Corruption::KeyWrongType);
    assert_eq!(
        fault(SqlValue::Text(vec![0xff; 80])),
        Corruption::KeyNotUtf8
    );
    assert_eq!(fault(SqlValue::Text(b"zz".to_vec())), Corruption::KeyNotHex);
    assert_eq!(fault(SqlValue::Text(b"aa".to_vec())), Corruption::KeyNotHex);
    assert_eq!(
        fault(SqlValue::Text(
            to_hex(&[0xab; 40]).to_ascii_uppercase()
        )),
        Corruption::KeyNotCanonical
    );
    assert!(matches!(
        owned_sql_value(&SqlValue::Text(vec![0xc3, 0x28])),
        Err(Error::CorruptionError(Corruption::TextNotUtf8))
    ));
    assert!(matches!(
        owned_sql_value(&SqlValue::Text("h\u{e9}".as_bytes().to_vec())),
        Ok(SqlValue::Text(_))
    ));
    assert!(check_fork_storage(true).is_ok());
    assert!(matches!(
        check_fork_storage(false),
        Err(Error::CorruptionError(Corruption::MissingForkStorage))
    ));
}

/// Options start plain, and overrides of compression go first.
#[test]
fn options_take_overrides() {
    let opts = MARFOpenOpts::default();
    assert_eq!(
        opts,
        MARFOpenOpts::new(TrieHashCalculationMode::Deferred, false)
    );
    assert!(opts.with_compression(true).compress);
    assert!(opts.with_mmap(true).mmap);
    assert!(!opts.mmap);
    let mut flag = None;
    let mut opts = MARFOpenOpts::default();
    test_override_marf_compression(&mut opts, flag);
    assert!(!opts.compress);
    fault_injection_marf_compression(&mut flag, true);
    test_override_marf_compression(&mut opts, flag);
    assert!(opts.compress);
}

fn id(byte: u8) -> StacksBlockId {
    StacksBlockId([byte; 32])
}

/// One block is written at a time, and ends with one of the ways to finish it.
#[test]
fn writers_hold_one_block_at_a_time() {
    let mut state: WriteState<StacksBlockId> = WriteState::new(false, false);
    assert!(matches!(
        state.insertion_block(),
        Err(Error::WriteNotBegunError)
    ));
    assert!(matches!(
        state.insert(b"k"),
        Err(Error::WriteNotBegunError)
    ));
    let entries = state.setup_extension(&id(1), &id(2), 4, true);
    assert_eq!(entries.len(), 5);
    assert_eq!(entries[0].1.to_u32(), 4);
    assert_eq!(state.get_open_chain_tip(), Some(&id(2)));
    assert_eq!(state.get_open_chain_tip_height(), Some(4));
    assert!(matches!(state.check_reopen(), Err(Error::InProgressError)));
    assert_eq!(state.insertion_block().unwrap(), id(2));
    assert!(state.height_updates(4, true).unwrap().1);
    assert!(!state.height_updates(4, false).unwrap().1);
    assert!(!state.height_updates(5, true).unwrap().1);
    let plan = state.insert(b"key").unwrap();
    assert!(!plan.invalidate_ancestry);
    assert_eq!(plan.insertions.len(), 1);
    assert_eq!(plan.insertions[0].path, TrieHash::from_key("key"));
    assert!(
        state
            .insert(b"__MARF_BLOCK_HEIGHT_SELF")
            .unwrap()
            .invalidate_ancestry
    );
    assert!(
        state
            .insert_raw(TrieHash([1; 32]))
            .unwrap()
            .invalidate_ancestry
    );
    assert!(state.insert_batch(&[]).unwrap().is_none());
    assert!(state.insert_leaf_batch(&[]).unwrap().insertions.is_empty());
    let plan = state.insert_leaf_batch(&[b"a".to_vec()]).unwrap();
    assert!(!plan.invalidate_ancestry);
    assert_eq!(plan.insertions.len(), 2);
    let plan = insert_leaf(&StacksBlockId([6; 32]), TrieHash([1; 32]));
    assert_eq!(plan.block, StacksBlockId([6; 32]));
    assert!(plan.invalidate_ancestry && plan.insertions[0].update_skiplist);
    let plan = insert_leaf_in_batch(&StacksBlockId([6; 32]), TrieHash([1; 32]));
    assert_eq!(plan.insertions[0].path, TrieHash([1; 32]));
    assert!(plan.invalidate_ancestry && !plan.insertions[0].update_skiplist);
    let plan = state
        .insert_batch(&[b"a".to_vec(), b"b".to_vec()])
        .unwrap()
        .unwrap();
    let skips: Vec<(usize, bool)> = plan
        .insertions
        .iter()
        .map(|i| (i.entry, i.update_skiplist))
        .collect();
    assert_eq!(skips, [(0, false), (1, false), (1, true)]);
    let (reserved, _) = plan_insert_batch(&[b"__MARF_BLOCK_HEIGHT_SELF".to_vec()], true);
    assert!(!reserved);

    let plan = state.commit_to(&id(9)).unwrap();
    assert!(matches!(
        plan.as_slice(),
        [StorageStep::FlushTo(block), StorageStep::CommitTx] if *block == id(9)
    ));
    assert!(state.check_reopen().is_ok());
    assert!(state.commit_mined(&id(9)).unwrap().is_empty());
    assert!(state.drop_unconfirmed().is_empty());
    state.setup_extension(&id(1), &id(2), 4, false);
    state.abandon_extension();
    assert_eq!(state.get_open_chain_tip(), None);

    let mut unconfirmed: WriteState<StacksBlockId> = WriteState::new(false, true);
    assert!(matches!(
        unconfirmed.commit_to(&id(9)),
        Err(Error::UnconfirmedError)
    ));
    unconfirmed.setup_extension(&id(1), &id(2), 4, false);
    assert!(matches!(
        unconfirmed.drop_unconfirmed().as_slice(),
        [
            StorageStep::DropUnconfirmedTrie(_),
            StorageStep::OpenSentinel,
            StorageStep::CommitTx
        ]
    ));
    let mut readonly: WriteState<StacksBlockId> = WriteState::new(true, false);
    assert!(matches!(readonly.check_seal(), Err(Error::ReadOnlyError)));
    assert!(matches!(
        readonly.commit_mined(&id(9)),
        Err(Error::ReadOnlyError)
    ));

    let mut tx = MarfTransaction {
        state: WriteState::new(false, false),
    };
    assert!(matches!(
        tx.commit().unwrap().as_slice(),
        [StorageStep::CommitTx]
    ));
    tx.state.setup_extension(&id(1), &id(2), 4, false);
    assert!(matches!(
        tx.commit().unwrap().as_slice(),
        [StorageStep::Flush, StorageStep::CommitTx]
    ));
    assert!(matches!(
        tx.commit_squash().unwrap().as_slice(),
        [StorageStep::DropExtendingTrie, StorageStep::CommitTx]
    ));
    assert_eq!(tx.drop_current().len(), 3);
    let mut marf = MARF {
        state: WriteState::<StacksBlockId>::new(false, false),
    };
    assert!(marf.commit().unwrap().is_empty());
    for failed in [false, true] {
        let outcome = || if failed { Err(Error::NotFoundError) } else { Ok(()) };
        let (done, steps) = marf.finish_insert_raw(outcome(), Ok(()));
        assert_eq!(done.is_err(), failed);
        assert!(matches!(steps.as_slice(), [StorageStep::CommitTx]));
        let (done, steps) = marf.finish_insert_raw(outcome(), Err(Error::ReadOnlyError));
        assert!(matches!(done, Err(Error::ReadOnlyError)));
        assert!(steps.is_empty());
        let (done, steps) = marf.finish_insert_batch(outcome());
        assert_eq!(done.is_err(), failed);
        assert_eq!(steps.is_empty(), failed);
    }
    assert!(matches!(
        marf.drop_current().as_slice(),
        [
            StorageStep::DropExtendingTrie,
            StorageStep::OpenSentinel,
            StorageStep::CommitTx
        ]
    ));
}

/// A trie is extended from an empty root, from the one that exists, or from a copy of the current.
#[test]
fn tries_are_extended_from_the_right_root() {
    let open = |outcome: Result<(), Error>| move || outcome;
    assert!(matches!(
        extend_trie(0, &id(1), open(Ok(()))),
        Ok(ExtendTrie::Fresh)
    ));
    assert!(matches!(
        extend_trie(3, &StacksBlockId([255; 32]), open(Ok(()))),
        Ok(ExtendTrie::Fresh)
    ));
    assert!(matches!(
        extend_trie(3, &id(1), open(Ok(()))),
        Ok(ExtendTrie::Switch)
    ));
    assert!(matches!(
        extend_trie(3, &id(1), open(Err(Error::NotFoundError))),
        Ok(ExtendTrie::CopyRoot)
    ));
    assert!(matches!(
        extend_trie(3, &id(1), open(Err(Error::IOError(IoErrorKind::Other)))),
        Err(Error::IOError(IoErrorKind::Other))
    ));
    let (root, _) = fresh_root();
    assert_eq!(root.id(), TrieNodeID::Node256.as_u8());
    assert!(root.ptrs().iter().all(|ptr| ptr.is_empty()));
    let mut branch = TrieBranch::empty(TrieNodeID::Node256);
    branch.insert(&TriePtr::new(1, 7, 44));
    branch.insert(&TriePtr::new_backptr(1, 8, 45, 2));
    let mut root = TrieNodeType::Branch(branch);
    root_copy(&mut root, &id(1), 6, 36);
    assert_eq!(root.walk(7), Some(TriePtr::new_backptr(1, 7, 44, 6)));
    assert_eq!(root.walk(8), Some(TriePtr::new_backptr(1, 8, 45, 2)));
}

/// Audits look at ids from the first to the last, each once.
#[test]
fn audits_sample_ids_and_heights() {
    assert_eq!(sampled_ids(0), [1]);
    assert_eq!(sampled_ids(1), [1]);
    assert_eq!(sampled_ids(3), [1, 2, 3]);
    let ids = sampled_ids(6301);
    assert_eq!(ids.len(), 64);
    assert_eq!(&ids[..3], [1, 101, 201]);
    assert_eq!(ids[63], 6301);
    assert_eq!(sampled_heights(9), [0, 4, 8, 9]);
    assert_eq!(sampled_heights(0), [0, 0, 0, 0]);
}

/// Long lists of hashes stand in lines of four.
#[test]
fn lists_of_hashes_have_a_text() {
    let one = "01".repeat(32);
    let list = |n: usize| String::from_utf8(hashes_fmt(&vec![TrieHash([1; 32]); n])).unwrap();
    assert_eq!(list(0), "");
    assert_eq!(list(1), one);
    assert_eq!(list(2), format!("{one},{one}"));
    assert_eq!(list(47).lines().count(), 1);
    let long = list(51);
    assert_eq!(long.lines().count(), 13);
    assert!(long.starts_with(&format!("\n{one},{one},{one},{one}\n")));
}

/// A batch fails where its block cannot be opened again, else where an insertion failed.
#[test]
fn batches_report_what_went_wrong_last() {
    let guard = || ResultCacheControl::default().guard();
    let (done, kept) = finish_insert_batch(guard(), Ok(()), Ok(()));
    assert!(done.is_ok() && kept.succeeded);
    let (done, kept) = finish_insert_batch(guard(), Err(Error::NotFoundError), Ok(()));
    assert!(matches!(done, Err(Error::NotFoundError)) && !kept.succeeded);
    let (done, kept) = finish_insert_batch(guard(), Ok(()), Err(Error::ReadOnlyError));
    assert!(matches!(done, Err(Error::ReadOnlyError)) && !kept.succeeded);
    let failed = Err(Error::NotFoundError);
    let (done, kept) = finish_insert_batch(guard(), failed, Err(Error::ReadOnlyError));
    assert!(matches!(done, Err(Error::ReadOnlyError)) && !kept.succeeded);
}
