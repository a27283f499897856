use std::cell::{Cell, RefCell};
use std::collections::BTreeMap;

use marf_index::cow::{node_child_copy, node_copy_update, walk_cow, OpenTrie};
use marf_index::cursor::{ReadTrieNodeCursorStep, TrieCursor};
use marf_index::error::{Corruption, CursorError, Error, IoErrorKind};
use marf_index::fork_storage::{collect_canonical_leaf_hashes, collect_leaf_value_hashes};
use marf_index::hash::{StacksBlockId, TrieHash};
use marf_index::leaf::{TrieLeaf, TrieNodeType};
use marf_index::leaf_walk::for_each_leaf;
use marf_index::marf::WriteState;
use marf_index::marf_extend::{get_extension_height, root_copy};
use marf_index::marf_heights::{
    check_ancestor_block_hash, get_bhh_at_height, get_block_at_height, get_block_height,
    get_block_height_miner_tip, get_by_key, get_root_hash_at, make_unconfirmed_chain_tip,
    reserved_height_key, set_block_heights,
};
use marf_index::marf_read::{
    get_by_hash, get_by_path, get_leaf_by_path, get_leaf_through_results, get_path,
    get_remembered_leaf, walk, walk_to_leaf_or_backptr, TrieLeafOrBackptr,
};
use marf_index::merkle_proof::{ProofTrieNode, TrieMerkleProof, TrieMerkleProofType};
use marf_index::node::{is_backptr, TrieBranch, TrieNodeID, TriePtr};
use marf_index::node_codec::{get_leaf_hash, get_node_hash};
use marf_index::proof_build::{
    get_with_proof, get_with_proof_from_hash, prove_path, prove_raw_entry,
};
use marf_index::read_storage::{Answer, Query, TrieReadStorage};
use marf_index::result_cache::{ResultCache, ResultCacheControl};
use marf_index::value::MARFValue;

/// The trie of one block.
struct Trie {
    block: StacksBlockId,
    height: u32,
    nodes: Vec<(TrieNodeType, TrieHash)>,
    state: BTreeMap<[u8; 32], MARFValue>,
    root_hash: TrieHash,
    ancestors: Vec<TrieHash>,
    parent: Option<usize>,
}

/// Tries in memory, numbered as they were added.
struct MemStore {
    tries: Vec<Trie>,
    squashed: Option<u32>,
    opened: RefCell<Vec<StacksBlockId>>,
    opens_left: Cell<usize>,
}

fn block(byte: u8) -> StacksBlockId {
    StacksBlockId([byte; 32])
}

impl MemStore {
    fn new() -> MemStore {
        MemStore {
            tries: vec![],
            squashed: None,
            opened: RefCell::new(vec![]),
            opens_left: Cell::new(usize::MAX),
        }
    }

    fn find(&self, block: &StacksBlockId) -> Result<&Trie, Error> {
        self.tries
            .iter()
            .find(|trie| trie.block == *block)
            .ok_or(Error::NotFoundError)
    }

    /// Add a block's trie: keys that it does not write are reached through its parent's tries.
    fn extend(&mut self, parent: Option<usize>, block: StacksBlockId, entries: &[(&str, u32)]) {
        let height = parent.map_or(0, |p| self.tries[p].height + 1);
        let before = parent.map_or(StacksBlockId([255; 32]), |p| self.tries[p].block);
        let mut writes: BTreeMap<[u8; 32], MARFValue> = BTreeMap::new();
        for (key, value) in set_block_heights(&before, &block, height) {
            writes.insert(TrieHash::from_data(&key).0, value);
        }
        for (key, value) in entries {
            writes.insert(TrieHash::from_key(key).0, MARFValue::from_u32(*value));
        }
        let mut state = parent.map_or(BTreeMap::new(), |p| self.tries[p].state.clone());
        state.extend(writes.iter().map(|(k, v)| (*k, MARFValue(v.0))));

        let mut nodes: Vec<(TrieNodeType, TrieHash)> =
            vec![(TrieNodeType::Leaf(TrieLeaf::empty()), TrieHash([0; 32]))];
        let mut root = TrieBranch::empty(TrieNodeID::Node256);
        let mut hashes = vec![TrieHash::empty(); 256];
        for chr in 0..=255u8 {
            let keys: Vec<[u8; 32]> = state.keys().filter(|k| k[0] == chr).copied().collect();
            if keys.is_empty() {
                continue;
            }
            let ptr = if keys.iter().any(|k| writes.contains_key(k)) {
                let (id, at) = self.build(&mut nodes, &state, &keys, 1);
                hashes[chr as usize] = nodes[at].1;
                TriePtr::new(id.as_u8(), chr, at as u64)
            } else {
                let p = parent.unwrap();
                let old = self.tries[p].nodes[0].0.walk(chr).unwrap();
                let ptr = if is_backptr(old.id()) {
                    old
                } else {
                    TriePtr::new_backptr(old.id(), chr, old.ptr(), p as u32)
                };
                hashes[chr as usize] = TrieHash(self.tries[ptr.back_block() as usize].block.0);
                ptr
            };
            root.insert(&ptr);
        }
        let name = |id: u32| self.tries[id as usize].block.0;
        let own = get_node_hash(&root, &hashes, &name);
        nodes[0] = (TrieNodeType::Branch(root), own);

        let mut ancestors = vec![];
        let mut distance = 1;
        while distance <= height {
            let mut at = parent.unwrap();
            while self.tries[at].height > height - distance {
                at = self.tries[at].parent.unwrap();
            }
            ancestors.push(self.tries[at].root_hash);
            distance *= 2;
        }
        let root_hash = if ancestors.is_empty() {
            own
        } else {
            let mut parts = vec![own];
            parts.extend(&ancestors);
            TrieHash::from_data_array(&parts)
        };
        self.tries.push(Trie {
            block,
            height,
            nodes,
            state,
            root_hash,
            ancestors,
            parent,
        });
    }

    fn build(
        &self,
        nodes: &mut Vec<(TrieNodeType, TrieHash)>,
        state: &BTreeMap<[u8; 32], MARFValue>,
        keys: &[[u8; 32]],
        depth: usize,
    ) -> (TrieNodeID, usize) {
        if keys.len() == 1 {
            let leaf = TrieLeaf::from_value(&keys[0][depth..], MARFValue(state[&keys[0]].0));
            let hash = get_leaf_hash(&leaf);
            nodes.push((TrieNodeType::Leaf(leaf), hash));
            return (TrieNodeID::Leaf, nodes.len() - 1);
        }
        let mut end = depth;
        while keys.iter().all(|k| k[end] == keys[0][end]) {
            end += 1;
        }
        let mut chrs: Vec<u8> = keys.iter().map(|k| k[end]).collect();
        chrs.dedup();
        let id = match chrs.len() {
            0..=4 => TrieNodeID::Node4,
            5..=16 => TrieNodeID::Node16,
            17..=48 => TrieNodeID::Node48,
            _ => TrieNodeID::Node256,
        };
        let mut branch = TrieBranch::new(id, &keys[0][depth..end]);
        let mut places = BTreeMap::new();
        for chr in chrs {
            let below: Vec<[u8; 32]> = keys.iter().filter(|k| k[end] == chr).copied().collect();
            let (child, at) = self.build(nodes, state, &below, end + 1);
            branch.insert(&TriePtr::new(child.as_u8(), chr, at as u64));
            places.insert(at as u64, nodes[at].1);
        }
        let hashes: Vec<TrieHash> = branch
            .ptrs
            .iter()
            .map(|ptr| {
                if ptr.is_empty() {
                    TrieHash::empty()
                } else {
                    places[&ptr.ptr()]
                }
            })
            .collect();
        let hash = get_node_hash(&branch, &hashes, &|_: u32| [0; 32]);
        nodes.push((TrieNodeType::Branch(branch), hash));
        (id, nodes.len() - 1)
    }

    fn by_root(&self, root: &TrieHash) -> Option<StacksBlockId> {
        self.tries
            .iter()
            .find(|trie| trie.root_hash == *root)
            .map(|trie| trie.block)
    }

    fn squashed_at(&self, height: u32) -> Option<&Trie> {
        self.tries
            .iter()
            .find(|trie| trie.height == height && self.squashed.is_some_and(|h| height <= h))
    }
}

impl TrieReadStorage<StacksBlockId> for MemStore {
    fn may(&self, _query: Query, _answer: Answer) -> bool {
        unreachable!()
    }

    fn open_block(&self, block: &StacksBlockId) -> Result<(), Error> {
        if self.opens_left.get() == 0 {
            return Err(Error::IOError(IoErrorKind::Other));
        }
        self.opens_left.set(self.opens_left.get() - 1);
        self.opened.borrow_mut().push(*block);
        self.find(block).map(|_| ())
    }

    fn check_historical_read_allowed(&self, block: &StacksBlockId) -> Result<(), Error> {
        let height = self.find(block)?.height;
        match self.squashed {
            Some(squash_height) if height < squash_height => {
                Err(Error::HistoricalReadInSquashedRange {
                    block_height: height,
                    squash_height,
                })
            }
            _ => Ok(()),
        }
    }

    fn root_trieptr(&self, _block: &StacksBlockId) -> TriePtr {
        TriePtr::new(TrieNodeID::Node256.as_u8(), 0, 0)
    }

    fn read_root_hash(&self, block: &StacksBlockId) -> Result<TrieHash, Error> {
        Ok(self.find(block)?.root_hash)
    }

    fn read_node(&self, block: &StacksBlockId, ptr: &TriePtr) -> Result<TrieNodeType, Error> {
        let node = self.find(block)?.nodes.get(ptr.ptr() as usize);
        node.map(|n| n.0.clone()).ok_or(Error::NotFoundError)
    }

    fn children_hashes(
        &self,
        block: &StacksBlockId,
        ptrs: &[TriePtr],
    ) -> Result<Vec<TrieHash>, Error> {
        let trie = self.find(block)?;
        Ok(ptrs
            .iter()
            .map(|ptr| {
                if ptr.is_empty() {
                    TrieHash::empty()
                } else if is_backptr(ptr.id()) {
                    TrieHash(self.tries[ptr.back_block() as usize].block.0)
                } else {
                    trie.nodes[ptr.ptr() as usize].1
                }
            })
            .collect())
    }

    fn ancestor_hashes(&self, block: &StacksBlockId) -> Result<Vec<TrieHash>, Error> {
        Ok(self.find(block)?.ancestors.clone())
    }

    fn get_block_from_local_id(&self, id: u32) -> Result<StacksBlockId, Error> {
        let trie = self.tries.get(id as usize);
        trie.map(|t| t.block).ok_or(Error::NotFoundError)
    }

    fn resolve_leaf_value(&self, leaf: &TrieLeaf) -> Result<MARFValue, Error> {
        Ok(MARFValue(leaf.value()?.0))
    }

    fn squash_height(&self) -> Option<u32> {
        self.squashed
    }

    fn squashed_block_height(&self, block: &StacksBlockId) -> Result<Option<u32>, Error> {
        let height = self.find(block)?.height;
        Ok(self.squashed_at(height).map(|_| height))
    }

    fn squashed_block_hash_by_height(&self, height: u32) -> Result<Option<StacksBlockId>, Error> {
        Ok(self.squashed_at(height).map(|trie| trie.block))
    }

    fn squashed_block_root_hash_by_height(&self, height: u32) -> Result<Option<TrieHash>, Error> {
        Ok(self.squashed_at(height).map(|trie| trie.root_hash))
    }

    fn indexed_ancestor(
        &self,
        _block: &StacksBlockId,
        _height: u32,
        _target: u32,
    ) -> Result<Option<StacksBlockId>, Error> {
        Ok(None)
    }
}

/// A chain of twelve blocks, and a fork of two behind the sixth.
fn store() -> MemStore {
    let mut store = MemStore::new();
    for i in 0..12u8 {
        let own = format!("own{i}");
        let mut entries = vec![("shared", 100 + u32::from(i)), (own.as_str(), u32::from(i))];
        if i == 0 {
            entries.push(("first", 7));
        }
        store.extend((i > 0).then_some(i as usize - 1), block(i + 1), &entries);
    }
    store.extend(Some(5), block(50), &[("shared", 500), ("fork", 1)]);
    store.extend(Some(12), block(51), &[("fork", 2)]);
    store
}

/// Reads give back the last write of a block's own fork.
#[test]
fn reads_give_back_the_last_write_of_the_fork() {
    let store = store();
    let get = |b: u8, key: &str| {
        get_by_key(&store, &block(b), key.as_bytes())
            .unwrap()
            .map(|v| v.to_u32())
    };
    for i in 0..12u8 {
        assert_eq!(get(i + 1, "shared"), Some(100 + u32::from(i)));
        assert_eq!(get(i + 1, "first"), Some(7));
        for j in 0..12u8 {
            let expected = (j <= i).then_some(u32::from(j));
            assert_eq!(get(i + 1, &format!("own{j}")), expected);
        }
        assert_eq!(get(i + 1, "fork"), None);
        assert_eq!(get(i + 1, "nothing"), None);
    }
    assert_eq!(get(51, "fork"), Some(2));
    assert_eq!(get(50, "fork"), Some(1));
    assert_eq!(get(51, "shared"), Some(500));
    assert_eq!(get(51, "own5"), Some(5));
    assert_eq!(get(51, "own6"), None);

    let path = TrieHash::from_key("first");
    let leaf = get_leaf_by_path(&store, &block(12), &path)
        .unwrap()
        .unwrap();
    assert_eq!(leaf.value().unwrap(), &MARFValue::from_u32(7));
    assert!(get_path(&store, &block(12), &path).is_ok());
    assert!(walk(&store, &block(12), &path).is_ok());
    assert_eq!(
        get_by_path(&store, &block(12), &path).unwrap(),
        Some(MARFValue::from_u32(7))
    );
    assert!(matches!(
        walk(&store, &block(12), &TrieHash([9; 32])),
        Err(Error::NotFoundError)
    ));
    assert!(matches!(
        get_by_path(&store, &block(99), &path),
        Err(Error::NotFoundError) | Ok(None)
    ));
}

/// Reads through remembered results give what walks give, and remember absence too.
#[test]
fn remembered_results_agree_with_walks() {
    let mut store = store();
    let mut results = ResultCache::new(3, ResultCacheControl::default());
    let keys = ["first", "shared", "own0", "own3", "own5", "fork", "absent"];
    for round in 0..3 {
        for key in keys {
            let path = TrieHash::from_key(key);
            let walked = get_leaf_by_path(&store, &block(12), &path).unwrap();
            for _ in 0..=round {
                let found =
                    get_leaf_through_results(&mut results, &store, &block(12), &path).unwrap();
                assert_eq!(found, walked);
            }
            assert_eq!(results.get(&path), Some(walked.clone()));
            let found =
                get_remembered_leaf(&store, &block(12), &path, Some(walked.clone())).unwrap();
            assert_eq!(found, walked);
            let found = get_remembered_leaf(&store, &block(12), &path, None).unwrap();
            assert_eq!(found, walked);
        }
    }
    assert_eq!(results.len(), 3);

    // Reads below the retained boundary are rejected, remembered or not, and not remembered.
    let path = TrieHash::from_key("first");
    let leaf = get_leaf_through_results(&mut results, &store, &block(12), &path).unwrap();
    assert!(leaf.is_some());
    store.squashed = Some(12);
    for remembered in [None, Some(None), Some(leaf)] {
        assert!(matches!(
            get_remembered_leaf(&store, &block(12), &path, remembered),
            Err(Error::HistoricalReadInSquashedRange {
                block_height: 11,
                squash_height: 12,
            })
        ));
    }
    assert!(get_leaf_through_results(&mut results, &store, &block(12), &path).is_err());
    let path = TrieHash::from_key("own3");
    let mut results = ResultCache::new(3, ResultCacheControl::default());
    assert!(get_leaf_through_results(&mut results, &store, &block(12), &path).is_err());
    assert_eq!(results.len(), 0);
}

/// A walk inside one trie stops where the path goes on in an ancestor.
#[test]
fn walks_stop_at_back_pointers() {
    let store = store();
    let path = TrieHash::from_key("first");
    let mut cursor: TrieCursor<StacksBlockId> =
        TrieCursor::new(&path, store.root_trieptr(&block(12)));
    let Ok(TrieLeafOrBackptr::Backptr(ptr)) =
        walk_to_leaf_or_backptr(&store, &block(12), &path, &mut cursor)
    else {
        panic!("expected a back-pointer");
    };
    assert_eq!(ptr.back_block(), 0);
    assert!(is_backptr(ptr.id()));
    assert_eq!(ptr.chr(), path.0[0]);
    assert_eq!(cursor.chr(), Some(path.0[0]));
    assert!(matches!(
        cursor.last_error,
        Some(CursorError::BackptrEncountered(found)) if found == ptr
    ));
    cursor.repair_backptr_finish(&ptr.from_backptr(), block(1));
    assert!(cursor.last_error.is_none());
    let Ok(TrieLeafOrBackptr::Leaf { leaf, .. }) =
        walk_to_leaf_or_backptr(&store, &block(1), &path, &mut cursor)
    else {
        panic!("expected a leaf");
    };
    assert_eq!(leaf.value().unwrap(), &MARFValue::from_u32(7));

    let mut cursor: TrieCursor<StacksBlockId> =
        TrieCursor::new(&path, TriePtr::new(2, 0, 0));
    let node = TrieNodeType::Branch(TrieBranch::new(TrieNodeID::Node4, &[path.0[0] ^ 1]));
    assert!(matches!(
        cursor.walk_step(&node, &block(1)),
        ReadTrieNodeCursorStep::Diverged
    ));
    cursor.reset(&path, TriePtr::new(2, 0, 0));
    let node = TrieNodeType::Branch(TrieBranch::new(TrieNodeID::Node4, &[]));
    assert!(matches!(
        cursor.walk(&node, &block(1)),
        Err(Error::CursorError(CursorError::ChrNotFound))
    ));
}

/// Blocks know their heights and the blocks of their fork.
#[test]
fn heights_and_blocks_of_a_fork_agree() {
    let store = store();
    for i in 0..12u8 {
        for j in 0..12u8 {
            let height = get_block_height(&store, &block(j + 1), &block(i + 1)).unwrap();
            assert_eq!(height, (j <= i).then_some(u32::from(j)));
            let found = get_block_at_height(&store, u32::from(j), &block(i + 1)).unwrap();
            assert_eq!(found, (j <= i).then_some(block(j + 1)));
        }
    }
    assert_eq!(
        get_block_at_height(&store, 6, &block(51)).unwrap(),
        Some(block(50))
    );
    assert_eq!(
        get_bhh_at_height(&store, &block(51), 6).unwrap(),
        Some(block(50))
    );
    assert_eq!(
        get_block_height_miner_tip(&store, &block(7), &block(51)).unwrap(),
        None
    );
    assert!(check_ancestor_block_hash(&store, &block(6), &block(51)).is_ok());
    assert!(check_ancestor_block_hash(&store, &block(51), &block(51)).is_ok());
    assert!(check_ancestor_block_hash(&store, &block(7), &block(51)).is_err());
    assert_eq!(
        get_root_hash_at(&store, &block(12)).unwrap(),
        store.tries[11].root_hash
    );
    assert!(reserved_height_key(b"__MARF_BLOCK_HEIGHT_SELF"));
    assert!(reserved_height_key(b"__MARF_BLOCK_HASH_TO_HEIGHT::x"));
    assert!(!reserved_height_key(b"shared"));
}

/// Every value of every block has a proof against the block's root hash, and no other value has.
#[test]
fn proofs_verify_and_commit_to_their_value() {
    let store = store();
    let by_root = |root: &TrieHash| store.by_root(root);
    for at in [0usize, 1, 4, 7, 11, 12, 13] {
        let trie = &store.tries[at];
        let other = &store.tries[(at + 1) % 14];
        for key in ["first", "shared", "own0", "own3", "own5", "fork"] {
            let path = TrieHash::from_key(key);
            let found = get_with_proof(&store, &trie.block, key.as_bytes()).unwrap();
            let Some(expected) = trie.state.get(&path.0) else {
                assert!(found.is_none());
                continue;
            };
            let (value, proof) = found.unwrap();
            assert_eq!(value, *expected);
            assert!(proof.verify(&path, &value, &trie.root_hash, &by_root));
            assert!(!proof.verify(&path, &MARFValue([9; 40]), &trie.root_hash, &by_root));
            assert!(!proof.verify(&TrieHash([3; 32]), &value, &trie.root_hash, &by_root));
            assert!(!proof.verify(&path, &value, &other.root_hash, &by_root));
            assert!(TrieMerkleProof::is_proof_well_formed(&proof.0, &path));

            let mut bytes = vec![];
            proof.consensus_serialize(&mut bytes).unwrap();
            let (again, used) =
                TrieMerkleProof::<StacksBlockId>::consensus_deserialize(&bytes).unwrap();
            assert_eq!(used, bytes.len());
            assert_eq!(again.0, proof.0);
            assert!(again.verify(&path, &value, &trie.root_hash, &by_root));
            let text = proof.to_hex();
            assert_eq!(text.len(), 2 * bytes.len());
            assert_eq!(&text[..2], format!("{:02x}", bytes[0]).as_bytes());
            let (cut, _) = bytes.split_at(bytes.len() - 1);
            assert!(TrieMerkleProof::<StacksBlockId>::consensus_deserialize(cut).is_err());

            let last = proof.0.len() - 1;
            let mut short = proof;
            short.0.remove(last);
            assert!(!short.verify(&path, &value, &trie.root_hash, &by_root));
        }
    }
    let path = TrieHash::from_key("own3");
    let (value, proof) = get_with_proof_from_hash(&store, &block(12), &path)
        .unwrap()
        .unwrap();
    let root = store.tries[11].root_hash;
    assert!(proof.verify(&path, &value, &root, &by_root));
    assert!(!proof.verify(&path, &value, &root, &|_: &TrieHash| None));
    assert!(TrieMerkleProof::is_complete(&proof.0));
    assert!(TrieMerkleProof::<StacksBlockId>::is_complete(&[]));
    let bare = || TrieLeaf {
        data: None,
        ..TrieLeaf::new(&[], &[0; 40])
    };
    let leaf = || TrieMerkleProofType::<StacksBlockId>::Leaf((0, bare()));
    assert!(TrieMerkleProof::is_complete(&[leaf()]));
    assert!(!TrieMerkleProof::is_complete(&[leaf(), leaf()]));
    let again = TrieMerkleProof::from_path(&store, &path, &value, &block(12)).unwrap();
    assert_eq!(again.0, proof.0);
    let again = prove_path(&store, &block(12), &path, &value).unwrap();
    assert_eq!(again.0, proof.0);
    let again = prove_raw_entry(&store, &block(12), b"own3", &value).unwrap();
    assert_eq!(again.0, proof.0);
    assert!(prove_raw_entry(&store, &block(12), b"own5", &value).is_err());
    assert_eq!(get_by_hash(&store, &block(12), &path).unwrap(), Some(value));
    assert!(TrieMerkleProof::from_path(&store, &path, &MARFValue([1; 40]), &block(12)).is_err());
    let mut altered = proof;
    for step in altered.0.iter_mut() {
        if let TrieMerkleProofType::Shunt((_, hashes)) = step {
            if let Some(hash) = hashes.first_mut() {
                *hash = TrieHash([0; 32]);
            }
        }
    }
    assert!(!altered.verify(&path, &value, &root, &by_root));

    // A proof of the wrong shape proves nothing, whatever its branches lack.
    let bare = ProofTrieNode::<StacksBlockId> {
        id: 5,
        path: vec![],
        ptrs: vec![],
    };
    let step = TrieMerkleProofType::Node256((5, bare, [TrieHash([0; 32]); 255]));
    let odd = TrieMerkleProof(vec![step]);
    assert!(!TrieMerkleProof::is_proof_well_formed(&odd.0, &path));
    assert!(!odd.verify(&path, &value, &root, &by_root));
    assert!(!TrieMerkleProof::is_complete(&odd.0));
    assert!(!TrieMerkleProof::verify_proof(&odd.0, &path, &value, &root, &by_root));
}

/// Shunts end by opening the block that they lead to, and fail if that fails.
#[test]
fn shunts_open_the_block_that_they_lead_to() {
    let store = store();
    for (from, back) in [(11, 3), (11, 10), (7, 0), (12, 2)] {
        let block = store.tries[from].block;
        let ptr = TriePtr::new_backptr(5, 0, 0, back);
        store.opened.borrow_mut().clear();
        store.opens_left.set(usize::MAX);
        let shunt = TrieMerkleProof::make_backptr_shunt_proof(&store, &block, &ptr).unwrap();
        assert!(!shunt.is_empty());
        let opened = store.opened.borrow().clone();
        assert_eq!(opened.last(), Some(&store.tries[back as usize].block));
        for allowed in 0..opened.len() {
            store.opens_left.set(allowed);
            assert!(matches!(
                TrieMerkleProof::make_backptr_shunt_proof(&store, &block, &ptr),
                Err(Error::IOError(IoErrorKind::Other))
            ));
        }
        store.opens_left.set(opened.len());
        assert!(TrieMerkleProof::make_backptr_shunt_proof(&store, &block, &ptr).is_ok());
        assert_eq!(store.opens_left.get(), 0);
    }
}

/// Segments of a proof lead up to a root, each along a prefix of the path of the one before.
#[test]
fn shapes_of_proofs_are_checked() {
    let node = |id: u8| ProofTrieNode::<StacksBlockId> {
        id,
        path: vec![],
        ptrs: vec![],
    };
    let leaf = |len: usize| {
        TrieMerkleProofType::Leaf((0, TrieLeaf::from_value(&vec![7; len], MARFValue([1; 40]))))
    };
    let root = || TrieMerkleProofType::Node256((5, node(5), [TrieHash([0; 32]); 255]));
    let inner = |chr: u8| TrieMerkleProofType::Node4((chr, node(2), [TrieHash([0; 32]); 3]));
    let shunt = |idx: i64| TrieMerkleProofType::Shunt((idx, vec![]));
    let mut path = TrieHash([7; 32]);
    path.0[0] = 5;
    let shaped = |proof: Vec<TrieMerkleProofType<StacksBlockId>>| {
        TrieMerkleProof::is_proof_well_formed(&proof, &path)
    };

    assert!(shaped(vec![leaf(31), root(), shunt(0)]));
    assert!(shaped(vec![leaf(30), inner(7), root(), shunt(0)]));
    assert!(!shaped(vec![]));
    assert!(!shaped(vec![leaf(30), root(), shunt(0)]));
    assert!(!shaped(vec![leaf(31), root()]));
    assert!(!shaped(vec![root(), shunt(0)]));
    // A segment that stops below the root.
    assert!(!shaped(vec![leaf(31), inner(5), shunt(0)]));
    assert!(!shaped(vec![leaf(31), root(), shunt(0), inner(5), shunt(1)]));
    // A later segment on another path, or further down than the one before.
    let near = || vec![root(), shunt(1)];
    let far = || vec![inner(7), root(), shunt(1)];
    let astray = || vec![inner(8), root(), shunt(1)];
    let joined = |parts: Vec<Vec<TrieMerkleProofType<StacksBlockId>>>| {
        let mut proof = vec![leaf(30), inner(7), root(), shunt(0)];
        for part in parts {
            proof.extend(part);
        }
        shaped(proof)
    };
    assert!(joined(vec![far(), near()]));
    assert!(joined(vec![far(), far()]));
    assert!(!joined(vec![astray()]));
    assert!(!joined(vec![near(), far()]));
}

/// A traversal finds every path of a block with its value, and nothing else.
#[test]
fn traversals_find_every_leaf() {
    let store = store();
    for at in [0usize, 5, 11, 13] {
        let trie = &store.tries[at];
        let mut leaves: Vec<([u8; 32], [u8; 40])> = for_each_leaf(&store, &trie.block)
            .unwrap()
            .into_iter()
            .map(|(path, value)| (path.0, value.0))
            .collect();
        leaves.sort();
        let expected: Vec<([u8; 32], [u8; 40])> =
            trie.state.iter().map(|(k, v)| (*k, v.0)).collect();
        assert_eq!(leaves, expected);
        let hashes = collect_canonical_leaf_hashes(&store, &trie.block).unwrap();
        for value in trie.state.values() {
            assert!(hashes.contains(value));
        }
        assert!(!hashes.contains(&MARFValue([9; 40])));
        let (tip, hashes) = collect_leaf_value_hashes(&store, &trie.block).unwrap();
        assert_eq!(tip, trie.block);
        assert!(hashes.contains(&MARFValue::from_u32(7)));
    }
    assert!(for_each_leaf(&store, &block(99)).is_err());

    let mut broken = MemStore::new();
    broken.extend(None, block(1), &[]);
    let at = broken.tries[0]
        .nodes
        .iter()
        .position(|(node, _)| node.is_leaf())
        .unwrap();
    broken.tries[0].nodes[at].0 = TrieNodeType::Leaf(TrieLeaf::new(&[1; 3], &[0; 40]));
    assert!(matches!(
        for_each_leaf(&broken, &block(1)),
        Err(Error::CorruptionError(Corruption::InvalidLeafPathLength))
    ));
}

/// A squashed store keeps heights and root hashes of what it no longer holds.
#[test]
fn squashed_stores_keep_heights_and_roots() {
    let mut store = store();
    store.tries.truncate(12);
    store.squashed = Some(5);
    assert!(matches!(
        get_by_key(&store, &block(3), b"shared"),
        Err(Error::HistoricalReadInSquashedRange {
            block_height: 2,
            squash_height: 5
        })
    ));
    assert_eq!(
        get_by_key(&store, &block(6), b"shared")
            .unwrap()
            .map(|v| v.to_u32()),
        Some(105)
    );
    assert_eq!(
        get_block_height(&store, &block(3), &block(3)).unwrap(),
        Some(2)
    );
    assert_eq!(
        get_block_height(&store, &block(2), &block(3)).unwrap(),
        Some(1)
    );
    assert_eq!(
        get_block_at_height(&store, 1, &block(3)).unwrap(),
        Some(block(2))
    );
    assert_eq!(get_block_at_height(&store, 4, &block(3)).unwrap(), None);
    assert_eq!(
        get_root_hash_at(&store, &block(3)).unwrap(),
        store.tries[2].root_hash
    );
    assert!(matches!(
        get_with_proof(&store, &block(12), b"shared"),
        Err(Error::UnsupportedOnSquashedMarf)
    ));
}

/// Copied nodes point back to where their children are, and reads through copies give the same.
#[test]
fn copies_point_back_and_read_the_same() {
    let store = store();
    let path = TrieHash::from_key("first");
    let back = store.tries[11].nodes[0].0.walk(path.0[0]).unwrap();
    let copy = node_child_copy(&store, &back).unwrap();
    assert_eq!(copy.source_block_hash, block(1));
    assert_eq!(
        copy.node.ptrs().len(),
        store.tries[0].nodes[back.ptr() as usize].0.ptrs().len()
    );

    let mut root = store.tries[11].nodes[0].0.clone();
    node_copy_update(&mut root, 11);
    for ptr in root.ptrs() {
        assert!(ptr.is_empty() || is_backptr(ptr.id()));
    }
    let mut trie = OpenTrie {
        block: block(77),
        nodes: vec![],
    };
    assert_eq!(trie.write_node(root, TrieHash([0; 32])).unwrap(), 0);
    let cursor = walk_cow(&store, &mut trie, TriePtr::new(5, 0, 0), &path).unwrap();
    assert!(trie.nodes.len() >= 2);
    assert_eq!(trie.nodes[0].0.walk(path.0[0]), Some(back));
    assert!(!is_backptr(cursor.ptr().id()));
    assert!(cursor.ptr().ptr() >= 1);
    assert!(trie.read_node(&cursor.ptr()).unwrap().is_leaf());
    assert!(trie.read_node(&TriePtr::new(1, 0, 999)).is_none());
}

/// A walk that copies ends at the leaf that a lookup finds, or where its path leaves the trie.
#[test]
fn copying_walks_end_where_lookups_do() {
    let store = store();
    for key in ["first", "shared", "own0", "own3", "own5", "fork", "absent"] {
        let path = TrieHash::from_key(key);
        let mut root = store.tries[11].nodes[0].0.clone();
        node_copy_update(&mut root, 11);
        let mut trie = OpenTrie {
            block: block(77),
            nodes: vec![(root, TrieHash([0; 32]))],
        };
        let cursor = walk_cow(&store, &mut trie, TriePtr::new(5, 0, 0), &path).unwrap();
        assert_eq!(cursor.block_hashes.len() + 1, cursor.node_ptrs.len());
        match get_by_path(&store, &block(12), &path).unwrap() {
            Some(value) => {
                let TrieNodeType::Leaf(leaf) = trie.read_node(&cursor.ptr()).unwrap() else {
                    panic!("not a leaf");
                };
                assert_eq!(leaf.data, Some(value));
                assert!(cursor.last_error.is_none());
                for (node, _) in &trie.nodes[1..] {
                    if let TrieNodeType::Branch(branch) = node {
                        let source = branch.meta.cow_ptr.as_ref().unwrap();
                        let from = store.find(&StacksBlockId(source.block_hash)).unwrap();
                        let original = &from.nodes[source.ptr.ptr() as usize].0;
                        assert_eq!(original.path_bytes(), node.path_bytes());
                    }
                }
            }
            None => assert!(cursor.last_error.is_some()),
        }
    }
}

/// A block whose trie is the copy of its parent's root holds what its parent holds.
#[test]
fn new_blocks_hold_what_their_parents_hold() {
    let mut store = store();
    let mut root = store.tries[11].nodes[0].0.clone();
    let hash = root_copy(&mut root, &block(12), 11, 0);
    assert_eq!(hash, TrieHash::empty());
    if let TrieNodeType::Branch(branch) = &root {
        let source = branch.meta.cow_ptr.as_ref().unwrap();
        assert_eq!(source.block_hash, block(12).0);
        assert_eq!(source.ptr, TriePtr::new_backptr(5, 0, 0, 11));
    } else {
        panic!("the root is a branch");
    }
    store.tries.push(Trie {
        block: block(77),
        height: 12,
        nodes: vec![(root, hash)],
        state: BTreeMap::new(),
        root_hash: TrieHash([0; 32]),
        ancestors: vec![],
        parent: Some(11),
    });
    for key in ["first", "shared", "own0", "own3", "own5", "fork", "absent"] {
        let path = TrieHash::from_key(key);
        assert_eq!(
            get_by_path(&store, &block(77), &path).unwrap(),
            get_by_path(&store, &block(12), &path).unwrap()
        );
    }
    let path = TrieHash::from_key("own3");
    assert!(get_by_path(&store, &block(77), &path).unwrap().is_some());
}

/// The tip over a block that is not confirmed is the hash of the block's identity, twice.
#[test]
fn unconfirmed_tips_are_hashes_of_tips() {
    let tip: StacksBlockId = make_unconfirmed_chain_tip(&block(3));
    assert_eq!(tip.0, TrieHash::of_bytes(&[3; 64]).0);
    assert_ne!(tip, block(3));
}

/// A block is begun on a parent that storage has, one higher than it.
#[test]
fn blocks_are_begun_above_their_parent() {
    let store = store();
    let mut state: WriteState<StacksBlockId> = WriteState::new(false, false);
    assert_eq!(state.begin(&store, Ok(false), &block(12)).unwrap(), 12);
    assert!(matches!(
        state.begin(&store, Ok(true), &block(12)),
        Err(Error::ExistsError)
    ));
    assert!(state.begin(&store, Ok(false), &block(99)).is_err());
    assert!(matches!(
        state.begin_unconfirmed(&store, Ok(true), &block(12)),
        Err(Error::UnconfirmedError)
    ));
    assert_eq!(get_extension_height(&store, &block(51)).unwrap(), 8);
    state.setup_extension(&block(12), &block(60), 12, true);
    assert!(matches!(
        state.begin(&store, Ok(false), &block(12)),
        Err(Error::InProgressError)
    ));
    assert_eq!(
        state
            .get_block_height_of(&store, &block(60), &block(60))
            .unwrap(),
        Some(12)
    );
    let unconfirmed: WriteState<StacksBlockId> = WriteState::new(false, true);
    let (tip, height) = unconfirmed
        .begin_unconfirmed(&store, Ok(true), &block(12))
        .unwrap();
    assert_eq!(tip, make_unconfirmed_chain_tip(&block(12)));
    assert_eq!(height, 12);
    let readonly: WriteState<StacksBlockId> = WriteState::new(true, false);
    assert!(matches!(
        readonly.begin(&store, Ok(false), &block(12)),
        Err(Error::ReadOnlyError)
    ));
}
