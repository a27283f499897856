use marf_index::ancestry::Ancestry;
use marf_index::direct_hash_index::{
    check_sidecar, find_ancestor_slot, links_in, make_slot, new_generation, slot_end,
    slot_end_for, visible_slot, HashView, Tail, CHECKPOINT_SLOTS, HEADER, LEGACY_SLOT, SLOT,
};
use marf_index::error::{Corruption, Error, IoErrorKind};
use marf_index::hash::{StacksBlockId, TrieHash};
use marf_index::hash_publication::{
    plan_append, read_links, read_row_header, reconcile, recover_tail, share_tail, AppendPlan,
    HashBuild, Pending, Publication, Reconcile, TrieRow,
};
use marf_index::hash_session::{Caller, DirectHashIndex};
use marf_index::leaf::TrieNodeType;
use marf_index::node::{TrieBranch, TrieNodeID};
use marf_index::record::NodeRecordFormat;

const FORMAT: NodeRecordFormat = NodeRecordFormat::TypeFirstV1;

/// The identity of the block with a local ID; there is none before the first.
fn block(id: u32) -> StacksBlockId {
    if id == 0 {
        return StacksBlockId([255; 32]);
    }
    let mut bytes = [3; 32];
    bytes[..4].copy_from_slice(&id.to_le_bytes());
    StacksBlockId(bytes)
}

fn root(id: u32) -> TrieHash {
    let mut bytes = [9; 32];
    bytes[..4].copy_from_slice(&id.to_le_bytes());
    TrieHash(bytes)
}

fn find(wanted: &StacksBlockId) -> Result<Option<u32>, Error> {
    let mut id = [0; 4];
    id.copy_from_slice(&wanted.0[..4]);
    let id = u32::from_le_bytes(id);
    Ok((id > 0 && block(id) == *wanted).then_some(id))
}

/// The trie of a block, with its parent.
fn row(id: u32, parent: u32) -> TrieRow<StacksBlockId> {
    let mut prefix = vec![];
    FORMAT.write_trie_header(&mut prefix, &block(parent));
    let node = TrieNodeType::Branch(TrieBranch::empty(TrieNodeID::Node256));
    FORMAT
        .write_node(&mut prefix, &node, root(id), true)
        .unwrap();
    TrieRow {
        id,
        unconfirmed: false,
        block: block(id),
        length: prefix.len() as u64,
        prefix,
        excluded: false,
    }
}

/// A sidecar with the slots of a chain, and its token.
fn sidecar(blocks: u32) -> ([u8; 16], Vec<u8>) {
    let (token, mut bytes) = new_generation();
    let mut build = HashBuild::start();
    for id in 1..=blocks {
        let slot = build.step(&row(id, id - 1), FORMAT, false, &find).unwrap();
        bytes.extend(slot.unwrap());
    }
    assert_eq!(build.max_id(), blocks);
    (token, bytes)
}

fn view(bytes: &[u8], max_id: u32) -> HashView<'_> {
    HashView {
        map: bytes,
        tail: &[],
        tail_start: bytes.len(),
        max_id,
        slot_size: SLOT,
    }
}

/// A generation is announced by its token and its length.
#[test]
fn generations_are_checked_before_use() {
    let (token, bytes) = new_generation();
    let (other, _) = new_generation();
    assert_ne!(token, other);
    assert_ne!(token, [0; 16]);
    assert_eq!(&bytes[..8], b"MARFDH03");
    assert_eq!(&bytes[8..24], &token);
    assert_eq!(bytes.len(), HEADER + SLOT);
    let len = bytes.len() as u64;
    assert_eq!(check_sidecar(&bytes, &token, 0, len), Some(SLOT));
    assert_eq!(check_sidecar(&bytes, &other, 0, len), None);
    assert_eq!(check_sidecar(&bytes, &token, 1, len), None);
    assert_eq!(check_sidecar(&bytes[..23], &token, 0, len), None);
    assert_eq!(check_sidecar(&bytes, &token[..15], 0, len), None);
    let mut old = bytes.clone();
    old[7] = b'2';
    assert_eq!(check_sidecar(&old, &token, 0, len), Some(LEGACY_SLOT));
    old[7] = b'1';
    assert_eq!(check_sidecar(&old, &token, 0, len), None);
    assert_eq!(slot_end(0), 4176);
    assert_eq!(slot_end(2), 4336);
    assert_eq!(slot_end_for(1, LEGACY_SLOT), 4224);
}

/// An offline build holds each block's identity, root hash and links.
#[test]
fn builds_hold_identities_roots_and_links() {
    let (token, bytes) = sidecar(40);
    assert_eq!(
        check_sidecar(&bytes, &token, 40, bytes.len() as u64),
        Some(SLOT)
    );
    let view = view(&bytes, 40);
    assert!(view.slot(0).is_none());
    assert!(view.slot(41).is_none());
    for id in 1..=40u32 {
        let slot = view.slot(id).unwrap();
        assert_eq!(slot[..32], block(id).0);
        assert_eq!(slot[32..64], root(id).0);
        let links = links_in(id, &slot).unwrap();
        assert_eq!(links.height, id - 1);
        assert_eq!(links.parent, id - 1);
        assert_eq!(slot, make_slot(&block(id), &root(id), Some(links)));
    }
    let read = |at: u32| view.slot(at);
    for (from, target) in [(40u32, 0u32), (40, 17), (33, 32), (8, 1)] {
        let slot = find_ancestor_slot(&read, SLOT, from, &block(from), from - 1, target).unwrap();
        assert_eq!(slot[..32], block(target + 1).0);
    }
    assert!(find_ancestor_slot(&read, SLOT, 40, &block(39), 39, 3).is_none());
    assert!(find_ancestor_slot(&read, SLOT, 40, &block(40), 38, 3).is_none());
    assert!(find_ancestor_slot(&read, LEGACY_SLOT, 40, &block(40), 39, 3).is_none());

    let mut build = HashBuild::start();
    assert!(matches!(
        build.step(&row(2, 1), FORMAT, false, &find),
        Ok(None)
    ));
    let mut bad = row(1, 0);
    bad.prefix.truncate(40);
    bad.length = 40;
    assert!(build.step(&bad, FORMAT, false, &find).is_err());
    assert_eq!(build.max_id(), 0);
}

/// A copied suffix is read behind the mapped prefix.
#[test]
fn views_read_across_the_mapped_prefix() {
    let (_, bytes) = sidecar(4);
    for cut in [4176usize, 4200, 4256, 4300, bytes.len()] {
        let view = HashView {
            map: &bytes[..cut],
            tail: &bytes[cut..],
            tail_start: cut,
            max_id: 4,
            slot_size: SLOT,
        };
        for id in 1..=4u32 {
            assert_eq!(view.slot(id).unwrap()[..32], block(id).0);
        }
    }
    let mut tail = Tail::empty(4);
    tail.push(make_slot(&block(5), &root(5), None));
    let view = view(&bytes, 4);
    assert_eq!(visible_slot(&view, &tail, 5).unwrap()[..32], block(5).0);
    assert_eq!(visible_slot(&view, &tail, 4).unwrap()[..32], block(4).0);
    assert!(visible_slot(&view, &tail, 6).is_none());
}

/// Tails are contiguous, and cover only what lies between their boundaries.
#[test]
fn tails_are_bounded_by_their_boundaries() {
    let mut tail = Tail::empty(10);
    for id in 11..=15u32 {
        tail.push(make_slot(&block(id), &root(id), None));
    }
    assert_eq!(tail.end(), 15);
    assert!(tail.slot(10).is_none());
    assert!(tail.slot(16).is_none());
    assert_eq!(tail.slot(11).unwrap()[..32], block(11).0);
    let part = tail.bounded(12, 14).unwrap();
    assert_eq!(part.end(), 14);
    assert!(part.slot(12).is_none());
    assert_eq!(part.slot(13).unwrap()[..32], block(13).0);
    assert!(tail.bounded(9, 14).is_none());
    assert!(tail.bounded(12, 16).is_none());
    assert_eq!(tail.record_bytes(SLOT).len(), 5 * SLOT);
    assert_eq!(tail.record_bytes(LEGACY_SLOT).len(), 5 * LEGACY_SLOT);
    let mut shared = Tail::empty(12);
    share_tail(&mut shared, &tail, 11);
    assert_eq!(shared.end(), 12);
    share_tail(&mut shared, &tail, 15);
    assert_eq!(shared.end(), 15);
}

/// A tail is recovered from the rows beyond the durable boundary, or not at all.
#[test]
fn tails_are_recovered_from_rows() {
    let (_, bytes) = sidecar(3);
    let view = view(&bytes, 3);
    let stored = |at: u32| view.slot(at).and_then(|slot| links_in(at, &slot));
    let rows = [row(4, 3), row(5, 2), row(6, 5)];
    let tail = recover_tail(&rows, 3, 6, SLOT, FORMAT, &find, &stored).unwrap();
    assert_eq!((tail.base(), tail.end()), (3, 6));
    assert_eq!(tail.end(), 6);
    let heights: Vec<u32> = (4..=6u32)
        .map(|id| links_in(id, &tail.slot(id).unwrap()).unwrap().height)
        .collect();
    assert_eq!(heights, [3, 2, 3]);
    assert_eq!(
        read_links(&stored, 3, &tail, 5, None),
        links_in(5, &tail.slot(5).unwrap())
    );
    assert_eq!(
        read_links(&stored, 3, &tail, 1, None),
        Some(Ancestry::genesis())
    );
    let tail = recover_tail(&rows, 3, 6, LEGACY_SLOT, FORMAT, &find, &stored).unwrap();
    assert!(links_in(4, &tail.slot(4).unwrap()).is_none());

    let fault = |rows: &[TrieRow<StacksBlockId>], durable: u32, live: u32| {
        match recover_tail(rows, durable, live, SLOT, FORMAT, &find, &stored) {
            Err(Error::IOError(IoErrorKind::Invalid(what))) => what,
            other => panic!("unexpected {other:?}"),
        }
    };
    assert_eq!(fault(&rows, 4, 3), Corruption::InvalidCheckpointBounds);
    assert_eq!(fault(&rows[..2], 3, 6), Corruption::MissingTail);
    assert_eq!(
        fault(&[row(4, 3), row(6, 3), row(7, 3)], 3, 6),
        Corruption::NoncontiguousTail
    );
    let header = read_row_header(&rows[1], FORMAT).unwrap();
    assert_eq!(header.parent_hash, block(2));
    assert_eq!(header.root_hash, root(5));
    let mut short = row(4, 3);
    short.length = 5;
    assert!(read_row_header(&short, FORMAT).is_err());
}

fn index(token: [u8; 16]) -> DirectHashIndex {
    DirectHashIndex {
        token: token.to_vec(),
        slot_size: SLOT,
        session: None,
        tail: Tail::empty(0),
    }
}

fn no_recovery(_durable: u32, _live: u32) -> Result<Tail, Error> {
    Err(Error::NotFoundError)
}

/// Appends are read once committed, and full batches are written to the file.
#[test]
fn appended_records_are_published_in_batches() {
    let (token, mut bytes) = sidecar(3);
    let caller = Caller {
        connection: 1,
        autocommit: false,
    };
    let mut publication = Publication {
        token: token.to_vec(),
        durable: 3,
        live: 3,
    };
    let mut shared = Tail::empty(3);
    let mut index = index(token);
    assert!(index
        .begin(Some(&publication), 1, &mut shared, no_recovery)
        .unwrap());
    let mut batches = vec![];
    for id in 4..=303u32 {
        let map = bytes.clone();
        let view = view(&map, publication.durable);
        let stored = |at: u32| view.slot(at).and_then(|slot| links_in(at, &slot));
        assert!(index
            .start_append(Some(&publication), Some(&view), caller, id, no_recovery)
            .unwrap());
        assert!(index.can_finish_append());
        let batch = index
            .finish_append(
                Some(&view),
                &block(id),
                &root(id),
                Some(&block(id - 1)),
                false,
                &find,
                &stored,
            )
            .unwrap();
        publication.live = id;
        if let Some(batch) = batch {
            assert_eq!(batch.offset, bytes.len() as u64);
            assert_eq!(batch.bytes.len(), CHECKPOINT_SLOTS as usize * SLOT);
            bytes.extend(&batch.bytes);
            publication.durable = batch.durable;
            index.complete_batch();
            batches.push(id);
        }
    }
    assert_eq!(batches, [259]);
    index
        .prepare_commit(Some(&publication), no_recovery)
        .unwrap();
    assert_eq!(index.session.as_ref().unwrap().connection, caller.connection);
    index.succeed(&mut shared);
    assert_eq!(index.session.as_ref().unwrap().connection, caller.connection);
    assert!(!index.is_allowed(caller));
    assert_eq!(shared.end(), 303);
    assert_eq!(publication.durable, 259);

    let view = view(&bytes, publication.durable);
    assert!(index.slot(Some(&view), caller, 300).is_none());
    assert!(index
        .begin(Some(&publication), 1, &mut shared, no_recovery)
        .unwrap());
    for id in [1u32, 3, 4, 259, 260, 303] {
        let slot = index.slot(Some(&view), caller, id).unwrap();
        assert_eq!(slot[..32], block(id).0);
        assert_eq!(
            index.root_hash(Some(&view), caller, id, &block(id)),
            Some(root(id))
        );
        let hash = DirectHashIndex::block_hash(
            Some(&index),
            Some(&view),
            caller,
            id,
            |_id: u32| -> Result<StacksBlockId, Error> { Err(Error::NotFoundError) },
        );
        assert_eq!(hash.unwrap(), block(id));
    }
    assert!(index.slot(Some(&view), caller, 304).is_none());
    assert_eq!(index.root_hash(Some(&view), caller, 5, &block(6)), None);
    for target in [0u32, 100, 258, 270] {
        let found: Option<StacksBlockId> =
            index.ancestor_hash(Some(&view), caller, 303, &block(303), 302, target);
        assert_eq!(found, Some(block(target + 1)));
        assert_eq!(
            index.ancestor_root(Some(&view), caller, 303, &block(303), 302, target),
            Some(root(target + 1))
        );
    }

    let elsewhere = Caller {
        connection: 2,
        autocommit: false,
    };
    let outside = Caller {
        connection: 1,
        autocommit: true,
    };
    assert!(index.slot(Some(&view), elsewhere, 3).is_none());
    assert!(index.slot(Some(&view), outside, 3).is_none());
    assert!(index.slot(None, caller, 3).is_none());
    let fallback = DirectHashIndex::block_hash(
        Some(&index),
        Some(&view),
        outside,
        3,
        |_id: u32| -> Result<StacksBlockId, Error> { Ok(block(77)) },
    );
    assert_eq!(fallback.unwrap(), block(77));
    index.reset();
    assert!(index.slot(Some(&view), caller, 3).is_none());
}

/// A failed transaction leaves the shared records alone, and gaps are not published.
#[test]
fn rollbacks_and_gaps_publish_nothing() {
    let (token, bytes) = sidecar(3);
    let view = view(&bytes, 3);
    let stored = |at: u32| view.slot(at).and_then(|slot| links_in(at, &slot));
    let caller = Caller {
        connection: 1,
        autocommit: false,
    };
    let publication = Publication {
        token: token.to_vec(),
        durable: 3,
        live: 3,
    };
    let mut shared = Tail::empty(3);
    let mut index = index(token);
    index
        .begin(Some(&publication), 1, &mut shared, no_recovery)
        .unwrap();
    assert!(!index
        .start_append(Some(&publication), Some(&view), caller, 5, no_recovery)
        .unwrap());
    assert!(!index
        .start_append(None, Some(&view), caller, 4, no_recovery)
        .unwrap());
    assert!(index
        .start_append(Some(&publication), Some(&view), caller, 4, no_recovery)
        .unwrap());
    index
        .finish_append(
            Some(&view),
            &block(4),
            &root(4),
            Some(&block(3)),
            false,
            &find,
            &stored,
        )
        .unwrap();
    index
        .prepare_commit(Some(&publication), |durable: u32, live: u32| {
            assert_eq!((durable, live), (3, 3));
            Ok(Tail::empty(3))
        })
        .unwrap();
    index.succeed(&mut shared);
    assert_eq!(shared.end(), 3);

    let other = Publication {
        token: vec![0; 16],
        durable: 3,
        live: 3,
    };
    assert!(!index
        .begin(Some(&other), 1, &mut shared, no_recovery)
        .unwrap());
    let ahead = Publication {
        token: token.to_vec(),
        durable: 3,
        live: 9,
    };
    assert!(matches!(
        index.begin(Some(&ahead), 1, &mut shared, no_recovery),
        Err(Error::NotFoundError)
    ));

    let pending = Pending::start(3, 3, Tail::empty(3));
    let tail = Tail::empty(3);
    assert!(matches!(
        plan_append(&token, Some(&publication), Some(&pending), &tail, 4),
        AppendPlan::Continue
    ));
    assert!(matches!(
        plan_append(&token, Some(&publication), None, &tail, 4),
        AppendPlan::Start(_)
    ));
    assert!(matches!(
        plan_append(&token, Some(&ahead), None, &tail, 10),
        AppendPlan::Recover
    ));
    assert!(matches!(
        plan_append(&token, Some(&other), None, &tail, 4),
        AppendPlan::Ignore
    ));
    assert!(matches!(
        reconcile(Some(&pending), Some(&publication), &token, true),
        Reconcile::Keep
    ));
    assert!(matches!(
        reconcile(Some(&pending), Some(&ahead), &token, true),
        Reconcile::Recover
    ));
    assert!(matches!(
        reconcile(Some(&pending), None, &token, true),
        Reconcile::Drop
    ));
    assert!(matches!(
        reconcile(Some(&pending), Some(&publication), &token, false),
        Reconcile::Drop
    ));
}
