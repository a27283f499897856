use std::cell::RefCell;
use std::collections::HashMap;
use std::rc::Rc;

use marf_index::ancestry::Ancestry;
use marf_index::direct_hash_index::{
    check_sidecar, new_generation, slot_end, slot_end_for, HashView, Tail, HEADER, LEGACY_SLOT,
    SLOT,
};
use marf_index::error::Error;
use marf_index::hash::{StacksBlockId, TrieHash};
use marf_index::hash_publication::{recover_tail, HashBuild, Publication, TrieRow};
use marf_index::hash_session::{Caller, DirectHashIndex};
use marf_index::record::NodeRecordFormat;

const FORMAT: NodeRecordFormat = NodeRecordFormat::Legacy;

/// A trie in a database.
#[derive(Clone)]
struct Row {
    id: u32,
    block: StacksBlockId,
    unconfirmed: bool,
    data: Vec<u8>,
}

/// What a transaction sees of a database: copies are snapshots.
#[derive(Clone)]
struct Db {
    rows: Vec<Row>,
    published: Option<(Vec<u8>, u32)>,
    live: Option<(Vec<u8>, u32)>,
}

/// Sidecar files by their tokens. They do not roll back.
type Files = Rc<RefCell<HashMap<Vec<u8>, Vec<u8>>>>;

/// What handles of one generation share.
struct Generation {
    token: Vec<u8>,
    slot_size: usize,
    tail: RefCell<Tail>,
}

/// A handle on the index.
#[derive(Clone)]
struct Index {
    files: Files,
    file: Rc<Generation>,
    view: Option<(Vec<u8>, u32)>,
    session: Rc<RefCell<DirectHashIndex>>,
}

/// Construct deterministic identities including IDs above 255.
fn block(value: u32) -> StacksBlockId {
    let mut bytes = [0; 32];
    bytes[..4].copy_from_slice(&value.to_le_bytes());
    StacksBlockId(bytes)
}

fn root(value: u32) -> TrieHash {
    TrieHash([(value as u8).wrapping_add(10); 32])
}

fn inside(connection: usize) -> Caller {
    Caller {
        connection,
        autocommit: false,
    }
}

impl Db {
    fn publication(&self) -> Option<Publication> {
        let (token, durable) = self.published.clone()?;
        let live = match &self.live {
            Some((owner, live)) if *owner == token => durable.max(*live),
            _ => durable,
        };
        Some(Publication {
            token,
            durable,
            live,
        })
    }

    fn row(&self, row: &Row) -> TrieRow<StacksBlockId> {
        TrieRow {
            id: row.id,
            unconfirmed: row.unconfirmed,
            block: row.block,
            length: 0,
            prefix: row.data.clone(),
            excluded: false,
        }
    }

    fn find(&self, block: &StacksBlockId) -> Result<Option<u32>, Error> {
        Ok(self.rows.iter().find(|row| row.block == *block).map(|row| row.id))
    }

    /// Insert one canonical envelope under the next ID.
    fn insert(&mut self, value: u32, unconfirmed: bool) -> u32 {
        let mut data = vec![0; 68];
        data[36..].fill((value as u8).wrapping_add(10));
        let id = self.rows.last().map_or(1, |row| row.id + 1);
        self.rows.push(Row {
            id,
            block: block(value),
            unconfirmed,
            data,
        });
        id
    }

    /// Build and publish a new generation over the confirmed prefix.
    fn build(&mut self, files: &Files) -> u32 {
        let (token, mut bytes) = new_generation();
        let mut build = HashBuild::start();
        for row in &self.rows {
            let find = |block: &StacksBlockId| self.find(block);
            match build.step(&self.row(row), FORMAT, false, &find).unwrap() {
                Some(slot) => bytes.extend(slot),
                None => break,
            }
        }
        files.borrow_mut().insert(token.to_vec(), bytes);
        self.published = Some((token.to_vec(), build.max_id()));
        build.max_id()
    }
}

fn fixture(count: u32) -> (Files, Db) {
    let files: Files = Rc::new(RefCell::new(HashMap::new()));
    let mut db = Db {
        rows: vec![],
        published: None,
        live: None,
    };
    for value in 1..=count {
        db.insert(value, false);
    }
    assert_eq!(db.build(&files), count);
    (files, db)
}

impl Index {
    /// Load a publication, falling back for missing, old, or truncated files.
    fn open(files: &Files, db: &Db) -> Option<Index> {
        let (token, max_id) = db.published.clone()?;
        let known = files.borrow();
        let bytes = known.get(&token)?;
        let head = &bytes[..bytes.len().min(24)];
        let slot_size = check_sidecar(head, &token, max_id, bytes.len() as u64)?;
        Some(Index {
            files: files.clone(),
            view: None,
            session: Rc::new(RefCell::new(DirectHashIndex {
                token: token.clone(),
                slot_size,
                session: None,
                tail: Tail::empty(0),
            })),
            file: Rc::new(Generation {
                token,
                slot_size,
                tail: RefCell::new(Tail::empty(max_id)),
            }),
        })
    }

    fn stored(&self, id: u32) -> Option<Ancestry> {
        let files = self.files.borrow();
        let at = HEADER + id as usize * SLOT + 64;
        Ancestry::decode(id, files.get(&self.file.token)?.get(at..at + 16)?)
    }

    fn recover(&self, db: &Db, durable: u32, live: u32) -> Result<Tail, Error> {
        let rows: Vec<TrieRow<StacksBlockId>> = db
            .rows
            .iter()
            .filter(|row| durable < row.id && row.id <= live)
            .map(|row| db.row(row))
            .collect();
        let find = |block: &StacksBlockId| db.find(block);
        let stored = |id: u32| self.stored(id);
        recover_tail(&rows, durable, live, self.file.slot_size, FORMAT, &find, &stored)
    }

    fn begin(&mut self, db: &Db, connection: usize) {
        let publication = db.publication();
        if let Some(item) = &publication {
            if item.token != self.file.token {
                if let Some(replacement) = Index::open(&self.files, db) {
                    self.file = replacement.file;
                }
            }
        }
        let mut index = DirectHashIndex {
            token: self.file.token.clone(),
            slot_size: self.file.slot_size,
            session: None,
            tail: Tail::empty(0),
        };
        let owned = index
            .begin(
                publication.as_ref(),
                connection,
                &mut self.file.tail.borrow_mut(),
                |durable: u32, live: u32| self.recover(db, durable, live),
            )
            .unwrap();
        self.view = match publication {
            Some(item) if owned => {
                let end = slot_end_for(item.durable, self.file.slot_size) as usize;
                let bytes = self.files.borrow()[&self.file.token][..end].to_vec();
                Some((bytes, item.durable))
            }
            _ => None,
        };
        self.session = Rc::new(RefCell::new(index));
    }

    fn view(&self) -> Option<HashView<'_>> {
        self.view.as_ref().map(|(bytes, max_id)| HashView {
            map: bytes,
            tail: &[],
            tail_start: bytes.len(),
            max_id: *max_id,
            slot_size: self.file.slot_size,
        })
    }

    fn append_under(&self, db: &mut Db, id: u32, value: u32, parent: Option<&StacksBlockId>) {
        let view = self.view();
        let publication = db.publication();
        let mut index = self.session.borrow_mut();
        let connection = index.session.as_ref().map_or(0, |session| session.connection);
        let caller = inside(connection);
        let go = index
            .start_append(
                publication.as_ref(),
                view.as_ref(),
                caller,
                id,
                |durable: u32, live: u32| self.recover(db, durable, live),
            )
            .unwrap();
        if !go {
            return;
        }
        let find = |block: &StacksBlockId| db.find(block);
        let stored = |at: u32| self.stored(at);
        let batch = index
            .finish_append(
                view.as_ref(),
                &block(value),
                &root(value),
                parent,
                false,
                &find,
                &stored,
            )
            .unwrap();
        if let Some(batch) = batch {
            let mut files = self.files.borrow_mut();
            let bytes = files.get_mut(&self.file.token).unwrap();
            bytes.truncate(batch.offset as usize);
            bytes.extend(&batch.bytes);
            db.published = Some((self.file.token.clone(), batch.durable));
            index.complete_batch();
        }
        db.live = Some((self.file.token.clone(), id));
    }

    /// Publish a record without changing the current read snapshot.
    fn append(&self, db: &mut Db, id: u32, value: u32) {
        self.append_under(db, id, value, None);
    }

    fn prepare_commit(&self, db: &Db) {
        self.session
            .borrow_mut()
            .prepare_commit(
                db.publication().as_ref(),
                |durable: u32, live: u32| self.recover(db, durable, live),
            )
            .unwrap();
    }

    fn succeed(&self) {
        self.session
            .borrow_mut()
            .succeed(&mut self.file.tail.borrow_mut());
    }

    /// End a transaction without sharing its records.
    fn finish(&self) {
        self.session.borrow_mut().reset();
    }

    fn reset(&mut self, db: &mut Db) {
        self.session.borrow_mut().reset();
        self.view = None;
        let (token, bytes) = new_generation();
        self.files.borrow_mut().insert(token.to_vec(), bytes);
        db.published = Some((token.to_vec(), 0));
    }

    fn slot(&self, connection: usize, id: u32) -> Option<[u8; 80]> {
        let view = self.view();
        self.session
            .borrow()
            .slot(view.as_ref(), inside(connection), id)
    }

    fn root_hash(&self, id: u32, block: &StacksBlockId) -> Option<TrieHash> {
        let view = self.view();
        self.session
            .borrow()
            .root_hash(view.as_ref(), inside(1), id, block)
    }

    fn ancestor_hash(
        &self,
        id: u32,
        block: &StacksBlockId,
        height: u32,
        target: u32,
    ) -> Option<StacksBlockId> {
        let view = self.view();
        self.session
            .borrow()
            .ancestor_hash(view.as_ref(), inside(1), id, block, height, target)
    }

    fn ancestor_root(
        &self,
        id: u32,
        block: &StacksBlockId,
        height: u32,
        target: u32,
    ) -> Option<TrieHash> {
        let view = self.view();
        self.session
            .borrow()
            .ancestor_root(view.as_ref(), inside(1), id, block, height, target)
    }

    /// Commit a slot as storage transactions do.
    fn commit_slot(&mut self, db: &mut Db, value: u32) {
        let mut tx = db.clone();
        self.begin(&tx, 1);
        let id = tx.insert(value, false);
        self.append(&mut tx, id, value);
        self.prepare_commit(&tx);
        *db = tx;
        self.succeed();
    }
}

/// Existing hash-only generations continue to serve and batch-append their 64-byte records.
#[test]
fn ancestry_v2_hash_only_generation_remains_compatible() {
    let (files, mut db) = fixture(3);
    let token = db.published.clone().unwrap().0;
    let original = files.borrow()[&token].clone();
    let mut legacy = original[..HEADER].to_vec();
    legacy[..8].copy_from_slice(b"MARFDH02");
    for slot in original[HEADER..].chunks_exact(SLOT) {
        legacy.extend_from_slice(&slot[..LEGACY_SLOT]);
    }
    files.borrow_mut().insert(token, legacy);
    let mut index = Index::open(&files, &db).unwrap();
    assert_eq!(index.file.slot_size, LEGACY_SLOT);
    for value in 4..=270 {
        index.commit_slot(&mut db, value);
    }
    let mut reopened = Index::open(&files, &db).unwrap();
    reopened.begin(&db, 1);
    for id in 1..=270 {
        let view = reopened.view();
        let found = DirectHashIndex::block_hash(
            Some(&*reopened.session.borrow()),
            view.as_ref(),
            inside(1),
            id,
            |_id: u32| -> Result<StacksBlockId, Error> { Err(Error::NotFoundError) },
        );
        assert_eq!(found.unwrap(), block(id));
        assert!(reopened.ancestor_hash(id, &block(id), id - 1, 0).is_none());
    }
}

/// Online links are fork-specific and recover correctly across durable checkpoints.
#[test]
fn ancestry_online_forks_checkpoint_and_reopen() {
    let (files, mut db) = fixture(0);
    let mut index = Index::open(&files, &db).unwrap();
    let mut parents = vec![0u32];
    let mut heights = vec![0u32];
    for value in 1..=520u32 {
        let parent = if value == 1 {
            0
        } else if value % 101 == 0 {
            value / 2
        } else {
            value - 1
        };
        let parent_hash = if parent == 0 {
            StacksBlockId([255; 32])
        } else {
            block(parent)
        };
        let height = if parent == 0 {
            0
        } else {
            heights[parent as usize] + 1
        };
        let mut tx = db.clone();
        index.begin(&tx, 1);
        let id = tx.insert(value, false);
        tx.rows.last_mut().unwrap().data[..32].copy_from_slice(&parent_hash.0);
        index.append_under(&mut tx, id, value, Some(&parent_hash));
        assert!(
            index.ancestor_hash(id, &block(value), height, 0).is_none(),
            "speculative slots must be invisible"
        );
        assert!(index.ancestor_root(id, &block(value), height, 0).is_none());
        index.prepare_commit(&tx);
        db = tx;
        index.succeed();
        parents.push(parent);
        heights.push(height);
        if value % 127 == 0 {
            index = Index::open(&files, &db).unwrap();
        }
        index.begin(&db, 1);
        for target in [0, height / 2, height] {
            let mut expected = value;
            while heights[expected as usize] > target {
                expected = parents[expected as usize];
            }
            assert_eq!(
                index.ancestor_hash(id, &block(value), height, target),
                Some(block(expected))
            );
            assert_eq!(
                index.ancestor_root(id, &block(value), height, target),
                Some(root(expected))
            );
        }
        assert!(index
            .ancestor_hash(id, &block(value), height + 1, 0)
            .is_none());
        assert!(index
            .ancestor_hash(id, &block(value + 1), height, 0)
            .is_none());
        assert!(index
            .ancestor_root(id, &block(value + 1), height, 0)
            .is_none());
    }
    // Rebuild derives the same ancestry from authoritative parent headers.
    db.build(&files);
    let mut index = Index::open(&files, &db).unwrap();
    index.begin(&db, 1);
    for value in 1..=520 {
        assert_eq!(
            index.ancestor_hash(value, &block(value), heights[value as usize], 0),
            Some(block(1))
        );
    }
}

/// Commit exposes online slots only in subsequent transactions and related reopens.
#[test]
fn online_commit_reopen_and_tail_growth() {
    let (files, mut db) = fixture(1);
    let mut index = Index::open(&files, &db).unwrap();
    let mut reopened = index.clone();
    for value in 2..=700u32 {
        let mut tx = db.clone();
        index.begin(&tx, 1);
        assert!(index.slot(1, value - 1).is_some());
        let id = tx.insert(value, false);
        index.append(&mut tx, id, value);
        assert!(index.slot(1, id).is_none());
        index.prepare_commit(&tx);
        db = tx;
        index.succeed();
    }
    reopened.begin(&db, 1);
    assert!(Rc::ptr_eq(&index.file, &reopened.file));
    assert_eq!(reopened.root_hash(700, &block(700)), Some(root(700)));
    assert_eq!(reopened.view.as_ref().unwrap().1, 513);
    assert_eq!(reopened.session.borrow().tail.end(), 700);
}

/// Rolled-back IDs are reused, but their old bytes are never exposed or cached.
#[test]
fn online_rollback_suffix_reuse_and_crash_reopen() {
    let (files, mut db) = fixture(1);
    let mut index = Index::open(&files, &db).unwrap();
    {
        let mut tx = db.clone();
        index.begin(&tx, 1);
        let id = tx.insert(2, false);
        index.append(&mut tx, id, 2);
        assert!(index.slot(1, 2).is_none());
    }
    // Reopening is a process dying before its database committed.
    let mut index = Index::open(&files, &db).unwrap();
    {
        let mut tx = db.clone();
        index.begin(&tx, 1);
        assert!(index.slot(1, 2).is_none());
        let id = tx.insert(3, false);
        assert_eq!(id, 2);
        index.append(&mut tx, id, 3);
        db = tx;
        index.finish();
    }
    index.begin(&db, 1);
    assert_eq!(index.root_hash(2, &block(3)), Some(TrieHash([13; 32])));
    assert!(index.root_hash(2, &block(2)).is_none());
}

/// Older readers keep their bound while another connection publishes new slots.
#[test]
fn online_reader_snapshot_survives_other_writer_and_rebuild() {
    let (files, mut db) = fixture(1);
    let mut index = Index::open(&files, &db).unwrap();
    index.begin(&db, 1);
    let mut writing = index.clone();
    {
        let mut tx = db.clone();
        writing.begin(&tx, 2);
        let id = tx.insert(2, false);
        writing.append(&mut tx, id, 2);
        db = tx;
        writing.finish();
    }
    assert!(index.slot(1, 2).is_none());
    assert!(index.slot(2, 1).is_none());
    let old_file = index.file.clone();
    db.build(&files);
    assert!(index.slot(1, 1).is_some());
    index.finish();
    index.begin(&db, 1);
    assert!(!Rc::ptr_eq(&index.file, &old_file));
    assert!(index.slot(1, 2).is_some());
}

/// Reset changes generations; rollback restores the preceding generation and committed slots.
#[test]
fn online_reset_commit_and_rollback() {
    let (files, mut db) = fixture(2);
    let mut index = Index::open(&files, &db).unwrap();
    let token = index.file.token.clone();
    {
        let mut tx = db.clone();
        index.begin(&tx, 1);
        let clone = index.clone();
        index.reset(&mut tx);
        tx.rows.clear();
        assert!(clone.slot(1, 1).is_none());
    }
    {
        let mut tx = db.clone();
        index.begin(&tx, 1);
        assert_eq!(index.file.token, token);
        assert!(index.slot(1, 2).is_some());
        index.reset(&mut tx);
        tx.rows.clear();
        db = tx;
    }
    {
        let mut tx = db.clone();
        index.begin(&tx, 1);
        assert_ne!(index.file.token, token);
        assert!(index.slot(1, 1).is_none());
        let id = tx.insert(7, false);
        assert_eq!(id, 1);
        index.append(&mut tx, id, 7);
        db = tx;
    }
    index.begin(&db, 1);
    assert_eq!(index.root_hash(1, &block(7)), Some(TrieHash([17; 32])));
}

/// Stores retain only their dense confirmed prefix; other rows are read from the database.
#[test]
fn gaps_and_unconfirmed_rows_end_the_prefix() {
    let (files, mut db) = fixture(1);
    db.insert(2, true);
    db.insert(3, false);
    assert_eq!(db.build(&files), 1);
    let mut index = Index::open(&files, &db).unwrap();
    let mut tx = db.clone();
    index.begin(&tx, 1);
    assert!(index.slot(1, 2).is_none());
    {
        let view = index.view();
        let found = DirectHashIndex::block_hash(
            Some(&*index.session.borrow()),
            view.as_ref(),
            inside(1),
            2,
            |id: u32| -> Result<StacksBlockId, Error> {
                Ok(tx.rows.iter().find(|row| row.id == id).unwrap().block)
            },
        );
        assert_eq!(found.unwrap(), block(2));
    }
    let id = tx.insert(4, false);
    index.append(&mut tx, id, 4);
    assert_eq!(tx.publication().unwrap().live, 1);
    tx.rows.remove(1);
    assert!(index.slot(1, 1).is_some());
    db = tx;
    assert_eq!(db.build(&files), 1);
}

/// Live records survive reopen using authoritative data even if unsynced suffix bytes vanish.
#[test]
fn batched_durable_boundary_recovery_and_shared_admission() {
    let (files, mut db) = fixture(1);
    let mut index = Index::open(&files, &db).unwrap();
    let token = index.file.token.clone();
    for value in 2..=256 {
        index.commit_slot(&mut db, value);
    }
    assert_eq!(files.borrow()[&token].len() as u64, slot_end(1));
    assert_eq!(index.file.tail.borrow().end(), 256);
    index.begin(&db, 1);
    assert_eq!(index.session.borrow().tail.end(), 256);
    assert_eq!(index.root_hash(256, &block(256)), Some(TrieHash([10; 32])));
    // Garbage from an interrupted future checkpoint must never be used for the live tail.
    files
        .borrow_mut()
        .get_mut(&token)
        .unwrap()
        .extend(vec![0xee; 255 * SLOT]);
    let mut index = Index::open(&files, &db).unwrap();
    index.begin(&db, 1);
    assert_eq!(index.root_hash(256, &block(256)), Some(TrieHash([10; 32])));
    assert_eq!(index.view.as_ref().unwrap().1, 1);
    index.commit_slot(&mut db, 257);
    let publication = db.publication().unwrap();
    assert_eq!((publication.durable, publication.live), (257, 257));
    assert_eq!(index.file.tail.borrow().end(), 257);
    assert!(index.file.tail.borrow().slot(257).is_none());
    let mut index = Index::open(&files, &db).unwrap();
    index.begin(&db, 1);
    assert_eq!(index.root_hash(257, &block(257)), Some(TrieHash([11; 32])));
}

/// A synced checkpoint whose transaction rolls back cannot expose abandoned slot IDs.
#[test]
fn batched_checkpoint_rollback_and_id_reuse() {
    let (files, mut db) = fixture(1);
    let mut index = Index::open(&files, &db).unwrap();
    for value in 2..=256 {
        index.commit_slot(&mut db, value);
    }
    {
        let mut tx = db.clone();
        index.begin(&tx, 1);
        let id = tx.insert(257, false);
        index.append(&mut tx, id, 257);
        assert_eq!(tx.publication().unwrap().durable, 257);
    }
    assert_eq!(db.publication().unwrap().durable, 1);
    let mut index = Index::open(&files, &db).unwrap();
    index.commit_slot(&mut db, 999);
    index.begin(&db, 1);
    assert_eq!(index.root_hash(257, &block(999)), Some(root(999)));
    assert!(index.root_hash(257, &block(257)).is_none());
}

/// Savepoint rollback is reconciled before admission, including a rolled-back checkpoint.
#[test]
fn batched_savepoint_checkpoint_rollback_before_commit() {
    let (files, mut db) = fixture(1);
    let mut index = Index::open(&files, &db).unwrap();
    for value in 2..=256 {
        index.commit_slot(&mut db, value);
    }
    let mut tx = db.clone();
    index.begin(&tx, 1);
    let savepoint = tx.clone();
    let id = tx.insert(257, false);
    index.append(&mut tx, id, 257);
    tx = savepoint;
    index.prepare_commit(&tx);
    db = tx;
    index.succeed();
    assert_eq!(index.file.tail.borrow().end(), 256);
    index.commit_slot(&mut db, 999);
    index.begin(&db, 1);
    assert_eq!(index.root_hash(257, &block(999)), Some(root(999)));
}

/// Independent writers' committed tails are recovered; older reader snapshots remain bounded.
#[test]
fn independent_writers_are_read_in_later_snapshots() {
    let (files, mut db) = fixture(1);
    let mut reader = Index::open(&files, &db).unwrap();
    reader.begin(&db, 1);
    let mut writer = Index::open(&files, &db).unwrap();
    writer.commit_slot(&mut db, 2);
    assert!(reader.slot(1, 2).is_none());
    reader.finish();
    reader.begin(&db, 1);
    assert_eq!(reader.root_hash(2, &block(2)), Some(TrieHash([12; 32])));
}

/// Missing/old/truncated generations fall back without exposing partial slot bytes.
#[test]
fn online_missing_truncated_and_old_format_recovery() {
    let (files, db) = fixture(2);
    let token = Index::open(&files, &db).unwrap().file.token.clone();
    let bytes = files.borrow()[&token].clone();
    files
        .borrow_mut()
        .insert(token.clone(), bytes[..HEADER].to_vec());
    assert!(Index::open(&files, &db).is_none());
    let mut old = bytes.clone();
    old[..8].copy_from_slice(b"MARFDH01");
    files.borrow_mut().insert(token.clone(), old);
    assert!(Index::open(&files, &db).is_none());
    files.borrow_mut().remove(&token);
    assert!(Index::open(&files, &db).is_none());
}
