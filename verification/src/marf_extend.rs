//! Beginning a block and filling its trie.
use vstd::prelude::*;

use crate::cow::{copied, copied_hash, node_copy_update};
use crate::error::{corrupt, Corruption, Error};
use crate::hash::{
    concat_hashes, copy_id, same_id, sentinel_bytes, sha512_256_of, MarfTrieId, TrieHash,
};
use crate::leaf::{Node, TrieNodeType};
use crate::marf::{WriteChainTip, WriteState, Writing};
use crate::marf_heights::{
    entry_views, get_block_height_miner_tip, height_entries, make_unconfirmed_chain_tip, reserved,
    reserved_height_key, set_block_heights,
};
use crate::node::{Branch, TrieBranch, TrieCowPtr, TrieNodeID, TriePtr};
use crate::node_codec::{get_node_hash, names_blocks};
use crate::patch::{bad, fault_of, Fault};
use crate::read_storage::{shows, Forest, TrieReadStorage};
use crate::result_cache::ResultCacheGuard;
use crate::value::MARFValue;

verus! {

impl Writing {
    /// What keeps a block from being begun, before its parent is looked at.
    pub open spec fn begin_fault(self) -> Option<Error> {
        if self.readonly {
            Some(Error::ReadOnlyError)
        } else if self.tip is Some {
            Some(Error::InProgressError)
        } else {
            None
        }
    }
}

impl Forest {
    /// The height of a block that extends another: one more than its parent's, and zero for a block
    /// whose parent is no block.
    pub open spec fn extension_height(self, parent: Seq<u8>) -> Result<u32, Fault> {
        match self.opens(parent) {
            Err(fault) => Err(fault),
            Ok(()) => if parent == sentinel_bytes() {
                Ok(0)
            } else {
                match self.height(parent, parent) {
                    Err(fault) => Err(fault),
                    Ok(None) => Err(bad(Corruption::MissingBlockHeight)),
                    Ok(Some(height)) => if height == u32::MAX {
                        Err(Fault::Error(Error::OverflowError))
                    } else {
                        Ok((height + 1) as u32)
                    },
                }
            },
        }
    }
}

/// The height that a block extending `chain_tip` would be at.
pub fn get_extension_height<T: MarfTrieId, S: TrieReadStorage<T>>(storage: &S, chain_tip: &T) -> (out: Result<
    u32,
    Error,
>)
    ensures
        forall|forest: Forest| #[trigger]
            shows(storage, forest) ==> match forest.extension_height(chain_tip.id_bytes()) {
                Ok(height) => out == Ok::<u32, Error>(height),
                Err(fault) => out matches Err(e) && fault_of(e) == fault,
            },
{
    match storage.open_block(chain_tip) {
        Ok(()) => {},
        Err(e) => return Err(e),
    }
    if same_id(chain_tip, &T::sentinel()) {
        return Ok(0);
    }
    match get_block_height_miner_tip(storage, chain_tip, chain_tip) {
        Ok(Some(height)) => match height.checked_add(1) {
            Some(next) => Ok(next),
            None => Err(Error::OverflowError),
        },
        Ok(None) => Err(corrupt(Corruption::MissingBlockHeight)),
        Err(e) => Err(e),
    }
}

/// What follows a refusal or else another outcome.
pub open spec fn refused_or(fault: Option<Error>, rest: Result<u32, Fault>) -> Result<u32, Fault> {
    match fault {
        Some(e) => Err(fault_of(e)),
        None => rest,
    }
}

impl<T: MarfTrieId> WriteState<T> {
    /// Check that a block can be begun, and find its height. `exists` says whether storage already
    /// has the block.
    pub fn begin<S: TrieReadStorage<T>>(&self, storage: &S, exists: Result<bool, Error>, chain_tip: &T) -> (out:
        Result<u32, Error>)
        ensures
            forall|forest: Forest| #[trigger]
                shows(storage, forest) ==> match refused_or(
                    match self@.begin_fault() {
                        Some(e) => Some(e),
                        None => match exists {
                            Err(e) => Some(e),
                            Ok(true) => Some(Error::ExistsError),
                            Ok(false) => None,
                        },
                    },
                    forest.extension_height(chain_tip.id_bytes()),
                ) {
                    Ok(height) => out == Ok::<u32, Error>(height),
                    Err(fault) => out matches Err(e) && fault_of(e) == fault,
                },
    {
        if self.readonly {
            return Err(Error::ReadOnlyError);
        }
        if self.open_chain_tip.is_some() {
            return Err(Error::InProgressError);
        }
        match exists {
            Ok(true) => return Err(Error::ExistsError),
            Ok(false) => {},
            Err(e) => return Err(e),
        }
        get_extension_height(storage, chain_tip)
    }

    /// Check that an unconfirmed block can be begun on a confirmed one, and find its identity and
    /// height. `confirmed` says whether storage has the parent as a confirmed block.
    pub fn begin_unconfirmed<S: TrieReadStorage<T>>(
        &self,
        storage: &S,
        confirmed: Result<bool, Error>,
        chain_tip: &T,
    ) -> (out: Result<(T, u32), Error>)
        ensures
            forall|forest: Forest| #[trigger]
                shows(storage, forest) ==> match refused_or(
                    match self@.begin_fault() {
                        Some(e) => Some(e),
                        None => if !self@.unconfirmed {
                            Some(Error::UnconfirmedError)
                        } else {
                            match confirmed {
                                Err(e) => Some(e),
                                Ok(false) => Some(Error::NotFoundError),
                                Ok(true) => None,
                            }
                        },
                    },
                    forest.extension_height(chain_tip.id_bytes()),
                ) {
                    Ok(height) => out matches Ok((tip, h)) && h == height && tip.id_bytes()
                        == sha512_256_of(chain_tip.id_bytes() + chain_tip.id_bytes()),
                    Err(fault) => out matches Err(e) && fault_of(e) == fault,
                },
    {
        if self.readonly {
            return Err(Error::ReadOnlyError);
        }
        if self.open_chain_tip.is_some() {
            return Err(Error::InProgressError);
        }
        if !self.unconfirmed {
            return Err(Error::UnconfirmedError);
        }
        match confirmed {
            Ok(true) => {},
            Ok(false) => return Err(Error::NotFoundError),
            Err(e) => return Err(e),
        }
        let tip: T = make_unconfirmed_chain_tip(chain_tip);
        match get_extension_height(storage, chain_tip) {
            Ok(height) => Ok((tip, height)),
            Err(e) => Err(e),
        }
    }

    /// Go over to writing a block, once storage has opened its trie. A new trie has its heights
    /// recorded first.
    pub fn setup_extension(
        &mut self,
        chain_tip: &T,
        next_chain_tip: &T,
        block_height: u32,
        new_extension: bool,
    ) -> (entries: Vec<(Vec<u8>, MARFValue)>)
        ensures
            final(self)@ == old(self)@.writing(next_chain_tip.id_bytes(), block_height),
            entry_views(entries@) == if new_extension {
                height_entries(chain_tip.id_bytes(), next_chain_tip.id_bytes(), block_height)
            } else {
                Seq::<(Seq<u8>, Seq<u8>)>::empty()
            },
    {
        self.open_chain_tip = Some(
            WriteChainTip { block_hash: copy_id(next_chain_tip), height: block_height },
        );
        if new_extension {
            set_block_heights(chain_tip, next_chain_tip, block_height)
        } else {
            let entries: Vec<(Vec<u8>, MARFValue)> = Vec::new();
            assert(entry_views(entries@) =~= Seq::<(Seq<u8>, Seq<u8>)>::empty());
            entries
        }
    }

    /// Stop writing a block whose heights could not be recorded.
    pub fn abandon_extension(&mut self)
        ensures
            final(self)@ == old(self)@.closed(),
    {
        self.open_chain_tip = None;
    }

    /// The block that entries go to.
    pub fn insertion_block(&self) -> (out: Result<T, Error>)
        ensures
            match self@.insert_fault() {
                Some(fault) => out matches Err(e) && e == fault,
                None => out matches Ok(block) && block.id_bytes() == (self@.tip->0).0,
            },
    {
        if self.readonly {
            return Err(Error::ReadOnlyError);
        }
        match &self.open_chain_tip {
            Some(tip) => Ok(copy_id(&tip.block_hash)),
            None => Err(Error::WriteNotBegunError),
        }
    }

    /// The block that heights are recorded in, and whether recording them keeps an index of forks
    /// authoritative: only the heights of the block that is being written do, where storage finds
    /// that they extend the fork.
    pub fn height_updates(&self, height: u32, extends_fork: bool) -> (out: Result<(T, bool), Error>)
        ensures
            match self@.insert_fault() {
                Some(fault) => out matches Err(e) && e == fault,
                None => out matches Ok((block, canonical)) && block.id_bytes() == (self@.tip->0).0
                    && canonical == ((self@.tip->0).1 == height && extends_fork),
            },
    {
        if self.readonly {
            return Err(Error::ReadOnlyError);
        }
        match &self.open_chain_tip {
            Some(tip) => Ok((copy_id(&tip.block_hash), tip.height == height && extends_fork)),
            None => Err(Error::WriteNotBegunError),
        }
    }
}

/// How a trie comes to be open for writing.
#[derive(Clone, Copy, Debug, PartialEq, Eq, Structural)]
pub enum ExtendTrie {
    /// The first trie, which starts with an empty root.
    Fresh,
    /// A trie that exists and has been opened.
    Switch,
    /// A new trie, whose root is copied from the current one.
    CopyRoot,
}

/// Decide how a trie is opened for writing: `open` tries to open it.
pub fn extend_trie<T: MarfTrieId, L: FnOnce() -> Result<(), Error>>(num_blocks: u64, current: &T, open: L) -> (out:
    Result<ExtendTrie, Error>)
    requires
        call_requires(open, ()),
    ensures
        if num_blocks == 0 || current.id_bytes() == sentinel_bytes() {
            out == Ok::<ExtendTrie, Error>(ExtendTrie::Fresh)
        } else {
            exists|opened: Result<(), Error>| #[trigger]
                call_ensures(open, (), opened) && out == match opened {
                    Ok(()) => Ok::<ExtendTrie, Error>(ExtendTrie::Switch),
                    Err(Error::NotFoundError) => Ok::<ExtendTrie, Error>(ExtendTrie::CopyRoot),
                    Err(e) => Err::<ExtendTrie, Error>(e),
                }
        },
{
    if num_blocks == 0 || same_id(current, &T::sentinel()) {
        return Ok(ExtendTrie::Fresh);
    }
    let opened = open();
    assert(call_ensures(open, (), opened));
    match opened {
        Ok(()) => Ok(ExtendTrie::Switch),
        Err(Error::NotFoundError) => Ok(ExtendTrie::CopyRoot),
        Err(e) => Err(e),
    }
}

/// Names no block.
pub open spec fn no_names() -> spec_fn(u32) -> Seq<u8> {
    |id: u32| Seq::new(32, |i: int| 0u8)
}

/// The root of the first trie, and its hash.
pub fn fresh_root() -> (root: (TrieNodeType, TrieHash))
    ensures
        root.0@ == Node::Branch(Branch::childless(TrieNodeID::Node256, Seq::empty())),
        root.1@ == sha512_256_of(
            Branch::childless(TrieNodeID::Node256, Seq::empty()).commitment(no_names())
                + concat_hashes(Seq::<TrieHash>::empty()),
        ),
{
    let none: [u8; 0] = [];
    assert(none@ =~= Seq::<u8>::empty());
    let node = TrieBranch::new(TrieNodeID::Node256, &none);
    let name = |id: u32| -> (bytes: [u8; 32])
        ensures
            bytes@ == Seq::new(32, |i: int| 0u8),
        {
            let bytes = [0u8; 32];
            assert(bytes@ =~= Seq::new(32, |i: int| 0u8));
            bytes
        };
    let no_children: [TrieHash; 0] = [];
    assert(no_children@ =~= Seq::<TrieHash>::empty());
    let hash = get_node_hash(&node, &no_children, &name);
    assert(names_blocks(name, no_names()));
    (TrieNodeType::Branch(node), hash)
}

/// Make the copy of a trie's root that a trie extending it starts with.
pub fn root_copy<T: MarfTrieId>(root: &mut TrieNodeType, block: &T, block_id: u32, root_ptr: u64) -> (hash:
    TrieHash)
    requires
        old(root)@.wf(),
        old(root)@ matches Node::Leaf(leaf) ==> leaf.data is Some,
    ensures
        final(root)@ == copied(old(root)@, block_id),
        final(root)@.wf(),
        hash@ == copied_hash(old(root)@),
        final(root).meta() matches Some(meta) ==> {
            let before = old(root).meta()->0;
            &&& meta.patch_depth == before.patch_depth
            &&& meta.last_patch_source == before.last_patch_source
            &&& if block.id_bytes() == sentinel_bytes() {
                meta.cow_ptr == before.cow_ptr
            } else {
                meta.cow_ptr matches Some(from) && from.is_of(
                    block.id_bytes(),
                    TriePtr { id: 133, chr: 0, ptr: root_ptr, back_block: block_id },
                )
            }
        },
{
    if !same_id(block, &T::sentinel()) {
        if let TrieNodeType::Branch(branch) = root {
            branch.meta.cow_ptr = Some(
                TrieCowPtr {
                    block_hash: copy_id(block).to_bytes(),
                    ptr: TriePtr::new_backptr(5, 0, root_ptr, block_id),
                },
            );
        }
    }
    node_copy_update(root, block_id)
}

/// One insertion of a batch: which entry, under which path, and whether the root is given its
/// ancestors' hashes afterwards.
#[derive(Clone, Copy, Debug)]
pub struct Insertion {
    pub path: TrieHash,
    pub entry: usize,
    pub update_skiplist: bool,
}

/// One insertion of a batch.
pub struct Insert {
    pub path: Seq<u8>,
    pub entry: int,
    pub update_skiplist: bool,
}

impl Insertion {
    /// The insertion.
    pub open spec fn view(&self) -> Insert {
        Insert {
            path: self.path@,
            entry: self.entry as int,
            update_skiplist: self.update_skiplist,
        }
    }
}

/// The insertions of a batch: every entry in order, and then the last one again, which gives the
/// root its ancestors' hashes once for all of them.
pub open spec fn batch(keys: Seq<Vec<u8>>) -> Seq<Insert> {
    let n = keys.len();
    Seq::new(
        if n == 0 {
            0
        } else {
            n + 1
        },
        |i: int|
            Insert {
                path: TrieHash::digest(keys[if i < n { i } else { n - 1 }]@),
                entry: if i < n {
                    i
                } else {
                    n - 1
                },
                update_skiplist: i == n,
            },
    )
}

/// Insertions in their order.
pub open spec fn insertions(plan: Seq<Insertion>) -> Seq<Insert> {
    Seq::new(plan.len(), |i: int| plan[i]@)
}

/// Plan a batch of insertions, and decide whether it invalidates an index of forks: entries under
/// reserved keys do, unless they record heights.
pub fn plan_insert_batch(keys: &[Vec<u8>], height_updates: bool) -> (out: (bool, Vec<Insertion>))
    requires
        keys.len() < usize::MAX,
    ensures
        out.0 == (!height_updates && exists|i: int|
            0 <= i < keys@.len() && reserved(#[trigger] keys@[i]@)),
        insertions(out.1@) == batch(keys@),
{
    let mut reserved_seen: bool = false;
    let mut plan: Vec<Insertion> = Vec::new();
    let mut i: usize = 0;
    while i < keys.len()
        invariant
            i <= keys.len(),
            plan@.len() == i,
            forall|k: int| 0 <= k < i ==> (#[trigger] plan@[k])@ == batch(keys@)[k],
            reserved_seen == exists|k: int| 0 <= k < i && reserved(#[trigger] keys@[k]@),
        decreases keys.len() - i,
    {
        let key = keys[i].as_slice();
        let now: bool = reserved_height_key(key);
        plan.push(Insertion { path: TrieHash::from_data(key), entry: i, update_skiplist: false });
        reserved_seen = reserved_seen || now;
        assert(now ==> reserved(keys@[i as int]@));
        i = i + 1;
    }
    if keys.len() > 0 {
        let last: usize = keys.len() - 1;
        plan.push(
            Insertion {
                path: TrieHash::from_data(keys[last].as_slice()),
                entry: last,
                update_skiplist: true,
            },
        );
    }
    assert(insertions(plan@) =~= batch(keys@));
    (!height_updates && reserved_seen, plan)
}

/// What a batch comes to, once its insertions stopped at the first that failed, and the block that
/// was open before was opened again. Remembered results outlive the batch only if both went well.
pub fn finish_insert_batch(
    guard: ResultCacheGuard,
    inserted: Result<(), Error>,
    restored: Result<(), Error>,
) -> (out: (Result<(), Error>, ResultCacheGuard))
    ensures
        out.0 == match restored {
            Ok(()) => inserted,
            Err(e) => Err(e),
        },
        out.1.writing == guard.writing,
        out.1.succeeded == (guard.succeeded || (inserted is Ok && restored is Ok)),
{
    match restored {
        Ok(()) => if inserted.is_ok() {
            (inserted, guard.succeed())
        } else {
            (inserted, guard)
        },
        Err(e) => (Err(e), guard),
    }
}

/// Insertions into the block that is being written, and whether they invalidate an index of forks.
#[derive(Debug)]
pub struct InsertPlan<T> {
    pub block: T,
    pub invalidate_ancestry: bool,
    pub insertions: Vec<Insertion>,
}

impl<T: MarfTrieId> WriteState<T> {
    /// Insert a batch of entries. This is more efficient than inserting them one by one, since the
    /// root is given its ancestors' hashes only once. An empty batch does nothing.
    pub fn insert_batch(&self, keys: &[Vec<u8>]) -> (out: Result<Option<InsertPlan<T>>, Error>)
        requires
            keys.len() < usize::MAX,
        ensures
            match self@.insert_fault() {
                Some(fault) => out matches Err(e) && e == fault,
                None => if keys@.len() == 0 {
                    out matches Ok(None)
                } else {
                    out matches Ok(Some(plan)) && plan.block.id_bytes() == (self@.tip->0).0
                        && plan.invalidate_ancestry == (exists|i: int|
                        0 <= i < keys@.len() && reserved(#[trigger] keys@[i]@)) && insertions(
                        plan.insertions@,
                    ) == batch(keys@)
                },
            },
    {
        let block: T = match self.insertion_block() {
            Ok(block) => block,
            Err(e) => return Err(e),
        };
        if keys.len() == 0 {
            return Ok(None);
        }
        let (invalidate_ancestry, insertions) = plan_insert_batch(keys, false);
        Ok(Some(InsertPlan { block, invalidate_ancestry, insertions }))
    }

    /// Insert a batch of leaves, with the rules of a batch of entries. An empty batch inserts
    /// nothing.
    pub fn insert_leaf_batch(&self, keys: &[Vec<u8>]) -> (out: Result<InsertPlan<T>, Error>)
        requires
            keys.len() < usize::MAX,
        ensures
            match self@.insert_fault() {
                Some(fault) => out matches Err(e) && e == fault,
                None => out matches Ok(plan) && plan.block.id_bytes() == (self@.tip->0).0
                    && plan.invalidate_ancestry == (exists|i: int|
                    0 <= i < keys@.len() && reserved(#[trigger] keys@[i]@)) && insertions(
                    plan.insertions@,
                ) == batch(keys@),
            },
    {
        let block: T = match self.insertion_block() {
            Ok(block) => block,
            Err(e) => return Err(e),
        };
        let (invalidate_ancestry, insertions) = plan_insert_batch(keys, false);
        Ok(InsertPlan { block, invalidate_ancestry, insertions })
    }

    /// Insert an entry under a path. Nothing is known of the key behind the path, so an index of
    /// forks is invalidated.
    pub fn insert_raw(&self, path: TrieHash) -> (out: Result<InsertPlan<T>, Error>)
        ensures
            match self@.insert_fault() {
                Some(fault) => out matches Err(e) && e == fault,
                None => out matches Ok(plan) && plan.block.id_bytes() == (self@.tip->0).0
                    && plan.invalidate_ancestry && insertions(plan.insertions@) == seq![
                    Insert { path: path@, entry: 0, update_skiplist: true },
                ],
            },
    {
        self.insert_raw_tracked(path, true)
    }

    /// Insert an entry under a key.
    pub fn insert(&self, key: &[u8]) -> (out: Result<InsertPlan<T>, Error>)
        ensures
            match self@.insert_fault() {
                Some(fault) => out matches Err(e) && e == fault,
                None => out matches Ok(plan) && plan.block.id_bytes() == (self@.tip->0).0
                    && plan.invalidate_ancestry == reserved(key@) && insertions(plan.insertions@)
                    == seq![
                    Insert { path: TrieHash::digest(key@), entry: 0, update_skiplist: true },
                ],
            },
    {
        self.insert_raw_tracked(TrieHash::from_data(key), reserved_height_key(key))
    }

    fn insert_raw_tracked(&self, path: TrieHash, opaque: bool) -> (out: Result<InsertPlan<T>, Error>)
        ensures
            match self@.insert_fault() {
                Some(fault) => out matches Err(e) && e == fault,
                None => out matches Ok(plan) && plan.block.id_bytes() == (self@.tip->0).0
                    && plan.invalidate_ancestry == opaque && insertions(plan.insertions@) == seq![
                    Insert { path: path@, entry: 0, update_skiplist: true },
                ],
            },
    {
        let block: T = match self.insertion_block() {
            Ok(block) => block,
            Err(e) => return Err(e),
        };
        Ok(one_insertion(block, path, opaque, true))
    }
}

fn one_insertion<T: MarfTrieId>(
    block: T,
    path: TrieHash,
    invalidate_ancestry: bool,
    update_skiplist: bool,
) -> (plan: InsertPlan<T>)
    ensures
        plan.block == block,
        plan.invalidate_ancestry == invalidate_ancestry,
        insertions(plan.insertions@) == seq![Insert { path: path@, entry: 0, update_skiplist }],
{
    let mut insertions: Vec<Insertion> = Vec::new();
    insertions.push(Insertion { path, entry: 0, update_skiplist });
    assert(self::insertions(insertions@) =~= seq![
        Insert { path: path@, entry: 0, update_skiplist },
    ]);
    InsertPlan { block, invalidate_ancestry, insertions }
}

/// Insert a leaf into a block, and give the root its ancestors' hashes.
pub fn insert_leaf<T: MarfTrieId>(block_hash: &T, path: TrieHash) -> (plan: InsertPlan<T>)
    ensures
        plan.block.id_bytes() == block_hash.id_bytes(),
        plan.invalidate_ancestry,
        insertions(plan.insertions@) == seq![
            Insert { path: path@, entry: 0, update_skiplist: true },
        ],
{
    one_insertion(copy_id(block_hash), path, true, true)
}

/// Insert a leaf into a block, without giving the root its ancestors' hashes.
pub fn insert_leaf_in_batch<T: MarfTrieId>(block_hash: &T, path: TrieHash) -> (plan: InsertPlan<T>)
    ensures
        plan.block.id_bytes() == block_hash.id_bytes(),
        plan.invalidate_ancestry,
        insertions(plan.insertions@) == seq![
            Insert { path: path@, entry: 0, update_skiplist: false },
        ],
{
    one_insertion(copy_id(block_hash), path, true, false)
}

/// A batch writes every entry, ends with the last one, and gives the root its ancestors' hashes
/// exactly once: after everything else was written.
pub proof fn law_batch_updates_root_once(keys: Seq<Vec<u8>>, i: int)
    requires
        0 <= i < batch(keys).len(),
    ensures
        batch(keys).len() == keys.len() + 1,
        batch(keys)[i].update_skiplist == (i == batch(keys).len() - 1),
        i < keys.len() ==> batch(keys)[i].entry == i,
        batch(keys).last().entry == keys.len() - 1,
{
}

/// Every insertion of a batch writes an entry of the batch under the path of that entry's own key.
pub proof fn law_batch_writes_entries_under_their_keys(keys: Seq<Vec<u8>>)
    ensures
        forall|i: int|
            0 <= i < batch(keys).len() ==> {
                let insert = #[trigger] batch(keys)[i];
                let key = keys[insert.entry]@;
                &&& 0 <= insert.entry < keys.len()
                &&& key.len() > 0 ==> insert.path == sha512_256_of(key)
                &&& key.len() == 0 ==> insert.path == TrieHash::empty_bytes()
            },
{
}

/// What is written under each path after the first `n` insertions of a plan, in their order.
pub open spec fn written(
    before: Map<Seq<u8>, Seq<u8>>,
    plan: Seq<Insert>,
    values: Seq<Seq<u8>>,
    n: nat,
) -> Map<Seq<u8>, Seq<u8>>
    decreases n,
{
    if n == 0 {
        before
    } else {
        let insert = plan[n - 1];
        written(before, plan, values, (n - 1) as nat).insert(insert.path, values[insert.entry])
    }
}

/// A batch leaves under each key the last value given for it, and leaves every other path as it
/// was.
pub proof fn law_batch_leaves_last_values(
    keys: Seq<Vec<u8>>,
    values: Seq<Seq<u8>>,
    before: Map<Seq<u8>, Seq<u8>>,
    path: Seq<u8>,
)
    requires
        keys.len() == values.len(),
    ensures
        forall|k: int|
            0 <= k < keys.len() && TrieHash::digest((#[trigger] keys[k])@) == path && (forall|j: int|
                k < j < keys.len() ==> TrieHash::digest((#[trigger] keys[j])@) != path)
                ==> written(before, batch(keys), values, batch(keys).len())[path] == values[k],
        written(before, batch(keys), values, batch(keys).len()).dom().contains(path)
            == (before.dom().contains(path) || exists|k: int|
            0 <= k < keys.len() && TrieHash::digest((#[trigger] keys[k])@) == path),
        (forall|k: int| 0 <= k < keys.len() ==> TrieHash::digest((#[trigger] keys[k])@) != path)
            ==> written(before, batch(keys), values, batch(keys).len())[path] == before[path],
{
    let n = keys.len();
    if n > 0 {
        lemma_written(keys, values, before, path, n);
        let done = written(before, batch(keys), values, n);
        let last = keys.len() - 1;
        assert(batch(keys)[n as int].path == TrieHash::digest(keys[last]@));
        assert(batch(keys)[n as int].entry == last);
        assert(written(before, batch(keys), values, n + 1) == done.insert(
            TrieHash::digest(keys[last]@),
            values[last],
        ));
    }
}

proof fn lemma_written(
    keys: Seq<Vec<u8>>,
    values: Seq<Seq<u8>>,
    before: Map<Seq<u8>, Seq<u8>>,
    path: Seq<u8>,
    n: nat,
)
    requires
        keys.len() == values.len(),
        n <= keys.len(),
    ensures
        forall|k: int|
            0 <= k < n && TrieHash::digest((#[trigger] keys[k])@) == path && (forall|j: int|
                k < j < n ==> TrieHash::digest((#[trigger] keys[j])@) != path)
                ==> written(before, batch(keys), values, n)[path] == values[k],
        written(before, batch(keys), values, n).dom().contains(path) == (before.dom().contains(path)
            || exists|k: int| 0 <= k < n && TrieHash::digest((#[trigger] keys[k])@) == path),
        (forall|k: int| 0 <= k < n ==> TrieHash::digest((#[trigger] keys[k])@) != path) ==> written(
            before,
            batch(keys),
            values,
            n,
        )[path] == before[path],
    decreases n,
{
    if n > 0 {
        let m = (n - 1) as nat;
        lemma_written(keys, values, before, path, m);
        assert(batch(keys)[m as int].path == TrieHash::digest(keys[m as int]@));
        assert(batch(keys)[m as int].entry == m);
        if TrieHash::digest(keys[m as int]@) != path {
            assert forall|k: int|
                0 <= k < n && TrieHash::digest((#[trigger] keys[k])@) == path && (forall|j: int|
                    k < j < n ==> TrieHash::digest((#[trigger] keys[j])@) != path) implies written(
                before,
                batch(keys),
                values,
                n,
            )[path] == values[k] by {
                assert(k < m);
            }
        }
    }
}

/// A writer that has committed or dropped its block can begin another one, and one that has not
/// cannot.
pub proof fn law_one_block_at_a_time(state: Writing, block: Seq<u8>, height: u32)
    requires
        !state.readonly,
    ensures
        state.closed().begin_fault() is None,
        state.writing(block, height).begin_fault() == Some(Error::InProgressError),
        state.closed().insert_fault() == Some(Error::WriteNotBegunError),
        state.writing(block, height).insert_fault() is None,
        state.writing(block, height).closed() == state.closed(),
{
}

/// A read-only writer refuses to begin, to write and to rename; an unconfirmed one refuses to rename,
/// and a confirmed one does not. Beginning and ending a block changes neither.
pub proof fn law_writers_refuse_what_they_must(state: Writing, block: Seq<u8>, height: u32)
    ensures
        state.readonly ==> {
            &&& state.begin_fault() == Some(Error::ReadOnlyError)
            &&& state.insert_fault() == Some(Error::ReadOnlyError)
            &&& state.rename_fault() == Some(Error::ReadOnlyError)
        },
        !state.readonly && state.unconfirmed ==> state.rename_fault() == Some(
            Error::UnconfirmedError,
        ),
        !state.readonly && !state.unconfirmed ==> state.rename_fault() is None,
        !state.readonly ==> (state.begin_fault() is None <==> state.insert_fault() is Some),
        state.closed().readonly == state.readonly,
        state.closed().unconfirmed == state.unconfirmed,
        state.closed().tip is None,
        state.writing(block, height).readonly == state.readonly,
        state.writing(block, height).unconfirmed == state.unconfirmed,
        state.writing(block, height).tip == Some((block, height)),
{
}

/// A refusal comes before anything else, and where there is none the rest decides.
pub proof fn law_refusals_come_first(fault: Error, rest: Result<u32, Fault>)
    ensures
        refused_or(Some(fault), rest) == Err::<u32, Fault>(fault_of(fault)),
        refused_or(None, rest) == rest,
{
}

} // verus!
