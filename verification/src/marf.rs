//! Opening, extending and committing a forest of tries.
//!
//! A writer decides what the storage behind it has to do, and in which order; the storage performs
//! the steps, and the first one that fails ends them.
use vstd::prelude::*;

use crate::error::Error;
use crate::hash::{copy_id, same_id, MarfTrieId};
use crate::marf_heights::get_block_height_miner_tip;
use crate::patch::fault_of;
use crate::read_storage::{shows, Forest, TrieReadStorage};
use crate::result_cache::DEFAULT_RESULT_CACHE_CAPACITY;

verus! {

/// Mode for calculating a trie's root hash.
#[derive(Clone, Copy, Debug, PartialEq, Eq, Structural)]
pub enum TrieHashCalculationMode {
    /// Calculate hashes with every insertion.
    Immediate,
    /// Calculate hashes when a trie is sealed.
    Deferred,
    /// Calculate hashes both ways.
    All,
}

/// Options for opening a forest.
#[derive(Clone, Copy, Debug, PartialEq, Eq, Structural)]
pub struct MARFOpenOpts {
    /// Hash calculation mode for calculating a trie root hash.
    pub hash_calculation_mode: TrieHashCalculationMode,
    /// Store trie blobs externally from the database, in a flat file.
    pub external_blobs: bool,
    /// Unconditionally migrate the database.
    pub force_db_migrate: bool,
    /// Compress the tries.
    pub compress: bool,
    /// Use memory-mapped reads of trie blobs.
    pub mmap: bool,
    /// Cache the decoded roots of the four most recently accessed committed tries.
    pub root_node_cache: bool,
    /// Maximum resolved committed patched nodes to retain; zero disables the cache.
    pub resolved_patch_cache_capacity: usize,
    /// Complete mutable-state lookup results to retain; zero disables admission.
    pub result_cache_capacity: usize,
}

impl MARFOpenOpts {
    /// The options that a mode and a placement of blobs start from.
    pub open spec fn plain(mode: TrieHashCalculationMode, external_blobs: bool) -> Self {
        MARFOpenOpts {
            hash_calculation_mode: mode,
            external_blobs,
            force_db_migrate: false,
            compress: false,
            mmap: false,
            root_node_cache: true,
            resolved_patch_cache_capacity: 16,
            result_cache_capacity: DEFAULT_RESULT_CACHE_CAPACITY,
        }
    }

    /// Deferred hashing, with blobs in the database.
    pub fn default() -> (opts: MARFOpenOpts)
        ensures
            opts == Self::plain(TrieHashCalculationMode::Deferred, false),
    {
        MARFOpenOpts::new(TrieHashCalculationMode::Deferred, false)
    }

    /// Options with a hashing mode and a placement of blobs.
    pub fn new(hash_calculation_mode: TrieHashCalculationMode, external_blobs: bool) -> (opts:
        MARFOpenOpts)
        ensures
            opts == Self::plain(hash_calculation_mode, external_blobs),
    {
        MARFOpenOpts {
            hash_calculation_mode,
            external_blobs,
            force_db_migrate: false,
            compress: false,
            mmap: false,
            root_node_cache: true,
            resolved_patch_cache_capacity: 16,
            result_cache_capacity: DEFAULT_RESULT_CACHE_CAPACITY,
        }
    }

    /// The same options, with compression or without.
    pub fn with_compression(self, compression: bool) -> (opts: Self)
        ensures
            opts == (MARFOpenOpts { compress: compression, ..self }),
    {
        let mut opts = self;
        opts.compress = compression;
        opts
    }

    /// The same options, with mapped reads or without.
    pub fn with_mmap(self, mmap: bool) -> (opts: Self)
        ensures
            opts == (MARFOpenOpts { mmap, ..self }),
    {
        let mut opts = self;
        opts.mmap = mmap;
        opts
    }
}

/// Default override of compression: none.
pub const TEST_MARF_COMPRESSION_DEFAULT: Option<bool> = None;

/// Inject a runtime override for compression.
pub fn fault_injection_marf_compression(flag: &mut Option<bool>, enabled: bool)
    ensures
        *final(flag) == Some(enabled),
{
    *flag = Some(enabled);
}

/// Apply overrides of compression: a runtime override goes first, then the default one, and the
/// options stand where there is neither.
pub fn test_override_marf_compression(marf_opts: &mut MARFOpenOpts, flag: Option<bool>)
    ensures
        *final(marf_opts) == (MARFOpenOpts {
            compress: match flag {
                Some(enabled) => enabled,
                None => match TEST_MARF_COMPRESSION_DEFAULT {
                    Some(enabled) => enabled,
                    None => old(marf_opts).compress,
                },
            },
            ..*old(marf_opts)
        }),
{
    if let Some(enabled) = flag {
        marf_opts.compress = enabled;
        return;
    }
    if let Some(enabled) = TEST_MARF_COMPRESSION_DEFAULT {
        marf_opts.compress = enabled;
    }
}

/// The block that is being written, and its height.
#[derive(Debug)]
pub struct WriteChainTip<T> {
    pub block_hash: T,
    pub height: u32,
}

/// What a writer knows: whether its storage can be written, whether it holds unconfirmed state, and
/// the block that is being written.
#[derive(Debug)]
pub struct WriteState<T> {
    pub readonly: bool,
    pub unconfirmed: bool,
    pub open_chain_tip: Option<WriteChainTip<T>>,
}

/// What a writer knows.
pub struct Writing {
    pub readonly: bool,
    pub unconfirmed: bool,
    pub tip: Option<(Seq<u8>, u32)>,
}

impl Writing {
    /// The same, with no block being written.
    pub open spec fn closed(self) -> Writing {
        Writing { tip: None, ..self }
    }

    /// The same, with a block being written.
    pub open spec fn writing(self, block: Seq<u8>, height: u32) -> Writing {
        Writing { tip: Some((block, height)), ..self }
    }

    /// What keeps a block from being committed under a name of its own.
    pub open spec fn rename_fault(self) -> Option<Error> {
        if self.readonly {
            Some(Error::ReadOnlyError)
        } else if self.unconfirmed {
            Some(Error::UnconfirmedError)
        } else {
            None
        }
    }

    /// What keeps entries from being written.
    pub open spec fn insert_fault(self) -> Option<Error> {
        if self.readonly {
            Some(Error::ReadOnlyError)
        } else if self.tip is None {
            Some(Error::WriteNotBegunError)
        } else {
            None
        }
    }
}

/// A step that storage is to take.
#[derive(Debug)]
pub enum StorageStep<T> {
    /// Write the trie that is being extended.
    Flush,
    /// Write the trie that is being extended, as the trie of this block.
    FlushTo(T),
    /// Write the trie that is being extended to the mined blocks.
    FlushMined(T),
    /// Forget the trie that is being extended.
    DropExtendingTrie,
    /// Remove an unconfirmed trie.
    DropUnconfirmedTrie(T),
    /// Open the block that is the parent of the first one.
    OpenSentinel,
    /// Commit the transaction.
    CommitTx,
    /// Roll the transaction back.
    Rollback,
}

/// A step that storage is to take.
pub enum Step {
    Flush,
    FlushTo(Seq<u8>),
    FlushMined(Seq<u8>),
    DropExtendingTrie,
    DropUnconfirmedTrie(Seq<u8>),
    OpenSentinel,
    CommitTx,
    Rollback,
}

impl<T: MarfTrieId> StorageStep<T> {
    /// The step.
    pub open spec fn view(&self) -> Step {
        match self {
            StorageStep::Flush => Step::Flush,
            StorageStep::FlushTo(block) => Step::FlushTo(block.id_bytes()),
            StorageStep::FlushMined(block) => Step::FlushMined(block.id_bytes()),
            StorageStep::DropExtendingTrie => Step::DropExtendingTrie,
            StorageStep::DropUnconfirmedTrie(block) => Step::DropUnconfirmedTrie(block.id_bytes()),
            StorageStep::OpenSentinel => Step::OpenSentinel,
            StorageStep::CommitTx => Step::CommitTx,
            StorageStep::Rollback => Step::Rollback,
        }
    }
}

/// Steps in their order.
pub open spec fn steps<T: MarfTrieId>(plan: Seq<StorageStep<T>>) -> Seq<Step> {
    Seq::new(plan.len(), |i: int| plan[i]@)
}

fn nothing<T: MarfTrieId>() -> (plan: Vec<StorageStep<T>>)
    ensures
        steps(plan@) == Seq::<Step>::empty(),
{
    let plan: Vec<StorageStep<T>> = Vec::new();
    assert(steps(plan@) =~= Seq::<Step>::empty());
    plan
}

fn one<T: MarfTrieId>(first: StorageStep<T>) -> (plan: Vec<StorageStep<T>>)
    ensures
        steps(plan@) == seq![first@],
{
    let ghost a = first@;
    let mut plan: Vec<StorageStep<T>> = Vec::new();
    plan.push(first);
    assert(steps(plan@) =~= seq![a]);
    plan
}

fn followed<T: MarfTrieId>(plan: Vec<StorageStep<T>>, next: StorageStep<T>) -> (longer: Vec<StorageStep<T>>)
    ensures
        steps(longer@) == steps(plan@).push(next@),
{
    let ghost before = steps(plan@);
    let ghost b = next@;
    let mut longer = plan;
    longer.push(next);
    assert(steps(longer@) =~= before.push(b));
    longer
}

impl<T: MarfTrieId> WriteState<T> {
    /// What the writer knows.
    pub open spec fn view(&self) -> Writing {
        Writing {
            readonly: self.readonly,
            unconfirmed: self.unconfirmed,
            tip: match self.open_chain_tip {
                Some(tip) => Some((tip.block_hash.id_bytes(), tip.height)),
                None => None,
            },
        }
    }

    /// A writer with no block being written.
    pub fn new(readonly: bool, unconfirmed: bool) -> (state: Self)
        ensures
            state@ == (Writing { readonly, unconfirmed, tip: None }),
    {
        WriteState { readonly, unconfirmed, open_chain_tip: None }
    }

    /// Close the block that is being written, if there is one.
    fn close(&mut self) -> (tip: Option<WriteChainTip<T>>)
        ensures
            final(self)@ == old(self)@.closed(),
            match tip {
                Some(t) => old(self)@.tip == Some((t.block_hash.id_bytes(), t.height)),
                None => old(self)@.tip is None,
            },
    {
        self.open_chain_tip.take()
    }

    /// The block that is being written.
    pub fn get_open_chain_tip(&self) -> (tip: Option<&T>)
        ensures
            match self@.tip {
                Some((block, _)) => tip matches Some(t) && t.id_bytes() == block,
                None => tip is None,
            },
    {
        match &self.open_chain_tip {
            Some(tip) => Some(&tip.block_hash),
            None => None,
        }
    }

    /// The height of the block that is being written.
    pub fn get_open_chain_tip_height(&self) -> (height: Option<u32>)
        ensures
            height == match self@.tip {
                Some((_, height)) => Some(height),
                None => None::<u32>,
            },
    {
        match &self.open_chain_tip {
            Some(tip) => Some(tip.height),
            None => None,
        }
    }

    /// The height of a block: the writer knows that of the block that is being written, and a block
    /// of the fork records the others.
    pub fn get_block_height_of<S: TrieReadStorage<T>>(
        &self,
        storage: &S,
        bhh: &T,
        current_block_hash: &T,
    ) -> (height: Result<Option<u32>, Error>)
        ensures
            match self@.tip {
                Some((block, own)) => bhh.id_bytes() == block ==> height == Ok::<Option<u32>, Error>(
                    Some(own),
                ),
                None => true,
            },
            !(self@.tip matches Some((block, _)) && bhh.id_bytes() == block) ==> forall|
                forest: Forest,
            | #[trigger]
                shows(storage, forest) ==> match forest.height(
                    bhh.id_bytes(),
                    current_block_hash.id_bytes(),
                ) {
                    Ok(h) => height == Ok::<Option<u32>, Error>(h),
                    Err(fault) => height matches Err(e) && fault_of(e) == fault,
                },
    {
        if let Some(tip) = &self.open_chain_tip {
            if same_id(bhh, &tip.block_hash) {
                return Ok(Some(tip.height));
            }
        }
        get_block_height_miner_tip(storage, bhh, current_block_hash)
    }

    /// Finish writing the next trie under another name than it was opened with, and commit.
    pub fn commit_to(&mut self, real_bhh: &T) -> (plan: Result<Vec<StorageStep<T>>, Error>)
        ensures
            match old(self)@.rename_fault() {
                Some(fault) => (plan matches Err(e) && e == fault) && final(self)@ == old(self)@,
                None => (plan matches Ok(todo) && steps(todo@) == if old(self)@.tip is Some {
                    seq![Step::FlushTo(real_bhh.id_bytes()), Step::CommitTx]
                } else {
                    Seq::<Step>::empty()
                }) && final(self)@ == old(self)@.closed(),
            },
    {
        if self.readonly {
            return Err(Error::ReadOnlyError);
        }
        if self.unconfirmed {
            return Err(Error::UnconfirmedError);
        }
        match self.close() {
            Some(_) => {
                let plan = followed(
                    one(StorageStep::FlushTo(copy_id(real_bhh))),
                    StorageStep::CommitTx,
                );
                assert(steps(plan@) =~= seq![Step::FlushTo(real_bhh.id_bytes()), Step::CommitTx]);
                Ok(plan)
            },
            None => Ok(nothing()),
        }
    }

    /// Finish writing the next trie to the mined blocks, where no later block replaces it, and
    /// commit.
    pub fn commit_mined(&mut self, bhh: &T) -> (plan: Result<Vec<StorageStep<T>>, Error>)
        ensures
            match old(self)@.rename_fault() {
                Some(fault) => (plan matches Err(e) && e == fault) && final(self)@ == old(self)@,
                None => (plan matches Ok(todo) && steps(todo@) == if old(self)@.tip is Some {
                    seq![Step::FlushMined(bhh.id_bytes()), Step::CommitTx]
                } else {
                    Seq::<Step>::empty()
                }) && final(self)@ == old(self)@.closed(),
            },
    {
        if self.readonly {
            return Err(Error::ReadOnlyError);
        }
        if self.unconfirmed {
            return Err(Error::UnconfirmedError);
        }
        match self.close() {
            Some(_) => {
                let plan = followed(
                    one(StorageStep::FlushMined(copy_id(bhh))),
                    StorageStep::CommitTx,
                );
                assert(steps(plan@) =~= seq![Step::FlushMined(bhh.id_bytes()), Step::CommitTx]);
                Ok(plan)
            },
            None => Ok(nothing()),
        }
    }

    /// Drop the current trie with all unconfirmed state. Such state may have been written before
    /// this transaction began, so the removal is committed.
    pub fn drop_unconfirmed(&mut self) -> (plan: Vec<StorageStep<T>>)
        ensures
            if old(self)@.readonly || !old(self)@.unconfirmed {
                steps(plan@) == Seq::<Step>::empty() && final(self)@ == old(self)@
            } else {
                steps(plan@) == match old(self)@.tip {
                    Some((block, _)) => seq![
                        Step::DropUnconfirmedTrie(block),
                        Step::OpenSentinel,
                        Step::CommitTx,
                    ],
                    None => Seq::<Step>::empty(),
                } && final(self)@ == old(self)@.closed()
            },
    {
        if self.readonly || !self.unconfirmed {
            return nothing();
        }
        match self.close() {
            Some(tip) => {
                let ghost block = tip.block_hash.id_bytes();
                let plan = followed(
                    followed(
                        one(StorageStep::DropUnconfirmedTrie(tip.block_hash)),
                        StorageStep::OpenSentinel,
                    ),
                    StorageStep::CommitTx,
                );
                assert(steps(plan@) =~= seq![
                    Step::DropUnconfirmedTrie(block),
                    Step::OpenSentinel,
                    Step::CommitTx,
                ]);
                plan
            },
            None => nothing(),
        }
    }

    /// Check that no block is being written before a read-only view is opened.
    pub fn check_reopen(&self) -> (done: Result<(), Error>)
        ensures
            done == if self@.tip is Some {
                Err::<(), Error>(Error::InProgressError)
            } else {
                Ok::<(), Error>(())
            },
    {
        if self.open_chain_tip.is_some() {
            return Err(Error::InProgressError);
        }
        Ok(())
    }

    /// Check that a trie can be sealed.
    pub fn check_seal(&self) -> (done: Result<(), Error>)
        ensures
            done == if self@.readonly {
                Err::<(), Error>(Error::ReadOnlyError)
            } else {
                Ok::<(), Error>(())
            },
    {
        if self.readonly {
            return Err(Error::ReadOnlyError);
        }
        Ok(())
    }
}

/// A writer inside a storage transaction. The transaction is aborted if it ends without being
/// committed.
#[derive(Debug)]
pub struct MarfTransaction<T> {
    pub state: WriteState<T>,
}

impl<T: MarfTrieId> MarfTransaction<T> {
    /// Finish writing the next trie, and commit.
    pub fn commit(&mut self) -> (plan: Result<Vec<StorageStep<T>>, Error>)
        ensures
            if old(self).state@.readonly {
                (plan matches Err(e) && e == Error::ReadOnlyError) && final(self).state@ == old(
                    self).state@
            } else {
                (plan matches Ok(todo) && steps(todo@) == if old(self).state@.tip is Some {
                    seq![Step::Flush, Step::CommitTx]
                } else {
                    seq![Step::CommitTx]
                }) && final(self).state@ == old(self).state@.closed()
            },
    {
        if self.state.readonly {
            return Err(Error::ReadOnlyError);
        }
        match self.state.close() {
            Some(_) => {
                let plan = followed(one(StorageStep::Flush), StorageStep::CommitTx);
                assert(steps(plan@) =~= seq![Step::Flush, Step::CommitTx]);
                Ok(plan)
            },
            None => Ok(one(StorageStep::CommitTx)),
        }
    }

    /// Commit without writing the trie that is being extended.
    pub fn commit_squash(&mut self) -> (plan: Result<Vec<StorageStep<T>>, Error>)
        ensures
            if old(self).state@.readonly {
                (plan matches Err(e) && e == Error::ReadOnlyError) && final(self).state@ == old(
                    self).state@
            } else {
                (plan matches Ok(todo) && steps(todo@) == seq![
                    Step::DropExtendingTrie,
                    Step::CommitTx,
                ]) && final(self).state@ == old(self).state@.closed()
            },
    {
        if self.state.readonly {
            return Err(Error::ReadOnlyError);
        }
        let _ = self.state.close();
        let plan = followed(one(StorageStep::DropExtendingTrie), StorageStep::CommitTx);
        assert(steps(plan@) =~= seq![Step::DropExtendingTrie, Step::CommitTx]);
        Ok(plan)
    }

    /// Drop the current trie: all changes of the block are rolled back.
    pub fn drop_current(&mut self) -> (plan: Vec<StorageStep<T>>)
        ensures
            if old(self).state@.readonly {
                steps(plan@) == Seq::<Step>::empty() && final(self).state@ == old(self).state@
            } else {
                steps(plan@) == seq![Step::DropExtendingTrie, Step::OpenSentinel, Step::Rollback]
                    && final(self).state@ == old(self).state@.closed()
            },
    {
        if self.state.readonly {
            return nothing();
        }
        let _ = self.state.close();
        let plan = followed(
            followed(one(StorageStep::DropExtendingTrie), StorageStep::OpenSentinel),
            StorageStep::Rollback,
        );
        assert(steps(plan@) =~= seq![Step::DropExtendingTrie, Step::OpenSentinel, Step::Rollback]);
        plan
    }
}

/// A writer that opens a storage transaction for each operation.
#[derive(Debug)]
pub struct MARF<T> {
    pub state: WriteState<T>,
}

impl<T: MarfTrieId> MARF<T> {
    /// Finish writing the next trie. Works for both confirmed and unconfirmed tries.
    pub fn commit(&mut self) -> (plan: Result<Vec<StorageStep<T>>, Error>)
        ensures
            if old(self).state@.readonly {
                (plan matches Err(e) && e == Error::ReadOnlyError) && final(self).state@ == old(
                    self).state@
            } else {
                (plan matches Ok(todo) && steps(todo@) == if old(self).state@.tip is Some {
                    seq![Step::Flush, Step::CommitTx]
                } else {
                    Seq::<Step>::empty()
                }) && final(self).state@ == old(self).state@.closed()
            },
    {
        if self.state.readonly {
            return Err(Error::ReadOnlyError);
        }
        match self.state.close() {
            Some(_) => {
                let plan = followed(one(StorageStep::Flush), StorageStep::CommitTx);
                assert(steps(plan@) =~= seq![Step::Flush, Step::CommitTx]);
                Ok(plan)
            },
            None => Ok(nothing()),
        }
    }

    /// End the transaction of a single insertion, given how the insertion went and whether the block
    /// that was open before could be opened again. The transaction is committed even where the
    /// insertion failed, but not where the block could not be opened; a transaction that is not
    /// committed is aborted.
    pub fn finish_insert_raw(&self, inserted: Result<(), Error>, restored: Result<(), Error>) -> (out: (
        Result<(), Error>,
        Vec<StorageStep<T>>,
    ))
        ensures
            match restored {
                Ok(()) => out.0 == inserted && steps(out.1@) == seq![Step::CommitTx],
                Err(e) => out.0 == Err::<(), Error>(e) && steps(out.1@) == Seq::<Step>::empty(),
            },
    {
        match restored {
            Ok(()) => (inserted, one(StorageStep::CommitTx)),
            Err(e) => (Err(e), nothing()),
        }
    }

    /// End the transaction of a batch, given how the batch went: it is committed only if all went
    /// well, and aborted otherwise.
    pub fn finish_insert_batch(&self, batch: Result<(), Error>) -> (out: (
        Result<(), Error>,
        Vec<StorageStep<T>>,
    ))
        ensures
            out.0 == batch,
            steps(out.1@) == if batch is Ok {
                seq![Step::CommitTx]
            } else {
                Seq::<Step>::empty()
            },
    {
        if batch.is_ok() {
            (batch, one(StorageStep::CommitTx))
        } else {
            (batch, nothing())
        }
    }

    /// Drop the current trie: all changes of the block are given up.
    pub fn drop_current(&mut self) -> (plan: Vec<StorageStep<T>>)
        ensures
            if old(self).state@.readonly {
                steps(plan@) == Seq::<Step>::empty() && final(self).state@ == old(self).state@
            } else {
                steps(plan@) == seq![Step::DropExtendingTrie, Step::OpenSentinel, Step::CommitTx]
                    && final(self).state@ == old(self).state@.closed()
            },
    {
        if self.state.readonly {
            return nothing();
        }
        let _ = self.state.close();
        let plan = followed(
            followed(one(StorageStep::DropExtendingTrie), StorageStep::OpenSentinel),
            StorageStep::CommitTx,
        );
        assert(steps(plan@) =~= seq![Step::DropExtendingTrie, Step::OpenSentinel, Step::CommitTx]);
        plan
    }
}

} // verus!
