//! Copying only those content-addressed rows that a trie's leaves refer to.
use std::collections::HashMap;

use vstd::prelude::*;
use vstd::utf8::valid_utf8;

use crate::error::{corrupt, Corruption, Error};
use crate::hash::{copy_id, MarfTrieId};
use crate::hex::{bytes_of_hex, hex_bytes, hex_of, to_hex};
use crate::leaf_walk::{for_each_leaf, found_views, FoundLeaf};
use crate::patch::fault_of;
use crate::read_storage::{shows, Forest, TrieReadStorage};
use crate::value::MARFValue;
use crate::words::{bytes_eq, le_value, push_bytes, read_le, to_array};

verus! {

/// Physical payload columns copied with each content-addressed row.
#[derive(Clone, Copy, Debug, PartialEq, Eq)]
pub enum ReferencedRowLayout {
    /// Copy only the content-addressed key and value.
    KeyValue,
    /// Also copy one owner-supplied payload column.
    KeyValueAndExtra(&'static str),
}

/// A set of values, in buckets by their first eight bytes.
pub struct LeafHashes {
    buckets: HashMap<u64, Vec<MARFValue>>,
}

/// The bucket of a value.
pub open spec fn bucket_of(value: Seq<u8>) -> u64 {
    le_value(value.subrange(0, 8)) as u64
}

/// Whether a bucket holds a value.
pub open spec fn bucket_has(bucket: Seq<MARFValue>, value: Seq<u8>) -> bool {
    exists|i: int| 0 <= i < bucket.len() && (#[trigger] bucket[i])@ == value
}

impl LeafHashes {
    /// The values.
    pub closed spec fn view(&self) -> Set<Seq<u8>> {
        Set::new(
            |value: Seq<u8>|
                value.len() == 40 && self.buckets@.dom().contains(bucket_of(value)) && bucket_has(
                    self.buckets@[bucket_of(value)]@,
                    value,
                ),
        )
    }

    /// No values.
    pub fn new() -> (hashes: Self)
        ensures
            hashes@ == Set::<Seq<u8>>::empty(),
    {
        broadcast use vstd::std_specs::hash::group_hash_axioms;

        let hashes = LeafHashes { buckets: HashMap::new() };
        assert(hashes@ =~= Set::<Seq<u8>>::empty());
        hashes
    }

    fn bucket(value: &MARFValue) -> (bucket: u64)
        ensures
            bucket == bucket_of(value@),
    {
        read_le(&value.0, 0, 8)
    }

    /// Whether a value is in the set.
    pub fn contains(&self, value: &MARFValue) -> (found: bool)
        ensures
            found == self@.contains(value@),
    {
        broadcast use vstd::std_specs::hash::group_hash_axioms;

        match self.buckets.get(&Self::bucket(value)) {
            None => false,
            Some(bucket) => {
                let mut i: usize = 0;
                while i < bucket.len()
                    invariant
                        i <= bucket@.len(),
                        self.buckets@.dom().contains(bucket_of(value@)),
                        self.buckets@[bucket_of(value@)]@ == bucket@,
                        forall|k: int| 0 <= k < i ==> (#[trigger] bucket@[k])@ != value@,
                    decreases bucket@.len() - i,
                {
                    if bytes_eq(&bucket[i].0, &value.0) {
                        assert(bucket@[i as int]@ == value@);
                        assert(bucket_has(bucket@, value@));
                        return true;
                    }
                    i = i + 1;
                }
                false
            },
        }
    }

    /// Add a value.
    pub fn insert(&mut self, value: MARFValue)
        ensures
            final(self)@ == old(self)@.insert(value@),
    {
        broadcast use vstd::std_specs::hash::group_hash_axioms;

        if self.contains(&value) {
            assert(self@ =~= self@.insert(value@));
            return;
        }
        let key: u64 = Self::bucket(&value);
        let ghost before = self.buckets@;
        let mut bucket: Vec<MARFValue> = match self.buckets.remove(&key) {
            Some(bucket) => bucket,
            None => Vec::new(),
        };
        let ghost held = bucket@;
        bucket.push(value);
        let ghost grown = bucket@;
        self.buckets.insert(key, bucket);
        proof {
            assert(self.buckets@ =~= before.insert(key, self.buckets@[key]));
            assert forall|other: Seq<u8>|
                self@.contains(other) == old(self)@.insert(value@).contains(other) by {
                if bucket_of(other) == key {
                    if bucket_has(held, other) {
                        let i = choose|i: int| 0 <= i < held.len() && (#[trigger] held[i])@ == other;
                        assert(grown[i]@ == other);
                    }
                    if bucket_has(grown, other) {
                        let i = choose|i: int|
                            0 <= i < grown.len() && (#[trigger] grown[i])@ == other;
                        if i < held.len() {
                            assert(held[i]@ == other);
                        }
                    }
                    assert(grown[held.len() as int]@ == value@);
                }
            }
            assert(self@ =~= old(self)@.insert(value@));
        }
    }
}

/// A value of a database column.
#[derive(Debug)]
pub enum SqlValue {
    Null,
    Integer(i64),
    /// The bits of a floating-point number.
    Real(u64),
    /// The bytes of a text.
    Text(Vec<u8>),
    Blob(Vec<u8>),
}

/// What a column holds.
pub enum Column {
    Null,
    Integer(i64),
    Real(u64),
    Text(Seq<u8>),
    Blob(Seq<u8>),
}

impl SqlValue {
    /// What the column holds.
    pub open spec fn view(&self) -> Column {
        match self {
            SqlValue::Null => Column::Null,
            SqlValue::Integer(n) => Column::Integer(*n),
            SqlValue::Real(bits) => Column::Real(*bits),
            SqlValue::Text(bytes) => Column::Text(bytes@),
            SqlValue::Blob(bytes) => Column::Blob(bytes@),
        }
    }
}

/// Calls `std::str::from_utf8` and says whether it accepts the bytes: whether they are UTF-8.
#[verifier::external_body]
fn is_utf8(bytes: &[u8]) -> (valid: bool)
    ensures
        valid == valid_utf8(bytes@),
{
    std::str::from_utf8(bytes).is_ok()
}

/// The key that a column holds: canonical lowercase hexadecimal text, or raw bytes.
pub open spec fn key_of(column: Column) -> Result<Seq<u8>, Error> {
    match column {
        Column::Text(text) => if !valid_utf8(text) {
            Err(Error::CorruptionError(Corruption::KeyNotUtf8))
        } else {
            match bytes_of_hex(text) {
                Some(bytes) => if bytes.len() != 40 {
                    Err(Error::CorruptionError(Corruption::KeyNotHex))
                } else if hex_of(bytes) != text {
                    Err(Error::CorruptionError(Corruption::KeyNotCanonical))
                } else {
                    Ok(bytes)
                },
                None => Err(Error::CorruptionError(Corruption::KeyNotHex)),
            }
        },
        Column::Blob(bytes) => if bytes.len() == 40 {
            Ok(bytes)
        } else {
            Err(Error::CorruptionError(Corruption::KeyWrongWidth))
        },
        _ => Err(Error::CorruptionError(Corruption::KeyWrongType)),
    }
}

/// Decode the key of a source row.
pub fn decode_key(column: &SqlValue) -> (key: Result<MARFValue, Error>)
    ensures
        match key_of(column@) {
            Ok(bytes) => key matches Ok(found) && found@ == bytes,
            Err(e) => key == Err::<MARFValue, Error>(e),
        },
{
    match column {
        SqlValue::Text(text) => {
            if !is_utf8(text.as_slice()) {
                return Err(corrupt(Corruption::KeyNotUtf8));
            }
            let bytes = match hex_bytes(text.as_slice()) {
                Some(bytes) => bytes,
                None => return Err(corrupt(Corruption::KeyNotHex)),
            };
            if bytes.len() != 40 {
                return Err(corrupt(Corruption::KeyNotHex));
            }
            if !bytes_eq(to_hex(bytes.as_slice()).as_slice(), text.as_slice()) {
                return Err(corrupt(Corruption::KeyNotCanonical));
            }
            Ok(MARFValue(to_array::<40>(bytes.as_slice())))
        },
        SqlValue::Blob(bytes) => {
            if bytes.len() != 40 {
                return Err(corrupt(Corruption::KeyWrongWidth));
            }
            Ok(MARFValue(to_array::<40>(bytes.as_slice())))
        },
        _ => Err(corrupt(Corruption::KeyWrongType)),
    }
}

/// Whether a column can be copied: text has to be UTF-8.
pub open spec fn copies(column: Column) -> bool {
    column matches Column::Text(text) ==> valid_utf8(text)
}

/// Materialize a column so that it can outlive its row.
pub fn owned_sql_value(column: &SqlValue) -> (copy: Result<SqlValue, Error>)
    ensures
        if copies(column@) {
            copy matches Ok(found) && found@ == column@
        } else {
            copy matches Err(e) && e == Error::CorruptionError(Corruption::TextNotUtf8)
        },
{
    match column {
        SqlValue::Null => Ok(SqlValue::Null),
        SqlValue::Integer(n) => Ok(SqlValue::Integer(*n)),
        SqlValue::Real(bits) => Ok(SqlValue::Real(*bits)),
        SqlValue::Text(text) => {
            if !is_utf8(text.as_slice()) {
                return Err(corrupt(Corruption::TextNotUtf8));
            }
            let mut bytes: Vec<u8> = Vec::new();
            push_bytes(&mut bytes, text.as_slice());
            assert(bytes@ =~= text@);
            Ok(SqlValue::Text(bytes))
        },
        SqlValue::Blob(blob) => {
            let mut bytes: Vec<u8> = Vec::new();
            push_bytes(&mut bytes, blob.as_slice());
            assert(bytes@ =~= blob@);
            Ok(SqlValue::Blob(bytes))
        },
    }
}

/// Columns of a row.
pub open spec fn columns(row: Seq<SqlValue>) -> Seq<Column> {
    Seq::new(row.len(), |i: int| row[i]@)
}

/// Whether the first `n` columns of a row can be copied.
pub open spec fn row_copies(row: Seq<Column>, n: int) -> bool {
    forall|i: int| 0 <= i < n ==> copies(#[trigger] row[i])
}

/// What comes of a source row: rows whose keys are not kept are passed over, and others are copied
/// column by column.
pub open spec fn row_outcome(row: Seq<Column>, keep: Set<Seq<u8>>) -> Result<
    Option<Seq<Column>>,
    Error,
> {
    match key_of(row[0]) {
        Err(e) => Err(e),
        Ok(key) => if !keep.contains(key) {
            Ok(None)
        } else if row_copies(row, row.len() as int) {
            Ok(Some(row))
        } else {
            Err(Error::CorruptionError(Corruption::TextNotUtf8))
        },
    }
}

/// Decide on one source row: the row to insert, if its key is kept.
pub fn copy_referenced_row(row: &[SqlValue], keep: &LeafHashes) -> (out: Result<
    Option<Vec<SqlValue>>,
    Error,
>)
    requires
        row@.len() > 0,
    ensures
        match row_outcome(columns(row@), keep@) {
            Ok(Some(copy)) => out matches Ok(Some(found)) && columns(found@) == copy,
            Ok(None) => out matches Ok(None),
            Err(e) => out matches Err(found) && found == e,
        },
{
    let key = match decode_key(&row[0]) {
        Ok(key) => key,
        Err(e) => return Err(e),
    };
    if !keep.contains(&key) {
        return Ok(None);
    }
    let mut copy: Vec<SqlValue> = Vec::new();
    let mut i: usize = 0;
    while i < row.len()
        invariant
            i <= row.len(),
            copy@.len() == i,
            key_of(columns(row@)[0]) == Ok::<Seq<u8>, Error>(key@),
            keep@.contains(key@),
            forall|k: int| 0 <= k < i ==> (#[trigger] copy@[k])@ == row@[k]@,
            row_copies(columns(row@), i as int),
        decreases row.len() - i,
    {
        match owned_sql_value(&row[i]) {
            Ok(column) => copy.push(column),
            Err(e) => {
                assert(!copies(columns(row@)[i as int]));
                return Err(e);
            },
        }
        i = i + 1;
    }
    assert(columns(copy@) =~= columns(row@));
    Ok(Some(copy))
}

/// Progress of a filtered copy.
#[derive(Clone, Copy, Debug)]
pub struct CopyProgress {
    /// Source rows that were looked at.
    pub scanned: u64,
    /// Rows that were copied.
    pub rows: u64,
}

impl CopyProgress {
    /// Nothing looked at yet. The destination must be empty: rows that are already there fail.
    pub fn start(occupied: bool) -> (progress: Result<Self, Error>)
        ensures
            match progress {
                Ok(fresh) => !occupied && fresh.scanned == 0 && fresh.rows == 0,
                Err(e) => occupied && e == Error::ExistsError,
            },
    {
        if occupied {
            Err(Error::ExistsError)
        } else {
            Ok(CopyProgress { scanned: 0, rows: 0 })
        }
    }

    /// Count a row and decide on it.
    pub fn step(&mut self, row: &[SqlValue], keep: &LeafHashes) -> (out: Result<
        Option<Vec<SqlValue>>,
        Error,
    >)
        requires
            row@.len() > 0,
            old(self).scanned < u64::MAX,
            old(self).rows <= old(self).scanned,
        ensures
            match row_outcome(columns(row@), keep@) {
                Ok(Some(copy)) => out matches Ok(Some(found)) && columns(found@) == copy,
                Ok(None) => out matches Ok(None),
                Err(e) => out matches Err(found) && found == e,
            },
            final(self).scanned == old(self).scanned + 1,
            final(self).rows == old(self).rows + if out matches Ok(Some(_)) {
                1int
            } else {
                0
            },
            final(self).rows <= final(self).scanned,
    {
        self.scanned = self.scanned + 1;
        let out = copy_referenced_row(row, keep);
        if let Ok(Some(_)) = &out {
            self.rows = self.rows + 1;
        }
        out
    }
}

/// Check that a source has the table that is to be copied.
pub fn check_fork_storage(has_table: bool) -> (done: Result<(), Error>)
    ensures
        done == if has_table {
            Ok::<(), Error>(())
        } else {
            Err::<(), Error>(Error::CorruptionError(Corruption::MissingForkStorage))
        },
{
    if has_table {
        Ok(())
    } else {
        Err(corrupt(Corruption::MissingForkStorage))
    }
}

/// The values of leaves.
pub open spec fn values_of(leaves: Seq<FoundLeaf>) -> Set<Seq<u8>> {
    Set::new(|value: Seq<u8>| exists|i: int| 0 <= i < leaves.len() && (#[trigger] leaves[i]).1 == value)
}

/// Collect the value of every leaf that is visible at the tip.
pub fn collect_canonical_leaf_hashes<T: MarfTrieId, S: TrieReadStorage<T>>(storage: &S, tip: &T) -> (out:
    Result<LeafHashes, Error>)
    ensures
        forall|forest: Forest| #[trigger]
            shows(storage, forest) ==> match forest.leaves(tip.id_bytes()) {
                Ok(leaves) => out matches Ok(hashes) && hashes@ == values_of(leaves),
                Err(fault) => out matches Err(e) && fault_of(e) == fault,
            },
{
    let found = match for_each_leaf(storage, tip) {
        Ok(found) => found,
        Err(e) => return Err(e),
    };
    let mut hashes = LeafHashes::new();
    assert(hashes@ =~= values_of(found_views(found@).subrange(0, 0)));
    let mut i: usize = 0;
    while i < found.len()
        invariant
            i <= found@.len(),
            hashes@ == values_of(found_views(found@).subrange(0, i as int)),
        decreases found@.len() - i,
    {
        let ghost seen = found_views(found@).subrange(0, i as int);
        let ghost more = found_views(found@).subrange(0, i + 1);
        hashes.insert(found[i].1);
        proof {
            let value = found@[i as int].1@;
            assert forall|other: Seq<u8>|
                values_of(more).contains(other) == values_of(seen).insert(value).contains(other) by {
                if values_of(seen).contains(other) {
                    let k = choose|k: int| 0 <= k < seen.len() && (#[trigger] seen[k]).1 == other;
                    assert(more[k].1 == other);
                }
                assert(more[i as int].1 == value);
                if values_of(more).contains(other) {
                    let k = choose|k: int| 0 <= k < more.len() && (#[trigger] more[k]).1 == other;
                    if k < i {
                        assert(seen[k].1 == other);
                    }
                }
            }
            assert(values_of(more) =~= values_of(seen).insert(value));
        }
        i = i + 1;
    }
    assert(found_views(found@).subrange(0, found@.len() as int) =~= found_views(found@));
    Ok(hashes)
}

/// Collect the value of every leaf that is visible at the tip, with the tip.
pub fn collect_leaf_value_hashes<T: MarfTrieId, S: TrieReadStorage<T>>(storage: &S, tip: &T) -> (out:
    Result<(T, LeafHashes), Error>)
    ensures
        forall|forest: Forest| #[trigger]
            shows(storage, forest) ==> match forest.leaves(tip.id_bytes()) {
                Ok(leaves) => out matches Ok((at, hashes)) && at.id_bytes() == tip.id_bytes()
                    && hashes@ == values_of(leaves),
                Err(fault) => out matches Err(e) && fault_of(e) == fault,
            },
{
    match collect_canonical_leaf_hashes(storage, tip) {
        Ok(hashes) => Ok((copy_id(tip), hashes)),
        Err(e) => Err(e),
    }
}

/// A row is copied exactly if its key is the value of some leaf, for every row whose key decodes and
/// whose texts are UTF-8.
pub proof fn law_referenced_rows_are_copied(row: Seq<Column>, leaves: Seq<FoundLeaf>)
    requires
        row.len() > 0,
        key_of(row[0]) is Ok,
        row_copies(row, row.len() as int),
    ensures
        row_outcome(row, values_of(leaves)) == Ok::<Option<Seq<Column>>, Error>(
            if exists|i: int| 0 <= i < leaves.len() && (#[trigger] leaves[i]).1 == key_of(row[0])->Ok_0 {
                Some(row)
            } else {
                None
            },
        ),
{
}

} // verus!
