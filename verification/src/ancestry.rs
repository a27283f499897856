//! Compact, fork-specific ancestry links for the optional direct-hash sidecar.
use vstd::prelude::*;

use crate::words::{le_bytes, le_value, lemma_le_len, lemma_le_roundtrip, lemma_spans, push_le, read_le, to_array};

verus! {

/// Byte width of the ancestry extension to a direct-hash record.
pub const ENCODED_SIZE: usize = 16;

/// Bound malformed traversals independently of database or chain size.
pub const MAX_STEPS: usize = 1024;

/// Marker distinguishing a known genesis from missing ancestry metadata.
const VALID: u32 = 1;

/// An immutable block's height and two older local IDs on its own fork.
#[derive(Clone, Copy, Debug, Eq, PartialEq, Structural)]
pub struct Ancestry {
    /// Height in the MARF domain, independent of the local row ID.
    pub height: u32,
    /// Immediate parent's local ID; zero only at genesis.
    pub parent: u32,
    /// Ancestor at `height & (height - 1)`; zero only at genesis.
    pub skip: u32,
}

/// Height reached by clearing the lowest set bit.
pub open spec fn skip_height_spec(height: u32) -> u32 {
    if height == 0 {
        0
    } else {
        height & ((height - 1) as u32)
    }
}

/// The reader returns exactly what the table holds.
pub open spec fn agrees<F: Fn(u32) -> Option<Ancestry>>(
    read: F,
    table: spec_fn(u32) -> Option<Ancestry>,
) -> bool {
    forall|at: u32, found: Option<Ancestry>|
        #[trigger] call_ensures(read, (at,), found) ==> found == table(at)
}

/// Climb from `id`, whose record is `record`, to the ancestor at height `target`.
pub open spec fn climb(
    table: spec_fn(u32) -> Option<Ancestry>,
    id: u32,
    record: Ancestry,
    target: u32,
    fuel: nat,
) -> Option<u32>
    decreases fuel,
{
    if fuel == 0 {
        None
    } else if record.height == target {
        Some(id)
    } else {
        let skipped = skip_height_spec(record.height);
        let by_skip = skipped >= target;
        let next = if by_skip {
            record.skip
        } else {
            record.parent
        };
        let expected = if by_skip {
            skipped as int
        } else {
            record.height - 1
        };
        if next == 0 || next >= id {
            None
        } else {
            match table(next) {
                None => None,
                Some(found) => if found.height != expected {
                    None
                } else {
                    climb(table, next, found, target, (fuel - 1) as nat)
                },
            }
        }
    }
}

/// The local ID of the ancestor at height `target`, as far as the table's links reach it.
pub open spec fn ancestor_spec(
    table: spec_fn(u32) -> Option<Ancestry>,
    id: u32,
    target: u32,
) -> Option<u32> {
    match table(id) {
        None => None,
        Some(record) => if target > record.height {
            None
        } else {
            climb(table, id, record, target, MAX_STEPS as nat)
        },
    }
}

/// Height reached by clearing the lowest set bit; every non-genesis link decreases height.
pub fn skip_height(height: u32) -> (skipped: u32)
    ensures
        skipped == skip_height_spec(height),
        height > 0 ==> skipped < height,
{
    if height == 0 {
        return 0;
    }
    assert(height > 0 ==> height & ((height - 1) as u32) < height) by (bit_vector);
    height & (height - 1)
}

/// Resolve a height on the starting block's fork, without a global height-to-ID assumption.
/// Missing or malformed metadata requests authoritative MARF fallback.
pub fn ancestor(id: u32, target: u32, read: impl Fn(u32) -> Option<Ancestry>) -> (found: Option<u32>)
    requires
        forall|at: u32| call_requires(read, (at,)),
    ensures
        forall|table: spec_fn(u32) -> Option<Ancestry>| #[trigger]
            agrees(read, table) ==> found == ancestor_spec(table, id, target),
{
    let mut record: Ancestry = match read(id) {
        Some(record) => record,
        None => return None,
    };
    if target > record.height {
        return None;
    }
    let mut at: u32 = id;
    let mut step: usize = 0;
    while step < MAX_STEPS
        invariant
            step <= MAX_STEPS,
            target <= record.height,
            forall|at: u32| call_requires(read, (at,)),
            forall|table: spec_fn(u32) -> Option<Ancestry>| #[trigger]
                agrees(read, table) ==> ancestor_spec(table, id, target) == climb(
                    table,
                    at,
                    record,
                    target,
                    (MAX_STEPS - step) as nat,
                ),
        decreases MAX_STEPS - step,
    {
        if record.height == target {
            return Some(at);
        }
        let skipped: u32 = skip_height(record.height);
        let by_skip = skipped >= target;
        let next: u32 = if by_skip { record.skip } else { record.parent };
        let expected: u32 = if by_skip { skipped } else { record.height - 1 };
        if next == 0 || next >= at {
            return None;
        }
        let found: Ancestry = match read(next) {
            Some(found) => found,
            None => return None,
        };
        if found.height != expected {
            return None;
        }
        at = next;
        record = found;
        step = step + 1;
    }
    None
}

impl Ancestry {
    /// The record of a trie without a parent.
    pub open spec fn genesis_spec() -> Self {
        Ancestry { height: 0, parent: 0, skip: 0 }
    }

    /// The links that a record published under `id` can have.
    pub open spec fn linked(self, id: u32) -> bool {
        &&& id > 0
        &&& if self.height == 0 {
            self.parent == 0 && self.skip == 0
        } else {
            0 < self.parent < id && 0 < self.skip <= self.parent
        }
    }

    /// The record's four little-endian words.
    pub open spec fn encode_spec(self) -> Seq<u8> {
        le_bytes(self.height as nat, 4) + le_bytes(self.parent as nat, 4) + le_bytes(
            self.skip as nat,
            4,
        ) + le_bytes(1, 4)
    }

    /// The record that `bytes` hold for `id`, if they hold one.
    pub open spec fn decode_spec(id: u32, bytes: Seq<u8>) -> Option<Self> {
        if bytes.len() != 16 || word_at(bytes, 12) != 1 {
            None
        } else {
            let record = Ancestry {
                height: word_at(bytes, 0) as u32,
                parent: word_at(bytes, 4) as u32,
                skip: word_at(bytes, 8) as u32,
            };
            if record.linked(id) {
                Some(record)
            } else {
                None
            }
        }
    }

    /// The record of a block whose parent is `parent`.
    pub open spec fn child_spec(
        table: spec_fn(u32) -> Option<Ancestry>,
        id: u32,
        parent: u32,
    ) -> Option<Self> {
        if parent == 0 || parent >= id {
            None
        } else {
            match table(parent) {
                None => None,
                Some(record) => if record.height == u32::MAX {
                    None
                } else {
                    let height = (record.height + 1) as u32;
                    match ancestor_spec(table, parent, skip_height_spec(height)) {
                        None => None,
                        Some(skip) => Some(Ancestry { height, parent, skip }),
                    }
                },
            }
        }
    }

    /// Describe a genesis trie without a parent.
    pub fn genesis() -> (record: Self)
        ensures
            record == Self::genesis_spec(),
    {
        Ancestry { height: 0, parent: 0, skip: 0 }
    }

    /// Decode a known record, rejecting unknown flags and impossible local links.
    pub fn decode(id: u32, bytes: &[u8]) -> (record: Option<Self>)
        ensures
            record == Self::decode_spec(id, bytes@),
    {
        if bytes.len() != ENCODED_SIZE {
            return None;
        }
        proof {
            lemma_spans();
        }
        let height: u32 = read_le(bytes, 0, 4) as u32;
        let parent: u32 = read_le(bytes, 4, 4) as u32;
        let skip: u32 = read_le(bytes, 8, 4) as u32;
        let flag: u32 = read_le(bytes, 12, 4) as u32;
        if id == 0 || flag != VALID {
            return None;
        }
        let record = Ancestry { height, parent, skip };
        let sound = if height == 0 {
            parent == 0 && skip == 0
        } else {
            parent > 0 && parent < id && skip > 0 && skip <= parent
        };
        if sound {
            Some(record)
        } else {
            None
        }
    }

    /// Serialize four little-endian words without alignment or padding requirements.
    pub fn encode(self) -> (bytes: [u8; ENCODED_SIZE])
        ensures
            bytes@ == self.encode_spec(),
    {
        let mut out: Vec<u8> = Vec::with_capacity(ENCODED_SIZE);
        push_le(&mut out, self.height as u64, 4);
        push_le(&mut out, self.parent as u64, 4);
        push_le(&mut out, self.skip as u64, 4);
        push_le(&mut out, VALID as u64, 4);
        proof {
            lemma_le_len(self.height as nat, 4);
            lemma_le_len(self.parent as nat, 4);
            lemma_le_len(self.skip as nat, 4);
            lemma_le_len(1, 4);
            assert(out@ =~= self.encode_spec());
        }
        to_array::<ENCODED_SIZE>(out.as_slice())
    }

    /// Derive links from an older parent whose complete ancestry is admitted.
    pub fn child(id: u32, parent: u32, read: impl Fn(u32) -> Option<Self>) -> (record: Option<Self>)
        requires
            forall|at: u32| call_requires(read, (at,)),
        ensures
            forall|table: spec_fn(u32) -> Option<Ancestry>| #[trigger]
                agrees(read, table) ==> record == Self::child_spec(table, id, parent),
    {
        if parent == 0 || parent >= id {
            return None;
        }
        let found: Ancestry = match read(parent) {
            Some(found) => found,
            None => return None,
        };
        if found.height == u32::MAX {
            return None;
        }
        let height: u32 = found.height + 1;
        match ancestor(parent, skip_height(height), read) {
            Some(skip) => Some(Ancestry { height, parent, skip }),
            None => None,
        }
    }
}

/// The little-endian word at `at`.
pub open spec fn word_at(bytes: Seq<u8>, at: int) -> nat {
    le_value(bytes.subrange(at, at + 4))
}

/// Follow parent links from `id` down to height `target`.
pub open spec fn parent_walk(
    table: spec_fn(u32) -> Option<Ancestry>,
    id: u32,
    target: u32,
) -> u32
    decreases id,
{
    match table(id) {
        Some(record) => if record.height > target && record.parent < id {
            parent_walk(table, record.parent, target)
        } else {
            id
        },
        None => id,
    }
}

/// Every record's parent is on record one height below, and its skip link is where its parents lead.
pub open spec fn consistent(table: spec_fn(u32) -> Option<Ancestry>) -> bool {
    forall|id: u32| #![trigger table(id)]
        table(id) is Some ==> {
            let record = table(id)->0;
            &&& record.linked(id)
            &&& record.height > 0 ==> {
                &&& table(record.parent) is Some
                &&& table(record.parent)->0.height == record.height - 1
                &&& record.skip == parent_walk(table, id, skip_height_spec(record.height))
            }
        }
}

/// Encoding a publishable record and decoding it gives the record back.
pub proof fn law_decode_inverts_encode(id: u32, record: Ancestry)
    requires
        record.linked(id),
    ensures
        Ancestry::decode_spec(id, record.encode_spec()) == Some(record),
{
    lemma_spans();
    lemma_le_len(record.height as nat, 4);
    lemma_le_len(record.parent as nat, 4);
    lemma_le_len(record.skip as nat, 4);
    lemma_le_len(1, 4);
    lemma_le_roundtrip(record.height as nat, 4);
    lemma_le_roundtrip(record.parent as nat, 4);
    lemma_le_roundtrip(record.skip as nat, 4);
    lemma_le_roundtrip(1, 4);
    let bytes = record.encode_spec();
    assert(bytes.subrange(0, 4) =~= le_bytes(record.height as nat, 4));
    assert(bytes.subrange(4, 8) =~= le_bytes(record.parent as nat, 4));
    assert(bytes.subrange(8, 12) =~= le_bytes(record.skip as nat, 4));
    assert(bytes.subrange(12, 16) =~= le_bytes(1, 4));
}

/// A record takes sixteen bytes.
pub proof fn lemma_encode_len(record: Ancestry)
    ensures
        record.encode_spec().len() == 16,
{
    lemma_le_len(record.height as nat, 4);
    lemma_le_len(record.parent as nat, 4);
    lemma_le_len(record.skip as nat, 4);
    lemma_le_len(1, 4);
}

/// Sixteen zeros hold no record.
pub proof fn lemma_zeros_are_no_record(id: u32)
    ensures
        Ancestry::decode_spec(id, Seq::new(16, |i: int| 0u8)) is None,
{
    let bytes = Seq::new(16, |i: int| 0u8);
    let word = bytes.subrange(12, 16);
    lemma_spans();
    lemma_le_roundtrip(0, 4);
    lemma_le_len(0, 4);
    reveal_with_fuel(le_bytes, 5);
    assert(word =~= le_bytes(0, 4));
}

/// Walking to a lower height passes through every height in between.
proof fn lemma_walk_splits(
    table: spec_fn(u32) -> Option<Ancestry>,
    id: u32,
    middle: u32,
    target: u32,
)
    requires
        consistent(table),
        table(id) is Some,
        target <= middle <= table(id)->0.height,
    ensures
        table(parent_walk(table, id, middle)) is Some,
        table(parent_walk(table, id, middle))->0.height == middle,
        parent_walk(table, id, middle) <= id,
        middle < table(id)->0.height ==> parent_walk(table, id, middle) <= table(id)->0.parent,
        parent_walk(table, parent_walk(table, id, middle), target) == parent_walk(
            table,
            id,
            target,
        ),
        parent_walk(table, id, middle) > 0,
    decreases id,
{
    let record = table(id)->0;
    if record.height > middle {
        lemma_walk_splits(table, record.parent, middle, target);
    }
}

/// Climbing a consistent table reaches the parents' answer if the fuel lasts.
proof fn lemma_climb_follows_parents(
    table: spec_fn(u32) -> Option<Ancestry>,
    id: u32,
    target: u32,
    fuel: nat,
)
    requires
        consistent(table),
        table(id) is Some,
        target <= table(id)->0.height,
        climb_steps(table(id)->0.height as nat, target as nat) < fuel,
    ensures
        climb(table, id, table(id)->0, target, fuel) == Some(parent_walk(table, id, target)),
    decreases fuel,
{
    let record = table(id)->0;
    if record.height != target {
        let skipped = skip_height_spec(record.height);
        lemma_skip_is_low_clear(record.height);
        lemma_low_clear_less(record.height as nat);
        if skipped >= target {
            lemma_walk_splits(table, id, skipped, target);
            lemma_climb_follows_parents(table, record.skip, target, (fuel - 1) as nat);
        } else {
            lemma_walk_splits(table, id, (record.height - 1) as u32, target);
            assert(parent_walk(table, record.parent, (record.height - 1) as u32) == record.parent);
            lemma_climb_follows_parents(table, record.parent, target, (fuel - 1) as nat);
        }
    }
}

/// In a consistent table, the skip links answer every height query exactly as the parents do.
pub proof fn law_ancestor_matches_parent_walk(
    table: spec_fn(u32) -> Option<Ancestry>,
    id: u32,
    target: u32,
)
    requires
        consistent(table),
        table(id) is Some,
        target <= table(id)->0.height,
    ensures
        ancestor_spec(table, id, target) == Some(parent_walk(table, id, target)),
        table(parent_walk(table, id, target)) is Some,
        table(parent_walk(table, id, target))->0.height == target,
{
    law_lookup_work_is_bounded(table(id)->0.height, target);
    lemma_climb_follows_parents(table, id, target, MAX_STEPS as nat);
    lemma_walk_splits(table, id, target, target);
}

/// Appending a derived child under a fresh local ID keeps a table consistent.
pub proof fn law_child_keeps_table_consistent(
    table: spec_fn(u32) -> Option<Ancestry>,
    id: u32,
    parent: u32,
)
    requires
        consistent(table),
        table(id) is None,
        Ancestry::child_spec(table, id, parent) is Some,
    ensures
        consistent(
            |at: u32|
                if at == id {
                    Ancestry::child_spec(table, id, parent)
                } else {
                    table(at)
                },
        ),
{
    let record = Ancestry::child_spec(table, id, parent)->0;
    let grown = |at: u32|
        if at == id {
            Ancestry::child_spec(table, id, parent)
        } else {
            table(at)
        };
    let up = skip_height_spec(record.height);
    lemma_skip_is_low_clear(record.height);
    lemma_low_clear_less(record.height as nat);
    law_ancestor_matches_parent_walk(table, parent, up);
    lemma_walk_splits(table, parent, up, up);
    assert forall|at: u32| #![trigger grown(at)] grown(at) is Some implies {
        let found = grown(at)->0;
        &&& found.linked(at)
        &&& found.height > 0 ==> {
            &&& grown(found.parent) is Some
            &&& grown(found.parent)->0.height == found.height - 1
            &&& found.skip == parent_walk(grown, at, skip_height_spec(found.height))
        }
    } by {
        let found = grown(at)->0;
        if at == id {
            lemma_walk_unaffected(table, grown, id, parent, up);
            assert(parent_walk(grown, id, up) == parent_walk(grown, parent, up));
        } else {
            assert(table(at) is Some);
            if found.height > 0 {
                lemma_walk_unaffected(table, grown, id, at, skip_height_spec(found.height));
            }
        }
    }
}

/// A fresh local ID without a record, with the first record of a fork, or with a derived child keeps
/// a table consistent.
pub proof fn lemma_new_record_keeps_consistent(
    table: spec_fn(u32) -> Option<Ancestry>,
    id: u32,
    record: Option<Ancestry>,
    grown: spec_fn(u32) -> Option<Ancestry>,
)
    requires
        consistent(table),
        id > 0,
        table(id) is None,
        forall|at: u32| #[trigger]
            grown(at) == if at == id {
                record
            } else {
                table(at)
            },
        record is None || record == Some(Ancestry::genesis_spec()) || exists|parent: u32|
            record == #[trigger] Ancestry::child_spec(table, id, parent),
    ensures
        consistent(grown),
{
    if record is Some && record != Some(Ancestry::genesis_spec()) {
        let parent = choose|parent: u32| record == #[trigger] Ancestry::child_spec(
            table,
            id,
            parent,
        );
        law_child_keeps_table_consistent(table, id, parent);
        let same = |at: u32|
            if at == id {
                Ancestry::child_spec(table, id, parent)
            } else {
                table(at)
            };
        assert(grown =~= same);
    } else {
        assert forall|at: u32| #![trigger grown(at)] grown(at) is Some implies {
            let found = grown(at)->0;
            &&& found.linked(at)
            &&& found.height > 0 ==> {
                &&& grown(found.parent) is Some
                &&& grown(found.parent)->0.height == found.height - 1
                &&& found.skip == parent_walk(grown, at, skip_height_spec(found.height))
            }
        } by {
            let found = grown(at)->0;
            if at != id {
                assert(table(at) is Some);
                if found.height > 0 {
                    lemma_walk_unaffected(table, grown, id, at, skip_height_spec(found.height));
                }
            }
        }
    }
}

/// A walk never visits a local ID that has no record.
proof fn lemma_walk_unaffected(
    table: spec_fn(u32) -> Option<Ancestry>,
    grown: spec_fn(u32) -> Option<Ancestry>,
    fresh: u32,
    id: u32,
    target: u32,
)
    requires
        consistent(table),
        table(fresh) is None,
        table(id) is Some,
        forall|at: u32| at != fresh ==> #[trigger] grown(at) == table(at),
    ensures
        parent_walk(grown, id, target) == parent_walk(table, id, target),
    decreases id,
{
    let record = table(id)->0;
    assert(grown(id) == table(id));
    if record.height > target {
        lemma_walk_unaffected(table, grown, fresh, record.parent, target);
    }
}

/// The number without its lowest set bit.
pub open spec fn low_clear(n: nat) -> nat
    decreases n,
{
    if n == 0 {
        0
    } else if n % 2 == 1 {
        (n - 1) as nat
    } else {
        2 * low_clear(n / 2)
    }
}

/// Links followed between two heights.
pub open spec fn climb_steps(height: nat, target: nat) -> nat
    decreases height,
{
    if height <= target {
        0
    } else if low_clear(height) >= target && low_clear(height) < height {
        1 + climb_steps(low_clear(height), target)
    } else {
        1 + climb_steps((height - 1) as nat, target)
    }
}

/// Set bits of a number.
spec fn ones(n: nat) -> nat
    decreases n,
{
    if n == 0 {
        0
    } else {
        n % 2 + ones(n / 2)
    }
}

spec fn pow2(n: nat) -> nat
    decreases n,
{
    if n == 0 {
        1
    } else {
        2 * pow2((n - 1) as nat)
    }
}

spec fn step_bound(bits: nat) -> nat
    decreases bits,
{
    if bits == 0 {
        0
    } else {
        bits + step_bound((bits - 1) as nat)
    }
}

proof fn lemma_skip_is_low_clear(height: u32)
    ensures
        skip_height_spec(height) == low_clear(height as nat),
    decreases height,
{
    if height > 0 {
        if height % 2 == 1 {
            assert(height & sub_one(height) == sub_one(height)) by (bit_vector)
                requires
                    height % 2 == 1,
            ;
        } else {
            let half = height / 2;
            lemma_skip_is_low_clear(half);
            assert(height & sub_one(height) == 2 * (half & sub_one(half))) by (bit_vector)
                requires
                    height > 0,
                    height % 2 == 0,
                    half == height / 2,
            ;
        }
    }
}

spec fn sub_one(n: u32) -> u32 {
    (n - 1) as u32
}

proof fn lemma_low_clear_less(n: nat)
    ensures
        n > 0 ==> low_clear(n) < n,
    decreases n,
{
    if n > 0 && n % 2 == 0 {
        lemma_low_clear_less(n / 2);
    }
}

proof fn lemma_ones_after_clear(n: nat)
    requires
        n > 0,
    ensures
        ones(low_clear(n)) + 1 == ones(n),
    decreases n,
{
    if n % 2 == 1 {
        let even = (n - 1) as nat;
        assert(even / 2 == n / 2);
        if even > 0 {
            assert(ones(even) == even % 2 + ones(even / 2));
        } else {
            assert(n / 2 == 0);
        }
    } else {
        lemma_ones_after_clear(n / 2);
        let cleared = low_clear(n / 2);
        assert((2 * cleared) / 2 == cleared);
        if cleared > 0 {
            assert(ones(2 * cleared) == (2 * cleared) % 2 + ones((2 * cleared) / 2));
        }
    }
}

proof fn lemma_ones_bound(n: nat, bits: nat)
    requires
        n < pow2(bits),
    ensures
        ones(n) <= bits,
    decreases bits,
{
    if n > 0 {
        lemma_ones_bound(n / 2, (bits - 1) as nat);
    }
}

/// Clearing the lowest bit leaves a higher bit alone.
proof fn lemma_clear_below_top(n: nat, bits: nat)
    requires
        0 < n < pow2(bits),
    ensures
        low_clear(pow2(bits) + n) == pow2(bits) + low_clear(n),
    decreases bits,
{
    let top = pow2(bits);
    assert(top % 2 == 0 && top / 2 == pow2((bits - 1) as nat));
    if n % 2 == 0 {
        lemma_clear_below_top(n / 2, (bits - 1) as nat);
        assert((top + n) / 2 == top / 2 + n / 2);
    }
}

proof fn lemma_clear_top(bits: nat)
    ensures
        low_clear(pow2(bits)) == 0,
        pow2(bits) > 0,
    decreases bits,
{
    if bits > 0 {
        lemma_clear_top((bits - 1) as nat);
        assert(pow2(bits) / 2 == pow2((bits - 1) as nat));
    }
}

/// Heights that share their top bit are as far apart as without it.
proof fn lemma_steps_drop_top(height: nat, target: nat, bits: nat)
    requires
        target <= height < pow2(bits),
    ensures
        climb_steps(pow2(bits) + height, pow2(bits) + target) == climb_steps(height, target),
    decreases height,
{
    if height > target {
        lemma_clear_below_top(height, bits);
        lemma_low_clear_less(height);
        lemma_low_clear_less(pow2(bits) + height);
        let top = pow2(bits);
        if low_clear(height) >= target {
            lemma_steps_drop_top(low_clear(height), target, bits);
        } else {
            lemma_steps_drop_top((height - 1) as nat, target, bits);
            assert(top + height - 1 == top + (height - 1) as nat);
        }
    }
}

/// From above a power of two, the low bits clear one by one before the climb goes below it.
proof fn lemma_steps_to_top(rest: nat, target: nat, bits: nat)
    requires
        rest < pow2(bits),
        target < pow2(bits),
    ensures
        climb_steps(pow2(bits) + rest, target) <= ones(rest) + 1 + step_bound(bits),
    decreases bits, 1nat, rest,
{
    let top = pow2(bits);
    lemma_low_clear_less(top + rest);
    if rest > 0 {
        lemma_clear_below_top(rest, bits);
        lemma_low_clear_less(rest);
        lemma_ones_after_clear(rest);
        lemma_steps_to_top(low_clear(rest), target, bits);
    } else {
        lemma_clear_top(bits);
        lemma_steps_bound((top - 1) as nat, target, bits);
        if target == 0 {
            assert(climb_steps(0, 0) == 0);
        }
    }
}

proof fn lemma_steps_bound(height: nat, target: nat, bits: nat)
    requires
        target <= height < pow2(bits),
    ensures
        climb_steps(height, target) <= step_bound(bits),
    decreases bits, 0nat, height,
{
    if bits > 0 {
        let lower = (bits - 1) as nat;
        let top = pow2(lower);
        if height < top {
            lemma_steps_bound(height, target, lower);
        } else if target >= top {
            lemma_steps_drop_top((height - top) as nat, (target - top) as nat, lower);
            lemma_steps_bound((height - top) as nat, (target - top) as nat, lower);
        } else {
            lemma_ones_bound((height - top) as nat, lower);
            lemma_steps_to_top((height - top) as nat, target, lower);
        }
    }
}

/// Every height query over a consistent table follows fewer links than the traversal bound.
pub proof fn law_lookup_work_is_bounded(height: u32, target: u32)
    requires
        target <= height,
    ensures
        climb_steps(height as nat, target as nat) < MAX_STEPS,
{
    assert(pow2(32) == 0x1_0000_0000) by {
        reveal_with_fuel(pow2, 33);
    }
    assert(step_bound(32) == 528) by {
        reveal_with_fuel(step_bound, 33);
    }
    lemma_steps_bound(height as nat, target as nat, 32);
}

} // verus!
