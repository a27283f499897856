//! Direct fixed-width child columns preserving logical slots and squash annotations.
//!
//! ```text
//! path | widths | occupancy | selectors | kind nibbles | origin bitmap | targets | origins
//! ```
//! Widths are per node. Targets use 2/3/4/8 bytes; origins use 1/2/3/4 bytes.
//! Node48 selectors are six-bit original slots, with 63 denoting absence.
use vstd::prelude::*;

use crate::bitmap::{
    bit_at, bitmap_of, column_of, column_value, dirty_padding, has_dirty_padding, lemma_rank_bounds,
    nibble, nibble_at, nibbles_of, pack_bits, pack_nibbles, pack_sextets, push_column, rank,
    rank_at, sextet, sextet_at, sextets_of, slot_bit,
};
use crate::error::{corrupt, Corruption, Error};
use crate::leaf::{Node, TrieNodeType};
use crate::mapped_node::{path_prefix, path_prefix_spec};
use crate::node::{Branch, TrieBranch, TrieNodeID, TrieNodeTransientMeta, TriePtr};
use crate::path::{framed, NodePath};
use crate::slots::{
    lemma_occupied_len, lemma_occupied_source, occupancy, occupancy_of, occupied, occupied_of,
    place,
};
use crate::words::{lemma_spans, push_bytes, read_le};

verus! {

/// Number of edge selector bytes for a given occupancy.
pub open spec fn selector_len_spec(slots: nat, count: nat) -> nat {
    if slots == 4 || slots == 16 {
        count
    } else if slots == 48 {
        192
    } else {
        0
    }
}

/// Target widths by code.
pub open spec fn coded_target_width(code: int) -> nat {
    if code == 0 {
        2
    } else if code == 1 {
        3
    } else if code == 2 {
        4
    } else {
        8
    }
}

/// Whether an edge selects two children.
pub open spec fn repeats(selectors: Seq<u8>) -> bool {
    exists|i: int, j: int| 0 <= i < j < selectors.len() && selectors[i] == selectors[j]
}

/// The first position of `chr` from `from` on.
pub open spec fn position(selectors: Seq<u8>, chr: u8, from: int) -> Option<int>
    decreases selectors.len() - from,
{
    if from < 0 || from >= selectors.len() {
        None
    } else if selectors[from] == chr {
        Some(from)
    } else {
        position(selectors, chr, from + 1)
    }
}

/// Positions are in range, match, and are the first to do so.
pub proof fn lemma_position(selectors: Seq<u8>, chr: u8, from: int)
    requires
        0 <= from,
    ensures
        match position(selectors, chr, from) {
            Some(i) => from <= i < selectors.len() && selectors[i] == chr && (forall|j: int|
                from <= j < i ==> selectors[j] != chr),
            None => forall|j: int| from <= j < selectors.len() ==> selectors[j] != chr,
        },
    decreases selectors.len() - from,
{
    if from < selectors.len() {
        lemma_position(selectors, chr, from + 1);
    }
}

/// The columns of one packed branch.
#[verifier::ext_equal]
pub struct Columns {
    pub id: TrieNodeID,
    pub path: Seq<u8>,
    pub occupancy: Seq<u8>,
    pub selectors: Seq<u8>,
    pub kinds: Seq<u8>,
    pub origin_bitmap: Seq<u8>,
    pub targets: Seq<u8>,
    pub origins: Seq<u8>,
    pub target_width: nat,
    pub origin_width: nat,
    pub length: nat,
}

/// Occupancy and selectors of a packed branch.
#[verifier::ext_equal]
pub struct ColumnHead {
    pub occupancy: Seq<u8>,
    pub selectors: Seq<u8>,
    pub count: nat,
    pub end: int,
}

impl ColumnHead {
    /// The occupancy and selectors from `start` on.
    pub open spec fn parse(id: TrieNodeID, bytes: Seq<u8>, start: int) -> Result<
        ColumnHead,
        Error,
    > {
        let slots = id.slots();
        let a1 = start + (slots as int + 7) / 8;
        if a1 > bytes.len() {
            Err(Error::CorruptionError(Corruption::TruncatedColumn))
        } else {
            let occupancy = bytes.subrange(start, a1);
            let count = rank(occupancy, slots);
            let a2 = a1 + selector_len_spec(slots, count) as int;
            if dirty_padding(occupancy, slots) {
                Err(Error::CorruptionError(Corruption::NonzeroBitmapPadding))
            } else if a2 > bytes.len() {
                Err(Error::CorruptionError(Corruption::TruncatedColumn))
            } else if slots <= 16 && repeats(bytes.subrange(a1, a2)) {
                Err(Error::CorruptionError(Corruption::DuplicateSelector))
            } else {
                Ok(ColumnHead { occupancy, selectors: bytes.subrange(a1, a2), count, end: a2 })
            }
        }
    }
}

/// Kinds and origin bitmap of a packed branch.
#[verifier::ext_equal]
pub struct ColumnMiddle {
    pub kinds: Seq<u8>,
    pub origin_bitmap: Seq<u8>,
    pub end: int,
}

impl ColumnMiddle {
    /// The kinds and origin bitmap behind the selectors.
    pub open spec fn parse(head: ColumnHead, bytes: Seq<u8>) -> Result<ColumnMiddle, Error> {
        let count = head.count;
        let a3 = head.end + (count as int + 1) / 2;
        let a4 = a3 + (count as int + 7) / 8;
        if a3 > bytes.len() {
            Err(Error::CorruptionError(Corruption::TruncatedColumn))
        } else {
            let kinds = bytes.subrange(head.end, a3);
            if count % 2 != 0 && kinds[count as int / 2] >= 16 {
                Err(Error::CorruptionError(Corruption::NonzeroKindPadding))
            } else if a4 > bytes.len() {
                Err(Error::CorruptionError(Corruption::TruncatedColumn))
            } else if dirty_padding(bytes.subrange(a3, a4), count) {
                Err(Error::CorruptionError(Corruption::NonzeroBitmapPadding))
            } else {
                Ok(ColumnMiddle { kinds, origin_bitmap: bytes.subrange(a3, a4), end: a4 })
            }
        }
    }
}

impl Columns {
    /// Occupied slots.
    pub open spec fn count(self) -> nat {
        rank(self.occupancy, self.id.slots())
    }

    /// Whether the columns have the lengths that the occupancy asks for.
    pub open spec fn wf(self) -> bool {
        &&& self.id.is_branch()
        &&& self.path.len() <= 32
        &&& self.occupancy.len() == (self.id.slots() + 7) / 8
        &&& self.selectors.len() == selector_len_spec(self.id.slots(), self.count())
        &&& self.kinds.len() == (self.count() + 1) / 2
        &&& self.origin_bitmap.len() == (self.count() + 7) / 8
        &&& self.targets.len() == self.count() * self.target_width
        &&& self.origins.len() == rank(self.origin_bitmap, self.count()) * self.origin_width
        &&& (self.target_width == 2 || self.target_width == 3 || self.target_width == 4
            || self.target_width == 8)
        &&& 1 <= self.origin_width <= 4
    }

    /// The columns that `bytes` start with.
    #[verifier::opaque]
    pub open spec fn parse(id: TrieNodeID, bytes: Seq<u8>) -> Result<Columns, Error> {
        if !id.is_branch() {
            Err(Error::CorruptionError(Corruption::ExpectedBranch))
        } else {
            match path_prefix_spec(bytes) {
                Err(e) => Err(e),
                Ok(path) => if 1 + path.len() >= bytes.len() {
                    Err(Error::CorruptionError(Corruption::MissingWidths))
                } else if bytes[1 + path.len() as int] >= 16 {
                    Err(Error::CorruptionError(Corruption::UnsupportedWidths))
                } else {
                    Self::split(id, bytes, path, bytes[1 + path.len() as int])
                },
            }
        }
    }

    /// The columns behind the width byte.
    pub open spec fn split(id: TrieNodeID, bytes: Seq<u8>, path: Seq<u8>, widths: u8) -> Result<
        Columns,
        Error,
    > {
        match ColumnHead::parse(id, bytes, 2 + path.len() as int) {
            Err(e) => Err(e),
            Ok(head) => match ColumnMiddle::parse(head, bytes) {
                Err(e) => Err(e),
                Ok(middle) => Self::finish(id, bytes, path, widths, head, middle),
            },
        }
    }

    /// The targets and origins behind the other columns.
    pub open spec fn finish(
        id: TrieNodeID,
        bytes: Seq<u8>,
        path: Seq<u8>,
        widths: u8,
        head: ColumnHead,
        middle: ColumnMiddle,
    ) -> Result<Columns, Error> {
        let tw = coded_target_width(widths as int % 4);
        let ow = (widths as int / 4 + 1) as nat;
        let a4 = middle.end;
        let a5 = a4 + (head.count * tw) as int;
        let a6 = a5 + (rank(middle.origin_bitmap, head.count) * ow) as int;
        if a5 > bytes.len() || a6 > bytes.len() {
            Err(Error::CorruptionError(Corruption::TruncatedColumn))
        } else {
            Ok(
                Columns {
                    id,
                    path,
                    occupancy: head.occupancy,
                    selectors: head.selectors,
                    kinds: middle.kinds,
                    origin_bitmap: middle.origin_bitmap,
                    targets: bytes.subrange(a4, a5),
                    origins: bytes.subrange(a5, a6),
                    target_width: tw,
                    origin_width: ow,
                    length: a6 as nat,
                },
            )
        }
    }

    /// The pointer at a place of the columns, reached along `chr`.
    pub open spec fn pointer_at(self, index: int, chr: u8) -> Result<TriePtr, Error> {
        let kind = nibble(self.kinds, index);
        let id = kind % 8;
        let back = kind >= 8;
        let has_origin = slot_bit(self.origin_bitmap, index);
        if id < 1 || id > 5 {
            Err(Error::CorruptionError(Corruption::InvalidChildKind))
        } else if back && !has_origin {
            Err(Error::CorruptionError(Corruption::MissingOrigin))
        } else {
            Ok(
                TriePtr {
                    id: (if back {
                        id + 128
                    } else {
                        id
                    }) as u8,
                    chr,
                    ptr: column_value(self.targets, index, self.target_width as int) as u64,
                    back_block: if has_origin {
                        column_value(
                            self.origins,
                            rank(self.origin_bitmap, index as nat) as int,
                            self.origin_width as int,
                        ) as u32
                    } else {
                        0
                    },
                },
            )
        }
    }

    /// The place of the child along `chr`.
    pub open spec fn index_for(self, chr: u8) -> Result<Option<int>, Error> {
        match self.id {
            TrieNodeID::Node48 => {
                let slot = sextet(self.selectors, chr as int);
                if slot == 63 {
                    Ok(None)
                } else if slot >= 48 || !slot_bit(self.occupancy, slot) {
                    Err(Error::CorruptionError(Corruption::InvalidNode48Selector))
                } else {
                    Ok(Some(rank(self.occupancy, slot as nat) as int))
                }
            },
            TrieNodeID::Node256 => if !slot_bit(self.occupancy, chr as int) {
                Ok(None)
            } else {
                Ok(Some(rank(self.occupancy, chr as nat) as int))
            },
            _ => Ok(position(self.selectors, chr, 0)),
        }
    }

    /// The child along `chr`.
    pub open spec fn child(self, chr: u8) -> Result<Option<TriePtr>, Error> {
        match self.index_for(chr) {
            Err(e) => Err(e),
            Ok(None) => Ok(None),
            Ok(Some(index)) => match self.pointer_at(index, chr) {
                Err(e) => Err(e),
                Ok(ptr) => Ok(Some(ptr)),
            },
        }
    }

    /// Edges of the slots and slots of the edges, as far as the first `edges` selectors give them.
    pub open spec fn reversed(self, edges: nat) -> Result<(Seq<Option<u8>>, Seq<i8>), Error>
        decreases edges,
    {
        if edges == 0 {
            Ok((Seq::new(48, |i: int| None::<u8>), Seq::empty()))
        } else {
            match self.reversed((edges - 1) as nat) {
                Err(e) => Err(e),
                Ok((back, indexes)) => {
                    let slot = sextet(self.selectors, edges - 1);
                    if slot == 63 {
                        Ok((back, indexes.push(-1i8)))
                    } else if slot >= 48 || !slot_bit(self.occupancy, slot) || back[slot] is Some {
                        Err(Error::CorruptionError(Corruption::InvalidNode48ReverseSelector))
                    } else {
                        Ok(
                            (
                                back.update(slot, Some((edges - 1) as u8)),
                                indexes.push(slot as i8),
                            ),
                        )
                    }
                },
            }
        }
    }

    /// The edge that leads to an occupied slot.
    pub open spec fn edge_of(self, back: Seq<Option<u8>>, slot: int) -> Result<u8, Error> {
        match self.id {
            TrieNodeID::Node48 => match back[slot] {
                Some(edge) => Ok(edge),
                None => Err(Error::CorruptionError(Corruption::MissingNode48Selector)),
            },
            TrieNodeID::Node256 => Ok(slot as u8),
            _ => Ok(self.selectors[rank(self.occupancy, slot as nat) as int]),
        }
    }

    /// The first `slots` logical slots.
    pub open spec fn slots_back(self, back: Seq<Option<u8>>, slots: nat) -> Result<
        Seq<TriePtr>,
        Error,
    >
        decreases slots,
    {
        if slots == 0 {
            Ok(Seq::empty())
        } else {
            let slot = slots - 1;
            match self.slots_back(back, slot as nat) {
                Err(e) => Err(e),
                Ok(ptrs) => if !slot_bit(self.occupancy, slot) {
                    Ok(ptrs.push(TriePtr::vacant()))
                } else {
                    match self.edge_of(back, slot) {
                        Err(e) => Err(e),
                        Ok(edge) => match self.pointer_at(
                            rank(self.occupancy, slot as nat) as int,
                            edge,
                        ) {
                            Err(e) => Err(e),
                            Ok(ptr) => Ok(ptrs.push(ptr)),
                        },
                    }
                },
            }
        }
    }

    /// The branch with all its logical slots.
    #[verifier::opaque]
    pub open spec fn to_branch(self) -> Result<Branch, Error> {
        let reversed = if self.id is Node48 {
            self.reversed(256)
        } else {
            Ok((Seq::empty(), Seq::empty()))
        };
        match reversed {
            Err(e) => Err(e),
            Ok((back, indexes)) => match self.slots_back(back, self.id.slots()) {
                Err(e) => Err(e),
                Ok(ptrs) => Ok(Branch { id: self.id, path: self.path, ptrs, indexes }),
            },
        }
    }
}

/// Checked metadata and borrowed pointer columns for one branch.
#[derive(Clone, Copy, Debug)]
pub struct PackedBranch<'a> {
    /// Logical branch kind.
    id: TrieNodeID,
    /// Shared path prefix.
    path: &'a [u8],
    /// Occupied logical slots.
    occupancy: &'a [u8],
    /// Edge selectors, absent for Node256.
    selectors: &'a [u8],
    /// Logical kind and backpointer flag, two children per byte.
    kinds: &'a [u8],
    /// Origin presence in occupied-slot order, including squash annotations.
    origin_bitmap: &'a [u8],
    /// Directly indexed target offsets.
    targets: &'a [u8],
    /// Origins addressed by rank in the origin bitmap.
    origins: &'a [u8],
    /// Bytes per target.
    target_width: usize,
    /// Bytes per origin.
    origin_width: usize,
    /// Total encoded payload size.
    length: usize,
}

/// Whether an edge selects two children.
pub fn has_repeats(selectors: &[u8]) -> (found: bool)
    ensures
        found == repeats(selectors@),
{
    let mut i: usize = 0;
    while i < selectors.len()
        invariant
            i <= selectors.len(),
            forall|a: int, b: int| 0 <= a < b < i ==> selectors@[a] != selectors@[b],
        decreases selectors.len() - i,
    {
        let mut j: usize = 0;
        while j < i
            invariant
                j <= i < selectors.len(),
                forall|a: int| 0 <= a < j ==> selectors@[a] != selectors@[i as int],
            decreases i - j,
        {
            if selectors[j] == selectors[i] {
                assert(selectors@[j as int] == selectors@[i as int]);
                return true;
            }
            j = j + 1;
        }
        i = i + 1;
    }
    false
}

/// The first position of `chr`.
pub fn find_selector(selectors: &[u8], chr: u8) -> (at: Option<usize>)
    ensures
        match position(selectors@, chr, 0) {
            Some(i) => at matches Some(n) && n == i && n < selectors@.len(),
            None => at is None,
        },
{
    let mut i: usize = 0;
    while i < selectors.len()
        invariant
            i <= selectors.len(),
            position(selectors@, chr, 0) == position(selectors@, chr, i as int),
        decreases selectors.len() - i,
    {
        if selectors[i] == chr {
            return Some(i);
        }
        i = i + 1;
    }
    None
}

/// Number of edge selector bytes for a given occupancy.
fn selector_len(slots: usize, count: usize) -> (n: usize)
    requires
        count <= 256,
    ensures
        n == selector_len_spec(slots as nat, count as nat),
        n <= 256,
{
    if slots == 4 || slots == 16 {
        count
    } else if slots == 48 {
        192
    } else {
        0
    }
}

/// The next `length` bytes.
fn take<'a>(bytes: &'a [u8], cursor: usize, length: usize) -> (out: Result<&'a [u8], Error>)
    requires
        cursor <= bytes@.len(),
    ensures
        match out {
            Ok(part) => cursor + length <= bytes.len() && part@ == bytes@.subrange(
                cursor as int,
                cursor + length,
            ),
            Err(e) => cursor + length > bytes@.len() && e == Error::CorruptionError(
                Corruption::TruncatedColumn,
            ),
        },
{
    if bytes.len() - cursor < length {
        return Err(corrupt(Corruption::TruncatedColumn));
    }
    Ok(&bytes[cursor..cursor + length])
}

/// Find the occupancy, the selectors and the number of children.
fn split_head<'a>(id: TrieNodeID, bytes: &'a [u8], start: usize) -> (out: Result<
    (&'a [u8], &'a [u8], usize),
    Error,
>)
    requires
        id.is_branch(),
        start <= bytes@.len(),
    ensures
        match ColumnHead::parse(id, bytes@, start as int) {
            Ok(head) => out matches Ok((occ, sel, count)) && occ@ == head.occupancy && sel@
                == head.selectors && count == head.count && start + occ@.len() + sel@.len()
                == head.end && head.end <= bytes@.len() && count <= 256 && occ@.len() == (
            id.slots() + 7) / 8,
            Err(e) => out == Err::<(&'a [u8], &'a [u8], usize), Error>(e),
        },
{
    let slots: usize = id.capacity();
    let occupancy = match take(bytes, start, (slots + 7) / 8) {
        Ok(part) => part,
        Err(e) => return Err(e),
    };
    if has_dirty_padding(occupancy, slots) {
        return Err(corrupt(Corruption::NonzeroBitmapPadding));
    }
    let count: usize = rank_at(occupancy, slots);
    let selectors = match take(bytes, start + occupancy.len(), selector_len(slots, count)) {
        Ok(part) => part,
        Err(e) => return Err(e),
    };
    if slots <= 16 && has_repeats(selectors) {
        return Err(corrupt(Corruption::DuplicateSelector));
    }
    Ok((occupancy, selectors, count))
}

/// Find the kinds and the origin bitmap.
fn split_middle<'a>(bytes: &'a [u8], start: usize, count: usize, head: Ghost<ColumnHead>) -> (out:
    Result<(&'a [u8], &'a [u8]), Error>)
    requires
        start <= bytes@.len(),
        count <= 256,
        head@.count == count,
        head@.end == start,
    ensures
        match ColumnMiddle::parse(head@, bytes@) {
            Ok(middle) => out matches Ok((kinds, map)) && kinds@ == middle.kinds && map@
                == middle.origin_bitmap && start + kinds@.len() + map@.len() == middle.end
                && middle.end <= bytes@.len() && kinds@.len() == (count + 1) / 2 && map@.len() == (
            count + 7) / 8,
            Err(e) => out == Err::<(&'a [u8], &'a [u8]), Error>(e),
        },
{
    let kinds = match take(bytes, start, (count + 1) / 2) {
        Ok(part) => part,
        Err(e) => return Err(e),
    };
    if count % 2 != 0 && kinds[count / 2] >= 16 {
        return Err(corrupt(Corruption::NonzeroKindPadding));
    }
    let origin_bitmap = match take(bytes, start + kinds.len(), (count + 7) / 8) {
        Ok(part) => part,
        Err(e) => return Err(e),
    };
    if has_dirty_padding(origin_bitmap, count) {
        return Err(corrupt(Corruption::NonzeroBitmapPadding));
    }
    Ok((kinds, origin_bitmap))
}

impl<'a> PackedBranch<'a> {
    /// The columns.
    pub closed spec fn view(&self) -> Columns {
        Columns {
            id: self.id,
            path: self.path@,
            occupancy: self.occupancy@,
            selectors: self.selectors@,
            kinds: self.kinds@,
            origin_bitmap: self.origin_bitmap@,
            targets: self.targets@,
            origins: self.origins@,
            target_width: self.target_width as nat,
            origin_width: self.origin_width as nat,
            length: self.length as nat,
        }
    }

    #[verifier::type_invariant]
    spec fn sound(self) -> bool {
        self@.wf()
    }

    /// Validate bounded column metadata without materializing child pointers.
    pub fn parse(id: TrieNodeID, bytes: &'a [u8]) -> (branch: Result<Self, Error>)
        ensures
            match branch {
                Ok(b) => Columns::parse(id, bytes@) == Ok::<Columns, Error>(b@) && b@.wf()
                    && b@.length <= bytes@.len(),
                Err(e) => Columns::parse(id, bytes@) == Err::<Columns, Error>(e),
            },
    {
        proof {
            reveal(Columns::parse);
        }
        let slots: usize = id.capacity();
        if slots == 0 {
            return Err(corrupt(Corruption::ExpectedBranch));
        }
        let path = match path_prefix(bytes) {
            Ok(path) => path,
            Err(e) => return Err(e),
        };
        let at: usize = 1 + path.len();
        if at >= bytes.len() {
            return Err(corrupt(Corruption::MissingWidths));
        }
        let widths: u8 = bytes[at];
        if widths >= 16 {
            return Err(corrupt(Corruption::UnsupportedWidths));
        }
        Self::split(id, bytes, path, widths)
    }

    /// Find the columns behind the width byte.
    fn split(id: TrieNodeID, bytes: &'a [u8], path: &'a [u8], widths: u8) -> (branch: Result<
        Self,
        Error,
    >)
        requires
            id.is_branch(),
            path@.len() <= 32,
            2 + path@.len() <= bytes@.len(),
            widths < 16,
        ensures
            match branch {
                Ok(b) => Columns::split(id, bytes@, path@, widths) == Ok::<Columns, Error>(b@)
                    && b@.wf() && b@.length <= bytes@.len(),
                Err(e) => Columns::split(id, bytes@, path@, widths) == Err::<Columns, Error>(e),
            },
    {
        let (occupancy, selectors, count) = match split_head(id, bytes, 2 + path.len()) {
            Ok(head) => head,
            Err(e) => return Err(e),
        };
        let a2: usize = 2 + path.len() + occupancy.len() + selectors.len();
        let ghost head = ColumnHead {
            occupancy: occupancy@,
            selectors: selectors@,
            count: count as nat,
            end: a2 as int,
        };
        assert(ColumnHead::parse(id, bytes@, 2 + path@.len() as int) == Ok::<ColumnHead, Error>(
            head,
        ));
        let (kinds, origin_bitmap) = match split_middle(bytes, a2, count, Ghost(head)) {
            Ok(middle) => middle,
            Err(e) => return Err(e),
        };
        let a4: usize = a2 + kinds.len() + origin_bitmap.len();
        let code: u8 = widths % 4;
        let target_width: usize = if code == 0 {
            2
        } else if code == 1 {
            3
        } else if code == 2 {
            4
        } else {
            8
        };
        let origin_width: usize = (widths / 4) as usize + 1;
        proof {
            assert(count * target_width <= 256 * 8) by (nonlinear_arith)
                requires
                    0 <= count <= 256,
                    0 <= target_width <= 8,
            ;
        }
        let targets = match take(bytes, a4, count * target_width) {
            Ok(part) => part,
            Err(e) => return Err(e),
        };
        let a5: usize = a4 + targets.len();
        let linked: usize = rank_at(origin_bitmap, count);
        proof {
            assert(0 <= linked * origin_width <= 256 * 8) by (nonlinear_arith)
                requires
                    0 <= linked <= 256,
                    0 <= origin_width <= 8,
            ;
        }
        let origins = match take(bytes, a5, linked * origin_width) {
            Ok(part) => part,
            Err(e) => return Err(e),
        };
        let length: usize = a5 + origins.len();
        Ok(
            PackedBranch {
                id,
                path,
                occupancy,
                selectors,
                kinds,
                origin_bitmap,
                targets,
                origins,
                target_width,
                origin_width,
                length,
            },
        )
    }

    /// Borrow the unchanged compressed path.
    pub fn path(&self) -> (path: &'a [u8])
        ensures
            path@ == self@.path,
    {
        self.path
    }

    /// Number of payload bytes consumed.
    pub fn byte_len(&self) -> (n: usize)
        ensures
            n == self@.length,
    {
        self.length
    }

    /// Decode only the selected child from direct columns.
    fn pointer_at(&self, index: usize, chr: u8) -> (ptr: Result<TriePtr, Error>)
        requires
            index < self@.count(),
        ensures
            ptr == self@.pointer_at(index as int, chr),
    {
        proof {
            use_type_invariant(self);
            lemma_rank_bounds(self@.occupancy, self@.id.slots(), self@.id.slots());
            lemma_rank_bounds(self@.origin_bitmap, index as nat, self@.count());
            lemma_spans();
        }
        let kind: u8 = nibble_at(self.kinds, index);
        let id: u8 = kind % 8;
        if id < 1 || id > 5 {
            return Err(corrupt(Corruption::InvalidChildKind));
        }
        let back = kind >= 8;
        let has_origin = bit_at(self.origin_bitmap, index);
        if back && !has_origin {
            return Err(corrupt(Corruption::MissingOrigin));
        }
        let back_block: u32 = if has_origin {
            let at: usize = rank_at(self.origin_bitmap, index);
            proof {
                let width = self.origin_width as int;
                let total = rank(self@.origin_bitmap, self@.count()) as int;
                assert(0 <= at * width && at * width + width <= total * width && total * width
                    <= 256 * 4) by (nonlinear_arith)
                    requires
                        0 <= at < total <= 256,
                        1 <= width <= 4,
                ;
                crate::words::lemma_span_monotone(width as nat, 4);
            }
            read_le(self.origins, at * self.origin_width, self.origin_width) as u32
        } else {
            0
        };
        proof {
            let width = self.target_width as int;
            let total = self@.count() as int;
            assert(0 <= index * width && index * width + width <= total * width && total * width
                <= 256 * 8) by (nonlinear_arith)
                requires
                    0 <= index < total <= 256,
                    2 <= width <= 8,
            ;
        }
        let ptr: u64 = read_le(self.targets, index * self.target_width, self.target_width);
        Ok(TriePtr { id: if back { id + 128 } else { id }, chr, ptr, back_block })
    }

    /// Select a child without copying or traversing the other pointers.
    pub fn child(&self, chr: u8) -> (child: Result<Option<TriePtr>, Error>)
        ensures
            child == self@.child(chr),
    {
        proof {
            use_type_invariant(self);
        }
        let index: usize = match self.id {
            TrieNodeID::Node48 => {
                let slot: u8 = sextet_at(self.selectors, chr as usize);
                if slot == 63 {
                    return Ok(None);
                }
                if slot >= 48 || !bit_at(self.occupancy, slot as usize) {
                    return Err(corrupt(Corruption::InvalidNode48Selector));
                }
                proof {
                    lemma_rank_bounds(self@.occupancy, slot as nat, 48);
                }
                rank_at(self.occupancy, slot as usize)
            },
            TrieNodeID::Node256 => {
                if !bit_at(self.occupancy, chr as usize) {
                    return Ok(None);
                }
                proof {
                    lemma_rank_bounds(self@.occupancy, chr as nat, 256);
                }
                rank_at(self.occupancy, chr as usize)
            },
            _ => match find_selector(self.selectors, chr) {
                Some(index) => index,
                None => return Ok(None),
            },
        };
        match self.pointer_at(index, chr) {
            Ok(ptr) => Ok(Some(ptr)),
            Err(e) => Err(e),
        }
    }

    /// Slots and edges of a 48-slot branch in both directions.
    fn reverse_selectors(&self) -> (out: Result<(Vec<Option<u8>>, Vec<i8>), Error>)
        requires
            self@.id is Node48,
        ensures
            match self@.reversed(256) {
                Ok((back, indexes)) => out matches Ok((b, i)) && b@ == back && i@ == indexes && b@.len()
                    == 48 && i@.len() == 256,
                Err(e) => out == Err::<(Vec<Option<u8>>, Vec<i8>), Error>(e),
            },
    {
        proof {
            use_type_invariant(self);
        }
        let mut back: Vec<Option<u8>> = Vec::new();
        let mut n: usize = 0;
        while n < 48
            invariant
                n <= 48,
                back@ == Seq::new(n as nat, |i: int| None::<u8>),
            decreases 48 - n,
        {
            back.push(None);
            n = n + 1;
            assert(back@ =~= Seq::new(n as nat, |i: int| None::<u8>));
        }
        let mut indexes: Vec<i8> = Vec::new();
        let mut edge: usize = 0;
        proof {
            assert(indexes@ =~= Seq::<i8>::empty());
        }
        while edge < 256
            invariant
                edge <= 256,
                self@.wf(),
                self@.id is Node48,
                back@.len() == 48,
                indexes@.len() == edge,
                self@.reversed(edge as nat) == Ok::<(Seq<Option<u8>>, Seq<i8>), Error>(
                    (back@, indexes@),
                ),
            decreases 256 - edge,
        {
            let slot: u8 = sextet_at(self.selectors, edge);
            if slot == 63 {
                indexes.push(-1);
            } else {
                let taken = slot >= 48 || !bit_at(self.occupancy, slot as usize)
                    || back[slot as usize].is_some();
                if taken {
                    proof {
                        lemma_reversed_error(self@, (edge + 1) as nat, 256);
                    }
                    return Err(corrupt(Corruption::InvalidNode48ReverseSelector));
                }
                back.set(slot as usize, Some(edge as u8));
                indexes.push(slot as i8);
            }
            edge = edge + 1;
        }
        Ok((back, indexes))
    }

    /// Reconstruct all logical slots for mutation, hashing or proofs.
    pub fn to_owned_node(&self) -> (branch: Result<TrieBranch, Error>)
        ensures
            match self@.to_branch() {
                Ok(b) => branch matches Ok(t) && t@ == b && t@.wf() && t.meta
                    == TrieNodeTransientMeta::none(),
                Err(e) => branch == Err::<TrieBranch, Error>(e),
            },
    {
        proof {
            use_type_invariant(self);
            reveal(Columns::to_branch);
        }
        let mut back: Vec<Option<u8>> = Vec::new();
        let mut indexes: Vec<i8> = Vec::new();
        if self.id == TrieNodeID::Node48 {
            match self.reverse_selectors() {
                Ok((b, i)) => {
                    back = b;
                    indexes = i;
                },
                Err(e) => return Err(e),
            }
        }
        proof {
            if self@.id !is Node48 {
                assert(back@ =~= Seq::<Option<u8>>::empty());
                assert(indexes@ =~= Seq::<i8>::empty());
            }
        }
        let slots: usize = self.id.capacity();
        let mut ptrs: Vec<TriePtr> = Vec::new();
        let mut slot: usize = 0;
        let mut index: usize = 0;
        assert(ptrs@ =~= Seq::<TriePtr>::empty());
        while slot < slots
            invariant
                slot <= slots,
                slots == self@.id.slots(),
                self@.wf(),
                self@.id is Node48 ==> back@.len() == 48,
                (if self@.id is Node48 {
                    self@.reversed(256)
                } else {
                    Ok((Seq::empty(), Seq::empty()))
                }) == Ok::<(Seq<Option<u8>>, Seq<i8>), Error>((back@, indexes@)),
                index == rank(self@.occupancy, slot as nat),
                index <= slot,
                ptrs@.len() == slot,
                self@.slots_back(back@, slot as nat) == Ok::<Seq<TriePtr>, Error>(ptrs@),
            ensures
                slot == slots,
                ptrs@.len() == slots,
                self@.slots_back(back@, slots as nat) == Ok::<Seq<TriePtr>, Error>(ptrs@),
            decreases slots - slot,
        {
            if bit_at(self.occupancy, slot) {
                proof {
                    lemma_rank_bounds(self@.occupancy, slot as nat, self@.id.slots());
                }
                let edge: u8 = match self.id {
                    TrieNodeID::Node48 => match back[slot] {
                        Some(edge) => edge,
                        None => {
                            proof {
                                reveal(Columns::to_branch);
                            lemma_slots_error(
                                    self@,
                                    back@,
                                    (slot + 1) as nat,
                                    self@.id.slots(),
                                );
                            }
                            return Err(corrupt(Corruption::MissingNode48Selector));
                        },
                    },
                    TrieNodeID::Node256 => slot as u8,
                    _ => self.selectors[index],
                };
                match self.pointer_at(index, edge) {
                    Ok(ptr) => ptrs.push(ptr),
                    Err(e) => {
                        proof {
                            reveal(Columns::to_branch);
                            lemma_slots_error(self@, back@, (slot + 1) as nat, self@.id.slots());
                        }
                        return Err(e);
                    },
                }
                index = index + 1;
            } else {
                ptrs.push(TriePtr::default());
            }
            slot = slot + 1;
        }
        let mut path = NodePath::default();
        let _ = path.set_from_slice(self.path);
        let branch = TrieBranch {
            id: self.id,
            path,
            ptrs,
            indexes,
            meta: TrieNodeTransientMeta::default(),
        };
        assert(branch@ =~= self@.to_branch()->Ok_0);
        Ok(branch)
    }
}

/// An error among the first selectors is the error of all of them.
proof fn lemma_reversed_error(c: Columns, n: nat, total: nat)
    requires
        n <= total,
        c.reversed(n) is Err,
    ensures
        c.reversed(total) == c.reversed(n),
    decreases total,
{
    if n < total {
        lemma_reversed_error(c, n, (total - 1) as nat);
    }
}

/// An error among the first slots is the error of all of them.
proof fn lemma_slots_error(c: Columns, back: Seq<Option<u8>>, n: nat, total: nat)
    requires
        n <= total,
        c.slots_back(back, n) is Err,
    ensures
        c.slots_back(back, total) == c.slots_back(back, n),
    decreases total,
{
    if n < total {
        lemma_slots_error(c, back, n, (total - 1) as nat);
    }
}

/// Minimum supported byte width of one target.
pub open spec fn target_width_spec(value: u64) -> nat {
    if value <= 0xffff {
        2
    } else if value <= 0xff_ffff {
        3
    } else if value <= 0xffff_ffff {
        4
    } else {
        8
    }
}

/// Minimum supported byte width of one origin.
pub open spec fn origin_width_spec(value: u32) -> nat {
    if value <= 0xff {
        1
    } else if value <= 0xffff {
        2
    } else if value <= 0xff_ffff {
        3
    } else {
        4
    }
}

/// The largest target.
pub open spec fn max_target(children: Seq<TriePtr>) -> u64
    decreases children.len(),
{
    if children.len() == 0 {
        0
    } else {
        let rest = max_target(children.drop_last());
        if children.last().ptr > rest {
            children.last().ptr
        } else {
            rest
        }
    }
}

/// The largest origin.
pub open spec fn max_origin(children: Seq<TriePtr>) -> u32
    decreases children.len(),
{
    if children.len() == 0 {
        0
    } else {
        let rest = max_origin(children.drop_last());
        if children.last().back_block > rest {
            children.last().back_block
        } else {
            rest
        }
    }
}

/// Which children have an origin.
pub open spec fn origin_flags(children: Seq<TriePtr>) -> Seq<bool> {
    Seq::new(children.len(), |i: int| children[i].keeps_block())
}

/// Targets of the children.
pub open spec fn targets_of(children: Seq<TriePtr>) -> Seq<u64> {
    Seq::new(children.len(), |i: int| children[i].ptr)
}

/// Origins of the children that have one.
pub open spec fn origins_of(children: Seq<TriePtr>) -> Seq<u64>
    decreases children.len(),
{
    if children.len() == 0 {
        Seq::empty()
    } else if children.last().keeps_block() {
        origins_of(children.drop_last()).push(children.last().back_block as u64)
    } else {
        origins_of(children.drop_last())
    }
}

/// Node type and ancestor mark of a child in four bits.
pub open spec fn kind_of(ptr: TriePtr) -> u8 {
    (ptr.id % 16 + if ptr.id >= 128 {
        8int
    } else {
        0
    }) as u8
}

/// Kinds of the children.
pub open spec fn kinds_of(children: Seq<TriePtr>) -> Seq<u8> {
    Seq::new(children.len(), |i: int| kind_of(children[i]))
}

/// Edges of the children.
pub open spec fn edges_of(children: Seq<TriePtr>) -> Seq<u8> {
    Seq::new(children.len(), |i: int| children[i].chr)
}

/// Six-bit slots of the edges of a 48-slot branch.
pub open spec fn slot_codes(indexes: Seq<i8>) -> Seq<u8> {
    Seq::new(
        indexes.len(),
        |e: int|
            if indexes[e] == -1 {
                63u8
            } else {
                indexes[e] as u8
            },
    )
}

/// The selector column of a branch.
pub open spec fn selectors_of(branch: Branch) -> Seq<u8> {
    match branch.id {
        TrieNodeID::Node48 => sextets_of(slot_codes(branch.indexes)),
        TrieNodeID::Node256 => Seq::empty(),
        _ => edges_of(occupied(branch.ptrs)),
    }
}

/// The width byte of a branch.
pub open spec fn width_code(children: Seq<TriePtr>) -> u8 {
    let target = target_width_spec(max_target(children));
    ((if target == 2 {
        0int
    } else if target == 3 {
        1
    } else if target == 4 {
        2
    } else {
        3
    }) + 4 * (origin_width_spec(max_origin(children)) - 1)) as u8
}

/// The packed payload of a branch.
pub open spec fn packed_payload(branch: Branch) -> Seq<u8> {
    let children = occupied(branch.ptrs);
    framed(branch.path) + seq![width_code(children)] + bitmap_of(occupancy(branch.ptrs))
        + selectors_of(branch) + nibbles_of(kinds_of(children)) + bitmap_of(origin_flags(children))
        + column_of(targets_of(children), target_width_spec(max_target(children))) + column_of(
        origins_of(children),
        origin_width_spec(max_origin(children)),
    )
}

/// The packed payload's length by its columns.
pub open spec fn packed_len(branch: Branch) -> nat {
    let children = occupied(branch.ptrs);
    let slots = branch.ptrs.len();
    2 + branch.path.len() + (slots + 7) / 8 + selector_len_spec(slots, children.len()) + (
    children.len() + 1) / 2 + (children.len() + 7) / 8 + children.len() * target_width_spec(
        max_target(children),
    ) + origins_of(children).len() * origin_width_spec(max_origin(children))
}

/// Whether an earlier child has the same edge.
pub open spec fn edge_taken(ptrs: Seq<TriePtr>, slot: int) -> bool {
    exists|j: int| 0 <= j < slot && ptrs[j].id != 0 && ptrs[j].chr == ptrs[slot].chr
}

/// What keeps a slot's child from being packed.
pub open spec fn slot_fault(branch: Branch, slot: int) -> Option<Corruption> {
    let ptr = branch.ptrs[slot];
    if ptr.id == 0 {
        None
    } else if edge_taken(branch.ptrs, slot) {
        Some(Corruption::DuplicateEdge)
    } else if branch.id is Node48 && branch.indexes[ptr.chr as int] != slot {
        Some(Corruption::MissingNode48Selector)
    } else if ptr.id % 16 < 1 || ptr.id % 16 > 5 {
        Some(Corruption::InvalidChildKind)
    } else if branch.id is Node256 && ptr.chr != slot {
        Some(Corruption::Node256WrongSlot)
    } else {
        None
    }
}

/// What keeps an edge's selector from being packed.
pub open spec fn index_fault(branch: Branch, edge: int) -> Option<Corruption> {
    let slot = branch.indexes[edge] as int;
    if slot == -1 {
        None
    } else if slot < 0 {
        Some(Corruption::InvalidNode48Slot)
    } else if slot >= 48 || branch.ptrs[slot].id == 0 || branch.ptrs[slot].chr != edge {
        Some(Corruption::InvalidNode48Selector)
    } else {
        None
    }
}

/// The first fault from slot `from` on.
pub open spec fn first_slot_fault(branch: Branch, from: int) -> Option<Corruption>
    decreases branch.ptrs.len() - from,
{
    if from < 0 || from >= branch.ptrs.len() {
        None
    } else {
        match slot_fault(branch, from) {
            Some(fault) => Some(fault),
            None => first_slot_fault(branch, from + 1),
        }
    }
}

/// The first fault from edge `from` on.
pub open spec fn first_index_fault(branch: Branch, from: int) -> Option<Corruption>
    decreases branch.indexes.len() - from,
{
    if from < 0 || from >= branch.indexes.len() {
        None
    } else {
        match index_fault(branch, from) {
            Some(fault) => Some(fault),
            None => first_index_fault(branch, from + 1),
        }
    }
}

/// What keeps a branch from being packed.
pub open spec fn packing_fault(branch: Branch) -> Option<Corruption> {
    match first_slot_fault(branch, 0) {
        Some(fault) => Some(fault),
        None => if branch.id is Node48 {
            first_index_fault(branch, 0)
        } else {
            None
        },
    }
}

/// Minimum supported byte width of one target.
pub fn target_width(value: u64) -> (width: usize)
    ensures
        width == target_width_spec(value),
{
    if value <= 0xffff {
        2
    } else if value <= 0xff_ffff {
        3
    } else if value <= 0xffff_ffff {
        4
    } else {
        8
    }
}

/// Minimum supported byte width of one origin.
pub fn origin_width(value: u32) -> (width: usize)
    ensures
        width == origin_width_spec(value),
{
    if value <= 0xff {
        1
    } else if value <= 0xffff {
        2
    } else if value <= 0xff_ffff {
        3
    } else {
        4
    }
}

/// Writer-selected widths and occupied/origin counts.
fn dimensions(ptrs: &[TriePtr]) -> (out: (usize, usize, usize, usize))
    requires
        ptrs@.len() <= 256,
    ensures
        out.0 == target_width_spec(max_target(occupied(ptrs@))),
        out.1 == origin_width_spec(max_origin(occupied(ptrs@))),
        out.2 == occupied(ptrs@).len(),
        out.3 == origins_of(occupied(ptrs@)).len(),
        out.3 <= out.2 <= 256,
{
    let mut target: u64 = 0;
    let mut origin: u32 = 0;
    let mut count: usize = 0;
    let mut origins: usize = 0;
    let mut at: usize = 0;
    assert(ptrs@.subrange(0, 0) =~= Seq::<TriePtr>::empty());
    while at < ptrs.len()
        invariant
            at <= ptrs.len() <= 256,
            target == max_target(occupied(ptrs@.subrange(0, at as int))),
            origin == max_origin(occupied(ptrs@.subrange(0, at as int))),
            count == occupied(ptrs@.subrange(0, at as int)).len(),
            origins == origins_of(occupied(ptrs@.subrange(0, at as int))).len(),
            origins <= count <= at,
        decreases ptrs.len() - at,
    {
        let ptr: TriePtr = ptrs[at];
        proof {
            let part = ptrs@.subrange(0, at + 1);
            assert(part.drop_last() =~= ptrs@.subrange(0, at as int));
            if ptr.id != 0 {
                assert(occupied(part).drop_last() =~= occupied(part.drop_last()));
            }
        }
        if !ptr.is_empty() {
            if ptr.ptr > target {
                target = ptr.ptr;
            }
            if ptr.back_block > origin {
                origin = ptr.back_block;
            }
            count = count + 1;
            if ptr.id >= 128 || ptr.back_block != 0 {
                origins = origins + 1;
            }
        }
        at = at + 1;
    }
    assert(ptrs@.subrange(0, at as int) =~= ptrs@);
    (target_width(target), origin_width(origin), count, origins)
}

/// Writer-selected target width and the number of children.
pub fn branch_dimensions(ptrs: &[TriePtr]) -> (out: (usize, usize))
    requires
        ptrs@.len() <= 256,
    ensures
        out.0 == target_width_spec(max_target(occupied(ptrs@))),
        out.1 == occupied(ptrs@).len(),
        out.0 <= 8,
        out.1 <= 256,
{
    let (target, _, count, _) = dimensions(ptrs);
    (target, count)
}

/// Largest packed branch payload, independent of writer width policy.
pub fn max_payload_len(id: TrieNodeID) -> (n: Result<usize, Error>)
    ensures
        match n {
            Ok(n) => id.is_branch() && n == 34 + (id.slots() + 7) / 8 + selector_len_spec(
                id.slots(),
                id.slots(),
            ) + (id.slots() + 1) / 2 + (id.slots() + 7) / 8 + id.slots() * 12,
            Err(e) => !id.is_branch() && e == Error::CorruptionError(Corruption::ExpectedBranch),
        },
{
    let slots: usize = id.capacity();
    if slots == 0 {
        return Err(corrupt(Corruption::ExpectedBranch));
    }
    Ok(
        34 + (slots + 7) / 8 + selector_len(slots, slots) + (slots + 1) / 2 + (slots + 7) / 8
            + slots * 12,
    )
}

/// Exact payload length for the current pointer values.
pub fn branch_payload_len(branch: &TrieBranch) -> (n: usize)
    requires
        branch@.wf(),
    ensures
        n == packed_len(branch@),
        n <= 4000,
{
    let (target, origin, count, origins) = dimensions(branch.ptrs.as_slice());
    let slots: usize = branch.ptrs.len();
    proof {
        assert(0 <= count * target <= 256 * 8 && 0 <= origins * origin <= 256 * 4)
            by (nonlinear_arith)
            requires
                0 <= origins <= count <= 256,
                0 <= target <= 8,
                0 <= origin <= 4,
        ;
    }
    2 + branch.path.len() + (slots + 7) / 8 + selector_len(slots, count) + (count + 1) / 2 + (count
        + 7) / 8 + count * target + origins * origin
}

/// Reject a branch whose slots or selectors contradict each other.
fn check_branch(branch: &TrieBranch) -> (out: Result<(), Error>)
    requires
        branch@.wf(),
    ensures
        match packing_fault(branch@) {
            Some(fault) => out == Err::<(), Error>(Error::CorruptionError(fault)),
            None => out is Ok,
        },
{
    let mut seen: [bool; 256] = [false;256];
    let slots: usize = branch.ptrs.len();
    let mut slot: usize = 0;
    while slot < slots
        invariant
            slot <= slots,
            branch@.wf(),
            slots == branch@.ptrs.len(),
            first_slot_fault(branch@, 0) == first_slot_fault(branch@, slot as int),
            forall|c: int|
                0 <= c < 256 ==> (#[trigger] seen@[c] <==> exists|j: int|
                    0 <= j < slot && branch@.ptrs[j].id != 0 && branch@.ptrs[j].chr == c),
        decreases slots - slot,
    {
        let ptr: TriePtr = branch.ptrs[slot];
        if !ptr.is_empty() {
            let edge: usize = ptr.chr as usize;
            assert(seen@[edge as int] == edge_taken(branch@.ptrs, slot as int));
            if seen[edge] {
                return Err(corrupt(Corruption::DuplicateEdge));
            }
            let ghost before = seen@;
            seen[edge] = true;
            proof {
                assert forall|c: int| 0 <= c < 256 implies (#[trigger] seen@[c] <==> exists|j: int|
                    0 <= j < slot + 1 && branch@.ptrs[j].id != 0 && branch@.ptrs[j].chr == c) by {
                    if c == edge {
                        assert(branch@.ptrs[slot as int].chr == c);
                    } else {
                        assert(seen@[c] == before[c]);
                    }
                }
            }
            if branch.id == TrieNodeID::Node48 && branch.indexes[edge] as i32 != slot as i32 {
                return Err(corrupt(Corruption::MissingNode48Selector));
            }
            let kind: u8 = ptr.id % 16;
            if kind < 1 || kind > 5 {
                return Err(corrupt(Corruption::InvalidChildKind));
            }
            if branch.id == TrieNodeID::Node256 && edge != slot {
                return Err(corrupt(Corruption::Node256WrongSlot));
            }
        }
        slot = slot + 1;
    }
    if branch.id == TrieNodeID::Node48 {
        let mut edge: usize = 0;
        while edge < 256
            invariant
                edge <= 256,
                branch@.wf(),
                branch@.id is Node48,
                first_slot_fault(branch@, 0) is None,
                first_index_fault(branch@, 0) == first_index_fault(branch@, edge as int),
            decreases 256 - edge,
        {
            let slot: i8 = branch.indexes[edge];
            if slot != -1 {
                if slot < 0 {
                    return Err(corrupt(Corruption::InvalidNode48Slot));
                }
                if slot >= 48 || branch.ptrs[slot as usize].is_empty()
                    || branch.ptrs[slot as usize].chr as usize != edge {
                    return Err(corrupt(Corruption::InvalidNode48Selector));
                }
            }
            edge = edge + 1;
        }
    }
    Ok(())
}

/// Faultless slots have none of the faults.
pub proof fn lemma_no_slot_fault(branch: Branch, from: int, slot: int)
    requires
        0 <= from <= slot < branch.ptrs.len(),
        first_slot_fault(branch, from) is None,
    ensures
        slot_fault(branch, slot) is None,
    decreases slot - from,
{
    if from < slot {
        lemma_no_slot_fault(branch, from + 1, slot);
    }
}

/// Faultless selectors have none of the faults.
pub proof fn lemma_no_index_fault(branch: Branch, from: int, edge: int)
    requires
        0 <= from <= edge < branch.indexes.len(),
        first_index_fault(branch, from) is None,
    ensures
        index_fault(branch, edge) is None,
    decreases edge - from,
{
    if from < edge {
        lemma_no_index_fault(branch, from + 1, edge);
    }
}

/// Append the selector column.
fn push_selectors(out: &mut Vec<u8>, branch: &TrieBranch, children: &[TriePtr])
    requires
        branch@.wf(),
        packing_fault(branch@) is None,
        children@ == occupied(branch@.ptrs),
    ensures
        final(out)@ == old(out)@ + selectors_of(branch@),
{
    if branch.id == TrieNodeID::Node48 {
        let mut codes: Vec<u8> = Vec::new();
        let mut edge: usize = 0;
        while edge < 256
            invariant
                edge <= 256,
                branch@.wf(),
                branch@.id is Node48,
                packing_fault(branch@) is None,
                codes@.len() == edge,
                forall|e: int| 0 <= e < edge ==> codes@[e] == slot_codes(branch@.indexes)[e],
                forall|e: int| 0 <= e < edge ==> codes@[e] < 64,
            decreases 256 - edge,
        {
            proof {
                lemma_no_index_fault(branch@, 0, edge as int);
            }
            let slot: i8 = branch.indexes[edge];
            codes.push(if slot == -1 { 63 } else { slot as u8 });
            edge = edge + 1;
        }
        assert(codes@ =~= slot_codes(branch@.indexes));
        let column = pack_sextets(codes.as_slice());
        push_bytes(out, column.as_slice());
    } else if branch.id == TrieNodeID::Node256 {
        assert(out@ =~= old(out)@ + Seq::<u8>::empty());
    } else {
        let mut at: usize = 0;
        assert(out@ =~= old(out)@ + edges_of(children@).subrange(0, 0));
        while at < children.len()
            invariant
                at <= children.len(),
                out@ == old(out)@ + edges_of(children@).subrange(0, at as int),
            decreases children.len() - at,
        {
            out.push(children[at].chr);
            at = at + 1;
            assert(out@ =~= old(out)@ + edges_of(children@).subrange(0, at as int));
        }
        assert(edges_of(children@).subrange(0, at as int) =~= edges_of(children@));
    }
}

/// Kinds, origin flags, targets and origins of the children.
fn child_columns(children: &[TriePtr]) -> (out: (Vec<u8>, Vec<bool>, Vec<u64>, Vec<u64>))
    requires
        forall|i: int| 0 <= i < children@.len() ==> 1 <= (#[trigger] children@[i]).id % 16 <= 5,
    ensures
        out.0@ == kinds_of(children@),
        forall|i: int| 0 <= i < out.0@.len() ==> out.0@[i] < 16,
        out.1@ == origin_flags(children@),
        out.2@ == targets_of(children@),
        out.3@ == origins_of(children@),
{
    let mut kinds: Vec<u8> = Vec::new();
    let mut flags: Vec<bool> = Vec::new();
    let mut targets: Vec<u64> = Vec::new();
    let mut origins: Vec<u64> = Vec::new();
    let mut at: usize = 0;
    assert(children@.subrange(0, 0) =~= Seq::<TriePtr>::empty());
    while at < children.len()
        invariant
            at <= children.len(),
            forall|i: int| 0 <= i < children@.len() ==> 1 <= (#[trigger] children@[i]).id % 16 <= 5,
            kinds@.len() == at,
            flags@.len() == at,
            targets@.len() == at,
            forall|i: int| 0 <= i < at ==> kinds@[i] == kind_of(children@[i]) && kinds@[i] < 16,
            forall|i: int| 0 <= i < at ==> flags@[i] == children@[i].keeps_block(),
            forall|i: int| 0 <= i < at ==> targets@[i] == children@[i].ptr,
            origins@ == origins_of(children@.subrange(0, at as int)),
        decreases children.len() - at,
    {
        let ptr: TriePtr = children[at];
        let back = ptr.id >= 128;
        let linked = back || ptr.back_block != 0;
        kinds.push(if back { ptr.id % 16 + 8 } else { ptr.id % 16 });
        flags.push(linked);
        targets.push(ptr.ptr);
        if linked {
            origins.push(ptr.back_block as u64);
        }
        at = at + 1;
        assert(children@.subrange(0, at as int).drop_last() =~= children@.subrange(0, at - 1));
    }
    assert(children@.subrange(0, at as int) =~= children@);
    assert(kinds@ =~= kinds_of(children@));
    assert(flags@ =~= origin_flags(children@));
    assert(targets@ =~= targets_of(children@));
    (kinds, flags, targets, origins)
}

/// Children of a faultless branch have logical node types.
pub proof fn lemma_child_kinds(branch: Branch)
    requires
        branch.wf(),
        packing_fault(branch) is None,
    ensures
        forall|i: int|
            0 <= i < occupied(branch.ptrs).len() ==> 1 <= (#[trigger] occupied(
                branch.ptrs,
            )[i]).id % 16 <= 5,
{
    assert forall|i: int| 0 <= i < occupied(branch.ptrs).len() implies 1 <= (#[trigger] occupied(
        branch.ptrs,
    )[i]).id % 16 <= 5 by {
        let slot = lemma_occupied_source(branch.ptrs, i);
        lemma_no_slot_fault(branch, 0, slot);
    }
}

/// Serialize direct pointer columns in unchanged logical slot order.
/// A branch whose slots and selectors contradict each other is rejected before anything is written.
pub fn write_branch(out: &mut Vec<u8>, branch: &TrieBranch) -> (done: Result<(), Error>)
    requires
        branch@.wf(),
    ensures
        match packing_fault(branch@) {
            Some(fault) => done == Err::<(), Error>(Error::CorruptionError(fault)) && final(out)@
                == old(out)@,
            None => done is Ok && final(out)@ == old(out)@ + packed_payload(branch@),
        },
{
    match check_branch(branch) {
        Ok(_) => {},
        Err(e) => return Err(e),
    }
    let (target, origin, count, _) = dimensions(branch.ptrs.as_slice());
    let children = occupied_of(branch.ptrs.as_slice());
    let bits = occupancy_of(branch.ptrs.as_slice());
    proof {
        lemma_child_kinds(branch@);
        lemma_occupied_len(branch@.ptrs);
    }
    let (kinds, flags, targets, origins) = child_columns(children.as_slice());
    let code: u8 = (if target == 2 {
        0
    } else if target == 3 {
        1
    } else if target == 4 {
        2
    } else {
        3
    }) + 4 * (origin - 1) as u8;
    let ghost start = out@;
    out.push(branch.path.len() as u8);
    push_bytes(out, branch.path.as_slice());
    assert(out@ =~= start + framed(branch@.path));
    out.push(code);
    push_bytes(out, pack_bits(bits.as_slice()).as_slice());
    push_selectors(out, branch, children.as_slice());
    push_bytes(out, pack_nibbles(kinds.as_slice()).as_slice());
    push_bytes(out, pack_bits(flags.as_slice()).as_slice());
    push_column(out, targets.as_slice(), target);
    push_column(out, origins.as_slice(), origin);
    proof {
        assert(code == width_code(children@));
        assert(out@ =~= start + packed_payload(branch@));
    }
    Ok(())
}

/// Length of a node's packed payload; a leaf counts as having no slots.
pub open spec fn packed_node_len(node: Node) -> nat {
    match node {
        Node::Branch(branch) => packed_len(branch),
        Node::Leaf(leaf) => 2 + leaf.path.len(),
    }
}

/// Exact packed payload length for the current pointer values.
pub fn payload_len(node: &TrieNodeType) -> (n: usize)
    requires
        node@.wf(),
    ensures
        n == packed_node_len(node@),
        n <= 4000,
{
    match node {
        TrieNodeType::Branch(branch) => branch_payload_len(branch),
        TrieNodeType::Leaf(leaf) => 2 + leaf.path.len(),
    }
}

/// Serialize direct pointer columns; leaves have none, and contradictory branches are rejected.
pub fn write_payload(out: &mut Vec<u8>, node: &TrieNodeType) -> (done: Result<(), Error>)
    requires
        node@.wf(),
    ensures
        match node@ {
            Node::Branch(branch) => match packing_fault(branch) {
                Some(fault) => done == Err::<(), Error>(Error::CorruptionError(fault))
                    && final(out)@ == old(out)@,
                None => done is Ok && final(out)@ == old(out)@ + packed_payload(branch),
            },
            Node::Leaf(_) => done == Err::<(), Error>(
                Error::CorruptionError(Corruption::ExpectedBranch),
            ) && final(out)@ == old(out)@,
        },
{
    match node {
        TrieNodeType::Branch(branch) => write_branch(out, branch),
        TrieNodeType::Leaf(_) => Err(corrupt(Corruption::ExpectedBranch)),
    }
}

/// Whether a target mapping always answers as the table does.
pub open spec fn maps_targets<F: Fn(&TriePtr) -> Result<u64, Error>>(
    resolve: F,
    table: spec_fn(TriePtr) -> Result<u64, Error>,
) -> bool {
    forall|ptr: TriePtr, found: Result<u64, Error>|
        #[trigger] call_ensures(resolve, (&ptr,), found) ==> found == table(ptr)
}

/// The largest mapped target among the first `n` children, or the first failure.
pub open spec fn largest_target(
    children: Seq<TriePtr>,
    table: spec_fn(TriePtr) -> Result<u64, Error>,
    n: nat,
) -> Result<u64, Error>
    decreases n,
{
    if n == 0 {
        Ok(0)
    } else {
        match largest_target(children, table, (n - 1) as nat) {
            Err(e) => Err(e),
            Ok(largest) => match table(children[n - 1]) {
                Err(e) => Err(e),
                Ok(target) => if target > largest {
                    Ok(target)
                } else {
                    Ok(largest)
                },
            },
        }
    }
}

proof fn lemma_target_error(
    children: Seq<TriePtr>,
    table: spec_fn(TriePtr) -> Result<u64, Error>,
    n: nat,
    total: nat,
)
    requires
        n <= total,
        largest_target(children, table, n) is Err,
    ensures
        largest_target(children, table, total) == largest_target(children, table, n),
    decreases total,
{
    if n < total {
        lemma_target_error(children, table, n, (total - 1) as nat);
    }
}

/// The largest mapped target of the children, or the first failure.
fn resolve_targets<F: Fn(&TriePtr) -> Result<u64, Error>>(children: &[TriePtr], resolve: F) -> (out:
    Result<u64, Error>)
    requires
        forall|ptr: &TriePtr| call_requires(resolve, (ptr,)),
    ensures
        forall|table: spec_fn(TriePtr) -> Result<u64, Error>| #[trigger]
            maps_targets(resolve, table) ==> out == largest_target(
                children@,
                table,
                children@.len(),
            ),
{
    let mut largest: u64 = 0;
    let mut at: usize = 0;
    while at < children.len()
        invariant
            at <= children@.len(),
            forall|ptr: &TriePtr| call_requires(resolve, (ptr,)),
            forall|table: spec_fn(TriePtr) -> Result<u64, Error>| #[trigger]
                maps_targets(resolve, table) ==> largest_target(children@, table, at as nat)
                    == Ok::<u64, Error>(largest),
        decreases children@.len() - at,
    {
        match resolve(&children[at]) {
            Ok(target) => {
                if target > largest {
                    largest = target;
                }
            },
            Err(e) => {
                proof {
                    assert forall|table: spec_fn(TriePtr) -> Result<u64, Error>| #[trigger]
                        maps_targets(resolve, table) implies Err::<u64, Error>(e)
                        == largest_target(children@, table, children@.len()) by {
                        lemma_target_error(children@, table, (at + 1) as nat, children@.len());
                    }
                }
                return Err(e);
            },
        }
        at = at + 1;
    }
    Ok(largest)
}

/// Exact packed payload size after mapping targets, without cloning nodes or child arrays.
pub fn payload_len_with_targets<F: Fn(&TriePtr) -> Result<u64, Error>>(
    node: &TrieNodeType,
    resolve: F,
) -> (len: Result<usize, Error>)
    requires
        node@.wf(),
        forall|ptr: &TriePtr| call_requires(resolve, (ptr,)),
    ensures
        forall|table: spec_fn(TriePtr) -> Result<u64, Error>| #[trigger]
            maps_targets(resolve, table) ==> {
                let children = occupied(node@.ptrs());
                match largest_target(children, table, children.len()) {
                    Err(e) => len == Err::<usize, Error>(e),
                    Ok(largest) => len matches Ok(n) && n == packed_node_len(node@)
                        - children.len() * target_width_spec(max_target(children)) + children.len()
                        * target_width_spec(largest),
                }
            },
{
    let children = occupied_of(node.ptrs());
    proof {
        lemma_occupied_len(node@.ptrs());
    }
    let (old_width, count) = branch_dimensions(node.ptrs());
    let largest: u64 = match resolve_targets(children.as_slice(), resolve) {
        Ok(largest) => largest,
        Err(e) => return Err(e),
    };
    let width: usize = target_width(largest);
    let len: usize = payload_len(node);
    proof {
        assert(0 <= count * old_width <= 256 * 8 && 0 <= count * width <= 256 * 8)
            by (nonlinear_arith)
            requires
                0 <= count <= 256,
                0 <= old_width <= 8,
                0 <= width <= 8,
        ;
        if node@ is Leaf {
            assert(count * old_width == 0) by (nonlinear_arith)
                requires
                    count == 0,
            ;
        }
    }
    Ok(len - count * old_width + count * width)
}

} // verus!
