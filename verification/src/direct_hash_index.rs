//! Direct-addressed hashes with commit-published immutable slots.
//!
//! A durable dense prefix is mapped; a bounded committed tail is recovered from the index.
//! Sidecar checkpoints precede SQL publication. Gaps and unconfirmed IDs retain fallback.
use vstd::prelude::*;

use crate::ancestry::{agrees, ancestor, ancestor_spec, Ancestry};
use crate::hash::{MarfTrieId, TrieHash};
use crate::words::{bytes_eq, push_bytes, to_array};

verus! {

/// Fixed header; one unused ID-zero slot follows it.
pub const HEADER: usize = 4096;

/// Exact hashes plus a compact fork-specific ancestry extension.
pub const SLOT: usize = 80;

/// Hash-only files retain their original record width and publication rules.
pub const LEGACY_SLOT: usize = 64;

/// Slots per durable checkpoint.
pub const CHECKPOINT_SLOTS: u32 = 256;

/// The first bytes of a sidecar with ancestry.
pub open spec fn magic() -> Seq<u8> {
    seq![77u8, 65, 82, 70, 68, 72, 48, 51]
}

/// The first bytes of a hash-only sidecar.
pub open spec fn legacy_magic() -> Seq<u8> {
    seq![77u8, 65, 82, 70, 68, 72, 48, 50]
}

/// Zeros.
pub open spec fn zeros(n: nat) -> Seq<u8> {
    Seq::new(n, |i: int| 0u8)
}

/// The slot of a block: its identity, its root and its links, where they are known.
pub open spec fn slot_bytes(block: Seq<u8>, root: Seq<u8>, links: Option<Ancestry>) -> Seq<u8> {
    block + root + match links {
        Some(record) => record.encode_spec(),
        None => zeros(16),
    }
}

/// The links that a slot holds.
pub open spec fn slot_links(id: u32, slot: Seq<u8>) -> Option<Ancestry> {
    Ancestry::decode_spec(id, slot.subrange(64, 80))
}

/// Append zeros.
fn push_zeros(out: &mut Vec<u8>, count: usize)
    ensures
        final(out)@ == old(out)@ + zeros(count as nat),
{
    let mut at: usize = 0;
    assert(out@ =~= old(out)@ + zeros(0));
    while at < count
        invariant
            at <= count,
            out@ == old(out)@ + zeros(at as nat),
        decreases count - at,
    {
        out.push(0);
        at = at + 1;
        assert(out@ =~= old(out)@ + zeros(at as nat));
    }
}

/// The slot of a block: its identity, its root and its links, where they are known.
pub fn make_slot<T: MarfTrieId>(block: &T, root: &TrieHash, links: Option<Ancestry>) -> (slot: [u8; 80])
    ensures
        slot@ == slot_bytes(block.id_bytes(), root@, links),
{
    let mut out: Vec<u8> = Vec::new();
    push_bytes(&mut out, block.as_bytes());
    push_bytes(&mut out, root.as_bytes());
    match links {
        Some(record) => push_bytes(&mut out, &record.encode()),
        None => push_zeros(&mut out, 16),
    }
    assert(out@ =~= slot_bytes(block.id_bytes(), root@, links));
    proof {
        match links {
            Some(record) => crate::ancestry::lemma_encode_len(record),
            None => {},
        }
    }
    to_array::<80>(out.as_slice())
}

/// The links that a slot holds.
pub fn links_in(id: u32, slot: &[u8; 80]) -> (links: Option<Ancestry>)
    ensures
        links == slot_links(id, slot@),
{
    let bytes: &[u8] = slot;
    Ancestry::decode(id, &bytes[64..80])
}

/// A slot that holds known links gives them back.
pub proof fn law_slot_keeps_links(id: u32, block: Seq<u8>, root: Seq<u8>, links: Option<Ancestry>)
    requires
        block.len() == 32,
        root.len() == 32,
        links is Some ==> links->0.linked(id),
    ensures
        slot_links(id, slot_bytes(block, root, links)) == links,
        slot_bytes(block, root, links).subrange(0, 32) == block,
        slot_bytes(block, root, links).subrange(32, 64) == root,
{
    let slot = slot_bytes(block, root, links);
    match links {
        Some(record) => {
            crate::ancestry::lemma_encode_len(record);
            crate::ancestry::law_decode_inverts_encode(id, record);
            assert(slot.subrange(64, 80) =~= record.encode_spec());
        },
        None => {
            assert(slot.subrange(64, 80) =~= zeros(16));
            crate::ancestry::lemma_zeros_are_no_record(id);
        },
    }
    assert(slot.subrange(0, 32) =~= block);
    assert(slot.subrange(32, 64) =~= root);
}

/// Where a slot starts in a sidecar.
pub open spec fn slot_start_spec(id: u32, slot_size: nat) -> nat {
    HEADER as nat + id as nat * slot_size
}

/// Committed end for either supported record width.
pub fn slot_end_for(id: u32, slot_size: usize) -> (end: u64)
    requires
        slot_size <= 80,
    ensures
        end == slot_start_spec(id, slot_size as nat) + slot_size,
{
    proof {
        assert((id as nat + 1) * slot_size as nat == id as nat * slot_size as nat
            + slot_size as nat) by (nonlinear_arith);
        assert(0 <= (id as nat + 1) * slot_size as nat <= 0x1_0000_0000 * 80) by (nonlinear_arith)
            requires
                0 <= id as nat + 1 <= 0x1_0000_0000,
                0 <= slot_size as nat <= 80,
        ;
    }
    HEADER as u64 + (id as u64 + 1) * slot_size as u64
}

/// Byte length through the given slot, including the unused slot zero.
pub fn slot_end(id: u32) -> (end: u64)
    ensures
        end == slot_start_spec(id, 80) + 80,
{
    slot_end_for(id, SLOT)
}

/// A new generation's bytes: the header and the unused slot zero.
pub open spec fn sidecar_bytes(token: Seq<u8>) -> Seq<u8> {
    magic() + token + zeros((4096 + 80 - 8 - token.len()) as nat)
}

/// A new generation's bytes: the header and the unused slot zero.
pub fn sidecar_image(token: &[u8; 16]) -> (bytes: Vec<u8>)
    ensures
        bytes@ == sidecar_bytes(token@),
        bytes@.len() == slot_start_spec(0, 80) + 80,
{
    let magic_bytes: [u8; 8] = [77, 65, 82, 70, 68, 72, 48, 51];
    let mut bytes: Vec<u8> = Vec::new();
    push_bytes(&mut bytes, &magic_bytes);
    push_bytes(&mut bytes, token);
    push_zeros(&mut bytes, 4152);
    assert(magic_bytes@ =~= magic());
    assert(bytes@ =~= sidecar_bytes(token@));
    bytes
}

/// Calls `rand::random` for sixteen bytes; nothing is claimed of them.
#[verifier::external_body]
fn random_token() -> (token: [u8; 16])
{
    rand::random()
}

/// A new generation: a token of its own, and the bytes that start its file.
pub fn new_generation() -> (out: ([u8; 16], Vec<u8>))
    ensures
        out.1@ == sidecar_bytes(out.0@),
{
    let token = random_token();
    let bytes = sidecar_image(&token);
    (token, bytes)
}

/// The record width that a file's first bytes announce for a publication: `None` where the file
/// is missing a header, is of an unknown kind or another generation, or is too short.
pub open spec fn published_width(head: Seq<u8>, token: Seq<u8>, max_id: u32, file_len: u64) -> Option<
    nat,
> {
    if token.len() != 16 || file_len < 24 || head.len() < 24 {
        None
    } else if head.subrange(8, 24) != token {
        None
    } else {
        let width: nat = if head.subrange(0, 8) == magic() {
            80
        } else if head.subrange(0, 8) == legacy_magic() {
            64
        } else {
            0
        };
        if width == 0 || file_len < slot_start_spec(max_id, width) + width {
            None
        } else {
            Some(width)
        }
    }
}

/// The record width that a file's first bytes announce for a publication.
pub fn check_sidecar(head: &[u8], token: &[u8], max_id: u32, file_len: u64) -> (width: Option<usize>)
    ensures
        match published_width(head@, token@, max_id, file_len) {
            Some(w) => width matches Some(n) && n == w,
            None => width is None,
        },
{
    if token.len() != 16 || file_len < 24 || head.len() < 24 {
        return None;
    }
    if !bytes_eq(&head[8..24], token) {
        return None;
    }
    let new_magic: [u8; 8] = [77, 65, 82, 70, 68, 72, 48, 51];
    let old_magic: [u8; 8] = [77, 65, 82, 70, 68, 72, 48, 50];
    assert(new_magic@ =~= magic());
    assert(old_magic@ =~= legacy_magic());
    let width: usize = if bytes_eq(&head[0..8], &new_magic) {
        SLOT
    } else if bytes_eq(&head[0..8], &old_magic) {
        LEGACY_SLOT
    } else {
        return None;
    };
    if file_len < slot_end_for(max_id, width) {
        return None;
    }
    Some(width)
}

/// A new generation's file is accepted for an empty publication.
pub proof fn law_new_generation_is_accepted(token: Seq<u8>)
    requires
        token.len() == 16,
    ensures
        published_width(
            sidecar_bytes(token),
            token,
            0,
            sidecar_bytes(token).len() as u64,
        ) == Some(80nat),
{
    let bytes = sidecar_bytes(token);
    assert(bytes.subrange(8, 24) =~= token);
    assert(bytes.subrange(0, 8) =~= magic());
}

/// Immutable slots newer than the durable prefix.
#[derive(Debug)]
pub struct Tail {
    /// ID immediately before the first record.
    base: u32,
    /// Contiguous records; never populated from an unsynced sidecar suffix.
    slots: Vec<[u8; 80]>,
}

/// What a tail holds: contiguous slots behind a base ID.
#[verifier::ext_equal]
pub struct Slots {
    pub base: int,
    pub slots: Seq<Seq<u8>>,
}

impl Slots {
    /// Last contained ID, or the base for an empty tail.
    pub open spec fn end(self) -> int {
        self.base + self.slots.len()
    }

    /// The slot of an ID.
    pub open spec fn slot(self, id: int) -> Option<Seq<u8>> {
        if self.base < id <= self.end() {
            Some(self.slots[id - self.base - 1])
        } else {
            None
        }
    }

    /// The part between a snapshot's durable and live bounds, if the tail covers it.
    pub open spec fn bounded(self, durable: int, live: int) -> Option<Slots> {
        if durable == live {
            Some(Slots { base: durable, slots: Seq::empty() })
        } else if self.base <= durable && live <= self.end() {
            Some(
                Slots {
                    base: durable,
                    slots: self.slots.subrange(durable - self.base, live - self.base),
                },
            )
        } else {
            None
        }
    }
}

/// The bytes of slots.
pub open spec fn slot_views(slots: Seq<[u8; 80]>) -> Seq<Seq<u8>> {
    Seq::new(slots.len(), |i: int| slots[i]@)
}

impl Tail {
    /// The slots.
    pub closed spec fn view(&self) -> Slots {
        Slots { base: self.base as int, slots: slot_views(self.slots@) }
    }

    #[verifier::type_invariant]
    spec fn bounded_ids(self) -> bool {
        self.base + self.slots@.len() <= u32::MAX
    }

    /// A tail without slots.
    pub fn empty(base: u32) -> (tail: Self)
        ensures
            tail@ == (Slots { base: base as int, slots: Seq::empty() }),
    {
        let tail = Tail { base, slots: Vec::new() };
        assert(tail@ =~= (Slots { base: base as int, slots: Seq::empty() }));
        tail
    }

    /// The ID that the slots stand behind.
    pub fn base(&self) -> (base: u32)
        ensures
            base == self@.base,
    {
        self.base
    }

    /// Last contained ID, or the base for an empty tail.
    pub fn end(&self) -> (end: u32)
        ensures
            end == self@.end(),
    {
        proof {
            use_type_invariant(self);
        }
        self.base + self.slots.len() as u32
    }

    /// Copy an exact tail record if this tail contains it.
    pub fn slot(&self, id: u32) -> (slot: Option<[u8; 80]>)
        ensures
            match self@.slot(id as int) {
                Some(bytes) => slot matches Some(s) && s@ == bytes,
                None => slot is None,
            },
    {
        proof {
            use_type_invariant(self);
        }
        if id <= self.base {
            return None;
        }
        let at: u32 = id - self.base - 1;
        if at as usize >= self.slots.len() {
            return None;
        }
        Some(self.slots[at as usize])
    }

    /// Restrict a shared tail to a snapshot's durable and live bounds.
    pub fn bounded(&self, durable: u32, live: u32) -> (tail: Option<Self>)
        requires
            durable <= live,
        ensures
            match self@.bounded(durable as int, live as int) {
                Some(part) => tail matches Some(t) && t@ == part,
                None => tail is None,
            },
    {
        proof {
            use_type_invariant(self);
        }
        if durable == live {
            return Some(Self::empty(durable));
        }
        if self.base > durable || self.end() < live {
            return None;
        }
        let from: usize = (durable - self.base) as usize;
        let to: usize = (live - self.base) as usize;
        let mut slots: Vec<[u8; 80]> = Vec::new();
        let mut at: usize = from;
        while at < to
            invariant
                from <= at <= to <= self.slots@.len(),
                slots@ == self.slots@.subrange(from as int, at as int),
            decreases to - at,
        {
            slots.push(self.slots[at]);
            at = at + 1;
            assert(slots@ =~= self.slots@.subrange(from as int, at as int));
        }
        let tail = Tail { base: durable, slots };
        assert(tail@ =~= self@.bounded(durable as int, live as int)->0);
        Some(tail)
    }

    /// A tail with the same slots.
    pub fn copy(&self) -> (tail: Self)
        ensures
            tail@ == self@,
    {
        proof {
            use_type_invariant(self);
        }
        let mut slots: Vec<[u8; 80]> = Vec::new();
        let mut at: usize = 0;
        while at < self.slots.len()
            invariant
                at <= self.slots@.len(),
                slots@ == self.slots@.subrange(0, at as int),
            decreases self.slots@.len() - at,
        {
            slots.push(self.slots[at]);
            at = at + 1;
            assert(slots@ =~= self.slots@.subrange(0, at as int));
        }
        assert(slots@ =~= self.slots@);
        Tail { base: self.base, slots }
    }

    /// Append the next slot.
    pub fn push(&mut self, slot: [u8; 80])
        requires
            old(self)@.end() < u32::MAX,
        ensures
            final(self)@ == (Slots {
                base: old(self)@.base,
                slots: old(self)@.slots.push(slot@),
            }),
    {
        let mut slots: Vec<[u8; 80]> = Vec::new();
        std::mem::swap(&mut slots, &mut self.slots);
        slots.push(slot);
        self.slots = slots;
        assert(self@.slots =~= old(self)@.slots.push(slot@));
    }

    /// The slots' bytes in a record width.
    pub fn record_bytes(&self, slot_size: usize) -> (bytes: Vec<u8>)
        requires
            slot_size <= 80,
        ensures
            bytes@ == joined(self@.slots, slot_size as nat),
    {
        let mut bytes: Vec<u8> = Vec::new();
        let mut at: usize = 0;
        assert(self@.slots.subrange(0, 0) =~= Seq::<Seq<u8>>::empty());
        while at < self.slots.len()
            invariant
                at <= self.slots@.len(),
                slot_size <= 80,
                bytes@ == joined(self@.slots.subrange(0, at as int), slot_size as nat),
            decreases self.slots@.len() - at,
        {
            let slot: &[u8] = &self.slots[at];
            push_bytes(&mut bytes, &slot[0..slot_size]);
            at = at + 1;
            assert(self@.slots.subrange(0, at as int).drop_last() =~= self@.slots.subrange(
                0,
                at - 1,
            ));
        }
        assert(self@.slots.subrange(0, at as int) =~= self@.slots);
        bytes
    }
}

/// Slots in a record width, one after the other.
pub open spec fn joined(slots: Seq<Seq<u8>>, slot_size: nat) -> Seq<u8>
    decreases slots.len(),
{
    if slots.len() == 0 {
        Seq::empty()
    } else {
        joined(slots.drop_last(), slot_size) + slots.last().subrange(0, slot_size as int)
    }
}

/// A snapshot's read view: complete mapped pages, and a copy of what is published behind them.
#[derive(Clone, Copy, Debug)]
pub struct HashView<'a> {
    /// Mapped pages, which later publications may extend.
    pub map: &'a [u8],
    /// Copied published bytes after the mapped prefix.
    pub tail: &'a [u8],
    /// Start of the copied suffix; independent of later mapping extension.
    pub tail_start: usize,
    /// Largest slot this particular snapshot may read.
    pub max_id: u32,
    /// Record width of the file generation.
    pub slot_size: usize,
}

impl<'a> HashView<'a> {
    /// Whether the mapping reaches the copied suffix and the record width is a known one.
    pub open spec fn wf(&self) -> bool {
        &&& self.tail_start <= self.map@.len()
        &&& self.slot_size == 80 || self.slot_size == 64
    }

    /// The published bytes.
    pub open spec fn published(&self) -> Seq<u8> {
        self.map@.subrange(0, self.tail_start as int) + self.tail@
    }

    /// The record of an ID, in the width of a full slot.
    pub open spec fn record(&self, id: u32) -> Option<Seq<u8>> {
        let start = slot_start_spec(id, self.slot_size as nat) as int;
        if id == 0 || id > self.max_id || start + self.slot_size > self.published().len() {
            None
        } else {
            Some(
                self.published().subrange(start, start + self.slot_size) + zeros(
                    (80 - self.slot_size) as nat,
                ),
            )
        }
    }

    /// Copy a fixed record while respecting the view's publication and original tail boundary.
    pub fn slot(&self, id: u32) -> (slot: Option<[u8; 80]>)
        requires
            self.wf(),
        ensures
            match self.record(id) {
                Some(bytes) => slot matches Some(s) && s@ == bytes,
                None => slot is None,
            },
    {
        if id == 0 || id > self.max_id {
            return None;
        }
        let end: u64 = slot_end_for(id, self.slot_size);
        if end > usize::MAX as u64 {
            assert(self.map.len() >= self.tail_start);
            assert(self.tail.len() <= usize::MAX);
        }
        let available: u128 = self.tail_start as u128 + self.tail.len() as u128;
        if end as u128 > available {
            return None;
        }
        let start: u64 = end - self.slot_size as u64;
        let mut out: Vec<u8> = Vec::new();
        let mut at: usize = 0;
        while at < self.slot_size
            invariant
                at <= self.slot_size,
                self.wf(),
                start == slot_start_spec(id, self.slot_size as nat),
                start + self.slot_size <= self.published().len(),
                start + self.slot_size <= u64::MAX,
                out@ == self.published().subrange(start as int, start + at),
            decreases self.slot_size - at,
        {
            let pos: u64 = start + at as u64;
            let byte: u8 = if pos < self.tail_start as u64 {
                self.map[pos as usize]
            } else {
                self.tail[(pos - self.tail_start as u64) as usize]
            };
            out.push(byte);
            at = at + 1;
            assert(out@ =~= self.published().subrange(start as int, start + at));
        }
        push_zeros(&mut out, 80 - self.slot_size);
        assert(out@ =~= self.record(id)->0);
        Some(to_array::<80>(out.as_slice()))
    }
}

/// A view gives the same records however far its mapping is extended later.
pub proof fn law_view_ignores_later_pages(view: HashView<'_>, grown: HashView<'_>, id: u32)
    requires
        view.wf(),
        grown.map@.len() >= view.map@.len(),
        grown.map@.subrange(0, view.map@.len() as int) == view.map@,
        grown.tail@ == view.tail@,
        grown.tail_start == view.tail_start,
        grown.max_id == view.max_id,
        grown.slot_size == view.slot_size,
    ensures
        grown.wf(),
        grown.record(id) == view.record(id),
{
    assert(grown.map@.subrange(0, view.tail_start as int) =~= view.map@.subrange(
        0,
        view.tail_start as int,
    ));
}

/// The record that a transaction may read of an ID: the durable view's, or the committed tail's.
pub open spec fn visible(view: &HashView<'_>, tail: Slots, id: u32) -> Option<Seq<u8>> {
    match view.record(id) {
        Some(slot) => Some(slot),
        None => tail.slot(id as int),
    }
}

/// The record that a transaction may read of an ID.
pub fn visible_slot(view: &HashView<'_>, tail: &Tail, id: u32) -> (slot: Option<[u8; 80]>)
    requires
        view.wf(),
    ensures
        match visible(view, tail@, id) {
            Some(bytes) => slot matches Some(s) && s@ == bytes,
            None => slot is None,
        },
{
    match view.slot(id) {
        Some(slot) => Some(slot),
        None => tail.slot(id),
    }
}

/// Whether a slot reader always answers as the table does.
pub open spec fn reads_slots<F: Fn(u32) -> Option<[u8; 80]>>(
    read: F,
    table: spec_fn(u32) -> Option<Seq<u8>>,
) -> bool {
    forall|at: u32, found: Option<[u8; 80]>|
        #[trigger] call_ensures(read, (at,), found) ==> match found {
            Some(slot) => table(at) == Some(slot@),
            None => table(at) is None,
        }
}

/// The links that a table of slots holds.
pub open spec fn links_of(table: spec_fn(u32) -> Option<Seq<u8>>) -> spec_fn(u32) -> Option<
    Ancestry,
> {
    |at: u32|
        match table(at) {
            Some(slot) => slot_links(at, slot),
            None => None,
        }
}

/// The slot at an older height on a block's own fork.
pub open spec fn ancestor_slot_spec(
    table: spec_fn(u32) -> Option<Seq<u8>>,
    slot_size: nat,
    id: u32,
    block: Seq<u8>,
    height: u32,
    target: u32,
) -> Option<Seq<u8>> {
    match table(id) {
        None => None,
        Some(slot) => if slot_size != 80 || slot.subrange(0, 32) != block {
            None
        } else {
            match slot_links(id, slot) {
                None => None,
                Some(links) => if links.height != height {
                    None
                } else {
                    match ancestor_spec(links_of(table), id, target) {
                        None => None,
                        Some(found) => table(found),
                    }
                },
            }
        },
    }
}

/// Return the immutable slot at an older height on this exact committed fork.
pub fn find_ancestor_slot<T: MarfTrieId, F: Fn(u32) -> Option<[u8; 80]>>(
    read: &F,
    slot_size: usize,
    id: u32,
    block: &T,
    height: u32,
    target: u32,
) -> (slot: Option<[u8; 80]>)
    requires
        forall|at: u32| call_requires(*read, (at,)),
    ensures
        forall|table: spec_fn(u32) -> Option<Seq<u8>>| #[trigger]
            reads_slots(*read, table) ==> match ancestor_slot_spec(
                table,
                slot_size as nat,
                id,
                block.id_bytes(),
                height,
                target,
            ) {
                Some(bytes) => slot matches Some(s) && s@ == bytes,
                None => slot is None,
            },
{
    if slot_size != SLOT {
        return None;
    }
    let first: [u8; 80] = match read(id) {
        Some(slot) => slot,
        None => return None,
    };
    let first_bytes: &[u8] = &first;
    if !bytes_eq(&first_bytes[0..32], block.as_bytes()) {
        return None;
    }
    let links: Ancestry = match links_in(id, &first) {
        Some(links) => links,
        None => return None,
    };
    if links.height != height {
        return None;
    }
    let climb = |at: u32| -> (found: Option<Ancestry>)
        ensures
            forall|table: spec_fn(u32) -> Option<Seq<u8>>| #[trigger]
                reads_slots(*read, table) ==> found == links_of(table)(at),
        {
            match read(at) {
                Some(slot) => links_in(at, &slot),
                None => None,
            }
        };
    let found: Option<u32> = ancestor(id, target, climb);
    proof {
        assert forall|table: spec_fn(u32) -> Option<Seq<u8>>| #[trigger]
            reads_slots(*read, table) implies found == ancestor_spec(
            links_of(table),
            id,
            target,
        ) by {
            assert(agrees(climb, links_of(table)));
        }
    }
    match found {
        Some(at) => read(at),
        None => None,
    }
}

} // verus!
