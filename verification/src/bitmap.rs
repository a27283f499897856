//! Bits, nibbles, six-bit fields and fixed-width integers packed into bytes.
use vstd::prelude::*;

use crate::words::{le_bytes, le_value, lemma_le_len, push_le};

verus! {

/// The value of bit `i` of a byte.
pub open spec fn weight(i: int) -> int {
    if i == 0 {
        1
    } else if i == 1 {
        2
    } else if i == 2 {
        4
    } else if i == 3 {
        8
    } else if i == 4 {
        16
    } else if i == 5 {
        32
    } else if i == 6 {
        64
    } else {
        128
    }
}

/// Bit `i` of a byte.
#[verifier::opaque]
pub open spec fn bit(byte: u8, i: int) -> bool {
    (byte as int / weight(i)) % 2 == 1
}

/// Whether a slot is set in a bitmap, lowest bit first.
pub open spec fn slot_bit(bitmap: Seq<u8>, slot: int) -> bool {
    0 <= slot < 8 * bitmap.len() && bit(bitmap[slot / 8], slot % 8)
}

/// Set bits before `slot`.
pub open spec fn rank(bitmap: Seq<u8>, slot: nat) -> nat
    decreases slot,
{
    if slot == 0 {
        0
    } else {
        rank(bitmap, (slot - 1) as nat) + if slot_bit(bitmap, slot - 1) {
            1nat
        } else {
            0
        }
    }
}

/// `true` entries before `n`.
pub open spec fn count_true(bits: Seq<bool>, n: nat) -> nat
    decreases n,
{
    if n == 0 {
        0
    } else {
        count_true(bits, (n - 1) as nat) + if n <= bits.len() && bits[n - 1] {
            1nat
        } else {
            0
        }
    }
}

/// One if there is an entry at `at` and it is `true`.
pub open spec fn digit(bits: Seq<bool>, at: int) -> int {
    if 0 <= at < bits.len() && bits[at] {
        1
    } else {
        0
    }
}

/// Eight entries as a byte.
pub open spec fn byte_of(bits: Seq<bool>, base: int) -> int {
    digit(bits, base) + 2 * digit(bits, base + 1) + 4 * digit(bits, base + 2) + 8 * digit(
        bits,
        base + 3,
    ) + 16 * digit(bits, base + 4) + 32 * digit(bits, base + 5) + 64 * digit(bits, base + 6) + 128
        * digit(bits, base + 7)
}

/// Entries packed lowest bit first, with zero padding.
pub open spec fn bitmap_of(bits: Seq<bool>) -> Seq<u8> {
    Seq::new(((bits.len() + 7) / 8) as nat, |k: int| byte_of(bits, 8 * k) as u8)
}

/// A packed bitmap holds its entries and nothing else.
pub proof fn lemma_bitmap_bits(bits: Seq<bool>, slot: int)
    requires
        0 <= slot,
    ensures
        slot_bit(bitmap_of(bits), slot) == (slot < bits.len() && bits[slot]),
{
    reveal(bit);
    let map = bitmap_of(bits);
    if slot < 8 * map.len() {
        let k = slot / 8;
        let i = slot % 8;
        let base = 8 * k;
        assert(map[k] == byte_of(bits, base) as u8);
        let d0 = digit(bits, base);
        let d1 = digit(bits, base + 1);
        let d2 = digit(bits, base + 2);
        let d3 = digit(bits, base + 3);
        let d4 = digit(bits, base + 4);
        let d5 = digit(bits, base + 5);
        let d6 = digit(bits, base + 6);
        let d7 = digit(bits, base + 7);
        let b = byte_of(bits, base);
        assert(0 <= b < 256);
        assert(b % 2 == d0);
        assert(b / 2 == d1 + 2 * d2 + 4 * d3 + 8 * d4 + 16 * d5 + 32 * d6 + 64 * d7);
        assert(b / 4 == d2 + 2 * d3 + 4 * d4 + 8 * d5 + 16 * d6 + 32 * d7);
        assert(b / 8 == d3 + 2 * d4 + 4 * d5 + 8 * d6 + 16 * d7);
        assert(b / 16 == d4 + 2 * d5 + 4 * d6 + 8 * d7);
        assert(b / 32 == d5 + 2 * d6 + 4 * d7);
        assert(b / 64 == d6 + 2 * d7);
        assert(b / 128 == d7);
        assert(slot == base + i);
    }
}

/// Rank in a packed bitmap counts the packed entries.
pub proof fn lemma_bitmap_rank(bits: Seq<bool>, n: nat)
    ensures
        rank(bitmap_of(bits), n) == count_true(bits, n),
    decreases n,
{
    if n > 0 {
        lemma_bitmap_rank(bits, (n - 1) as nat);
        lemma_bitmap_bits(bits, n - 1);
    }
}

/// A packed bitmap has no bits past its entries.
pub proof fn lemma_bitmap_padding(bits: Seq<bool>)
    ensures
        !dirty_padding(bitmap_of(bits), bits.len()),
{
    reveal(dirty_padding);
    let k = bits.len() as int / 8;
    let base = 8 * k;
    let b = byte_of(bits, base);
    if bits.len() % 8 != 0 {
        assert(bitmap_of(bits)[k] == b as u8);
    }
}

/// Ranks are monotone and never exceed the slot.
pub proof fn lemma_rank_bounds(bitmap: Seq<u8>, a: nat, b: nat)
    requires
        a <= b,
    ensures
        rank(bitmap, a) <= rank(bitmap, b) <= rank(bitmap, a) + (b - a),
        rank(bitmap, b) <= b,
        a < b && slot_bit(bitmap, a as int) ==> rank(bitmap, a) < rank(bitmap, b),
    decreases b,
{
    if a < b {
        lemma_rank_bounds(bitmap, a, (b - 1) as nat);
    } else if b > 0 {
        lemma_rank_bounds(bitmap, (a - 1) as nat, (b - 1) as nat);
    }
}

/// The value of bit `i` of a byte.
pub fn bit_weight(i: usize) -> (w: u8)
    requires
        i < 8,
    ensures
        w == weight(i as int),
{
    if i == 0 {
        1
    } else if i == 1 {
        2
    } else if i == 2 {
        4
    } else if i == 3 {
        8
    } else if i == 4 {
        16
    } else if i == 5 {
        32
    } else if i == 6 {
        64
    } else {
        128
    }
}

/// Whether one slot is set in a bounded bitmap.
pub fn bit_at(bitmap: &[u8], slot: usize) -> (set: bool)
    ensures
        set == slot_bit(bitmap@, slot as int),
{
    proof {
        reveal(bit);
    }
    let at: usize = slot / 8;
    if at >= bitmap.len() {
        return false;
    }
    (bitmap[at] / bit_weight(slot % 8)) % 2 == 1
}

/// Count set bits before a slot.
pub fn rank_at(bitmap: &[u8], slot: usize) -> (count: usize)
    ensures
        count == rank(bitmap@, slot as nat),
        count <= slot,
{
    let mut count: usize = 0;
    let mut at: usize = 0;
    while at < slot
        invariant
            count <= at <= slot,
            count == rank(bitmap@, at as nat),
        decreases slot - at,
    {
        if bit_at(bitmap, at) {
            count = count + 1;
        }
        at = at + 1;
    }
    count
}

/// Whether bits past the last entry are set in the last byte.
#[verifier::opaque]
pub open spec fn dirty_padding(bitmap: Seq<u8>, count: nat) -> bool {
    count % 8 != 0 && bitmap[count as int / 8] as int / weight(count as int % 8) != 0
}

/// Whether bits past the last entry are set in the last byte.
pub fn has_dirty_padding(bitmap: &[u8], count: usize) -> (dirty: bool)
    requires
        count <= 8 * bitmap@.len(),
    ensures
        dirty == dirty_padding(bitmap@, count as nat),
{
    proof {
        reveal(dirty_padding);
    }
    count % 8 != 0 && bitmap[count / 8] / bit_weight(count % 8) != 0
}

/// Pack entries lowest bit first.
pub fn pack_bits(bits: &[bool]) -> (bitmap: Vec<u8>)
    requires
        bits@.len() <= 256,
    ensures
        bitmap@ == bitmap_of(bits@),
{
    let mut bitmap: Vec<u8> = Vec::new();
    let total: usize = (bits.len() + 7) / 8;
    let mut k: usize = 0;
    while k < total
        invariant
            bits@.len() <= 256,
            k <= total,
            total == (bits@.len() + 7) / 8,
            bitmap@.len() == k,
            forall|j: int| 0 <= j < k ==> bitmap@[j] == byte_of(bits@, 8 * j) as u8,
        decreases total - k,
    {
        let base: usize = 8 * k;
        let byte: u16 = digit_at(bits, base) + 2 * digit_at(bits, base + 1) + 4 * digit_at(
            bits,
            base + 2,
        ) + 8 * digit_at(bits, base + 3) + 16 * digit_at(bits, base + 4) + 32 * digit_at(
            bits,
            base + 5,
        ) + 64 * digit_at(bits, base + 6) + 128 * digit_at(bits, base + 7);
        bitmap.push(byte as u8);
        k = k + 1;
    }
    assert(bitmap@ =~= bitmap_of(bits@));
    bitmap
}

fn digit_at(bits: &[bool], at: usize) -> (d: u16)
    ensures
        d == digit(bits@, at as int),
        d <= 1,
{
    if at < bits.len() && bits[at] {
        1
    } else {
        0
    }
}

/// Nibble `i` of a column, low nibble first.
pub open spec fn nibble(column: Seq<u8>, i: int) -> int {
    if i % 2 == 0 {
        column[i / 2] as int % 16
    } else {
        column[i / 2] as int / 16
    }
}

/// Values below 16 packed two to a byte.
pub open spec fn nibbles_of(values: Seq<u8>) -> Seq<u8> {
    Seq::new(
        ((values.len() + 1) / 2) as nat,
        |k: int|
            (values[2 * k] + 16 * (if 2 * k + 1 < values.len() {
                values[2 * k + 1] as int
            } else {
                0
            })) as u8,
    )
}

/// Packed nibbles hold their values.
pub proof fn lemma_nibbles(values: Seq<u8>)
    requires
        forall|i: int| 0 <= i < values.len() ==> values[i] < 16,
    ensures
        forall|i: int|
            0 <= i < values.len() ==> #[trigger] nibble(nibbles_of(values), i) == values[i],
        values.len() % 2 != 0 ==> nibbles_of(values)[values.len() as int / 2] < 16,
{
    assert forall|i: int| 0 <= i < values.len() implies #[trigger] nibble(nibbles_of(values), i)
        == values[i] by {
        let k = i / 2;
        let low = values[2 * k] as int;
        let high = if 2 * k + 1 < values.len() {
            values[2 * k + 1] as int
        } else {
            0
        };
        assert(nibbles_of(values)[k] as int == low + 16 * high);
        assert((low + 16 * high) % 16 == low);
        assert((low + 16 * high) / 16 == high);
    }
}

/// Nibble `i` of a column.
pub fn nibble_at(column: &[u8], i: usize) -> (v: u8)
    requires
        i / 2 < column@.len(),
    ensures
        v == nibble(column@, i as int),
        v < 16,
{
    if i % 2 == 0 {
        column[i / 2] % 16
    } else {
        column[i / 2] / 16
    }
}

/// Pack values below 16 two to a byte.
pub fn pack_nibbles(values: &[u8]) -> (column: Vec<u8>)
    requires
        values@.len() <= 256,
        forall|i: int| 0 <= i < values@.len() ==> values@[i] < 16,
    ensures
        column@ == nibbles_of(values@),
{
    let mut column: Vec<u8> = Vec::new();
    let total: usize = (values.len() + 1) / 2;
    let mut k: usize = 0;
    while k < total
        invariant
            values@.len() <= 256,
            forall|i: int| 0 <= i < values@.len() ==> values@[i] < 16,
            k <= total,
            total == (values@.len() + 1) / 2,
            column@.len() == k,
            forall|j: int| 0 <= j < k ==> column@[j] == nibbles_of(values@)[j],
        decreases total - k,
    {
        let low: u8 = values[2 * k];
        let high: u8 = if 2 * k + 1 < values.len() { values[2 * k + 1] } else { 0 };
        column.push(low + 16 * high);
        k = k + 1;
    }
    assert(column@ =~= nibbles_of(values@));
    column
}

/// Three bytes as a number.
pub open spec fn triple(column: Seq<u8>, group: int) -> int {
    column[3 * group] + 256 * column[3 * group + 1] + 65536 * column[3 * group + 2]
}

/// Six-bit field `i` of a column, lowest bits first.
pub open spec fn sextet(column: Seq<u8>, i: int) -> int {
    let word = triple(column, i / 4);
    if i % 4 == 0 {
        word % 64
    } else if i % 4 == 1 {
        (word / 64) % 64
    } else if i % 4 == 2 {
        (word / 4096) % 64
    } else {
        word / 262144
    }
}

/// Four six-bit values as a number.
pub open spec fn quad(values: Seq<u8>, group: int) -> int {
    values[4 * group] + 64 * values[4 * group + 1] + 4096 * values[4 * group + 2] + 262144
        * values[4 * group + 3]
}

/// Values below 64 packed four to three bytes.
pub open spec fn sextets_of(values: Seq<u8>) -> Seq<u8> {
    Seq::new(
        (3 * (values.len() / 4)) as nat,
        |k: int|
            if k % 3 == 0 {
                (quad(values, k / 3) % 256) as u8
            } else if k % 3 == 1 {
                ((quad(values, k / 3) / 256) % 256) as u8
            } else {
                (quad(values, k / 3) / 65536) as u8
            },
    )
}

/// Packed six-bit fields hold their values.
pub proof fn lemma_sextets(values: Seq<u8>)
    requires
        values.len() % 4 == 0,
        forall|i: int| 0 <= i < values.len() ==> values[i] < 64,
    ensures
        forall|i: int|
            0 <= i < values.len() ==> #[trigger] sextet(sextets_of(values), i) == values[i],
{
    let column = sextets_of(values);
    assert forall|i: int| 0 <= i < values.len() implies #[trigger] sextet(column, i)
        == values[i] by {
        let g = i / 4;
        assert(4 * g + 3 < values.len());
        lemma_sextet_bytes(values, g);
        lemma_quad_fields(
            values[4 * g] as int,
            values[4 * g + 1] as int,
            values[4 * g + 2] as int,
            values[4 * g + 3] as int,
        );
    }
}

proof fn lemma_sextet_bytes(values: Seq<u8>, g: int)
    requires
        0 <= g,
        4 * g + 3 < values.len(),
        forall|i: int| 0 <= i < values.len() ==> values[i] < 64,
    ensures
        triple(sextets_of(values), g) == quad(values, g),
{
    let column = sextets_of(values);
    let q = quad(values, g);
    assert(0 <= q < 16777216);
    assert(3 * g + 2 < column.len());
    assert((3 * g) % 3 == 0 && (3 * g) / 3 == g);
    assert((3 * g + 1) % 3 == 1 && (3 * g + 1) / 3 == g);
    assert((3 * g + 2) % 3 == 2 && (3 * g + 2) / 3 == g);
    assert(column[3 * g] == (q % 256) as u8);
    assert(column[3 * g + 1] == ((q / 256) % 256) as u8);
    assert(column[3 * g + 2] == (q / 65536) as u8);
    assert(q / 65536 == (q / 256) / 256);
}

proof fn lemma_quad_fields(a: int, b: int, c: int, d: int)
    requires
        0 <= a < 64,
        0 <= b < 64,
        0 <= c < 64,
        0 <= d < 64,
    ensures
        (a + 64 * b + 4096 * c + 262144 * d) % 64 == a,
        ((a + 64 * b + 4096 * c + 262144 * d) / 64) % 64 == b,
        ((a + 64 * b + 4096 * c + 262144 * d) / 4096) % 64 == c,
        (a + 64 * b + 4096 * c + 262144 * d) / 262144 == d,
{
    let q = a + 64 * b + 4096 * c + 262144 * d;
    assert(q / 64 == b + 64 * c + 4096 * d);
    assert(q / 4096 == c + 64 * d);
}

/// Six-bit field `i` of a column.
pub fn sextet_at(column: &[u8], i: usize) -> (v: u8)
    requires
        3 * (i / 4) + 2 < column@.len(),
    ensures
        v == sextet(column@, i as int),
        v < 64,
{
    let base: usize = i - i % 4;
    let start: usize = base / 4 + base / 4 + base / 4;
    let word: u32 = column[start] as u32 + 256 * (column[start + 1] as u32) + 65536 * (column[start
        + 2] as u32);
    let field: u32 = if i % 4 == 0 {
        word % 64
    } else if i % 4 == 1 {
        (word / 64) % 64
    } else if i % 4 == 2 {
        (word / 4096) % 64
    } else {
        word / 262144
    };
    field as u8
}

/// Pack values below 64 four to three bytes.
pub fn pack_sextets(values: &[u8]) -> (column: Vec<u8>)
    requires
        values@.len() == 256,
        forall|i: int| 0 <= i < values@.len() ==> values@[i] < 64,
    ensures
        column@ == sextets_of(values@),
{
    let mut column: Vec<u8> = Vec::new();
    let mut g: usize = 0;
    while g < 64
        invariant
            values@.len() == 256,
            forall|i: int| 0 <= i < values@.len() ==> values@[i] < 64,
            g <= 64,
            column@.len() == 3 * g,
            forall|j: int| 0 <= j < 3 * g ==> column@[j] == sextets_of(values@)[j],
        decreases 64 - g,
    {
        let word: u32 = values[4 * g] as u32 + 64 * (values[4 * g + 1] as u32) + 4096 * (values[4
            * g + 2] as u32) + 262144 * (values[4 * g + 3] as u32);
        assert(word == quad(values@, g as int));
        column.push((word % 256) as u8);
        column.push(((word / 256) % 256) as u8);
        column.push((word / 65536) as u8);
        proof {
            let n = 3 * g as int;
            assert(n % 3 == 0 && n / 3 == g);
            assert((n + 1) % 3 == 1 && (n + 1) / 3 == g);
            assert((n + 2) % 3 == 2 && (n + 2) / 3 == g);
        }
        g = g + 1;
    }
    assert(column@ =~= sextets_of(values@));
    column
}

/// Numbers of `width` bytes each, one after the other.
pub open spec fn column_of(values: Seq<u64>, width: nat) -> Seq<u8>
    decreases values.len(),
{
    if values.len() == 0 {
        Seq::empty()
    } else {
        column_of(values.drop_last(), width) + le_bytes(values.last() as nat, width)
    }
}

/// Number `i` of a column of numbers that are `width` bytes wide.
pub open spec fn column_value(column: Seq<u8>, i: int, width: int) -> nat {
    le_value(column.subrange(i * width, i * width + width))
}

/// A column is as long as its numbers are wide.
pub proof fn lemma_column_len(values: Seq<u64>, width: nat)
    ensures
        column_of(values, width).len() == values.len() * width,
    decreases values.len(),
{
    if values.len() > 0 {
        lemma_column_len(values.drop_last(), width);
        lemma_le_len(values.last() as nat, width);
        assert((values.len() - 1) * width + width == values.len() * width) by (nonlinear_arith);
    } else {
        assert(0 * width == 0) by (nonlinear_arith);
    }
}

/// A column holds its numbers in order.
pub proof fn lemma_column_entry(values: Seq<u64>, width: nat, i: int)
    requires
        0 <= i < values.len(),
    ensures
        0 <= i * width,
        i * width + width <= column_of(values, width).len(),
        column_of(values, width).subrange(i * width, i * width + width) == le_bytes(
            values[i] as nat,
            width,
        ),
    decreases values.len(),
{
    let column = column_of(values, width);
    let front = column_of(values.drop_last(), width);
    lemma_column_len(values, width);
    lemma_column_len(values.drop_last(), width);
    lemma_le_len(values.last() as nat, width);
    assert((values.len() - 1) * width + width == values.len() * width) by (nonlinear_arith);
    assert(0 <= i * width) by (nonlinear_arith)
        requires
            0 <= i,
    ;
    if i == values.len() - 1 {
        assert(column.subrange(i * width, i * width + width) =~= le_bytes(
            values[i] as nat,
            width,
        ));
    } else {
        lemma_column_entry(values.drop_last(), width, i);
        assert(column.subrange(i * width, i * width + width) =~= front.subrange(
            i * width,
            i * width + width,
        ));
    }
}

/// Append numbers of `width` bytes each.
pub fn push_column(out: &mut Vec<u8>, values: &[u64], width: usize)
    ensures
        final(out)@ == old(out)@ + column_of(values@, width as nat),
{
    let mut at: usize = 0;
    assert(values@.subrange(0, 0) =~= Seq::<u64>::empty());
    assert(out@ =~= old(out)@ + column_of(values@.subrange(0, 0), width as nat));
    while at < values.len()
        invariant
            at <= values.len(),
            out@ == old(out)@ + column_of(values@.subrange(0, at as int), width as nat),
        decreases values.len() - at,
    {
        let ghost before = out@;
        push_le(out, values[at], width);
        at = at + 1;
        proof {
            let part = values@.subrange(0, at as int);
            assert(part.drop_last() =~= values@.subrange(0, at - 1));
            assert(out@ =~= old(out)@ + column_of(part, width as nat));
        }
    }
    assert(values@.subrange(0, at as int) =~= values@);
}

} // verus!
