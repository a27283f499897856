//! Fixed-width unsigned integers as byte sequences.
use vstd::prelude::*;

verus! {

/// The number of values that `width` bytes can hold.
pub open spec fn span(width: nat) -> nat
    decreases width,
{
    if width == 0 {
        1
    } else {
        256 * span((width - 1) as nat)
    }
}

/// The low `width` bytes of `n`, least significant byte first.
pub open spec fn le_bytes(n: nat, width: nat) -> Seq<u8>
    decreases width,
{
    if width == 0 {
        Seq::empty()
    } else {
        seq![(n % 256) as u8] + le_bytes(n / 256, (width - 1) as nat)
    }
}

/// The number that a little-endian byte sequence denotes.
pub open spec fn le_value(s: Seq<u8>) -> nat
    decreases s.len(),
{
    if s.len() == 0 {
        0
    } else {
        s[0] as nat + 256 * le_value(s.subrange(1, s.len() as int))
    }
}

/// The low `width` bytes of `n`, most significant byte first.
pub open spec fn be_bytes(n: nat, width: nat) -> Seq<u8>
    decreases width,
{
    if width == 0 {
        Seq::empty()
    } else {
        be_bytes(n / 256, (width - 1) as nat).push((n % 256) as u8)
    }
}

/// The number that a big-endian byte sequence denotes.
pub open spec fn be_value(s: Seq<u8>) -> nat
    decreases s.len(),
{
    if s.len() == 0 {
        0
    } else {
        256 * be_value(s.drop_last()) + s.last() as nat
    }
}

/// The spans of the widths that the codecs use.
pub proof fn lemma_spans()
    ensures
        span(0) == 1,
        span(1) == 0x100,
        span(2) == 0x1_0000,
        span(3) == 0x100_0000,
        span(4) == 0x1_0000_0000,
        span(8) == 0x1_0000_0000_0000_0000,
{
    reveal_with_fuel(span, 9);
}

/// Little-endian encodings have the requested width.
pub proof fn lemma_le_len(n: nat, width: nat)
    ensures
        le_bytes(n, width).len() == width,
    decreases width,
{
    if width > 0 {
        lemma_le_len(n / 256, (width - 1) as nat);
    }
}

/// Big-endian encodings have the requested width.
pub proof fn lemma_be_len(n: nat, width: nat)
    ensures
        be_bytes(n, width).len() == width,
    decreases width,
{
    if width > 0 {
        lemma_be_len(n / 256, (width - 1) as nat);
    }
}

/// A number that fits its width survives a little-endian round trip.
pub proof fn lemma_le_roundtrip(n: nat, width: nat)
    requires
        n < span(width),
    ensures
        le_value(le_bytes(n, width)) == n,
    decreases width,
{
    if width > 0 {
        let rest = (width - 1) as nat;
        assert(n / 256 < span(rest));
        lemma_le_roundtrip(n / 256, rest);
        let s = le_bytes(n, width);
        assert(s.subrange(1, s.len() as int) =~= le_bytes(n / 256, rest));
        assert(s[0] == (n % 256) as u8);
    }
}

/// A number that fits its width survives a big-endian round trip.
pub proof fn lemma_be_roundtrip(n: nat, width: nat)
    requires
        n < span(width),
    ensures
        be_value(be_bytes(n, width)) == n,
    decreases width,
{
    if width > 0 {
        let rest = (width - 1) as nat;
        assert(n / 256 < span(rest));
        lemma_be_roundtrip(n / 256, rest);
        let s = be_bytes(n, width);
        assert(s.drop_last() =~= be_bytes(n / 256, rest));
    }
}

/// A little-endian sequence denotes a number below the span of its length.
pub proof fn lemma_le_bound(s: Seq<u8>)
    ensures
        le_value(s) < span(s.len()),
    decreases s.len(),
{
    if s.len() > 0 {
        lemma_le_bound(s.subrange(1, s.len() as int));
    }
}

/// A big-endian sequence denotes a number below the span of its length.
pub proof fn lemma_be_bound(s: Seq<u8>)
    ensures
        be_value(s) < span(s.len()),
    decreases s.len(),
{
    if s.len() > 0 {
        lemma_be_bound(s.drop_last());
    }
}

/// Append the low `width` bytes of `n`, least significant byte first.
pub fn push_le(out: &mut Vec<u8>, n: u64, width: usize)
    ensures
        final(out)@ == old(out)@ + le_bytes(n as nat, width as nat),
{
    let mut left: usize = width;
    let mut rest: u64 = n;
    assert(out@ + le_bytes(n as nat, width as nat) =~= out@ + le_bytes(rest as nat, left as nat));
    while left > 0
        invariant
            out@ + le_bytes(rest as nat, left as nat) == old(out)@ + le_bytes(
                n as nat,
                width as nat,
            ),
        decreases left,
    {
        let ghost before = out@;
        let byte: u8 = (rest % 256) as u8;
        out.push(byte);
        proof {
            let tail = le_bytes((rest / 256) as nat, (left - 1) as nat);
            assert(le_bytes(rest as nat, left as nat) == seq![byte] + tail);
            assert(before.push(byte) + tail =~= before + (seq![byte] + tail));
        }
        rest = rest / 256;
        left = left - 1;
    }
    assert(out@ + le_bytes(rest as nat, 0) =~= out@);
}

/// Append the low `width` bytes of `n`, most significant byte first.
pub fn push_be(out: &mut Vec<u8>, n: u64, width: usize)
    requires
        width <= 8,
    ensures
        final(out)@ == old(out)@ + be_bytes(n as nat, width as nat),
    decreases width,
{
    if width > 0 {
        push_be(out, n / 256, width - 1);
        let ghost mid = out@;
        let byte: u8 = (n % 256) as u8;
        out.push(byte);
        assert(out@ =~= old(out)@ + be_bytes((n / 256) as nat, (width - 1) as nat).push(byte));
    } else {
        assert(out@ =~= old(out)@ + Seq::<u8>::empty());
    }
}

/// Read `width` little-endian bytes at `start`.
pub fn read_le(bytes: &[u8], start: usize, width: usize) -> (n: u64)
    requires
        width <= 8,
        start + width <= bytes.len(),
    ensures
        n as nat == le_value(bytes@.subrange(start as int, start + width)),
        n < span(width as nat),
{
    let mut n: u64 = 0;
    let mut at: usize = width;
    proof {
        assert(bytes@.subrange(start + width, start + width) =~= Seq::<u8>::empty());
        lemma_spans();
    }
    while at > 0
        invariant
            at <= width <= 8,
            start + width <= bytes.len(),
            n as nat == le_value(bytes@.subrange(start + at, start + width)),
        decreases at,
    {
        proof {
            let tail = bytes@.subrange(start + at, start + width);
            lemma_le_bound(tail);
            assert(tail.len() <= 7);
            lemma_span_monotone(tail.len(), 7);
            lemma_spans();
            reveal_with_fuel(span, 9);
            let whole = bytes@.subrange(start + at - 1, start + width);
            assert(whole.subrange(1, whole.len() as int) =~= tail);
        }
        at = at - 1;
        n = bytes[start + at] as u64 + 256 * n;
    }
    proof {
        lemma_le_bound(bytes@.subrange(start as int, start + width));
    }
    n
}

/// Read `width` big-endian bytes at `start`.
pub fn read_be(bytes: &[u8], start: usize, width: usize) -> (n: u64)
    requires
        width <= 8,
        start + width <= bytes.len(),
    ensures
        n as nat == be_value(bytes@.subrange(start as int, start + width)),
        n < span(width as nat),
{
    let mut n: u64 = 0;
    let mut at: usize = 0;
    proof {
        assert(bytes@.subrange(start as int, start as int) =~= Seq::<u8>::empty());
    }
    while at < width
        invariant
            at <= width <= 8,
            start + width <= bytes.len(),
            n as nat == be_value(bytes@.subrange(start as int, start + at)),
        decreases width - at,
    {
        proof {
            let head = bytes@.subrange(start as int, start + at);
            lemma_be_bound(head);
            lemma_span_monotone(head.len(), 7);
            reveal_with_fuel(span, 9);
            let whole = bytes@.subrange(start as int, start + at + 1);
            assert(whole.drop_last() =~= head);
        }
        n = 256 * n + bytes[start + at] as u64;
        at = at + 1;
    }
    proof {
        lemma_be_bound(bytes@.subrange(start as int, start + width));
    }
    n
}

/// Wider encodings span at least as many values.
pub proof fn lemma_span_monotone(a: nat, b: nat)
    requires
        a <= b,
    ensures
        0 < span(a) <= span(b),
    decreases b,
{
    if a < b {
        lemma_span_monotone(a, (b - 1) as nat);
    } else if b > 0 {
        lemma_span_monotone((a - 1) as nat, (b - 1) as nat);
    }
}

/// Copy a slice of exactly `N` bytes into an array.
pub fn to_array<const N: usize>(bytes: &[u8]) -> (out: [u8; N])
    requires
        bytes@.len() == N,
    ensures
        out@ == bytes@,
{
    let mut out: [u8; N] = vstd::array::array_fill_for_copy_types(0u8);
    let mut at: usize = 0;
    while at < N
        invariant
            at <= N,
            bytes@.len() == N,
            forall|i: int| 0 <= i < at ==> out@[i] == bytes@[i],
        decreases N - at,
    {
        out[at] = bytes[at];
        at = at + 1;
    }
    assert(out@ =~= bytes@);
    out
}

/// Compare two byte slices.
pub fn bytes_eq(a: &[u8], b: &[u8]) -> (same: bool)
    ensures
        same == (a@ == b@),
{
    if a.len() != b.len() {
        return false;
    }
    let mut at: usize = 0;
    while at < a.len()
        invariant
            at <= a.len(),
            a@.len() == b@.len(),
            forall|i: int| 0 <= i < at ==> a@[i] == b@[i],
        decreases a.len() - at,
    {
        if a[at] != b[at] {
            return false;
        }
        at = at + 1;
    }
    assert(a@ =~= b@);
    true
}

/// Append a slice.
pub fn push_bytes(out: &mut Vec<u8>, bytes: &[u8])
    ensures
        final(out)@ == old(out)@ + bytes@,
{
    out.extend_from_slice(bytes);
    assert(out@ =~= old(out)@ + bytes@);
}

/// Whether two byte strings start with the same `n` bytes.
pub open spec fn same_start(a: Seq<u8>, b: Seq<u8>, n: int) -> bool {
    &&& n <= a.len()
    &&& n <= b.len()
    &&& forall|i: int| 0 <= i < n ==> a[i] == b[i]
}

/// Byte strings with the same start have the same parts inside it.
pub proof fn lemma_same_part(a: Seq<u8>, b: Seq<u8>, n: int, from: int, to: int)
    requires
        same_start(a, b, n),
        0 <= from <= to <= n,
    ensures
        a.subrange(from, to) == b.subrange(from, to),
{
    assert(a.subrange(from, to) =~= b.subrange(from, to));
}

} // verus!
