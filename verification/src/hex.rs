//! Lowercase hexadecimal text.
use vstd::prelude::*;

verus! {

/// The digit of a number below sixteen.
pub open spec fn hex_digit(n: int) -> u8 {
    if n < 10 {
        (48 + n) as u8
    } else {
        (87 + n) as u8
    }
}

/// The number of a digit of either case.
pub open spec fn digit_value(c: u8) -> Option<int> {
    if 48 <= c <= 57 {
        Some(c - 48)
    } else if 97 <= c <= 102 {
        Some(c - 87)
    } else if 65 <= c <= 70 {
        Some(c - 55)
    } else {
        None
    }
}

/// The text of bytes, two digits each.
pub open spec fn hex_of(bytes: Seq<u8>) -> Seq<u8> {
    Seq::new(
        2 * bytes.len(),
        |i: int|
            hex_digit(
                if i % 2 == 0 {
                    bytes[i / 2] as int / 16
                } else {
                    bytes[i / 2] as int % 16
                },
            ),
    )
}

/// The bytes of text, if it has two digits of either case for each.
pub open spec fn bytes_of_hex(text: Seq<u8>) -> Option<Seq<u8>> {
    if text.len() % 2 == 0 && forall|i: int|
        0 <= i < text.len() ==> digit_value(#[trigger] text[i]) is Some {
        Some(
            Seq::new(
                text.len() / 2,
                |i: int|
                    (16 * digit_value(text[2 * i])->0 + digit_value(text[2 * i + 1])->0) as u8,
            ),
        )
    } else {
        None
    }
}

fn digit(n: u8) -> (c: u8)
    requires
        n < 16,
    ensures
        c == hex_digit(n as int),
{
    if n < 10 {
        48 + n
    } else {
        87 + n
    }
}

fn value(c: u8) -> (n: Option<u8>)
    ensures
        match digit_value(c) {
            Some(v) => n matches Some(m) && m == v && m < 16,
            None => n is None,
        },
{
    if 48 <= c && c <= 57 {
        Some(c - 48)
    } else if 97 <= c && c <= 102 {
        Some(c - 87)
    } else if 65 <= c && c <= 70 {
        Some(c - 55)
    } else {
        None
    }
}

/// The text of bytes.
pub fn to_hex(bytes: &[u8]) -> (text: Vec<u8>)
    ensures
        text@ == hex_of(bytes@),
{
    let mut text: Vec<u8> = Vec::new();
    let mut at: usize = 0;
    while at < bytes.len()
        invariant
            at <= bytes@.len(),
            text@.len() == 2 * at,
            forall|i: int| 0 <= i < 2 * at ==> text@[i] == hex_of(bytes@)[i],
        decreases bytes@.len() - at,
    {
        let byte: u8 = bytes[at];
        text.push(digit(byte / 16));
        text.push(digit(byte % 16));
        at = at + 1;
        assert forall|i: int| 0 <= i < 2 * at implies text@[i] == hex_of(bytes@)[i] by {
            if i >= 2 * (at - 1) {
                assert(i / 2 == at - 1);
            }
        }
    }
    assert(text@ =~= hex_of(bytes@));
    text
}

/// The bytes of text.
pub fn hex_bytes(text: &[u8]) -> (bytes: Option<Vec<u8>>)
    ensures
        match bytes_of_hex(text@) {
            Some(b) => bytes matches Some(found) && found@ == b,
            None => bytes is None,
        },
{
    if text.len() % 2 != 0 {
        return None;
    }
    let mut bytes: Vec<u8> = Vec::new();
    let mut at: usize = 0;
    let total: usize = text.len() / 2;
    while at < total
        invariant
            at <= total,
            2 * total == text.len(),
            bytes@.len() == at,
            forall|i: int| 0 <= i < 2 * at ==> digit_value(#[trigger] text@[i]) is Some,
            forall|i: int|
                0 <= i < at ==> bytes@[i] == (16 * digit_value(text@[2 * i])->0 + digit_value(
                    text@[2 * i + 1],
                )->0) as u8,
        decreases total - at,
    {
        let high: u8 = match value(text[2 * at]) {
            Some(high) => high,
            None => return None,
        };
        let low: u8 = match value(text[2 * at + 1]) {
            Some(low) => low,
            None => return None,
        };
        bytes.push(16 * high + low);
        at = at + 1;
    }
    assert(bytes@ =~= bytes_of_hex(text@)->0);
    Some(bytes)
}

/// The text of bytes reads back as those bytes.
pub proof fn law_hex_roundtrip(bytes: Seq<u8>)
    ensures
        bytes_of_hex(hex_of(bytes)) == Some(bytes),
{
    let text = hex_of(bytes);
    assert forall|i: int| 0 <= i < text.len() implies digit_value(#[trigger] text[i]) is Some by {
        assert(0 <= i / 2 < bytes.len());
    }
    assert(bytes_of_hex(text)->0 =~= bytes) by {
        assert forall|i: int| 0 <= i < bytes.len() implies bytes_of_hex(text)->0[i] == bytes[i] by {
            assert((2 * i) / 2 == i && (2 * i) % 2 == 0);
            assert((2 * i + 1) / 2 == i && (2 * i + 1) % 2 == 1);
            let byte = bytes[i] as int;
            assert(text[2 * i] == hex_digit(byte / 16));
            assert(text[2 * i + 1] == hex_digit(byte % 16));
        }
    }
}

/// Bytes are read from two digits each, of either case, and from nothing else: what is read, written
/// again, is the text in lower case.
pub proof fn law_hex_is_read_in_either_case(text: Seq<u8>, bytes: Seq<u8>, i: int)
    requires
        bytes_of_hex(text) == Some(bytes),
        0 <= i < text.len(),
    ensures
        text.len() == 2 * bytes.len(),
        48 <= text[i] <= 57 || 65 <= text[i] <= 70 || 97 <= text[i] <= 102,
        hex_of(bytes)[i] == text[i] + (if 65 <= text[i] <= 70 { 32int } else { 0 }),
{
    let k = i / 2;
    assert(digit_value(text[i]) is Some);
    assert(digit_value(text[2 * k]) is Some);
    assert(digit_value(text[2 * k + 1]) is Some);
    let high = digit_value(text[2 * k])->0;
    let low = digit_value(text[2 * k + 1])->0;
    assert(bytes[k] == 16 * high + low);
    assert((16 * high + low) / 16 == high && (16 * high + low) % 16 == low);
}

} // verus!
