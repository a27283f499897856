//! Compact raw leaves preserve the complete logical value with zero-tail width modes.
use vstd::prelude::*;

use crate::error::{corrupt, Corruption, Error};
use crate::leaf::TrieLeaf;
use crate::value::{is_zero_from, zero_extended, zero_from, MARFValue};
use crate::words::push_bytes;

verus! {

/// Encoded value lengths selected by the two high bits of the path byte.
pub open spec fn mode_width(mode: int) -> nat {
    if mode == 0 {
        0
    } else if mode == 1 {
        4
    } else if mode == 2 {
        32
    } else {
        40
    }
}

/// Smallest exact representation of the value's nonzero prefix.
pub open spec fn value_mode_spec(value: Seq<u8>) -> int {
    if zero_from(value, 0) {
        0
    } else if zero_from(value, 4) {
        1
    } else if zero_from(value, 32) {
        2
    } else {
        3
    }
}

/// Payload length of a header byte.
pub open spec fn payload_len_spec(header: u8) -> Result<nat, Error> {
    if header % 64 > 32 {
        Err(Error::CorruptionError(Corruption::OversizedRawLeafPath))
    } else {
        Ok((1 + header % 64 + mode_width(header as int / 64)) as nat)
    }
}

/// The path of a payload.
pub open spec fn path_spec(payload: Seq<u8>) -> Result<Seq<u8>, Error> {
    if payload.len() == 0 {
        Err(Error::CorruptionError(Corruption::TruncatedRawLeaf))
    } else if payload[0] % 64 > 32 {
        Err(Error::CorruptionError(Corruption::OversizedRawLeafPath))
    } else if payload.len() < 1 + payload[0] % 64 {
        Err(Error::CorruptionError(Corruption::TruncatedRawLeafPath))
    } else {
        Ok(payload.subrange(1, 1 + payload[0] as int % 64))
    }
}

/// Path, value and length of a payload.
pub open spec fn load_spec(payload: Seq<u8>) -> Result<(Seq<u8>, Seq<u8>, nat), Error> {
    match path_spec(payload) {
        Err(e) => Err(e),
        Ok(path) => {
            let len = payload_len_spec(payload[0])->Ok_0;
            if payload.len() < len {
                Err(Error::CorruptionError(Corruption::TruncatedRawLeafValue))
            } else {
                Ok(
                    (
                        path,
                        zero_extended(payload.subrange(1 + path.len() as int, len as int), 40),
                        len,
                    ),
                )
            }
        },
    }
}

/// The payload of a path and a value.
pub open spec fn raw_payload(path: Seq<u8>, value: Seq<u8>) -> Seq<u8> {
    let mode = value_mode_spec(value);
    seq![(path.len() + 64 * mode) as u8] + path + value.subrange(0, mode_width(mode) as int)
}

fn width_of(mode: u8) -> (width: usize)
    ensures
        width == mode_width(mode as int),
        width <= 40,
{
    if mode == 0 {
        0
    } else if mode == 1 {
        4
    } else if mode == 2 {
        32
    } else {
        40
    }
}

/// Smallest exact representation of the value's nonzero prefix.
fn value_mode(value: &MARFValue) -> (mode: u8)
    ensures
        mode == value_mode_spec(value@),
        mode <= 3,
{
    if is_zero_from(&value.0, 0) {
        0
    } else if is_zero_from(&value.0, 4) {
        1
    } else if is_zero_from(&value.0, 32) {
        2
    } else {
        3
    }
}

/// Number of physical value bytes, excluding path and marker.
pub fn value_width(value: &MARFValue) -> (width: usize)
    ensures
        width == mode_width(value_mode_spec(value@)),
        width <= 40,
{
    width_of(value_mode(value))
}

/// Complete payload length derived from its packed path-length/mode byte.
pub fn payload_len(header: u8) -> (len: Result<usize, Error>)
    ensures
        match payload_len_spec(header) {
            Ok(n) => len matches Ok(l) && l == n && l <= 73,
            Err(e) => len == Err::<usize, Error>(e),
        },
{
    let path_len: usize = (header % 64) as usize;
    if path_len > 32 {
        return Err(corrupt(Corruption::OversizedRawLeafPath));
    }
    Ok(1 + path_len + width_of(header / 64))
}

/// Borrow the path without reconstructing the value.
pub fn path(payload: &[u8]) -> (path: Result<&[u8], Error>)
    ensures
        match path {
            Ok(p) => path_spec(payload@) == Ok::<Seq<u8>, Error>(p@) && p@.len() <= 32 && p@.len()
                < payload@.len() && p@.len() == payload@[0] % 64,
            Err(e) => path_spec(payload@) == Err::<Seq<u8>, Error>(e),
        },
{
    if payload.len() == 0 {
        return Err(corrupt(Corruption::TruncatedRawLeaf));
    }
    let path_len: usize = (payload[0] % 64) as usize;
    if path_len > 32 {
        return Err(corrupt(Corruption::OversizedRawLeafPath));
    }
    if payload.len() < 1 + path_len {
        return Err(corrupt(Corruption::TruncatedRawLeafPath));
    }
    Ok(&payload[1..1 + path_len])
}

/// Encode the packed path byte, exact path, and shortest zero-extended value prefix.
pub fn write(leaf: &TrieLeaf, out: &mut Vec<u8>) -> (done: Result<(), Error>)
    ensures
        match leaf@.data {
            Some(value) => done is Ok && final(out)@ == old(out)@ + raw_payload(leaf@.path, value),
            None => done == Err::<(), Error>(
                Error::CorruptionError(Corruption::MissingLeafValue),
            ) && final(out)@ == old(out)@,
        },
{
    let value: MARFValue = match leaf.data {
        Some(value) => value,
        None => return Err(corrupt(Corruption::MissingLeafValue)),
    };
    let mode: u8 = value_mode(&value);
    let header: u8 = leaf.path.len() as u8 + mode * 64;
    out.push(header);
    push_bytes(out, leaf.path.as_slice());
    push_bytes(out, &value.0[0..width_of(mode)]);
    assert(out@ =~= old(out)@ + raw_payload(leaf@.path, value@));
    Ok(())
}

/// Decode a compact value into fixed-size leaf storage.
pub fn load(leaf: &mut TrieLeaf, payload: &[u8]) -> (used: Result<usize, Error>)
    ensures
        match load_spec(payload@) {
            Ok((path, value, len)) => used matches Ok(n) && n == len && n <= payload@.len()
                && final(leaf)@.path == path && final(leaf)@.data == Some(value)
                && final(leaf)@.extent is None && final(leaf)@.inline is None,
            Err(e) => used == Err::<usize, Error>(e) && final(leaf)@ == old(leaf)@,
        },
{
    let path = match path(payload) {
        Ok(path) => path,
        Err(e) => return Err(e),
    };
    let consumed: usize = match payload_len(payload[0]) {
        Ok(consumed) => consumed,
        Err(e) => return Err(e),
    };
    if payload.len() < consumed {
        return Err(corrupt(Corruption::TruncatedRawLeafValue));
    }
    let value = MARFValue::padded(&payload[1 + path.len()..consumed]);
    let _ = leaf.path.set_from_slice(path);
    leaf.data = Some(value);
    leaf.extent = None;
    leaf.inline = None;
    Ok(consumed)
}

/// A compact raw leaf restores its path and all forty bytes of its value, whatever follows it.
pub proof fn law_raw_leaf_roundtrip(path: Seq<u8>, value: Seq<u8>, tail: Seq<u8>)
    requires
        path.len() <= 32,
        value.len() == 40,
    ensures
        load_spec(raw_payload(path, value) + tail) == Ok::<(Seq<u8>, Seq<u8>, nat), Error>(
            (path, value, raw_payload(path, value).len()),
        ),
{
    let mode = value_mode_spec(value);
    let width = mode_width(mode) as int;
    let bytes = raw_payload(path, value) + tail;
    let header = (path.len() + 64 * mode) as u8;
    assert(bytes[0] == header);
    assert(header % 64 == path.len() && header as int / 64 == mode);
    assert(bytes.subrange(1, 1 + path.len() as int) =~= path);
    let kept = bytes.subrange(1 + path.len() as int, 1 + path.len() as int + width);
    assert(kept =~= value.subrange(0, width));
    assert(zero_from(value, width));
    assert(zero_extended(kept, 40) =~= value);
}

} // verus!
