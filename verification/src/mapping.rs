//! Bounds of incrementally backed file mappings.
use vstd::arithmetic::power2::{lemma_pow2_unfold, pow2};
use vstd::prelude::*;

use crate::error::{Error, IoErrorKind};

verus! {

/// Least growth headroom of a reservation: 64 MiB.
pub const MIN_HEADROOM: usize = 67108864;

/// Address space that a file of a length asks for: at least 12.5% or 64 MiB more than its length.
pub open spec fn reserved_len(len: nat) -> nat {
    len + if len / 8 > MIN_HEADROOM {
        len / 8
    } else {
        MIN_HEADROOM as nat
    }
}

/// The first number in the doubling row from `from` on that is at least `need`.
pub open spec fn doubled_to(need: nat, from: nat) -> nat
    decreases (if from < need { need - from } else { 0 }),
{
    if from >= need || from == 0 {
        from
    } else {
        doubled_to(need, 2 * from)
    }
}

/// The least power of two that is at least `need`.
pub open spec fn power_above(need: nat) -> nat {
    doubled_to(need, 1)
}

proof fn lemma_doubled(need: nat, from: nat, k: nat)
    requires
        from == pow2(k),
        from >= 1,
    ensures
        doubled_to(need, from) >= from,
        doubled_to(need, from) >= need,
        doubled_to(need, from) == from || doubled_to(need, from) < 2 * need,
        exists|j: nat| doubled_to(need, from) == #[trigger] pow2(j),
    decreases (if from < need { need - from } else { 0 }),
{
    if from < need {
        lemma_pow2_unfold(k + 1);
        lemma_doubled(need, 2 * from, k + 1);
    } else {
        assert(doubled_to(need, from) == pow2(k));
    }
}

/// Reserve a power-of-two range with at least 12.5% or 64 MiB of growth headroom.
pub fn reservation_capacity(file_len: u64) -> (capacity: Option<usize>)
    ensures
        ({
            let need = reserved_len(file_len as nat);
            if need <= usize::MAX && power_above(need) <= isize::MAX {
                capacity matches Some(c) && c == power_above(need)
            } else {
                capacity is None
            }
        }),
{
    if file_len > usize::MAX as u64 {
        return None;
    }
    let len: usize = file_len as usize;
    let headroom: usize = if len / 8 > MIN_HEADROOM { len / 8 } else { MIN_HEADROOM };
    let need: usize = match len.checked_add(headroom) {
        Some(need) => need,
        None => return None,
    };
    let mut capacity: usize = 1;
    let limit: usize = isize::MAX as usize;
    while capacity < need
        invariant
            1 <= capacity <= limit,
            limit == isize::MAX,
            doubled_to(need as nat, 1) == doubled_to(need as nat, capacity as nat),
            power_above(need as nat) == doubled_to(need as nat, 1),
            need == reserved_len(file_len as nat),
        decreases (if capacity < need { need - capacity } else { 0 }),
    {
        if capacity > limit - capacity {
            proof {
                lemma_doubled_grows(need as nat, (2 * capacity) as nat);
            }
            return None;
        }
        capacity = 2 * capacity;
    }
    Some(capacity)
}

proof fn lemma_doubled_grows(need: nat, from: nat)
    ensures
        doubled_to(need, from) >= from,
    decreases (if from < need { need - from } else { 0 }),
{
    if from < need && from > 0 {
        lemma_doubled_grows(need, 2 * from);
    }
}

/// A reservation is a power of two that holds the file with its headroom, and is less than twice
/// what was asked for.
pub proof fn law_reservation_headroom(len: nat)
    ensures
        ({
            let need = reserved_len(len);
            &&& need >= len + len / 8
            &&& need >= len + MIN_HEADROOM
            &&& need <= power_above(need) < 2 * need
            &&& exists|j: nat| power_above(need) == #[trigger] pow2(j)
        }),
{
    vstd::arithmetic::power2::lemma2_to64();
    lemma_doubled(reserved_len(len), 1, 0);
}

/// Whether a reservation can hold a published prefix of a file.
pub fn check_reservation(capacity: usize, page_size: usize, len: u64, file_len: u64) -> (done: Result<
    (),
    Error,
>)
    requires
        page_size > 0,
    ensures
        if capacity == 0 || capacity > isize::MAX || capacity % page_size != 0 || len > file_len
            || len > capacity {
            done == Err::<(), Error>(Error::IOError(IoErrorKind::InvalidInput))
        } else {
            done is Ok
        },
{
    if capacity == 0 || capacity > isize::MAX as usize || capacity % page_size != 0 {
        return Err(Error::IOError(IoErrorKind::InvalidInput));
    }
    if len > file_len || len > capacity as u64 {
        return Err(Error::IOError(IoErrorKind::InvalidInput));
    }
    Ok(())
}

/// Where the backed pages of a reservation end once a published prefix of `len` bytes is mapped:
/// the partial page at the end of the prefix is left out.
pub fn extension_end(
    mapped_len: usize,
    capacity: usize,
    page_size: usize,
    len: u64,
    file_len: u64,
) -> (end: Result<usize, Error>)
    requires
        page_size > 0,
    ensures
        if len > usize::MAX || len > file_len || len < mapped_len || len > capacity {
            end == Err::<usize, Error>(Error::IOError(IoErrorKind::InvalidInput))
        } else {
            end matches Ok(n) && n == (len as int / page_size as int) * page_size as int
        },
{
    if len > usize::MAX as u64 {
        return Err(Error::IOError(IoErrorKind::InvalidInput));
    }
    let wanted: usize = len as usize;
    if len > file_len || wanted < mapped_len || wanted > capacity {
        return Err(Error::IOError(IoErrorKind::InvalidInput));
    }
    proof {
        lemma_page_end(mapped_len as int, wanted as int, page_size as int);
    }
    Ok(wanted / page_size * page_size)
}

proof fn lemma_page_end(mapped_len: int, len: int, page: int)
    requires
        page > 0,
        0 <= mapped_len <= len,
    ensures
        0 <= (len / page) * page <= len,
        len - (len / page) * page < page,
        ((len / page) * page) % page == 0,
        mapped_len % page == 0 ==> mapped_len <= (len / page) * page,
{
    vstd::arithmetic::div_mod::lemma_fundamental_div_mod(len, page);
    vstd::arithmetic::mul::lemma_mul_is_commutative(page, len / page);
    vstd::arithmetic::div_mod::lemma_mod_bound(len, page);
    vstd::arithmetic::div_mod::lemma_div_pos_is_pos(len, page);
    vstd::arithmetic::mul::lemma_mul_nonnegative(len / page, page);
    vstd::arithmetic::div_mod::lemma_mod_multiples_basic(len / page, page);
    if mapped_len % page == 0 {
        vstd::arithmetic::div_mod::lemma_fundamental_div_mod(mapped_len, page);
        vstd::arithmetic::div_mod::lemma_div_is_ordered(mapped_len, len, page);
        vstd::arithmetic::mul::lemma_mul_is_commutative(page, mapped_len / page);
        vstd::arithmetic::mul::lemma_mul_inequality(mapped_len / page, len / page, page);
    }
}

/// Extending a mapping of complete pages keeps every page it has, exposes complete pages only and
/// never reaches past the published prefix.
pub proof fn law_extension_keeps_pages(mapped_len: int, len: int, page: int)
    requires
        page > 0,
        0 <= mapped_len <= len,
        mapped_len % page == 0,
    ensures
        mapped_len <= (len / page) * page <= len,
        ((len / page) * page) % page == 0,
        len - (len / page) * page < page,
{
    lemma_page_end(mapped_len, len, page);
}

/// Whether coverage may grow from `mapped` to a committed prefix of `len` bytes of a file.
pub fn check_published_len(mapped: usize, len: u64, file_len: u64) -> (done: Result<(), Error>)
    ensures
        if len > file_len || len < mapped {
            done == Err::<(), Error>(Error::IOError(IoErrorKind::Other))
        } else {
            done is Ok
        },
{
    if len > file_len || len < mapped as u64 {
        return Err(Error::IOError(IoErrorKind::Other));
    }
    Ok(())
}

} // verus!
