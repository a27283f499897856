use std::cell::Cell;

use marf_index::ancestry::{ancestor, skip_height, Ancestry, ENCODED_SIZE, MAX_STEPS};

/// Record IDs can have holes, while heights remain relative to each parent chain.
#[test]
fn forked_height_queries_match_parent_walks() {
    let mut records = vec![None, Some(Ancestry::genesis())];
    let mut rng = 7u64;
    for id in 2..12_000u32 {
        if id % 7 == 0 {
            records.push(None);
            continue;
        }
        rng = rng.wrapping_mul(6364136223846793005).wrapping_add(1);
        let mut parent = if id % 11 == 0 {
            1 + (rng as u32 % (id - 1))
        } else {
            id - 1
        };
        while records[parent as usize].is_none() {
            parent -= 1;
        }
        let item =
            Ancestry::child(id, parent, |i: u32| records.get(i as usize).copied().flatten())
                .unwrap();
        assert_eq!(Ancestry::decode(id, &item.encode()), Some(item));
        records.push(Some(item));
        for height in [
            0,
            item.height / 2,
            item.height.saturating_sub(1),
            item.height,
        ] {
            let mut expected = id;
            while records[expected as usize].unwrap().height > height {
                expected = records[expected as usize].unwrap().parent;
            }
            assert_eq!(
                ancestor(id, height, |i: u32| records.get(i as usize).copied().flatten()),
                Some(expected)
            );
        }
        assert_eq!(
            ancestor(id, item.height + 1, |i: u32| records
                .get(i as usize)
                .copied()
                .flatten()),
            None
        );
    }
}

/// Virtual sequential records exercise high heights without allocating a large index.
#[test]
fn high_heights_have_bounded_lookup_work() {
    let read = |id: u32| {
        if id == 0 {
            return None;
        }
        let height = id - 1;
        Some(if height == 0 {
            Ancestry::genesis()
        } else {
            Ancestry {
                height,
                parent: id - 1,
                skip: skip_height(height) + 1,
            }
        })
    };
    let mut worst = 0;
    for height in [1, 2, 3, 4096, 8_733_721, u32::MAX - 1] {
        for bit in 0..32 {
            let target = height.saturating_sub(1u32 << bit);
            let reads = Cell::new(0);
            assert_eq!(
                ancestor(height + 1, target, |id: u32| {
                    reads.set(reads.get() + 1);
                    read(id)
                }),
                Some(target + 1)
            );
            worst = worst.max(reads.get());
        }
    }
    assert!(worst < MAX_STEPS);
}

/// Unpublished slots, unknown flags, cycles and inconsistent heights request fallback.
#[test]
fn invalid_or_missing_records_fail_closed() {
    assert_eq!(Ancestry::decode(1, &[0; ENCODED_SIZE]), None);
    let genesis = Ancestry::genesis();
    assert_eq!(Ancestry::decode(1, &genesis.encode()), Some(genesis));
    let mut unknown = genesis.encode();
    unknown[12] = 2;
    assert_eq!(Ancestry::decode(1, &unknown), None);
    let cyclic = Ancestry {
        height: 1,
        parent: 2,
        skip: 2,
    };
    assert_eq!(Ancestry::decode(2, &cyclic.encode()), None);
    assert_eq!(ancestor(2, 0, |_: u32| Some(cyclic)), None);
    let bad_height = Ancestry {
        height: 5,
        parent: 1,
        skip: 1,
    };
    assert_eq!(
        ancestor(2, 0, |id: u32| Some(if id == 2 { bad_height } else { genesis })),
        None
    );
    assert_eq!(Ancestry::child(2, 1, |_: u32| None), None);
    assert_eq!(
        Ancestry::child(2, 1, |_: u32| Some(Ancestry {
            height: u32::MAX,
            parent: 0,
            skip: 0
        })),
        None
    );
}

/// The skip of a height clears its lowest set bit.
#[test]
fn skip_heights_clear_the_lowest_bit() {
    assert_eq!(skip_height(0), 0);
    assert_eq!(skip_height(1), 0);
    assert_eq!(skip_height(6), 4);
    assert_eq!(skip_height(8_733_721), 8_733_720);
    assert_eq!(skip_height(0x8000_0000), 0);
}

/// A record is little-endian height, parent and skip, and a validity flag.
#[test]
fn records_have_a_fixed_layout() {
    let record = Ancestry { height: 3, parent: 0x0102, skip: 1 };
    let bytes = record.encode();
    assert_eq!(&bytes[..], &[3, 0, 0, 0, 2, 1, 0, 0, 1, 0, 0, 0, 1, 0, 0, 0]);
    assert_eq!(Ancestry::decode(0x0103, &bytes), Some(record));
    assert_eq!(Ancestry::decode(0x0102, &bytes), None);
    assert_eq!(Ancestry::decode(0x0103, &bytes[..15]), None);
}
