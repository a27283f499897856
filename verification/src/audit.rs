//! Samples for comparing ancestry shortcuts with what tries record.
use vstd::prelude::*;

verus! {

/// Sample points of an audit.
pub const SAMPLES: u32 = 64;

/// The last local ID before the largest one, or zero.
pub open spec fn before_last(max: u32) -> int {
    if max == 0 {
        0
    } else {
        max - 1
    }
}

/// The ID at a sample point: the points are spread evenly from the first ID to the largest one.
pub open spec fn sample(max: u32, i: int) -> int {
    1 + before_last(max) * i / 63
}

/// Later sample points have no smaller IDs.
proof fn lemma_samples_ascend(max: u32, i: int, j: int)
    requires
        0 <= i <= j <= 63,
    ensures
        1 <= sample(max, i) <= sample(max, j) <= before_last(max) + 1,
{
    let n = before_last(max);
    assert(0 <= n * i <= n * j <= n * 63) by (nonlinear_arith)
        requires
            0 <= n,
            0 <= i <= j <= 63,
    ;
}

/// Whether an ID is at one of the first sample points.
pub open spec fn sampled(max: u32, points: int, id: u32) -> bool {
    exists|i: int| 0 <= i < points && #[trigger] sample(max, i) == id
}

/// The IDs at the sample points, each once, in ascending order.
pub fn sampled_ids(max: u32) -> (ids: Vec<u32>)
    ensures
        forall|i: int, j: int| 0 <= i < j < ids@.len() ==> ids@[i] < ids@[j],
        forall|id: u32| ids@.contains(id) <==> sampled(max, 64, id),
{
    let mut ids: Vec<u32> = Vec::new();
    let span: u64 = if max == 0 {
        0
    } else {
        (max - 1) as u64
    };
    let mut point: u32 = 0;
    while point < SAMPLES
        invariant
            point <= SAMPLES,
            span == before_last(max),
            forall|i: int, j: int| 0 <= i < j < ids@.len() ==> ids@[i] < ids@[j],
            forall|id: u32| ids@.contains(id) <==> sampled(max, point as int, id),
            ids@.len() == 0 <==> point == 0,
            point > 0 ==> ids@.last() == sample(max, point - 1),
        decreases SAMPLES - point,
    {
        proof {
            lemma_samples_ascend(max, point as int, 63);
            if point > 0 {
                lemma_samples_ascend(max, point - 1, point as int);
            }
            assert(0 <= span * point <= span * 63) by (nonlinear_arith)
                requires
                    0 <= span,
                    0 <= point <= 63,
            ;
        }
        let id: u32 = (1 + span * point as u64 / 63) as u32;
        assert(id == sample(max, point as int));
        let ghost before = ids@;
        if ids.len() == 0 || ids[ids.len() - 1] < id {
            ids.push(id);
        }
        proof {
            assert forall|other: u32| ids@.contains(other) <==> sampled(max, point + 1, other) by {
                if ids@.contains(other) {
                    let k = ids@.index_of(other);
                    if k < before.len() {
                        assert(before[k] == other);
                        assert(before.contains(other));
                        let i = choose|i: int| 0 <= i < point && #[trigger] sample(max, i) == other;
                        assert(0 <= i < point + 1 && sample(max, i) == other);
                    } else {
                        assert(sample(max, point as int) == other);
                    }
                }
                if sampled(max, point + 1, other) {
                    let i = choose|i: int| 0 <= i < point + 1 && #[trigger] sample(max, i) == other;
                    if i < point {
                        assert(sampled(max, point as int, other));
                        assert(before.contains(other));
                        let k = before.index_of(other);
                        assert(ids@[k] == other);
                    } else {
                        assert(ids@[ids@.len() - 1] == id);
                    }
                }
            }
            assert(ids@.last() == id);
        }
        point = point + 1;
    }
    ids
}

/// The heights that are compared for a block: the first, the middle one, the parent's and its own.
pub fn sampled_heights(height: u32) -> (targets: [u32; 4])
    ensures
        targets@ == seq![
            0u32,
            height / 2,
            if height == 0 {
                0u32
            } else {
                (height - 1) as u32
            },
            height,
        ],
{
    let parent: u32 = if height == 0 {
        0
    } else {
        height - 1
    };
    [0, height / 2, parent, height]
}

/// An audit's sample starts with the first ID and ends with the largest one.
pub proof fn law_samples_span_ids(max: u32)
    requires
        max > 0,
    ensures
        sampled(max, 64, 1),
        sampled(max, 64, max),
        forall|id: u32| sampled(max, 64, id) ==> 1 <= id <= max,
{
    let n = before_last(max);
    assert(sample(max, 0) == 1);
    assert(n * 63 / 63 == n);
    assert(sample(max, 63) == max);
    assert forall|id: u32| sampled(max, 64, id) implies 1 <= id <= max by {
        let i = choose|i: int| 0 <= i < 64 && #[trigger] sample(max, i) == id;
        lemma_samples_ascend(max, i, i);
    }
}

} // verus!
