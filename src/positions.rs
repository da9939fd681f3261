//! Search primitives over one ascending list of term offsets.
use vstd::prelude::*;
use crate::common::{TermOffset, DOC_BEGIN, DOC_END};

verus! {

/// The offsets are listed in strictly ascending order.
pub open spec fn strictly_increasing(s: Seq<u32>) -> bool {
    forall|i: int, j: int| 0 <= i < j < s.len() ==> s[i] < s[j]
}

/// A position list: strictly ascending and free of the two sentinel offsets.
pub open spec fn valid_positions(s: Seq<u32>) -> bool {
    &&& strictly_increasing(s)
    &&& forall|i: int| 0 <= i < s.len() ==> DOC_BEGIN < #[trigger] s[i] < DOC_END
}

/// `r` is the smallest offset of `s` above `pos`, or `None` when there is none.
pub open spec fn is_next(s: Seq<u32>, pos: u32, r: Option<u32>) -> bool {
    match r {
        Some(x) => s.contains(x) && pos < x && forall|y: u32| #[trigger] s.contains(y) && pos < y ==> x <= y,
        None => forall|y: u32| #[trigger] s.contains(y) ==> y <= pos,
    }
}

/// `r` is the largest offset of `s` below `pos`, or `None` when there is none.
pub open spec fn is_prev(s: Seq<u32>, pos: u32, r: Option<u32>) -> bool {
    match r {
        Some(x) => s.contains(x) && x < pos && forall|y: u32| #[trigger] s.contains(y) && y < pos ==> y <= x,
        None => forall|y: u32| #[trigger] s.contains(y) ==> pos <= y,
    }
}

/// Smallest offset of `positions` strictly above `pos`, found by bisection.
pub fn next_position(positions: &Vec<TermOffset>, pos: TermOffset) -> (r: Option<TermOffset>)
    requires
        strictly_increasing(positions@),
    ensures
        is_next(positions@, pos, r),
{
    let len = positions.len();
    if len == 0 {
        return None;
    }
    let last = positions[len - 1];
    if last <= pos {
        assert forall|y: u32| #[trigger] positions@.contains(y) implies y <= pos by {
            let k = choose|k: int| 0 <= k < positions@.len() && positions@[k] == y;
            assert(k == len - 1 || positions@[k] < positions@[len - 1]);
        }
        return None;
    }
    if positions[0] > pos {
        assert forall|y: u32| #[trigger] positions@.contains(y) && pos < y implies positions@[0] <= y by {
            let k = choose|k: int| 0 <= k < positions@.len() && positions@[k] == y;
            assert(k == 0 || positions@[0] < positions@[k]);
        }
        return Some(positions[0]);
    }
    let mut low: usize = 0;
    let mut high: usize = len - 1;
    while high - low > 1
        invariant
            strictly_increasing(positions@),
            len == positions@.len(),
            low < high < len,
            positions@[low as int] <= pos < positions@[high as int],
        decreases high - low,
    {
        let mid = low + (high - low) / 2;
        if positions[mid] <= pos {
            low = mid;
        } else {
            high = mid;
        }
    }
    assert forall|y: u32| #[trigger] positions@.contains(y) && pos < y implies positions@[high as int] <= y by {
        let k = choose|k: int| 0 <= k < positions@.len() && positions@[k] == y;
        if k <= low {
            assert(k == low || positions@[k] < positions@[low as int]);
        }
        assert(k == high || positions@[high as int] < positions@[k]);
    }
    Some(positions[high])
}

/// Largest offset of `positions` strictly below `pos`, found by bisection.
pub fn prev_position(positions: &Vec<TermOffset>, pos: TermOffset) -> (r: Option<TermOffset>)
    requires
        strictly_increasing(positions@),
    ensures
        is_prev(positions@, pos, r),
{
    let len = positions.len();
    if len == 0 {
        return None;
    }
    if positions[0] >= pos {
        assert forall|y: u32| #[trigger] positions@.contains(y) implies pos <= y by {
            let k = choose|k: int| 0 <= k < positions@.len() && positions@[k] == y;
            assert(k == 0 || positions@[0] < positions@[k]);
        }
        return None;
    }
    let last = positions[len - 1];
    if last < pos {
        assert forall|y: u32| #[trigger] positions@.contains(y) && y < pos implies y <= last by {
            let k = choose|k: int| 0 <= k < positions@.len() && positions@[k] == y;
            assert(k == len - 1 || positions@[k] < positions@[len - 1]);
        }
        return Some(last);
    }
    let mut low: usize = 0;
    let mut high: usize = len - 1;
    while high - low > 1
        invariant
            strictly_increasing(positions@),
            len == positions@.len(),
            low < high < len,
            positions@[low as int] < pos <= positions@[high as int],
        decreases high - low,
    {
        let mid = low + (high - low) / 2;
        if positions[mid] < pos {
            low = mid;
        } else {
            high = mid;
        }
    }
    assert forall|y: u32| #[trigger] positions@.contains(y) && y < pos implies y <= positions@[low as int] by {
        let k = choose|k: int| 0 <= k < positions@.len() && positions@[k] == y;
        if k >= high {
            assert(k == high || positions@[high as int] < positions@[k]);
        }
        assert(k == low || positions@[k] < positions@[low as int]);
    }
    Some(positions[low])
}

/// Bisects `positions` between the indices `low` and `high`, moving `low` up while
/// `test_fn(positions[mid], current)` holds and `high` down otherwise, and hands the
/// final bracket to `retval_fn`.
pub fn binary_search<T, R>(
    positions: &Vec<TermOffset>,
    low: usize,
    high: usize,
    current: TermOffset,
    test_fn: T,
    retval_fn: R,
) -> (r: usize) where T: Fn(TermOffset, TermOffset) -> bool, R: Fn(usize, usize) -> usize
    requires
        low <= high <= positions@.len(),
        forall|a: TermOffset, b: TermOffset| #[trigger] test_fn.requires((a, b)),
        forall|a: usize, b: usize| #[trigger] retval_fn.requires((a, b)),
    ensures
        exists|l: usize, h: usize|
            {
                &&& low <= l <= h <= high
                &&& h - l <= 1
                &&& (low < high ==> l < h)
                &&& (l == low || test_fn.ensures((positions@[l as int], current), true))
                &&& (h == high || test_fn.ensures((positions@[h as int], current), false))
                &&& #[trigger] retval_fn.ensures((l, h), r)
            },
{
    let mut low_index = low;
    let mut high_index = high;
    while high_index - low_index > 1
        invariant
            low <= low_index <= high_index <= high <= positions@.len(),
            low < high ==> low_index < high_index,
            forall|a: TermOffset, b: TermOffset| #[trigger] test_fn.requires((a, b)),
            low_index == low || test_fn.ensures((positions@[low_index as int], current), true),
            high_index == high || test_fn.ensures((positions@[high_index as int], current), false),
        decreases high_index - low_index,
    {
        let mid = low_index + (high_index - low_index) / 2;
        if test_fn(positions[mid], current) {
            low_index = mid;
        } else {
            high_index = mid;
        }
    }
    let r = retval_fn(low_index, high_index);
    assert(retval_fn.ensures((low_index, high_index), r));
    r
}

} // verus!
