//! The windows of a layer sequence that are looked at for reuse.

use vstd::prelude::*;

verus! {

/// The longest run of layers that is looked up for reuse.
///
/// Longer runs would find a little more to share, at a search cost that grows
/// with the window.
pub const MAX_REUSE_LEN: usize = 32;

/// Whether `lo..hi` is a window of a sequence of `num_layers` layers that is
/// looked at for reuse: at least two layers, at most [`MAX_REUSE_LEN`].
pub open spec fn is_reuse_range(num_layers: int, lo: int, hi: int) -> bool {
    &&& 0 <= lo
    &&& lo + 2 <= hi
    &&& hi <= lo + MAX_REUSE_LEN
    &&& hi <= num_layers
}

/// The order in which [`reuse_ranges`] lists the windows: by start, then by end.
pub open spec fn range_before(a: (usize, usize), b: (usize, usize)) -> bool {
    a.0 < b.0 || (a.0 == b.0 && a.1 < b.1)
}

/// All windows `(start, end)` of a sequence of `num_layers` layers that are
/// looked at for reuse, `end` exclusive, ordered by start and then by end.
pub fn reuse_ranges(num_layers: usize) -> (ranges: Vec<(usize, usize)>)
    ensures
        forall|i: int|
            0 <= i < ranges.len() ==> is_reuse_range(
                num_layers as int,
                (#[trigger] ranges[i]).0 as int,
                ranges[i].1 as int,
            ),
        forall|lo: int, hi: int|
            is_reuse_range(num_layers as int, lo, hi) ==> exists|i: int|
                0 <= i < ranges.len() && #[trigger] ranges[i] == (lo as usize, hi as usize),
        forall|i: int, j: int|
            0 <= i < j < ranges.len() ==> range_before(#[trigger] ranges[i], #[trigger] ranges[j]),
{
    let mut ranges: Vec<(usize, usize)> = Vec::new();
    let mut lo: usize = 0;
    while lo < num_layers
        invariant
            lo <= num_layers,
            forall|i: int|
                0 <= i < ranges.len() ==> is_reuse_range(
                    num_layers as int,
                    (#[trigger] ranges[i]).0 as int,
                    ranges[i].1 as int,
                ) && ranges[i].0 < lo,
            forall|l: int, h: int|
                is_reuse_range(num_layers as int, l, h) && l < lo ==> exists|i: int|
                    0 <= i < ranges.len() && #[trigger] ranges[i] == (l as usize, h as usize),
            forall|i: int, j: int|
                0 <= i < j < ranges.len() ==> range_before(
                    #[trigger] ranges[i],
                    #[trigger] ranges[j],
                ),
        decreases num_layers - lo,
    {
        if num_layers - lo >= 2 {
            let max_len: usize = if num_layers - lo > MAX_REUSE_LEN {
                MAX_REUSE_LEN
            } else {
                num_layers - lo
            };
            let mut len: usize = 2;
            while len <= max_len
                invariant
                    2 <= len <= max_len + 1,
                    max_len <= MAX_REUSE_LEN,
                    lo + max_len <= num_layers,
                    max_len == MAX_REUSE_LEN || lo + max_len == num_layers,
                    forall|i: int|
                        0 <= i < ranges.len() ==> is_reuse_range(
                            num_layers as int,
                            (#[trigger] ranges[i]).0 as int,
                            ranges[i].1 as int,
                        ) && (ranges[i].0 < lo || (ranges[i].0 == lo && ranges[i].1 < lo + len)),
                    forall|l: int, h: int|
                        is_reuse_range(num_layers as int, l, h) && (l < lo || (l == lo && h < lo
                            + len)) ==> exists|i: int|
                            0 <= i < ranges.len() && #[trigger] ranges[i] == (
                                l as usize,
                                h as usize,
                            ),
                    forall|i: int, j: int|
                        0 <= i < j < ranges.len() ==> range_before(
                            #[trigger] ranges[i],
                            #[trigger] ranges[j],
                        ),
                decreases max_len + 1 - len,
            {
                let ghost before = ranges@;
                let hi: usize = lo + len;
                ranges.push((lo, hi));
                proof {
                    assert(ranges[before.len() as int] == (lo, hi));
                    assert forall|l: int, h: int|
                        is_reuse_range(num_layers as int, l, h) && (l < lo || (l == lo && h < hi
                            + 1)) implies exists|i: int|
                        0 <= i < ranges.len() && #[trigger] ranges[i] == (
                            l as usize,
                            h as usize,
                        ) by {
                        if l == lo && h == hi {
                            assert(ranges[before.len() as int] == (l as usize, h as usize));
                        } else {
                            let i = choose|i: int|
                                0 <= i < before.len() && #[trigger] before[i] == (
                                    l as usize,
                                    h as usize,
                                );
                            assert(ranges[i] == before[i]);
                        }
                    }
                }
                len = len + 1;
            }
        }
        lo = lo + 1;
    }
    ranges
}

} // verus!
