//! The transposed order of a block.
//!
//! A block is a table of `T` rows and `1024 / T` lanes. Position
//! [`index`]`(row, lane)` of the block holds the word of that row and lane;
//! [`row_of`] and [`lane_of`] go back from a position to its row and lane.
use crate::FastLanes;
use vstd::prelude::*;

verus! {

/// The order in which the eight groups of sixteen positions follow each other.
/// It is its own inverse.
pub const FL_ORDER: [usize; 8] = [0, 4, 2, 6, 1, 5, 3, 7];

/// The position in a block of the word of row `row` and lane `lane`.
pub open spec fn index(row: int, lane: int) -> int {
    FL_ORDER[row / 8] * 16 + (row % 8) * 128 + lane
}

/// The lane of position `i` in a block of `lanes` lanes.
pub open spec fn lane_of(lanes: int, i: int) -> int {
    i % lanes
}

/// The row of position `i` in a block of `lanes` lanes.
pub open spec fn row_of(lanes: int, i: int) -> int {
    let s = i / 128;
    FL_ORDER[(i - s * 128 - lane_of(lanes, i)) / 16] * 8 + s
}

/// Every row and lane has a position in the block, from which [`row_of`] and
/// [`lane_of`] give the row and the lane back.
pub proof fn lemma_index_inverse<W: FastLanes>(row: int, lane: int)
    requires
        0 <= row < W::T,
        0 <= lane < W::LANES,
    ensures
        0 <= index(row, lane) < 1024,
        row_of(W::LANES as int, index(row, lane)) == row,
        lane_of(W::LANES as int, index(row, lane)) == lane,
{
    W::lemma_supported();
    let i = index(row, lane);
    let lanes = W::LANES as int;
    // The group of sixteen and the lane together are below 128.
    assert(i == (row % 8) * 128 + (FL_ORDER[row / 8] * 16 + lane));
    assert(i / 128 == row % 8);
    if lanes == 128 {
        assert(i % 128 == lane);
    } else if lanes == 64 {
        assert(i % 64 == lane);
    } else if lanes == 32 {
        assert(i % 32 == lane);
    } else {
        assert(i % 16 == lane);
    }
    assert((i - (i / 128) * 128 - lane) / 16 == FL_ORDER[row / 8]);
    assert(FL_ORDER[FL_ORDER[row / 8] as int] == row / 8);
}

/// Every position of the block is that of its row and lane. The group of
/// sixteen positions that [`row_of`] looks up in [`FL_ORDER`] is one of the
/// eight.
pub proof fn lemma_index_onto<W: FastLanes>(i: int)
    requires
        0 <= i < 1024,
    ensures
        0 <= row_of(W::LANES as int, i) < W::T,
        0 <= lane_of(W::LANES as int, i) < W::LANES,
        index(row_of(W::LANES as int, i), lane_of(W::LANES as int, i)) == i,
        0 <= (i - (i / 128) * 128 - lane_of(W::LANES as int, i)) / 16 < 8,
{
    W::lemma_supported();
    let lanes = W::LANES as int;
    let group = (i - (i / 128) * 128 - lane_of(lanes, i)) / 16;
    if lanes == 128 {
        assert(group == 0);
    } else if lanes == 64 {
        assert(i % 64 <= i % 128 && (group == 0 || group == 4));
    } else if lanes == 32 {
        assert(i % 32 <= i % 128 && group % 2 == 0 && 0 <= group < 8);
    } else {
        assert(i % 16 <= i % 128 && 0 <= group < 8);
    }
    let row = row_of(lanes, i);
    assert(FL_ORDER[FL_ORDER[group] as int] == group);
    assert(row / 8 == FL_ORDER[group] && row % 8 == i / 128);
}

/// Computes [`index`].
pub fn position(row: usize, lane: usize) -> (i: usize)
    requires
        row < 64,
        lane < 128,
    ensures
        i == index(row as int, lane as int),
{
    FL_ORDER[row / 8] * 16 + (row % 8) * 128 + lane
}

/// Computes [`lane_of`] for a block of words of type `W`.
pub fn lane_at<W: FastLanes>(i: usize) -> (lane: usize)
    requires
        i < 1024,
    ensures
        lane == lane_of(W::LANES as int, i as int),
        lane < W::LANES,
{
    proof {
        W::lemma_supported();
        lemma_index_onto::<W>(i as int);
    }
    i % W::LANES
}

/// Computes [`row_of`] for a block of words of type `W`.
pub fn row_at<W: FastLanes>(i: usize) -> (row: usize)
    requires
        i < 1024,
    ensures
        row == row_of(W::LANES as int, i as int),
        row < W::T,
{
    proof {
        W::lemma_supported();
        lemma_index_onto::<W>(i as int);
    }
    let s = i / 128;
    let lane = i % W::LANES;
    FL_ORDER[(i - s * 128 - lane) / 16] * 8 + s
}

} // verus!
