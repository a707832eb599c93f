//! What a packed block holds, bit by bit.
//!
//! The `T` rows of a lane, `width` bits of each, form one string of
//! `T * width` bits: row 0 first, each row from its lowest bit up. The `width`
//! words that the lane has in the packed block, all `T` bits of each, form a
//! string of the same length. Packing makes the second string equal to the
//! first. Word `w` of lane `lane` stands at position `LANES * w + lane` of the
//! packed block.
use crate::bits::bit;
use crate::transpose::index;
use crate::FastLanes;
use vstd::prelude::*;

verus! {

/// The number of words of a block packed at `width` bits.
pub open spec fn packed_len<W: FastLanes>(width: int) -> int {
    1024 * width / (W::T as int)
}

/// Bit `k` of the string that the words of lane `lane` form in `packed`.
#[verifier::opaque]
pub open spec fn lane_bit<W: FastLanes>(packed: Seq<W>, lane: int, k: int) -> bool {
    bit(packed[W::LANES * (k / (W::T as int)) + lane].as_nat(), k % (W::T as int))
}

/// Bit `k` of the string that the rows of lane `lane` of `block` form, with
/// `width` bits taken of each row.
#[verifier::opaque]
pub open spec fn row_bit<W: FastLanes>(block: Seq<W>, width: int, lane: int, k: int) -> bool {
    bit(block[index(k / width, lane)].as_nat(), k % width)
}

/// `packed` is `block` packed at `width` bits.
pub open spec fn is_packed<W: FastLanes>(block: Seq<W>, width: int, packed: Seq<W>) -> bool {
    &&& block.len() == 1024
    &&& packed.len() == packed_len::<W>(width)
    &&& forall|lane: int, k: int|
        0 <= lane < W::LANES && 0 <= k < W::T * width ==> #[trigger] lane_bit(packed, lane, k)
            == row_bit(block, width, lane, k)
}

/// `value` is what `packed`, a block packed at `width` bits, holds for row
/// `row` of lane `lane`: the `width` bits of that row, and no bit above them.
#[verifier::opaque]
pub open spec fn is_element<W: FastLanes>(
    packed: Seq<W>,
    width: int,
    row: int,
    lane: int,
    value: W,
) -> bool {
    forall|b: int|
        0 <= b < W::T ==> #[trigger] bit(value.as_nat(), b) == (b < width && lane_bit(
            packed,
            lane,
            row * width + b,
        ))
}

/// `block` is what `packed`, a block packed at `width` bits, unpacks to.
pub open spec fn is_unpacked<W: FastLanes>(packed: Seq<W>, width: int, block: Seq<W>) -> bool {
    &&& block.len() == 1024
    &&& forall|row: int, lane: int|
        0 <= row < W::T && 0 <= lane < W::LANES ==> is_element(
            packed,
            width,
            row,
            lane,
            block[#[trigger] index(row, lane)],
        )
}

/// A packed block has as many words for each lane as the width has bits.
pub proof fn lemma_packed_len<W: FastLanes>(width: int)
    requires
        0 <= width,
    ensures
        packed_len::<W>(width) == W::LANES * width,
{
    W::lemma_supported();
    let t = W::T as int;
    if t == 8 {
        assert(1024 * width / 8 == 128 * width);
    } else if t == 16 {
        assert(1024 * width / 16 == 64 * width);
    } else if t == 32 {
        assert(1024 * width / 32 == 32 * width);
    } else {
        assert(1024 * width / 64 == 16 * width);
    }
}

/// Bit `b` of row `row` stands at place `row * width + b` of the lane's rows.
pub proof fn lemma_row_bit<W: FastLanes>(block: Seq<W>, width: int, lane: int, row: int, b: int)
    requires
        0 <= b < width,
    ensures
        row_bit(block, width, lane, row * width + b) == bit(block[index(row, lane)].as_nat(), b),
{
    reveal(row_bit);
    vstd::arithmetic::div_mod::lemma_fundamental_div_mod_converse(row * width + b, width, row, b);
}

/// Bit `j` of word `w` stands at place `w * T + j` of the lane's words.
pub proof fn lemma_lane_bit<W: FastLanes>(packed: Seq<W>, lane: int, w: int, j: int)
    requires
        0 <= j < W::T,
    ensures
        lane_bit(packed, lane, w * W::T + j) == bit(packed[W::LANES * w + lane].as_nat(), j),
{
    reveal(lane_bit);
    vstd::arithmetic::div_mod::lemma_fundamental_div_mod_converse(
        w * W::T + j,
        W::T as int,
        w,
        j,
    );
}

/// Word `w` of lane `lane` has a position in the packed block, and no other
/// word of any lane stands there.
pub(crate) proof fn lemma_slot<W: FastLanes>(width: int, w: int, lane: int)
    requires
        0 <= w < width,
        0 <= lane < W::LANES,
    ensures
        0 <= W::LANES * w + lane < W::LANES * width,
        (W::LANES * w + lane) % (W::LANES as int) == lane,
        (W::LANES * w + lane) / (W::LANES as int) == w,
{
    let l = W::LANES as int;
    assert(l * w + lane < l * width) by (nonlinear_arith)
        requires
            0 <= w < width,
            0 <= lane < l,
    ;
    assert(0 <= l * w) by (nonlinear_arith)
        requires
            0 <= w,
            0 <= l,
    ;
    vstd::arithmetic::div_mod::lemma_fundamental_div_mod_converse(l * w + lane, l, w, lane);
    assert(l * w == w * l) by (nonlinear_arith);
}

/// Writing word `w` of lane `lane` changes the `T` bits of that word in the
/// lane's string and nothing else in it.
pub(crate) proof fn lemma_lane_bit_written<W: FastLanes>(
    packed: Seq<W>,
    width: int,
    lane: int,
    w: int,
    value: W,
    k: int,
)
    requires
        0 <= w < width,
        0 <= lane < W::LANES,
        packed.len() == W::LANES * width,
        0 <= k < W::T * width,
    ensures
        lane_bit(packed.update(W::LANES * w + lane, value), lane, k) == if w * W::T <= k < w * W::T
            + W::T {
            bit(value.as_nat(), k - w * W::T)
        } else {
            lane_bit(packed, lane, k)
        },
{
    reveal(lane_bit);
    W::lemma_supported();
    let t = W::T as int;
    let l = W::LANES as int;
    let kw = k / t;
    vstd::arithmetic::div_mod::lemma_fundamental_div_mod(k, t);
    assert(0 <= kw < width) by (nonlinear_arith)
        requires
            k == t * kw + k % t,
            0 <= k % t < t,
            0 <= k < t * width,
    ;
    lemma_slot::<W>(width, w, lane);
    lemma_slot::<W>(width, kw, lane);
    if w * t <= k < w * t + t {
        vstd::arithmetic::div_mod::lemma_fundamental_div_mod_converse(k, t, w, k - w * t);
    } else {
        assert(kw != w) by (nonlinear_arith)
            requires
                k == t * kw + k % t,
                0 <= k % t < t,
                !(w * t <= k < w * t + t),
        ;
    }
}

/// The string of a lane depends on the words of that lane alone.
pub(crate) proof fn lemma_lane_bit_same<W: FastLanes>(
    a: Seq<W>,
    b: Seq<W>,
    width: int,
    lane: int,
    k: int,
)
    requires
        0 <= lane < W::LANES,
        a.len() == W::LANES * width,
        b.len() == a.len(),
        0 <= k < W::T * width,
        forall|p: int|
            0 <= p < a.len() && p % (W::LANES as int) == lane ==> #[trigger] a[p] == b[p],
    ensures
        lane_bit(a, lane, k) == lane_bit(b, lane, k),
{
    reveal(lane_bit);
    W::lemma_supported();
    let t = W::T as int;
    let kw = k / t;
    vstd::arithmetic::div_mod::lemma_fundamental_div_mod(k, t);
    assert(0 <= kw < width) by (nonlinear_arith)
        requires
            k == t * kw + k % t,
            0 <= k % t < t,
            0 <= k < t * width,
    ;
    lemma_slot::<W>(width, kw, lane);
}

} // verus!
