//! What holds of packing and unpacking together.
//!
//! The functions of this crate state what they do over the predicates of
//! [`crate::layout`]. The lemmas here draw the consequences: each predicate
//! is met by one result only, unpacking gives back what was packed up to the
//! bits that the width drops, and reading one word agrees with unpacking the
//! block.
use crate::bits::{bit, fits, lemma_bits_determine, lemma_fits_remainder, lemma_low_bits_value};
use crate::layout::{
    is_element, is_packed, is_unpacked, lane_bit, lemma_lane_bit, lemma_packed_len, lemma_row_bit,
    lemma_slot, row_bit,
};
use crate::transpose::{index, lane_of, lemma_index_inverse, lemma_index_onto, row_of};
use crate::FastLanes;
use vstd::arithmetic::power2::pow2;
use vstd::prelude::*;

verus! {

/// Bit `row * width + b` of a lane's string lies within the string.
proof fn lemma_place_in_lane<W: FastLanes>(width: int, row: int, b: int)
    requires
        0 <= row < W::T,
        0 <= b < width,
    ensures
        0 <= row * width + b < W::T * width,
{
    let t = W::T as int;
    assert(0 <= row * width && row * width + width <= t * width) by (nonlinear_arith)
        requires
            0 <= row < t,
            0 < width,
    ;
}

/// The `width` low bits of the word of a row and a lane are where the packed
/// block keeps them: bit `b` of the word is bit `row * width + b` of the
/// lane's string.
pub proof fn lemma_packed_bit<W: FastLanes>(
    block: Seq<W>,
    width: int,
    packed: Seq<W>,
    row: int,
    lane: int,
    b: int,
)
    requires
        is_packed(block, width, packed),
        0 <= row < W::T,
        0 <= lane < W::LANES,
        0 <= b < width,
    ensures
        lane_bit(packed, lane, row * width + b) == bit(block[index(row, lane)].as_nat(), b),
{
    lemma_place_in_lane::<W>(width, row, b);
    lemma_row_bit(block, width, lane, row, b);
}

/// The layout of a packed block, position by position of the block that was
/// packed. The word at position `i` belongs to lane `lane_of(i)` and starts at
/// bit `row_of(i) * width` of that lane's string. Its bit `b` is therefore bit
/// `(row_of(i) * width + b) % T` of word `(row_of(i) * width + b) / T` of the
/// lane, and that word stands at `LANES` times its number, plus the lane, in
/// the packed block.
pub proof fn lemma_layout<W: FastLanes>(
    block: Seq<W>,
    width: int,
    packed: Seq<W>,
    i: int,
    b: int,
)
    requires
        is_packed(block, width, packed),
        0 <= i < 1024,
        0 <= b < width,
    ensures
        ({
            let lane = lane_of(W::LANES as int, i);
            let place = row_of(W::LANES as int, i) * width + b;
            let word = place / (W::T as int);
            &&& 0 <= word < width
            &&& 0 <= W::LANES * word + lane < packed.len()
            &&& bit(packed[W::LANES * word + lane].as_nat(), place % (W::T as int)) == bit(
                block[i].as_nat(),
                b,
            )
        }),
{
    let t = W::T as int;
    let lane = lane_of(W::LANES as int, i);
    let row = row_of(W::LANES as int, i);
    let place = row * width + b;
    W::lemma_supported();
    lemma_index_onto::<W>(i);
    lemma_packed_bit(block, width, packed, row, lane, b);
    lemma_place_in_lane::<W>(width, row, b);
    lemma_packed_len::<W>(width);
    vstd::arithmetic::div_mod::lemma_fundamental_div_mod(place, t);
    assert(0 <= place / t < width) by (nonlinear_arith)
        requires
            place == t * (place / t) + place % t,
            0 <= place % t < t,
            0 <= place < t * width,
    ;
    lemma_slot::<W>(width, place / t, lane);
    reveal(lane_bit);
}

/// One block only is a given block packed at a given width.
pub proof fn lemma_packed_unique<W: FastLanes>(block: Seq<W>, width: int, a: Seq<W>, b: Seq<W>)
    requires
        0 <= width,
        is_packed(block, width, a),
        is_packed(block, width, b),
    ensures
        a == b,
{
    let l = W::LANES as int;
    let t = W::T as int;
    W::lemma_supported();
    lemma_packed_len::<W>(width);
    assert forall|p: int| 0 <= p < a.len() implies a[p] == b[p] by {
        let lane = p % l;
        let w = p / l;
        vstd::arithmetic::div_mod::lemma_fundamental_div_mod(p, l);
        assert(0 <= w < width) by (nonlinear_arith)
            requires
                p == l * w + p % l,
                0 <= p % l < l,
                0 <= p < l * width,
        ;
        assert forall|j: int| 0 <= j < t implies #[trigger] bit(a[p].as_nat(), j) == bit(
            b[p].as_nat(),
            j,
        ) by {
            lemma_lane_bit(a, lane, w, j);
            lemma_lane_bit(b, lane, w, j);
            assert(0 <= w * t + j < t * width) by (nonlinear_arith)
                requires
                    0 <= w < width,
                    0 <= j < t,
            ;
            assert(lane_bit(a, lane, w * t + j) == row_bit(block, width, lane, w * t + j));
            assert(lane_bit(b, lane, w * t + j) == row_bit(block, width, lane, w * t + j));
        }
        a[p].lemma_as_nat_fits();
        b[p].lemma_as_nat_fits();
        lemma_bits_determine(a[p].as_nat(), b[p].as_nat(), t);
        a[p].lemma_as_nat_unique(b[p]);
    }
    assert(a =~= b);
}

/// One word only is what a packed block holds for a row and a lane.
pub proof fn lemma_element_unique<W: FastLanes>(
    packed: Seq<W>,
    width: int,
    row: int,
    lane: int,
    a: W,
    b: W,
)
    requires
        is_element(packed, width, row, lane, a),
        is_element(packed, width, row, lane, b),
    ensures
        a == b,
{
    reveal(is_element);
    a.lemma_as_nat_fits();
    b.lemma_as_nat_fits();
    lemma_bits_determine(a.as_nat(), b.as_nat(), W::T as int);
    a.lemma_as_nat_unique(b);
}

/// One block only is what a packed block unpacks to.
pub proof fn lemma_unpacked_unique<W: FastLanes>(packed: Seq<W>, width: int, a: Seq<W>, b: Seq<W>)
    requires
        is_unpacked(packed, width, a),
        is_unpacked(packed, width, b),
    ensures
        a == b,
{
    assert forall|i: int| 0 <= i < 1024 implies a[i] == b[i] by {
        let row = row_of(W::LANES as int, i);
        let lane = lane_of(W::LANES as int, i);
        lemma_index_onto::<W>(i);
        assert(index(row, lane) == i);
        lemma_element_unique(packed, width, row, lane, a[i], b[i]);
    }
    assert(a =~= b);
}

/// What a packed block holds for a row and a lane is the word that was packed,
/// cut to the `width` low bits.
pub proof fn lemma_element_of_packed<W: FastLanes>(
    block: Seq<W>,
    width: int,
    packed: Seq<W>,
    row: int,
    lane: int,
    value: W,
)
    requires
        0 <= width <= W::T,
        0 <= row < W::T,
        0 <= lane < W::LANES,
        is_packed(block, width, packed),
        is_element(packed, width, row, lane, value),
    ensures
        value.as_nat() == block[index(row, lane)].as_nat() % pow2(width as nat),
{
    let x = block[index(row, lane)].as_nat();
    assert forall|b: int| 0 <= b < W::T implies #[trigger] bit(value.as_nat(), b) == (b < width
        && bit(x, b)) by {
        reveal(is_element);
        if b < width {
            lemma_packed_bit(block, width, packed, row, lane, b);
        }
    }
    value.lemma_as_nat_fits();
    lemma_low_bits_value(value.as_nat(), x, width, W::T as int);
}

/// Truncation: unpacking a packed block gives every word of the block that
/// was packed, cut to the `width` low bits.
pub proof fn lemma_truncation<W: FastLanes>(
    block: Seq<W>,
    width: int,
    packed: Seq<W>,
    unpacked: Seq<W>,
    i: int,
)
    requires
        0 <= width <= W::T,
        is_packed(block, width, packed),
        is_unpacked(packed, width, unpacked),
        0 <= i < 1024,
    ensures
        unpacked[i].as_nat() == block[i].as_nat() % pow2(width as nat),
{
    let row = row_of(W::LANES as int, i);
    let lane = lane_of(W::LANES as int, i);
    lemma_index_onto::<W>(i);
    assert(index(row, lane) == i);
    lemma_element_of_packed(block, width, packed, row, lane, unpacked[i]);
}

/// Round trip: a block whose words all fit in `width` bits is what its
/// packed block unpacks to.
pub proof fn lemma_round_trip<W: FastLanes>(
    block: Seq<W>,
    width: int,
    packed: Seq<W>,
    unpacked: Seq<W>,
)
    requires
        0 <= width <= W::T,
        block.len() == 1024,
        forall|i: int| 0 <= i < 1024 ==> fits(#[trigger] block[i].as_nat(), width),
        is_packed(block, width, packed),
        is_unpacked(packed, width, unpacked),
    ensures
        unpacked == block,
{
    assert forall|i: int| 0 <= i < 1024 implies unpacked[i] == block[i] by {
        lemma_truncation(block, width, packed, unpacked, i);
        assert(fits(block[i].as_nat(), width));
        lemma_fits_remainder(block[i].as_nat(), width);
        unpacked[i].lemma_as_nat_unique(block[i]);
    }
    assert(unpacked =~= block);
}

/// Reading one word agrees with the block that was packed: the word read at
/// position `i` is the word of the block there, cut to the `width` low bits,
/// and the very word where that one fits in `width` bits.
pub proof fn lemma_single_agrees<W: FastLanes>(
    block: Seq<W>,
    width: int,
    packed: Seq<W>,
    i: int,
    value: W,
)
    requires
        0 <= width <= W::T,
        0 <= i < 1024,
        is_packed(block, width, packed),
        is_element(
            packed,
            width,
            row_of(W::LANES as int, i),
            lane_of(W::LANES as int, i),
            value,
        ),
    ensures
        value.as_nat() == block[i].as_nat() % pow2(width as nat),
        fits(block[i].as_nat(), width) ==> value == block[i],
{
    let row = row_of(W::LANES as int, i);
    let lane = lane_of(W::LANES as int, i);
    lemma_index_onto::<W>(i);
    lemma_element_of_packed(block, width, packed, row, lane, value);
    if fits(block[i].as_nat(), width) {
        lemma_fits_remainder(block[i].as_nat(), width);
        value.lemma_as_nat_unique(block[i]);
    }
}

/// Reading one word agrees with unpacking the block: the word read at
/// position `i` is the word at `i` of the unpacked block.
pub proof fn lemma_single_is_unpacked<W: FastLanes>(
    packed: Seq<W>,
    width: int,
    unpacked: Seq<W>,
    i: int,
    value: W,
)
    requires
        0 <= i < 1024,
        is_unpacked(packed, width, unpacked),
        is_element(
            packed,
            width,
            row_of(W::LANES as int, i),
            lane_of(W::LANES as int, i),
            value,
        ),
    ensures
        value == unpacked[i],
{
    let row = row_of(W::LANES as int, i);
    let lane = lane_of(W::LANES as int, i);
    lemma_index_onto::<W>(i);
    assert(index(row, lane) == i);
    lemma_element_unique(packed, width, row, lane, value, unpacked[i]);
}

/// At the width of the whole word packing only moves the words: word `row`
/// of lane `lane` in the packed block is the word of that row and lane.
pub proof fn lemma_whole_width_is_transpose<W: FastLanes>(
    block: Seq<W>,
    packed: Seq<W>,
    row: int,
    lane: int,
)
    requires
        is_packed(block, W::T as int, packed),
        0 <= row < W::T,
        0 <= lane < W::LANES,
    ensures
        0 <= W::LANES * row + lane < packed.len(),
        packed[W::LANES * row + lane] == block[index(row, lane)],
{
    let t = W::T as int;
    let a = packed[W::LANES * row + lane];
    let b = block[index(row, lane)];
    W::lemma_supported();
    lemma_packed_len::<W>(t);
    lemma_slot::<W>(t, row, lane);
    assert forall|j: int| 0 <= j < t implies #[trigger] bit(a.as_nat(), j) == bit(
        b.as_nat(),
        j,
    ) by {
        lemma_lane_bit(packed, lane, row, j);
        lemma_packed_bit(block, t, packed, row, lane, j);
    }
    a.lemma_as_nat_fits();
    b.lemma_as_nat_fits();
    lemma_bits_determine(a.as_nat(), b.as_nat(), t);
    a.lemma_as_nat_unique(b);
}

/// At width zero a packed block holds the word zero for every row and lane.
pub proof fn lemma_element_at_width_zero<W: FastLanes>(
    packed: Seq<W>,
    row: int,
    lane: int,
    value: W,
)
    requires
        is_element(packed, 0, row, lane, value),
    ensures
        value.as_nat() == 0,
{
    reveal(is_element);
    value.lemma_as_nat_fits();
    W::lemma_supported();
    assert forall|k: int| 0 <= k < W::T implies #[trigger] bit(value.as_nat(), k) == bit(0, k) by {
        crate::bits::lemma_bit_of_zero(k);
    }
    assert(fits(0, W::T as int)) by {
        vstd::arithmetic::power2::lemma_pow2_pos(W::T as nat);
    }
    lemma_bits_determine(value.as_nat(), 0, W::T as int);
}

/// At width zero a packed block unpacks to a block of zeros.
pub proof fn lemma_unpacked_at_width_zero<W: FastLanes>(packed: Seq<W>, unpacked: Seq<W>)
    requires
        is_unpacked(packed, 0, unpacked),
    ensures
        forall|i: int| 0 <= i < 1024 ==> (#[trigger] unpacked[i]).as_nat() == 0,
{
    assert forall|i: int| 0 <= i < 1024 implies (#[trigger] unpacked[i]).as_nat() == 0 by {
        let row = row_of(W::LANES as int, i);
        let lane = lane_of(W::LANES as int, i);
        lemma_index_onto::<W>(i);
        assert(index(row, lane) == i);
        lemma_element_at_width_zero(packed, row, lane, unpacked[i]);
    }
}

/// A block has `1024 / T` lanes of `T` rows each, 1024 words in all.
pub proof fn lemma_block_shape<W: FastLanes>()
    ensures
        W::LANES == 1024int / (W::T as int),
        W::LANES * W::T == 1024,
{
    W::lemma_supported();
    let t = W::T as int;
    if t == 8 {
        assert(1024int / t == 128);
    } else if t == 16 {
        assert(1024int / t == 64);
    } else if t == 32 {
        assert(1024int / t == 32);
    } else {
        assert(1024int / t == 16);
    }
}

/// The rows and lanes correspond one to one to the positions of a block:
/// every row and lane has a position in the block, no two have the same, and
/// every position is that of a row and a lane.
pub proof fn lemma_index_bijection<W: FastLanes>()
    ensures
        forall|row: int, lane: int|
            0 <= row < W::T && 0 <= lane < W::LANES ==> 0 <= #[trigger] index(row, lane) < 1024,
        forall|r1: int, l1: int, r2: int, l2: int|
            0 <= r1 < W::T && 0 <= l1 < W::LANES && 0 <= r2 < W::T && 0 <= l2 < W::LANES
                && #[trigger] index(r1, l1) == #[trigger] index(r2, l2) ==> r1 == r2 && l1 == l2,
        forall|i: int|
            0 <= i < 1024 ==> 0 <= #[trigger] row_of(W::LANES as int, i) < W::T && 0 <= lane_of(
                W::LANES as int,
                i,
            ) < W::LANES && index(row_of(W::LANES as int, i), lane_of(W::LANES as int, i)) == i,
{
    assert forall|row: int, lane: int| 0 <= row < W::T && 0 <= lane < W::LANES implies 0
        <= #[trigger] index(row, lane) < 1024 by {
        lemma_index_inverse::<W>(row, lane);
    }
    assert forall|r1: int, l1: int, r2: int, l2: int|
        0 <= r1 < W::T && 0 <= l1 < W::LANES && 0 <= r2 < W::T && 0 <= l2 < W::LANES
            && #[trigger] index(r1, l1) == #[trigger] index(r2, l2) implies r1 == r2 && l1
        == l2 by {
        lemma_index_inverse::<W>(r1, l1);
        lemma_index_inverse::<W>(r2, l2);
    }
    assert forall|i: int| 0 <= i < 1024 implies 0 <= #[trigger] row_of(W::LANES as int, i) < W::T
        && 0 <= lane_of(W::LANES as int, i) < W::LANES && index(
        row_of(W::LANES as int, i),
        lane_of(W::LANES as int, i),
    ) == i by {
        lemma_index_onto::<W>(i);
    }
}

} // verus!
