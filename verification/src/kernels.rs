//! The kernels: packing and unpacking of a block at a width that is known
//! when the program is compiled.
//!
//! A kernel goes through the lanes, and within a lane through the rows. It
//! keeps count of where the bits of the next row start in the words of the
//! lane: in which word, and at which bit of it. With the width a constant,
//! these counts are constants in every step of the loop over the rows once
//! the compiler has unrolled it.
use crate::bits::{bit, lemma_bit_above, lemma_bit_of_zero};
use crate::laws::lemma_unpacked_at_width_zero;
use crate::layout::{
    is_element, is_packed, is_unpacked, lane_bit, lemma_lane_bit, lemma_lane_bit_same,
    lemma_lane_bit_written, lemma_packed_len, lemma_row_bit, lemma_slot, packed_len, row_bit,
};
use crate::transpose::{index, lane_at, lane_of, lemma_index_inverse, position, row_at, row_of};
use crate::FastLanes;
use vstd::prelude::*;

verus! {

/// The bits of row `row` start at bit `start` of the string of a lane, which
/// is bit `filled` of word `word` of the lane.
#[verifier::opaque]
spec fn starts_at<W: FastLanes>(width: int, row: int, start: int, word: int, filled: int) -> bool {
    &&& 0 <= filled < W::T
    &&& 0 <= word
    &&& start == row * width
    &&& start == word * W::T + filled
}

/// The first `n` bits of the string of lane `lane` in `packed` are those of
/// the rows of that lane in `block`.
spec fn lane_packed<W: FastLanes>(
    block: Seq<W>,
    width: int,
    packed: Seq<W>,
    lane: int,
    n: int,
) -> bool {
    forall|k: int|
        0 <= k < n ==> #[trigger] lane_bit(packed, lane, k) == row_bit(block, width, lane, k)
}

/// The first `rows` rows of lane `lane` in `block` are what `packed` holds
/// for them.
spec fn lane_unpacked<W: FastLanes>(
    packed: Seq<W>,
    width: int,
    block: Seq<W>,
    lane: int,
    rows: int,
) -> bool {
    forall|row: int|
        0 <= row < rows ==> is_element(packed, width, row, lane, block[#[trigger] index(row, lane)])
}

/// `after` differs from `before` in words of lane `lane` at most. In a block
/// and in a packed block alike, the word at position `p` belongs to lane
/// `p % LANES`.
spec fn others_kept<W: FastLanes>(before: Seq<W>, after: Seq<W>, lane: int) -> bool {
    &&& after.len() == before.len()
    &&& forall|p: int|
        0 <= p < before.len() && lane_of(W::LANES as int, p) != lane ==> #[trigger] after[p]
            == before[p]
}

/// Row 0 starts at the first bit of the first word.
proof fn lemma_starts_at_first<W: FastLanes>(width: int)
    ensures
        starts_at::<W>(width, 0, 0, 0, 0),
{
    reveal(starts_at);
    W::lemma_supported();
}

/// Where a row starts, and where the next one does.
proof fn lemma_starts_at<W: FastLanes>(width: int, row: int, start: int, word: int, filled: int)
    requires
        0 < width < W::T,
        0 <= row < W::T,
        starts_at::<W>(width, row, start, word, filled),
    ensures
        0 <= filled < W::T,
        0 <= word < width,
        start == row * width,
        start == word * W::T + filled,
        0 <= start,
        start + width <= W::T * width,
        filled + width > W::T ==> word + 1 < width,
        filled + width >= W::T ==> starts_at::<W>(
            width,
            row + 1,
            start + width,
            word + 1,
            filled + width - W::T,
        ),
        filled + width < W::T ==> starts_at::<W>(
            width,
            row + 1,
            start + width,
            word,
            filled + width,
        ),
        row + 1 == W::T ==> filled + width == W::T && start + width == W::T * width,
{
    reveal(starts_at);
    W::lemma_supported();
    let t = W::T as int;
    assert((row + 1) * width == row * width + width) by (nonlinear_arith);
    assert((word + 1) * t == word * t + t) by (nonlinear_arith);
    assert(0 <= row * width <= (t - 1) * width) by (nonlinear_arith)
        requires
            0 <= row <= t - 1,
            0 < width,
    ;
    assert((t - 1) * width == t * width - width) by (nonlinear_arith);
    assert(word < width) by (nonlinear_arith)
        requires
            word * t <= t * width - width,
            0 < width,
            0 < t,
    ;
    if filled + width > t {
        assert(word + 1 < width) by (nonlinear_arith)
            requires
                (word + 1) * t < t * width,
                0 < t,
        ;
    }
    if row + 1 == t {
        assert(filled + width == t) by (nonlinear_arith)
            requires
                t * width == word * t + filled + width,
                0 <= filled < t,
                0 < width < t,
        ;
    }
}

/// Packs the rows of lane `lane` of `input` into the words of that lane in
/// `output`, `WIDTH` bits of each row, for a width that is neither zero nor
/// the whole word.
///
/// The bits of a row are put above those that `acc` holds already. When a
/// word is full it is written, and what did not fit of the row starts the
/// next word.
fn pack_lane_bits<W: FastLanes, const WIDTH: usize>(input: &[W], output: &mut [W], lane: usize)
    requires
        0 < WIDTH < W::T,
        lane < W::LANES,
        input.len() == 1024,
        old(output).len() == W::LANES * WIDTH,
    ensures
        lane_packed(input@, WIDTH as int, final(output)@, lane as int, W::T * WIDTH),
        others_kept::<W>(old(output)@, final(output)@, lane as int),
{
    let mut row: usize = 0;
    let mut word: usize = 0;
    let mut filled: usize = 0;
    let mut acc = W::zero();
    let ghost mut start: int = 0;
    proof {
        W::lemma_supported();
        lemma_starts_at_first::<W>(WIDTH as int);
        assert forall|j: int| !#[trigger] bit(acc.as_nat(), j) by {
            lemma_bit_of_zero(j);
        }
    }
    while row < W::T
        invariant
            0 < WIDTH < W::T <= 64,
            lane < W::LANES <= 128,
            row <= W::T,
            starts_at::<W>(WIDTH as int, row as int, start, word as int, filled as int),
            filled < W::T,
            filled <= start,
            row == W::T ==> start == W::T * WIDTH && filled == 0,
            input.len() == 1024,
            output.len() == W::LANES * WIDTH,
            forall|j: int| #[trigger]
                bit(acc.as_nat(), j) == (0 <= j < filled && row_bit(
                    input@,
                    WIDTH as int,
                    lane as int,
                    start - filled + j,
                )),
            lane_packed(input@, WIDTH as int, output@, lane as int, start - filled),
            others_kept::<W>(old(output)@, output@, lane as int),
        decreases W::T - row,
    {
        proof {
            lemma_index_inverse::<W>(row as int, lane as int);
            lemma_starts_at::<W>(WIDTH as int, row as int, start, word as int, filled as int);
            lemma_slot::<W>(WIDTH as int, word as int, lane as int);
        }
        let ghost before = output@;
        let src = input[position(row, lane)].low_bits(WIDTH);
        let full = acc.bit_or(src.shift_left(filled));
        proof {
            assert forall|j: int| #[trigger]
                bit(full.as_nat(), j) == (0 <= j < W::T && j < filled + WIDTH && row_bit(
                    input@,
                    WIDTH as int,
                    lane as int,
                    start - filled + j,
                )) by {
                if filled <= j < filled + WIDTH {
                    lemma_row_bit(input@, WIDTH as int, lane as int, row as int, j - filled);
                }
            }
        }
        if filled + WIDTH >= W::T {
            output[W::LANES * word + lane] = full;
            acc = src.shift_right(W::T - filled);
            proof {
                assert forall|j: int| #[trigger]
                    bit(acc.as_nat(), j) == (0 <= j < filled + WIDTH - W::T && row_bit(
                        input@,
                        WIDTH as int,
                        lane as int,
                        start - filled + W::T + j,
                    )) by {
                    if 0 <= j < filled + WIDTH - W::T {
                        lemma_row_bit(
                            input@,
                            WIDTH as int,
                            lane as int,
                            row as int,
                            j + W::T - filled,
                        );
                    }
                }
                assert forall|k: int| 0 <= k < start - filled + W::T implies #[trigger] lane_bit(
                    output@,
                    lane as int,
                    k,
                ) == row_bit(input@, WIDTH as int, lane as int, k) by {
                    lemma_lane_bit_written(
                        before,
                        WIDTH as int,
                        lane as int,
                        word as int,
                        full,
                        k,
                    );
                }
            }
            filled = filled + WIDTH - W::T;
            word += 1;
        } else {
            acc = full;
            filled += WIDTH;
        }
        proof {
            start = start + WIDTH;
        }
        row += 1;
    }
}

/// Packs the rows of lane `lane` of `input` into the words of that lane in
/// `output`, each row whole: row `row` becomes word `row`.
fn pack_lane_whole<W: FastLanes>(input: &[W], output: &mut [W], lane: usize)
    requires
        lane < W::LANES,
        input.len() == 1024,
        old(output).len() == W::LANES * W::T,
    ensures
        lane_packed(input@, W::T as int, final(output)@, lane as int, W::T * W::T),
        others_kept::<W>(old(output)@, final(output)@, lane as int),
{
    let mut row: usize = 0;
    let ghost mut start: int = 0;
    proof {
        W::lemma_supported();
    }
    while row < W::T
        invariant
            0 < W::T <= 64,
            lane < W::LANES <= 128,
            row <= W::T,
            start == row * W::T,
            input.len() == 1024,
            output.len() == W::LANES * W::T,
            lane_packed(input@, W::T as int, output@, lane as int, start),
            others_kept::<W>(old(output)@, output@, lane as int),
        decreases W::T - row,
    {
        proof {
            lemma_index_inverse::<W>(row as int, lane as int);
            lemma_slot::<W>(W::T as int, row as int, lane as int);
            assert((row + 1) * W::T == row * W::T + W::T) by (nonlinear_arith);
            assert(row * W::T + W::T <= W::T * W::T) by (nonlinear_arith)
                requires
                    row < W::T,
            ;
        }
        let ghost before = output@;
        let whole = input[position(row, lane)];
        output[W::LANES * row + lane] = whole;
        proof {
            assert forall|k: int| 0 <= k < start + W::T implies #[trigger] lane_bit(
                output@,
                lane as int,
                k,
            ) == row_bit(input@, W::T as int, lane as int, k) by {
                lemma_lane_bit_written(before, W::T as int, lane as int, row as int, whole, k);
                if start <= k {
                    lemma_row_bit(input@, W::T as int, lane as int, row as int, k - start);
                }
            }
            start = start + W::T;
        }
        row += 1;
    }
}

/// Packs the rows of lane `lane` of `input` into the words of that lane in
/// `output`, `WIDTH` bits of each row.
fn pack_lane<W: FastLanes, const WIDTH: usize>(input: &[W], output: &mut [W], lane: usize)
    requires
        WIDTH <= W::T,
        lane < W::LANES,
        input.len() == 1024,
        old(output).len() == W::LANES * WIDTH,
    ensures
        lane_packed(input@, WIDTH as int, final(output)@, lane as int, W::T * WIDTH),
        others_kept::<W>(old(output)@, final(output)@, lane as int),
{
    if WIDTH == 0 {
        assert(W::T * WIDTH == 0) by (nonlinear_arith)
            requires
                WIDTH == 0,
        ;
    } else if WIDTH == W::T {
        pack_lane_whole(input, output, lane);
    } else {
        pack_lane_bits::<W, WIDTH>(input, output, lane);
    }
}

/// Packs the 1024 words of `input`, `WIDTH` bits of each, into `output`.
///
/// Bits of a word at position `WIDTH` or above are dropped. Every word of
/// `output` is written; what it held before does not matter.
pub fn pack_block<W: FastLanes, const WIDTH: usize>(input: &[W], output: &mut [W])
    requires
        WIDTH <= W::T,
        input.len() == 1024,
        old(output).len() == packed_len::<W>(WIDTH as int),
    ensures
        is_packed(input@, WIDTH as int, final(output)@),
        WIDTH == 0 ==> final(output)@.len() == 0,
{
    proof {
        lemma_packed_len::<W>(WIDTH as int);
    }
    let mut lane: usize = 0;
    while lane < W::LANES
        invariant
            WIDTH <= W::T,
            lane <= W::LANES,
            input.len() == 1024,
            output.len() == packed_len::<W>(WIDTH as int),
            output.len() == W::LANES * WIDTH,
            forall|l: int|
                0 <= l < lane ==> #[trigger] lane_packed(
                    input@,
                    WIDTH as int,
                    output@,
                    l,
                    W::T * WIDTH,
                ),
        decreases W::LANES - lane,
    {
        let ghost before = output@;
        pack_lane::<W, WIDTH>(input, output, lane);
        proof {
            assert forall|l: int| 0 <= l < lane implies #[trigger] lane_packed(
                input@,
                WIDTH as int,
                output@,
                l,
                W::T * WIDTH,
            ) by {
                assert(lane_packed(input@, WIDTH as int, before, l, W::T * WIDTH));
                assert forall|k: int| 0 <= k < W::T * WIDTH implies #[trigger] lane_bit(
                    output@,
                    l,
                    k,
                ) == row_bit(input@, WIDTH as int, l, k) by {
                    lemma_lane_bit_same(before, output@, WIDTH as int, l, k);
                }
            }
        }
        lane += 1;
    }
    proof {
        if WIDTH == 0 {
            assert(W::LANES * WIDTH == 0) by (nonlinear_arith)
                requires
                    WIDTH == 0,
            ;
        }
        assert forall|l: int, k: int|
            0 <= l < W::LANES && 0 <= k < W::T * WIDTH implies #[trigger] lane_bit(output@, l, k)
            == row_bit(input@, WIDTH as int, l, k) by {
            assert(lane_packed(input@, WIDTH as int, output@, l, W::T * WIDTH));
        }
    }
}

/// Reads from the words of lane `lane` in `packed` the `width` bits of the
/// row that starts at bit `shift` of word `word`.
///
/// The bits of the row that the word holds are shifted down. Those that lie
/// in the next word, if there are any, are shifted up to stand above them.
fn extract<W: FastLanes>(
    packed: &[W],
    width: usize,
    lane: usize,
    word: usize,
    shift: usize,
    Ghost(row): Ghost<int>,
    Ghost(start): Ghost<int>,
) -> (value: W)
    requires
        0 < width < W::T,
        lane < W::LANES,
        0 <= row < W::T,
        packed.len() == W::LANES * width,
        starts_at::<W>(width as int, row, start, word as int, shift as int),
    ensures
        is_element(packed@, width as int, row, lane as int, value),
{
    proof {
        W::lemma_supported();
        lemma_starts_at::<W>(width as int, row, start, word as int, shift as int);
        lemma_slot::<W>(width as int, word as int, lane as int);
    }
    let first = packed[W::LANES * word + lane];
    let low = first.shift_right(shift);
    if shift + width > W::T {
        proof {
            lemma_slot::<W>(width as int, word + 1, lane as int);
        }
        let second = packed[W::LANES * (word + 1) + lane];
        let high = second.shift_left(W::T - shift);
        let value = low.bit_or(high).low_bits(width);
        proof {
            reveal(is_element);
            first.lemma_as_nat_fits();
            assert((word + 1) * W::T == word * W::T + W::T) by (nonlinear_arith);
            assert forall|b: int| 0 <= b < W::T implies #[trigger] bit(value.as_nat(), b) == (b
                < width && lane_bit(packed@, lane as int, row * width + b)) by {
                if b < width {
                    if b + shift < W::T {
                        lemma_lane_bit(packed@, lane as int, word as int, shift + b);
                    } else {
                        lemma_bit_above(first.as_nat(), W::T as int, b + shift);
                        lemma_lane_bit(packed@, lane as int, word + 1, b + shift - W::T);
                    }
                }
            }
        }
        value
    } else {
        let value = low.low_bits(width);
        proof {
            reveal(is_element);
            assert forall|b: int| 0 <= b < W::T implies #[trigger] bit(value.as_nat(), b) == (b
                < width && lane_bit(packed@, lane as int, row * width + b)) by {
                if b < width {
                    lemma_lane_bit(packed@, lane as int, word as int, shift + b);
                }
            }
        }
        value
    }
}

/// Writing the word of a row and a lane keeps the rows of that lane that were
/// written before, and the other lanes.
proof fn lemma_row_written<W: FastLanes>(
    packed: Seq<W>,
    width: int,
    before: Seq<W>,
    lane: int,
    row: int,
    value: W,
)
    requires
        before.len() == 1024,
        0 <= row < W::T,
        0 <= lane < W::LANES,
        lane_unpacked(packed, width, before, lane, row),
        is_element(packed, width, row, lane, value),
    ensures
        lane_unpacked(packed, width, before.update(index(row, lane), value), lane, row + 1),
        others_kept::<W>(before, before.update(index(row, lane), value), lane),
{
    let after = before.update(index(row, lane), value);
    lemma_index_inverse::<W>(row, lane);
    assert forall|r: int| 0 <= r < row + 1 implies is_element(
        packed,
        width,
        r,
        lane,
        after[#[trigger] index(r, lane)],
    ) by {
        lemma_index_inverse::<W>(r, lane);
    }
}

/// Unpacks the rows of lane `lane` from the words of that lane in `input`,
/// for a width that is neither zero nor the whole word.
fn unpack_lane_bits<W: FastLanes, const WIDTH: usize>(input: &[W], output: &mut [W], lane: usize)
    requires
        0 < WIDTH < W::T,
        lane < W::LANES,
        input.len() == W::LANES * WIDTH,
        old(output).len() == 1024,
    ensures
        lane_unpacked(input@, WIDTH as int, final(output)@, lane as int, W::T as int),
        others_kept::<W>(old(output)@, final(output)@, lane as int),
{
    let mut row: usize = 0;
    let mut word: usize = 0;
    let mut shift: usize = 0;
    let ghost mut start: int = 0;
    proof {
        W::lemma_supported();
        lemma_starts_at_first::<W>(WIDTH as int);
    }
    while row < W::T
        invariant
            0 < WIDTH < W::T <= 64,
            lane < W::LANES <= 128,
            row <= W::T,
            starts_at::<W>(WIDTH as int, row as int, start, word as int, shift as int),
            shift < W::T,
            input.len() == W::LANES * WIDTH,
            output.len() == 1024,
            lane_unpacked(input@, WIDTH as int, output@, lane as int, row as int),
            others_kept::<W>(old(output)@, output@, lane as int),
        decreases W::T - row,
    {
        proof {
            lemma_index_inverse::<W>(row as int, lane as int);
            lemma_starts_at::<W>(WIDTH as int, row as int, start, word as int, shift as int);
        }
        let ghost before = output@;
        let value = extract(input, WIDTH, lane, word, shift, Ghost(row as int), Ghost(start));
        output[position(row, lane)] = value;
        proof {
            lemma_row_written(input@, WIDTH as int, before, lane as int, row as int, value);
            start = start + WIDTH;
        }
        if shift + WIDTH >= W::T {
            shift = shift + WIDTH - W::T;
            word += 1;
        } else {
            shift += WIDTH;
        }
        row += 1;
    }
}

/// Unpacks the rows of lane `lane` from the words of that lane in `input`,
/// each row a whole word: word `row` becomes row `row`.
fn unpack_lane_whole<W: FastLanes>(input: &[W], output: &mut [W], lane: usize)
    requires
        lane < W::LANES,
        input.len() == W::LANES * W::T,
        old(output).len() == 1024,
    ensures
        lane_unpacked(input@, W::T as int, final(output)@, lane as int, W::T as int),
        others_kept::<W>(old(output)@, final(output)@, lane as int),
{
    let mut row: usize = 0;
    proof {
        W::lemma_supported();
    }
    while row < W::T
        invariant
            0 < W::T <= 64,
            lane < W::LANES <= 128,
            row <= W::T,
            input.len() == W::LANES * W::T,
            output.len() == 1024,
            lane_unpacked(input@, W::T as int, output@, lane as int, row as int),
            others_kept::<W>(old(output)@, output@, lane as int),
        decreases W::T - row,
    {
        proof {
            lemma_index_inverse::<W>(row as int, lane as int);
            lemma_slot::<W>(W::T as int, row as int, lane as int);
        }
        let ghost before = output@;
        let value = input[W::LANES * row + lane];
        output[position(row, lane)] = value;
        proof {
            assert(is_element(input@, W::T as int, row as int, lane as int, value)) by {
                reveal(is_element);
                assert forall|b: int| 0 <= b < W::T implies #[trigger] bit(value.as_nat(), b) == (b
                    < W::T && lane_bit(input@, lane as int, row * W::T + b)) by {
                    lemma_lane_bit(input@, lane as int, row as int, b);
                }
            }
            lemma_row_written(input@, W::T as int, before, lane as int, row as int, value);
        }
        row += 1;
    }
}

/// Fills the rows of lane `lane` with zeros: what a block packed at width
/// zero holds for every row.
fn unpack_lane_zero<W: FastLanes>(input: &[W], output: &mut [W], lane: usize)
    requires
        lane < W::LANES,
        old(output).len() == 1024,
    ensures
        lane_unpacked(input@, 0, final(output)@, lane as int, W::T as int),
        others_kept::<W>(old(output)@, final(output)@, lane as int),
{
    let mut row: usize = 0;
    proof {
        W::lemma_supported();
    }
    while row < W::T
        invariant
            0 < W::T <= 64,
            lane < W::LANES <= 128,
            row <= W::T,
            output.len() == 1024,
            lane_unpacked(input@, 0, output@, lane as int, row as int),
            others_kept::<W>(old(output)@, output@, lane as int),
        decreases W::T - row,
    {
        proof {
            lemma_index_inverse::<W>(row as int, lane as int);
        }
        let ghost before = output@;
        let value = W::zero();
        output[position(row, lane)] = value;
        proof {
            assert(is_element(input@, 0, row as int, lane as int, value)) by {
                reveal(is_element);
                assert forall|b: int| 0 <= b < W::T implies #[trigger] bit(value.as_nat(), b) == (b
                    < 0 && lane_bit(input@, lane as int, row * 0 + b)) by {
                    lemma_bit_of_zero(b);
                }
            }
            lemma_row_written(input@, 0, before, lane as int, row as int, value);
        }
        row += 1;
    }
}

/// Unpacks the rows of lane `lane` from the words of that lane in `input`,
/// `WIDTH` bits for each row.
fn unpack_lane<W: FastLanes, const WIDTH: usize>(input: &[W], output: &mut [W], lane: usize)
    requires
        WIDTH <= W::T,
        lane < W::LANES,
        input.len() == W::LANES * WIDTH,
        old(output).len() == 1024,
    ensures
        lane_unpacked(input@, WIDTH as int, final(output)@, lane as int, W::T as int),
        others_kept::<W>(old(output)@, final(output)@, lane as int),
{
    if WIDTH == 0 {
        unpack_lane_zero(input, output, lane);
    } else if WIDTH == W::T {
        unpack_lane_whole(input, output, lane);
    } else {
        unpack_lane_bits::<W, WIDTH>(input, output, lane);
    }
}

/// Unpacks `input`, a block packed at `WIDTH` bits, into the 1024 words of
/// `output`.
///
/// Every word of `output` is written; what it held before does not matter.
pub fn unpack_block<W: FastLanes, const WIDTH: usize>(input: &[W], output: &mut [W])
    requires
        WIDTH <= W::T,
        input.len() == packed_len::<W>(WIDTH as int),
        old(output).len() == 1024,
    ensures
        is_unpacked(input@, WIDTH as int, final(output)@),
        WIDTH == 0 ==> forall|i: int|
            0 <= i < 1024 ==> (#[trigger] final(output)@[i]).as_nat() == 0,
{
    proof {
        lemma_packed_len::<W>(WIDTH as int);
    }
    let mut lane: usize = 0;
    while lane < W::LANES
        invariant
            WIDTH <= W::T,
            lane <= W::LANES,
            input.len() == W::LANES * WIDTH,
            output.len() == 1024,
            forall|row: int, l: int|
                0 <= row < W::T && 0 <= l < lane ==> is_element(
                    input@,
                    WIDTH as int,
                    row,
                    l,
                    output@[#[trigger] index(row, l)],
                ),
        decreases W::LANES - lane,
    {
        unpack_lane::<W, WIDTH>(input, output, lane);
        proof {
            assert forall|row: int, l: int| 0 <= row < W::T && 0 <= l < lane + 1 implies is_element(
                input@,
                WIDTH as int,
                row,
                l,
                output@[#[trigger] index(row, l)],
            ) by {
                lemma_index_inverse::<W>(row, l);
            }
        }
        lane += 1;
    }
    proof {
        if WIDTH == 0 {
            lemma_unpacked_at_width_zero(input@, output@);
        }
    }
}

/// Reads from `packed`, a block packed at `width` bits, the word that
/// unpacking would put at position `index`. No other word is unpacked.
pub fn unpack_single<W: FastLanes>(width: usize, packed: &[W], index: usize) -> (value: W)
    requires
        width <= W::T,
        packed.len() == packed_len::<W>(width as int),
        index < 1024,
    ensures
        is_element(
            packed@,
            width as int,
            row_of(W::LANES as int, index as int),
            lane_of(W::LANES as int, index as int),
            value,
        ),
        width == 0 ==> value.as_nat() == 0,
{
    proof {
        W::lemma_supported();
        lemma_packed_len::<W>(width as int);
    }
    let lane = lane_at::<W>(index);
    let row = row_at::<W>(index);
    if width == 0 {
        let value = W::zero();
        proof {
            reveal(is_element);
            assert forall|b: int| 0 <= b < W::T implies #[trigger] bit(value.as_nat(), b) == (b < 0
                && lane_bit(packed@, lane as int, row * 0 + b)) by {
                lemma_bit_of_zero(b);
            }
        }
        value
    } else if width == W::T {
        proof {
            lemma_slot::<W>(W::T as int, row as int, lane as int);
        }
        let value = packed[W::LANES * row + lane];
        proof {
            reveal(is_element);
            assert forall|b: int| 0 <= b < W::T implies #[trigger] bit(value.as_nat(), b) == (b
                < W::T && lane_bit(packed@, lane as int, row * W::T + b)) by {
                lemma_lane_bit(packed@, lane as int, row as int, b);
            }
        }
        value
    } else {
        assert(row * width <= 64 * 64) by (nonlinear_arith)
            requires
                row <= 64,
                width <= 64,
        ;
        let start = row * width;
        let word = start / W::T;
        let shift = start % W::T;
        proof {
            reveal(starts_at);
            vstd::arithmetic::div_mod::lemma_fundamental_div_mod(start as int, W::T as int);
        }
        extract(packed, width, lane, word, shift, Ghost(row as int), Ghost(start as int))
    }
}

} // verus!
