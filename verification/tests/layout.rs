use fastlanes::{BitPacking, FastLanes, FL_ORDER};

/// The row and the lane of position `i`, worked out from the order of the
/// row groups alone.
fn row_and_lane(lanes: usize, i: usize) -> (usize, usize) {
    let lane = i % lanes;
    let s = i / 128;
    let group = (i - s * 128 - lane) / 16;
    let o = FL_ORDER.iter().position(|&g| g == group).unwrap();
    (o * 8 + s, lane)
}

/// Reads the value at position `i` out of a packed block bit by bit.
fn read_bits(packed: &[u64], t: usize, width: usize, i: usize) -> u64 {
    let lanes = 1024 / t;
    let (row, lane) = row_and_lane(lanes, i);
    let mut value = 0u64;
    for b in 0..width {
        let place = row * width + b;
        let word = packed[lanes * (place / t) + lane];
        value |= ((word >> (place % t)) & 1) << b;
    }
    value
}

fn layout_holds_at_every_width<T>(seed: u64)
where
    T: BitPacking + TryFrom<u64> + Into<u64> + Default + PartialEq + std::fmt::Debug,
{
    let t = T::T;
    for width in 0..=t {
        let mut state = seed + width as u64;
        let block: Vec<T> = (0..1024)
            .map(|_| {
                state = state.wrapping_mul(6364136223846793005).wrapping_add(1442695040888963407);
                let value = if t == 64 { state } else { (state >> 20) & ((1u64 << t) - 1) };
                T::try_from(value).unwrap_or_default()
            })
            .collect();
        let mut packed = vec![T::default(); 1024 * width / t];
        T::unchecked_pack(width, &block, &mut packed);
        let words: Vec<u64> = packed.iter().map(|&w| w.into()).collect();
        for i in 0..1024 {
            let whole: u64 = block[i].into();
            let expected = if width == 64 { whole } else { whole & ((1u64 << width) - 1) };
            assert_eq!(read_bits(&words, t, width, i), expected, "width {} position {}", width, i);
        }
    }
}

#[test]
fn layout_of_u8_blocks() {
    layout_holds_at_every_width::<u8>(1);
}

#[test]
fn layout_of_u16_blocks() {
    layout_holds_at_every_width::<u16>(2);
}

#[test]
fn layout_of_u32_blocks() {
    layout_holds_at_every_width::<u32>(3);
}

#[test]
fn layout_of_u64_blocks() {
    layout_holds_at_every_width::<u64>(4);
}

#[test]
fn straddling_value_lies_in_two_words() {
    // Width 3 of u8: row 2 of a lane takes bits 6 and 7 of the lane's first
    // word and bit 0 of its second.
    let mut block = vec![0u8; 1024];
    block[2 * 128 + 9] = 0b111;
    let mut packed = vec![0u8; 384];
    u8::unchecked_pack(3, &block, &mut packed);
    assert_eq!(packed[9], 0b1100_0000);
    assert_eq!(packed[128 + 9], 0b0000_0001);
    assert_eq!(packed[256 + 9], 0);
    assert_eq!(packed.iter().filter(|&&w| w != 0).count(), 2);
    assert_eq!(u8::unchecked_unpack_single(3, &packed, 2 * 128 + 9), 0b111);
}
