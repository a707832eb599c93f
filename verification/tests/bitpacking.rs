use fastlanes::kernels::{pack_block, unpack_block, unpack_single};
use fastlanes::{BitPacking, FastLanes};

/// A block of pseudo-random words, each below `2^width`.
fn random_block<T: FastLanes + TryFrom<u64> + Default>(seed: u64, width: usize) -> Vec<T> {
    let mut state = seed | 1;
    let mut block = Vec::with_capacity(1024);
    for _ in 0..1024 {
        state ^= state << 13;
        state ^= state >> 7;
        state ^= state << 17;
        let value = if width == 0 {
            0
        } else if width == 64 {
            state
        } else {
            state & ((1u64 << width) - 1)
        };
        block.push(T::try_from(value).unwrap_or_default());
    }
    block
}

fn low_bits_of(value: u64, width: usize) -> u64 {
    if width >= 64 {
        value
    } else {
        value & ((1u64 << width) - 1)
    }
}

fn round_trips_at_every_width<T>(seed: u64)
where
    T: BitPacking + TryFrom<u64> + Default + PartialEq + std::fmt::Debug,
{
    for width in 0..=T::T {
        let block: Vec<T> = random_block(seed + width as u64, width);
        let mut packed = vec![T::default(); 1024 * width / T::T];
        T::unchecked_pack(width, &block, &mut packed);
        assert_eq!(packed.len(), T::LANES * width);
        let mut unpacked = vec![T::default(); 1024];
        T::unchecked_unpack(width, &packed, &mut unpacked);
        assert_eq!(unpacked, block, "width {}", width);
    }
}

fn truncates_at_every_width<T>(seed: u64)
where
    T: BitPacking + TryFrom<u64> + Into<u64> + Default + PartialEq + std::fmt::Debug,
{
    for width in 0..=T::T {
        let block: Vec<T> = random_block(seed + width as u64, T::T);
        let mut packed = vec![T::default(); 1024 * width / T::T];
        T::unchecked_pack(width, &block, &mut packed);
        let mut unpacked = vec![T::default(); 1024];
        T::unchecked_unpack(width, &packed, &mut unpacked);
        for i in 0..1024 {
            let expected = low_bits_of(block[i].into(), width);
            let got: u64 = unpacked[i].into();
            assert_eq!(got, expected, "width {} position {}", width, i);
        }
    }
}

fn single_agrees_at_every_width<T>(seed: u64)
where
    T: BitPacking + TryFrom<u64> + Default + PartialEq + std::fmt::Debug,
{
    for width in 0..=T::T {
        let block: Vec<T> = random_block(seed + width as u64, width);
        let mut packed = vec![T::default(); 1024 * width / T::T];
        T::unchecked_pack(width, &block, &mut packed);
        for i in 0..1024 {
            assert_eq!(
                T::unchecked_unpack_single(width, &packed, i),
                block[i],
                "width {} position {}",
                width,
                i
            );
        }
    }
}

fn packing_overwrites_the_output<T>(seed: u64)
where
    T: BitPacking + TryFrom<u64> + Default + PartialEq + std::fmt::Debug,
{
    for width in 0..=T::T {
        let block: Vec<T> = random_block(seed + width as u64, width);
        let mut clean = vec![T::default(); 1024 * width / T::T];
        let mut dirty: Vec<T> = random_block(seed ^ 0xABCD, T::T);
        dirty.truncate(1024 * width / T::T);
        T::unchecked_pack(width, &block, &mut clean);
        T::unchecked_pack(width, &block, &mut dirty);
        assert_eq!(clean, dirty, "width {}", width);

        let mut from_zeros = vec![T::default(); 1024];
        let mut from_noise: Vec<T> = random_block(seed ^ 0x1234, T::T);
        T::unchecked_unpack(width, &clean, &mut from_zeros);
        T::unchecked_unpack(width, &clean, &mut from_noise);
        assert_eq!(from_zeros, from_noise, "width {}", width);
    }
}

#[test]
fn test_unchecked_pack() {
    let input: [u32; 1024] = core::array::from_fn(|i| i as u32);
    let mut packed = [0; 320];
    BitPacking::unchecked_pack(10, &input, &mut packed);
    let mut output = [0; 1024];
    BitPacking::unchecked_unpack(10, &packed, &mut output);
    assert_eq!(input, output);
}

#[test]
fn counting_block_of_u32_at_width_10() {
    let block: Vec<u32> = (0..1024).collect();
    let mut packed = vec![0u32; 1024 * 10 / 32];
    assert_eq!(packed.len(), 320);
    u32::unchecked_pack(10, &block, &mut packed);
    assert_eq!(packed.len(), 320);
    let mut unpacked = vec![0u32; 1024];
    u32::unchecked_unpack(10, &packed, &mut unpacked);
    assert_eq!(unpacked, block);
}

#[test]
fn counting_block_of_u32_at_width_10_first_words() {
    // Lane 0 holds positions 0, 128, 256, ... in its rows 0, 1, 2, ...: the
    // first word of the lane is 0 | 128 << 10 | 256 << 20 | 384 << 30.
    let block: Vec<u32> = (0..1024).collect();
    let mut packed = vec![0u32; 320];
    u32::unchecked_pack(10, &block, &mut packed);
    assert_eq!(packed[0], (128 << 10) | (256 << 20) | (384u32 << 30));
    // The second word of lane 0 starts with the 8 high bits of 384 and goes
    // on with 512, 640 and the 2 low bits of 768.
    assert_eq!(packed[32], (384 >> 2) | (512 << 8) | (640 << 18) | (768u32 << 28));
    // Lane 1 holds the positions one further.
    assert_eq!(packed[1], 1 | (129 << 10) | (257 << 20) | (385u32 << 30));
}

#[test]
fn block_of_u8_at_width_3() {
    let block: Vec<u8> = (0..1024).map(|i| (i % 8) as u8).collect();
    let mut packed = vec![0u8; 1024 * 3 / 8];
    assert_eq!(packed.len(), 384);
    u8::unchecked_pack(3, &block, &mut packed);
    let mut unpacked = vec![0u8; 1024];
    u8::unchecked_unpack(3, &packed, &mut unpacked);
    assert_eq!(unpacked, block);
}

#[test]
fn block_of_u16_at_width_16_is_transposed() {
    let block: Vec<u16> = (0..1024u64).map(|i| ((i * 2654435761) % 65536) as u16).collect();
    let mut packed = vec![0u16; 1024];
    u16::unchecked_pack(16, &block, &mut packed);
    for word in 0..16 {
        for lane in 0..64 {
            let position = fastlanes::transpose::position(word, lane);
            assert_eq!(packed[64 * word + lane], block[position]);
        }
    }
    let mut unpacked = vec![0u16; 1024];
    u16::unchecked_unpack(16, &packed, &mut unpacked);
    assert_eq!(unpacked, block);
}

#[test]
fn block_of_u32_at_width_0() {
    let block: Vec<u32> = (0..1024).map(|i| i * 7 + 1).collect();
    let mut packed: Vec<u32> = Vec::new();
    u32::unchecked_pack(0, &block, &mut packed);
    assert_eq!(packed.len(), 0);
    let mut unpacked = vec![0xDEADBEEFu32; 1024];
    u32::unchecked_unpack(0, &packed, &mut unpacked);
    assert_eq!(unpacked, vec![0u32; 1024]);
    for i in 0..1024 {
        assert_eq!(u32::unchecked_unpack_single(0, &packed, i), 0);
    }
}

#[test]
fn block_of_u64_at_width_33() {
    let block: Vec<u64> = (0..1024u64)
        .map(|i| i.wrapping_mul(0x9E3779B97F4A7C15) & ((1 << 33) - 1))
        .collect();
    let mut packed = vec![0u64; 1024 * 33 / 64];
    assert_eq!(packed.len(), 528);
    u64::unchecked_pack(33, &block, &mut packed);
    let mut unpacked = vec![0u64; 1024];
    u64::unchecked_unpack(33, &packed, &mut unpacked);
    assert_eq!(unpacked, block);
    let mut state: u64 = 0x2545F4914F6CDD1D;
    for _ in 0..256 {
        state ^= state << 13;
        state ^= state >> 7;
        state ^= state << 17;
        let i = (state % 1024) as usize;
        assert_eq!(u64::unchecked_unpack_single(33, &packed, i), block[i]);
    }
}

#[test]
fn value_too_wide_for_width_7_is_cut() {
    let mut block: Vec<u32> = (0..1024).map(|i| i % 128).collect();
    block[0] = 0xFFFFFFFF;
    let mut packed = vec![0u32; 1024 * 7 / 32];
    u32::unchecked_pack(7, &block, &mut packed);
    let mut unpacked = vec![0u32; 1024];
    u32::unchecked_unpack(7, &packed, &mut unpacked);
    assert_eq!(unpacked[0], 127);
    assert_eq!(unpacked[1..], block[1..]);
    assert_eq!(u32::unchecked_unpack_single(7, &packed, 0), 127);
}

#[test]
fn round_trip_u8_every_width() {
    round_trips_at_every_width::<u8>(11);
}

#[test]
fn round_trip_u16_every_width() {
    round_trips_at_every_width::<u16>(12);
}

#[test]
fn round_trip_u32_every_width() {
    round_trips_at_every_width::<u32>(13);
}

#[test]
fn round_trip_u64_every_width() {
    round_trips_at_every_width::<u64>(14);
}

#[test]
fn truncation_u8_every_width() {
    truncates_at_every_width::<u8>(21);
}

#[test]
fn truncation_u16_every_width() {
    truncates_at_every_width::<u16>(22);
}

#[test]
fn truncation_u32_every_width() {
    truncates_at_every_width::<u32>(23);
}

#[test]
fn truncation_u64_every_width() {
    truncates_at_every_width::<u64>(24);
}

#[test]
fn unpack_single_u8_every_width() {
    single_agrees_at_every_width::<u8>(31);
}

#[test]
fn unpack_single_u16_every_width() {
    single_agrees_at_every_width::<u16>(32);
}

#[test]
fn unpack_single_u32_every_width() {
    single_agrees_at_every_width::<u32>(33);
}

#[test]
fn unpack_single_u64_every_width() {
    single_agrees_at_every_width::<u64>(34);
}

#[test]
fn output_is_overwritten_u8() {
    packing_overwrites_the_output::<u8>(41);
}

#[test]
fn output_is_overwritten_u16() {
    packing_overwrites_the_output::<u16>(42);
}

#[test]
fn output_is_overwritten_u32() {
    packing_overwrites_the_output::<u32>(43);
}

#[test]
fn output_is_overwritten_u64() {
    packing_overwrites_the_output::<u64>(44);
}

#[test]
fn zero_width_of_every_type() {
    let mut none8: Vec<u8> = Vec::new();
    u8::unchecked_pack(0, &vec![0xFFu8; 1024], &mut none8);
    assert!(none8.is_empty());
    let mut out8 = vec![0xFFu8; 1024];
    u8::unchecked_unpack(0, &none8, &mut out8);
    assert_eq!(out8, vec![0u8; 1024]);
    assert_eq!(u8::unchecked_unpack_single(0, &none8, 1023), 0);

    let mut none16: Vec<u16> = Vec::new();
    u16::unchecked_pack(0, &vec![0xFFFFu16; 1024], &mut none16);
    assert!(none16.is_empty());
    let mut out16 = vec![0xFFFFu16; 1024];
    u16::unchecked_unpack(0, &none16, &mut out16);
    assert_eq!(out16, vec![0u16; 1024]);
    assert_eq!(u16::unchecked_unpack_single(0, &none16, 512), 0);

    let mut none64: Vec<u64> = Vec::new();
    u64::unchecked_pack(0, &vec![u64::MAX; 1024], &mut none64);
    assert!(none64.is_empty());
    let mut out64 = vec![u64::MAX; 1024];
    u64::unchecked_unpack(0, &none64, &mut out64);
    assert_eq!(out64, vec![0u64; 1024]);
    assert_eq!(u64::unchecked_unpack_single(0, &none64, 0), 0);
}

#[test]
fn whole_width_keeps_every_bit() {
    let block = vec![u64::MAX; 1024];
    let mut packed = vec![0u64; 1024];
    u64::unchecked_pack(64, &block, &mut packed);
    assert_eq!(packed, block);
    let block8: Vec<u8> = (0..1024).map(|i| (i % 251) as u8).collect();
    let mut packed8 = vec![0u8; 1024];
    u8::unchecked_pack(8, &block8, &mut packed8);
    // With one row group only, a block of bytes is its own transpose.
    assert_eq!(packed8, block8);
    for i in 0..1024 {
        assert_eq!(u8::unchecked_unpack_single(8, &packed8, i), block8[i]);
    }
}

#[test]
fn kernels_of_a_fixed_width() {
    let block: Vec<u16> = (0..1024).map(|i| (i % 32) as u16).collect();
    let mut packed = vec![0u16; 1024 * 5 / 16];
    pack_block::<u16, 5>(&block, &mut packed);
    let mut by_width = vec![0u16; 1024 * 5 / 16];
    u16::unchecked_pack(5, &block, &mut by_width);
    assert_eq!(packed, by_width);
    let mut unpacked = vec![0u16; 1024];
    unpack_block::<u16, 5>(&packed, &mut unpacked);
    assert_eq!(unpacked, block);
    assert_eq!(unpack_single::<u16>(5, &packed, 777), block[777]);
}

#[test]
fn one_bit_per_word() {
    // Width 1 of u8: word 0 of lane 0 collects bit 0 of positions 0, 128, ...,
    // 896, row 0 in the lowest bit.
    let mut block = vec![0u8; 1024];
    block[0] = 1;
    block[256] = 1;
    block[896] = 1;
    block[1] = 1;
    let mut packed = vec![0u8; 128];
    u8::unchecked_pack(1, &block, &mut packed);
    assert_eq!(packed[0], 0b1000_0101);
    assert_eq!(packed[1], 0b0000_0001);
    assert_eq!(packed[2], 0);
}
