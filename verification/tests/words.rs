use fastlanes::{FastLanes, Pred, Satisfied};

fn holds<P: Satisfied>(_: P) -> bool {
    true
}

#[test]
fn zero_has_no_bit() {
    assert_eq!(<u8 as FastLanes>::zero(), 0);
    assert_eq!(<u16 as FastLanes>::zero(), 0);
    assert_eq!(<u32 as FastLanes>::zero(), 0);
    assert_eq!(<u64 as FastLanes>::zero(), 0);
}

#[test]
fn low_bits_keeps_the_low_bits() {
    assert_eq!(FastLanes::low_bits(0xABu8, 4), 0x0B);
    assert_eq!(FastLanes::low_bits(0xABu8, 0), 0);
    assert_eq!(FastLanes::low_bits(0xABu8, 8), 0xAB);
    assert_eq!(FastLanes::low_bits(0xFFFFu16, 3), 7);
    assert_eq!(FastLanes::low_bits(0xFFFFu16, 16), 0xFFFF);
    assert_eq!(FastLanes::low_bits(0xFFFF_FFFFu32, 7), 127);
    assert_eq!(FastLanes::low_bits(0xFFFF_FFFFu32, 32), 0xFFFF_FFFF);
    assert_eq!(FastLanes::low_bits(u64::MAX, 33), (1u64 << 33) - 1);
    assert_eq!(FastLanes::low_bits(u64::MAX, 63), u64::MAX >> 1);
    assert_eq!(FastLanes::low_bits(u64::MAX, 64), u64::MAX);
}

#[test]
fn shift_left_drops_the_high_bits() {
    assert_eq!(FastLanes::shift_left(0x81u8, 1), 0x02);
    assert_eq!(FastLanes::shift_left(0x81u8, 0), 0x81);
    assert_eq!(FastLanes::shift_left(0x01u8, 7), 0x80);
    assert_eq!(FastLanes::shift_left(0x8001u16, 15), 0x8000);
    assert_eq!(FastLanes::shift_left(0xF000_000Fu32, 4), 0x0000_00F0);
    assert_eq!(FastLanes::shift_left(3u64, 63), 1u64 << 63);
}

#[test]
fn shift_right_drops_the_low_bits() {
    assert_eq!(FastLanes::shift_right(0x81u8, 1), 0x40);
    assert_eq!(FastLanes::shift_right(0x81u8, 0), 0x81);
    assert_eq!(FastLanes::shift_right(0x80u8, 7), 1);
    assert_eq!(FastLanes::shift_right(0x8001u16, 15), 1);
    assert_eq!(FastLanes::shift_right(0xF000_000Fu32, 4), 0x0F00_0000);
    assert_eq!(FastLanes::shift_right(u64::MAX, 63), 1);
}

#[test]
fn bit_or_joins_the_bits() {
    assert_eq!(FastLanes::bit_or(0x0Fu8, 0x81), 0x8F);
    assert_eq!(FastLanes::bit_or(0x0F00u16, 0x00F1), 0x0FF1);
    assert_eq!(FastLanes::bit_or(0x8000_0000u32, 1), 0x8000_0001);
    assert_eq!(FastLanes::bit_or(0u64, u64::MAX), u64::MAX);
}

#[test]
fn a_condition_that_holds_is_satisfied() {
    assert!(holds(Pred::<true>));
    assert_eq!(std::mem::size_of::<Pred<false>>(), 0);
}
