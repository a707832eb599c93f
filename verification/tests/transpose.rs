use fastlanes::transpose::{lane_at, position, row_at};
use fastlanes::{FastLanes, FL_ORDER};

fn rows_and_lanes_cover_the_block<T: FastLanes>() {
    let mut seen = vec![false; 1024];
    for row in 0..T::T {
        for lane in 0..T::LANES {
            let i = position(row, lane);
            assert!(i < 1024);
            assert!(!seen[i], "position {} is taken twice", i);
            seen[i] = true;
            assert_eq!(row_at::<T>(i), row);
            assert_eq!(lane_at::<T>(i), lane);
        }
    }
    assert!(seen.iter().all(|&s| s));
    for i in 0..1024 {
        assert!(row_at::<T>(i) < T::T);
        assert!(lane_at::<T>(i) < T::LANES);
        assert_eq!(position(row_at::<T>(i), lane_at::<T>(i)), i);
    }
}

#[test]
fn order_of_the_row_groups() {
    assert_eq!(FL_ORDER, [0, 4, 2, 6, 1, 5, 3, 7]);
    for o in 0..8 {
        assert_eq!(FL_ORDER[FL_ORDER[o]], o);
    }
}

#[test]
fn sizes_of_the_word_types() {
    assert_eq!((<u8 as FastLanes>::T, <u8 as FastLanes>::LANES), (8, 128));
    assert_eq!((<u16 as FastLanes>::T, <u16 as FastLanes>::LANES), (16, 64));
    assert_eq!((<u32 as FastLanes>::T, <u32 as FastLanes>::LANES), (32, 32));
    assert_eq!((<u64 as FastLanes>::T, <u64 as FastLanes>::LANES), (64, 16));
}

#[test]
fn positions_of_some_rows_and_lanes() {
    assert_eq!(position(0, 0), 0);
    assert_eq!(position(0, 5), 5);
    assert_eq!(position(1, 0), 128);
    assert_eq!(position(7, 0), 896);
    assert_eq!(position(8, 0), 64);
    assert_eq!(position(9, 3), 64 + 128 + 3);
    assert_eq!(position(16, 0), 32);
    assert_eq!(position(24, 1), 97);
    assert_eq!(position(32, 0), 16);
    assert_eq!(position(63, 15), 1023);
}

#[test]
fn rows_and_lanes_of_some_positions() {
    assert_eq!((row_at::<u8>(300), lane_at::<u8>(300)), (2, 44));
    assert_eq!((row_at::<u16>(64), lane_at::<u16>(64)), (8, 0));
    assert_eq!((row_at::<u32>(97), lane_at::<u32>(97)), (24, 1));
    assert_eq!((row_at::<u64>(1023), lane_at::<u64>(1023)), (63, 15));
    assert_eq!((row_at::<u64>(16), lane_at::<u64>(16)), (32, 0));
}

#[test]
fn index_is_a_bijection_for_u8() {
    rows_and_lanes_cover_the_block::<u8>();
}

#[test]
fn index_is_a_bijection_for_u16() {
    rows_and_lanes_cover_the_block::<u16>();
}

#[test]
fn index_is_a_bijection_for_u32() {
    rows_and_lanes_cover_the_block::<u32>();
}

#[test]
fn index_is_a_bijection_for_u64() {
    rows_and_lanes_cover_the_block::<u64>();
}
