//! Packing and unpacking at a width that is known only when the program
//! runs.
//!
//! The kernels are compiled once for every width, so that each shift in them
//! is a constant. The functions here pick the kernel of the width they are
//! given.
use crate::kernels::{pack_block, unpack_block, unpack_single};
use crate::layout::{is_element, is_packed, is_unpacked, packed_len};
use crate::transpose::{lane_of, row_of};
use crate::words::lemma_word_sizes;
use crate::FastLanes;
use vstd::prelude::*;

verus! {

/// Packing of blocks of 1024 words of this type.
///
/// What `T` and `LANES` are for each of `u8`, `u16`, `u32` and `u64` is stated
/// by [`crate::words::lemma_word_sizes`].
pub trait BitPacking: FastLanes {
    /// Packs the 1024 words of `input`, `width` bits of each, into `output`.
    ///
    /// Bits of a word at position `width` or above are dropped. Every word of
    /// `output` is written; what it held before does not matter.
    fn unchecked_pack(width: usize, input: &[Self], output: &mut [Self])
        requires
            width <= Self::T,
            input.len() == 1024,
            old(output).len() == packed_len::<Self>(width as int),
        ensures
            is_packed(input@, width as int, final(output)@),
            width == 0 ==> final(output)@.len() == 0,
    ;

    /// Unpacks `input`, a block packed at `width` bits, into the 1024 words of
    /// `output`.
    ///
    /// Every word of `output` is written; what it held before does not
    /// matter.
    fn unchecked_unpack(width: usize, input: &[Self], output: &mut [Self])
        requires
            width <= Self::T,
            input.len() == packed_len::<Self>(width as int),
            old(output).len() == 1024,
        ensures
            is_unpacked(input@, width as int, final(output)@),
            width == 0 ==> forall|i: int|
                0 <= i < 1024 ==> (#[trigger] final(output)@[i]).as_nat() == 0,
    ;

    /// Reads from `input`, a block packed at `width` bits, the word that
    /// unpacking would put at position `index`.
    fn unchecked_unpack_single(width: usize, input: &[Self], index: usize) -> (value: Self)
        requires
            width <= Self::T,
            input.len() == packed_len::<Self>(width as int),
            index < 1024,
        ensures
            is_element(
                input@,
                width as int,
                row_of(Self::LANES as int, index as int),
                lane_of(Self::LANES as int, index as int),
                value,
            ),
            width == 0 ==> value.as_nat() == 0,
    ;
}

impl BitPacking for u8 {
    fn unchecked_pack(width: usize, input: &[Self], output: &mut [Self]) {
        proof {
            lemma_word_sizes();
        }
        match width {
            0 => pack_block::<u8, 0>(input, output),
            1 => pack_block::<u8, 1>(input, output),
            2 => pack_block::<u8, 2>(input, output),
            3 => pack_block::<u8, 3>(input, output),
            4 => pack_block::<u8, 4>(input, output),
            5 => pack_block::<u8, 5>(input, output),
            6 => pack_block::<u8, 6>(input, output),
            7 => pack_block::<u8, 7>(input, output),
            8 => pack_block::<u8, 8>(input, output),
            _ => vstd::pervasive::unreached(),
        }
    }

    fn unchecked_unpack(width: usize, input: &[Self], output: &mut [Self]) {
        proof {
            lemma_word_sizes();
        }
        match width {
            0 => unpack_block::<u8, 0>(input, output),
            1 => unpack_block::<u8, 1>(input, output),
            2 => unpack_block::<u8, 2>(input, output),
            3 => unpack_block::<u8, 3>(input, output),
            4 => unpack_block::<u8, 4>(input, output),
            5 => unpack_block::<u8, 5>(input, output),
            6 => unpack_block::<u8, 6>(input, output),
            7 => unpack_block::<u8, 7>(input, output),
            8 => unpack_block::<u8, 8>(input, output),
            _ => vstd::pervasive::unreached(),
        }
    }

    fn unchecked_unpack_single(width: usize, input: &[Self], index: usize) -> (value: Self) {
        unpack_single(width, input, index)
    }
}

impl BitPacking for u16 {
    fn unchecked_pack(width: usize, input: &[Self], output: &mut [Self]) {
        proof {
            lemma_word_sizes();
        }
        match width {
            0 => pack_block::<u16, 0>(input, output),
            1 => pack_block::<u16, 1>(input, output),
            2 => pack_block::<u16, 2>(input, output),
            3 => pack_block::<u16, 3>(input, output),
            4 => pack_block::<u16, 4>(input, output),
            5 => pack_block::<u16, 5>(input, output),
            6 => pack_block::<u16, 6>(input, output),
            7 => pack_block::<u16, 7>(input, output),
            8 => pack_block::<u16, 8>(input, output),
            9 => pack_block::<u16, 9>(input, output),
            10 => pack_block::<u16, 10>(input, output),
            11 => pack_block::<u16, 11>(input, output),
            12 => pack_block::<u16, 12>(input, output),
            13 => pack_block::<u16, 13>(input, output),
            14 => pack_block::<u16, 14>(input, output),
            15 => pack_block::<u16, 15>(input, output),
            16 => pack_block::<u16, 16>(input, output),
            _ => vstd::pervasive::unreached(),
        }
    }

    fn unchecked_unpack(width: usize, input: &[Self], output: &mut [Self]) {
        proof {
            lemma_word_sizes();
        }
        match width {
            0 => unpack_block::<u16, 0>(input, output),
            1 => unpack_block::<u16, 1>(input, output),
            2 => unpack_block::<u16, 2>(input, output),
            3 => unpack_block::<u16, 3>(input, output),
            4 => unpack_block::<u16, 4>(input, output),
            5 => unpack_block::<u16, 5>(input, output),
            6 => unpack_block::<u16, 6>(input, output),
            7 => unpack_block::<u16, 7>(input, output),
            8 => unpack_block::<u16, 8>(input, output),
            9 => unpack_block::<u16, 9>(input, output),
            10 => unpack_block::<u16, 10>(input, output),
            11 => unpack_block::<u16, 11>(input, output),
            12 => unpack_block::<u16, 12>(input, output),
            13 => unpack_block::<u16, 13>(input, output),
            14 => unpack_block::<u16, 14>(input, output),
            15 => unpack_block::<u16, 15>(input, output),
            16 => unpack_block::<u16, 16>(input, output),
            _ => vstd::pervasive::unreached(),
        }
    }

    fn unchecked_unpack_single(width: usize, input: &[Self], index: usize) -> (value: Self) {
        unpack_single(width, input, index)
    }
}

impl BitPacking for u32 {
    fn unchecked_pack(width: usize, input: &[Self], output: &mut [Self]) {
        proof {
            lemma_word_sizes();
        }
        match width {
            0 => pack_block::<u32, 0>(input, output),
            1 => pack_block::<u32, 1>(input, output),
            2 => pack_block::<u32, 2>(input, output),
            3 => pack_block::<u32, 3>(input, output),
            4 => pack_block::<u32, 4>(input, output),
            5 => pack_block::<u32, 5>(input, output),
            6 => pack_block::<u32, 6>(input, output),
            7 => pack_block::<u32, 7>(input, output),
            8 => pack_block::<u32, 8>(input, output),
            9 => pack_block::<u32, 9>(input, output),
            10 => pack_block::<u32, 10>(input, output),
            11 => pack_block::<u32, 11>(input, output),
            12 => pack_block::<u32, 12>(input, output),
            13 => pack_block::<u32, 13>(input, output),
            14 => pack_block::<u32, 14>(input, output),
            15 => pack_block::<u32, 15>(input, output),
            16 => pack_block::<u32, 16>(input, output),
            17 => pack_block::<u32, 17>(input, output),
            18 => pack_block::<u32, 18>(input, output),
            19 => pack_block::<u32, 19>(input, output),
            20 => pack_block::<u32, 20>(input, output),
            21 => pack_block::<u32, 21>(input, output),
            22 => pack_block::<u32, 22>(input, output),
            23 => pack_block::<u32, 23>(input, output),
            24 => pack_block::<u32, 24>(input, output),
            25 => pack_block::<u32, 25>(input, output),
            26 => pack_block::<u32, 26>(input, output),
            27 => pack_block::<u32, 27>(input, output),
            28 => pack_block::<u32, 28>(input, output),
            29 => pack_block::<u32, 29>(input, output),
            30 => pack_block::<u32, 30>(input, output),
            31 => pack_block::<u32, 31>(input, output),
            32 => pack_block::<u32, 32>(input, output),
            _ => vstd::pervasive::unreached(),
        }
    }

    fn unchecked_unpack(width: usize, input: &[Self], output: &mut [Self]) {
        proof {
            lemma_word_sizes();
        }
        match width {
            0 => unpack_block::<u32, 0>(input, output),
            1 => unpack_block::<u32, 1>(input, output),
            2 => unpack_block::<u32, 2>(input, output),
            3 => unpack_block::<u32, 3>(input, output),
            4 => unpack_block::<u32, 4>(input, output),
            5 => unpack_block::<u32, 5>(input, output),
            6 => unpack_block::<u32, 6>(input, output),
            7 => unpack_block::<u32, 7>(input, output),
            8 => unpack_block::<u32, 8>(input, output),
            9 => unpack_block::<u32, 9>(input, output),
            10 => unpack_block::<u32, 10>(input, output),
            11 => unpack_block::<u32, 11>(input, output),
            12 => unpack_block::<u32, 12>(input, output),
            13 => unpack_block::<u32, 13>(input, output),
            14 => unpack_block::<u32, 14>(input, output),
            15 => unpack_block::<u32, 15>(input, output),
            16 => unpack_block::<u32, 16>(input, output),
            17 => unpack_block::<u32, 17>(input, output),
            18 => unpack_block::<u32, 18>(input, output),
            19 => unpack_block::<u32, 19>(input, output),
            20 => unpack_block::<u32, 20>(input, output),
            21 => unpack_block::<u32, 21>(input, output),
            22 => unpack_block::<u32, 22>(input, output),
            23 => unpack_block::<u32, 23>(input, output),
            24 => unpack_block::<u32, 24>(input, output),
            25 => unpack_block::<u32, 25>(input, output),
            26 => unpack_block::<u32, 26>(input, output),
            27 => unpack_block::<u32, 27>(input, output),
            28 => unpack_block::<u32, 28>(input, output),
            29 => unpack_block::<u32, 29>(input, output),
            30 => unpack_block::<u32, 30>(input, output),
            31 => unpack_block::<u32, 31>(input, output),
            32 => unpack_block::<u32, 32>(input, output),
            _ => vstd::pervasive::unreached(),
        }
    }

    fn unchecked_unpack_single(width: usize, input: &[Self], index: usize) -> (value: Self) {
        unpack_single(width, input, index)
    }
}

impl BitPacking for u64 {
    fn unchecked_pack(width: usize, input: &[Self], output: &mut [Self]) {
        proof {
            lemma_word_sizes();
        }
        match width {
            0 => pack_block::<u64, 0>(input, output),
            1 => pack_block::<u64, 1>(input, output),
            2 => pack_block::<u64, 2>(input, output),
            3 => pack_block::<u64, 3>(input, output),
            4 => pack_block::<u64, 4>(input, output),
            5 => pack_block::<u64, 5>(input, output),
            6 => pack_block::<u64, 6>(input, output),
            7 => pack_block::<u64, 7>(input, output),
            8 => pack_block::<u64, 8>(input, output),
            9 => pack_block::<u64, 9>(input, output),
            10 => pack_block::<u64, 10>(input, output),
            11 => pack_block::<u64, 11>(input, output),
            12 => pack_block::<u64, 12>(input, output),
            13 => pack_block::<u64, 13>(input, output),
            14 => pack_block::<u64, 14>(input, output),
            15 => pack_block::<u64, 15>(input, output),
            16 => pack_block::<u64, 16>(input, output),
            17 => pack_block::<u64, 17>(input, output),
            18 => pack_block::<u64, 18>(input, output),
            19 => pack_block::<u64, 19>(input, output),
            20 => pack_block::<u64, 20>(input, output),
            21 => pack_block::<u64, 21>(input, output),
            22 => pack_block::<u64, 22>(input, output),
            23 => pack_block::<u64, 23>(input, output),
            24 => pack_block::<u64, 24>(input, output),
            25 => pack_block::<u64, 25>(input, output),
            26 => pack_block::<u64, 26>(input, output),
            27 => pack_block::<u64, 27>(input, output),
            28 => pack_block::<u64, 28>(input, output),
            29 => pack_block::<u64, 29>(input, output),
            30 => pack_block::<u64, 30>(input, output),
            31 => pack_block::<u64, 31>(input, output),
            32 => pack_block::<u64, 32>(input, output),
            33 => pack_block::<u64, 33>(input, output),
            34 => pack_block::<u64, 34>(input, output),
            35 => pack_block::<u64, 35>(input, output),
            36 => pack_block::<u64, 36>(input, output),
            37 => pack_block::<u64, 37>(input, output),
            38 => pack_block::<u64, 38>(input, output),
            39 => pack_block::<u64, 39>(input, output),
            40 => pack_block::<u64, 40>(input, output),
            41 => pack_block::<u64, 41>(input, output),
            42 => pack_block::<u64, 42>(input, output),
            43 => pack_block::<u64, 43>(input, output),
            44 => pack_block::<u64, 44>(input, output),
            45 => pack_block::<u64, 45>(input, output),
            46 => pack_block::<u64, 46>(input, output),
            47 => pack_block::<u64, 47>(input, output),
            48 => pack_block::<u64, 48>(input, output),
            49 => pack_block::<u64, 49>(input, output),
            50 => pack_block::<u64, 50>(input, output),
            51 => pack_block::<u64, 51>(input, output),
            52 => pack_block::<u64, 52>(input, output),
            53 => pack_block::<u64, 53>(input, output),
            54 => pack_block::<u64, 54>(input, output),
            55 => pack_block::<u64, 55>(input, output),
            56 => pack_block::<u64, 56>(input, output),
            57 => pack_block::<u64, 57>(input, output),
            58 => pack_block::<u64, 58>(input, output),
            59 => pack_block::<u64, 59>(input, output),
            60 => pack_block::<u64, 60>(input, output),
            61 => pack_block::<u64, 61>(input, output),
            62 => pack_block::<u64, 62>(input, output),
            63 => pack_block::<u64, 63>(input, output),
            64 => pack_block::<u64, 64>(input, output),
            _ => vstd::pervasive::unreached(),
        }
    }

    fn unchecked_unpack(width: usize, input: &[Self], output: &mut [Self]) {
        proof {
            lemma_word_sizes();
        }
        match width {
            0 => unpack_block::<u64, 0>(input, output),
            1 => unpack_block::<u64, 1>(input, output),
            2 => unpack_block::<u64, 2>(input, output),
            3 => unpack_block::<u64, 3>(input, output),
            4 => unpack_block::<u64, 4>(input, output),
            5 => unpack_block::<u64, 5>(input, output),
            6 => unpack_block::<u64, 6>(input, output),
            7 => unpack_block::<u64, 7>(input, output),
            8 => unpack_block::<u64, 8>(input, output),
            9 => unpack_block::<u64, 9>(input, output),
            10 => unpack_block::<u64, 10>(input, output),
            11 => unpack_block::<u64, 11>(input, output),
            12 => unpack_block::<u64, 12>(input, output),
            13 => unpack_block::<u64, 13>(input, output),
            14 => unpack_block::<u64, 14>(input, output),
            15 => unpack_block::<u64, 15>(input, output),
            16 => unpack_block::<u64, 16>(input, output),
            17 => unpack_block::<u64, 17>(input, output),
            18 => unpack_block::<u64, 18>(input, output),
            19 => unpack_block::<u64, 19>(input, output),
            20 => unpack_block::<u64, 20>(input, output),
            21 => unpack_block::<u64, 21>(input, output),
            22 => unpack_block::<u64, 22>(input, output),
            23 => unpack_block::<u64, 23>(input, output),
            24 => unpack_block::<u64, 24>(input, output),
            25 => unpack_block::<u64, 25>(input, output),
            26 => unpack_block::<u64, 26>(input, output),
            27 => unpack_block::<u64, 27>(input, output),
            28 => unpack_block::<u64, 28>(input, output),
            29 => unpack_block::<u64, 29>(input, output),
            30 => unpack_block::<u64, 30>(input, output),
            31 => unpack_block::<u64, 31>(input, output),
            32 => unpack_block::<u64, 32>(input, output),
            33 => unpack_block::<u64, 33>(input, output),
            34 => unpack_block::<u64, 34>(input, output),
            35 => unpack_block::<u64, 35>(input, output),
            36 => unpack_block::<u64, 36>(input, output),
            37 => unpack_block::<u64, 37>(input, output),
            38 => unpack_block::<u64, 38>(input, output),
            39 => unpack_block::<u64, 39>(input, output),
            40 => unpack_block::<u64, 40>(input, output),
            41 => unpack_block::<u64, 41>(input, output),
            42 => unpack_block::<u64, 42>(input, output),
            43 => unpack_block::<u64, 43>(input, output),
            44 => unpack_block::<u64, 44>(input, output),
            45 => unpack_block::<u64, 45>(input, output),
            46 => unpack_block::<u64, 46>(input, output),
            47 => unpack_block::<u64, 47>(input, output),
            48 => unpack_block::<u64, 48>(input, output),
            49 => unpack_block::<u64, 49>(input, output),
            50 => unpack_block::<u64, 50>(input, output),
            51 => unpack_block::<u64, 51>(input, output),
            52 => unpack_block::<u64, 52>(input, output),
            53 => unpack_block::<u64, 53>(input, output),
            54 => unpack_block::<u64, 54>(input, output),
            55 => unpack_block::<u64, 55>(input, output),
            56 => unpack_block::<u64, 56>(input, output),
            57 => unpack_block::<u64, 57>(input, output),
            58 => unpack_block::<u64, 58>(input, output),
            59 => unpack_block::<u64, 59>(input, output),
            60 => unpack_block::<u64, 60>(input, output),
            61 => unpack_block::<u64, 61>(input, output),
            62 => unpack_block::<u64, 62>(input, output),
            63 => unpack_block::<u64, 63>(input, output),
            64 => unpack_block::<u64, 64>(input, output),
            _ => vstd::pervasive::unreached(),
        }
    }

    fn unchecked_unpack_single(width: usize, input: &[Self], index: usize) -> (value: Self) {
        unpack_single(width, input, index)
    }
}

} // verus!
