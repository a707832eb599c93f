//! Bit-packing of blocks of 1024 unsigned integers in a transposed layout.
//!
//! A block holds 1024 words of one unsigned type of `T` bits. Packing at
//! width `W` keeps the `W` low bits of every word and stores them in
//! `1024 * W / T` words. The block is split into `1024 / T` lanes; each lane
//! packs its `T` rows one after the other into `W` words of its own, and the
//! words of the lanes are interleaved, so that a loop over the lanes touches
//! neighbouring words.
//!
//! * [`BitPacking`] packs, unpacks and reads single words at a width given
//!   when the program runs; [`kernels`] does so at a width given when it is
//!   compiled.
//! * [`layout`] says what a packed block holds, and [`transpose`] where the
//!   rows and lanes of a block lie.
//! * [`laws`] shows that unpacking undoes packing, and what else follows.
//! * [`bits`] and [`words`] are the ground under these: numbers as strings of
//!   bits, and the four word types.
use vstd::prelude::*;

pub mod bitpacking;
pub mod bits;
pub mod kernels;
pub mod laws;
pub mod layout;
pub mod transpose;
pub mod words;

pub use bitpacking::BitPacking;
pub use transpose::FL_ORDER;

verus! {

/// The sizes in bits of the word types that a block can be made of, each with
/// the number of lanes that a block of such words has.
pub open spec fn supported(t: int, lanes: int) -> bool {
    ||| t == 8 && lanes == 128
    ||| t == 16 && lanes == 64
    ||| t == 32 && lanes == 32
    ||| t == 64 && lanes == 16
}

/// An unsigned word type that blocks are made of.
///
/// Besides its size the type offers the few operations on bits that packing
/// needs. Each is stated bit by bit over [`bits::bit`], of the number that a
/// word stands for. The sizes of `u8`, `u16`, `u32` and `u64` are stated by
/// [`words::lemma_word_sizes`].
pub trait FastLanes: Sized + Copy {
    /// Number of bits of the type.
    const T: usize;

    /// Number of lanes of a block: `1024 / T`.
    const LANES: usize;

    /// The number that the word stands for.
    spec fn as_nat(self) -> nat;

    /// The size is one of the supported ones.
    proof fn lemma_supported()
        ensures
            supported(Self::T as int, Self::LANES as int),
    ;

    /// A word is a number of `T` bits.
    proof fn lemma_as_nat_fits(self)
        ensures
            bits::fits(self.as_nat(), Self::T as int),
    ;

    /// Two words that stand for the same number are the same word.
    proof fn lemma_as_nat_unique(self, other: Self)
        requires
            self.as_nat() == other.as_nat(),
        ensures
            self == other,
    ;

    /// The word with no bit set.
    fn zero() -> (r: Self)
        ensures
            r.as_nat() == 0,
    ;

    /// The word that keeps the `n` low bits of `self`.
    fn low_bits(self, n: usize) -> (r: Self)
        requires
            n <= Self::T,
        ensures
            forall|k: int| #[trigger]
                bits::bit(r.as_nat(), k) == (k < n && bits::bit(self.as_nat(), k)),
    ;

    /// The word whose bit `k` is bit `k - n` of `self`; the `n` high bits of
    /// `self` are lost.
    fn shift_left(self, n: usize) -> (r: Self)
        requires
            n < Self::T,
        ensures
            forall|k: int| #[trigger]
                bits::bit(r.as_nat(), k) == (n <= k < Self::T && bits::bit(self.as_nat(), k - n)),
    ;

    /// The word whose bit `k` is bit `k + n` of `self`; the `n` low bits of
    /// `self` are lost.
    fn shift_right(self, n: usize) -> (r: Self)
        requires
            n < Self::T,
        ensures
            forall|k: int| #[trigger]
                bits::bit(r.as_nat(), k) == (0 <= k && bits::bit(self.as_nat(), k + n)),
    ;

    /// The word that has the bits of `self` and those of `other`.
    fn bit_or(self, other: Self) -> (r: Self)
        ensures
            forall|k: int| #[trigger]
                bits::bit(r.as_nat(), k) == (bits::bit(self.as_nat(), k) || bits::bit(
                    other.as_nat(),
                    k,
                )),
    ;
}

/// A condition on constants, known when the program is compiled.
pub struct Pred<const B: bool>;

/// Implemented by [`Pred`] of a condition that holds.
pub trait Satisfied {
}

impl Satisfied for Pred<true> {
}

} // verus!
