//! The four word types: `u8`, `u16`, `u32` and `u64`.
//!
//! Each operation is the machine's own. What it does to the bits is shown
//! with the bit-vector solver and carried over to [`bit`] by one lemma for
//! each type.
use crate::bits::{bit, lemma_bit_above};
use crate::FastLanes;
use vstd::arithmetic::power2::lemma2_to64;
use vstd::prelude::*;

verus! {

/// Bit `k` of a `u8`, by shifting and masking.
proof fn lemma_bit_u8(x: u8, k: u8)
    requires
        k < 8,
    ensures
        bit(x as nat, k as int) == ((x >> k) & 1 == 1),
{
    reveal(bit);
    vstd::bits::lemma_u8_shr_is_div(x, k);
    let y = x >> k;
    assert(y & 1 == y % 2) by (bit_vector);
}

impl FastLanes for u8 {
    const T: usize = 8;

    const LANES: usize = 128;

    open spec fn as_nat(self) -> nat {
        self as nat
    }

    proof fn lemma_supported() {
    }

    proof fn lemma_as_nat_fits(self) {
        lemma2_to64();
    }

    proof fn lemma_as_nat_unique(self, other: Self) {
    }

    fn zero() -> (r: Self) {
        0
    }

    fn low_bits(self, n: usize) -> (r: Self) {
        if n >= 8 {
            proof {
                self.lemma_as_nat_fits();
                assert forall|k: int| #[trigger]
                    bit(self.as_nat(), k) == (k < n && bit(self.as_nat(), k)) by {
                    if k >= 8 {
                        lemma_bit_above(self.as_nat(), 8, k);
                    }
                }
            }
            self
        } else {
            let s = n as u8;
            assert(1u8 << s >= 1) by (bit_vector)
                requires
                    s < 8,
            ;
            let mask = (1u8 << s) - 1;
            let r = self & mask;
            proof {
                r.lemma_as_nat_fits();
                assert forall|k: int| #[trigger]
                    bit(r.as_nat(), k) == (k < n && bit(self.as_nat(), k)) by {
                    if 0 <= k < 8 {
                        let j = k as u8;
                        lemma_bit_u8(r, j);
                        lemma_bit_u8(self, j);
                        assert(((self & mask) >> j) & 1 == (if j < s {
                            (self >> j) & 1
                        } else {
                            0
                        })) by (bit_vector)
                            requires
                                s < 8,
                                j < 8,
                                mask == (1u8 << s) - 1,
                        ;
                    } else if k >= 8 {
                        lemma_bit_above(r.as_nat(), 8, k);
                    } else {
                        reveal(bit);
                    }
                }
            }
            r
        }
    }

    fn shift_left(self, n: usize) -> (r: Self) {
        let r = self << n;
        proof {
            r.lemma_as_nat_fits();
            let s = n as u8;
            assert forall|k: int| #[trigger]
                bit(r.as_nat(), k) == (n <= k < 8 && bit(self.as_nat(), k - n)) by {
                if 0 <= k < 8 {
                    let j = k as u8;
                    let d = if s <= j {
                        (j - s) as u8
                    } else {
                        0
                    };
                    lemma_bit_u8(r, j);
                    lemma_bit_u8(self, d);
                    assert(((self << s) >> j) & 1 == (if s <= j {
                        (self >> d) & 1
                    } else {
                        0
                    })) by (bit_vector)
                        requires
                            j < 8,
                            s < 8,
                            s <= j ==> d == j - s,
                    ;
                } else if k >= 8 {
                    lemma_bit_above(r.as_nat(), 8, k);
                } else {
                    reveal(bit);
                }
            }
        }
        r
    }

    fn shift_right(self, n: usize) -> (r: Self) {
        let r = self >> n;
        proof {
            r.lemma_as_nat_fits();
            self.lemma_as_nat_fits();
            let s = n as u8;
            assert forall|k: int| #[trigger]
                bit(r.as_nat(), k) == (0 <= k && bit(self.as_nat(), k + n)) by {
                if 0 <= k < 8 {
                    let j = k as u8;
                    let d = if k + n < 8 {
                        (j + s) as u8
                    } else {
                        0
                    };
                    lemma_bit_u8(r, j);
                    lemma_bit_u8(self, d);
                    if k + n >= 8 {
                        lemma_bit_above(self.as_nat(), 8, k + n);
                    }
                    assert(((self >> s) >> j) & 1 == (if j + s < 8 {
                        (self >> d) & 1
                    } else {
                        0
                    })) by (bit_vector)
                        requires
                            j < 8,
                            s < 8,
                            j + s < 8 ==> d == j + s,
                    ;
                } else if k >= 8 {
                    lemma_bit_above(r.as_nat(), 8, k);
                    lemma_bit_above(self.as_nat(), 8, k + n);
                } else {
                    reveal(bit);
                }
            }
        }
        r
    }

    fn bit_or(self, other: Self) -> (r: Self) {
        let r = self | other;
        proof {
            r.lemma_as_nat_fits();
            self.lemma_as_nat_fits();
            other.lemma_as_nat_fits();
            assert forall|k: int| #[trigger]
                bit(r.as_nat(), k) == (bit(self.as_nat(), k) || bit(other.as_nat(), k)) by {
                if 0 <= k < 8 {
                    let j = k as u8;
                    lemma_bit_u8(r, j);
                    lemma_bit_u8(self, j);
                    lemma_bit_u8(other, j);
                    assert((((self | other) >> j) & 1 == 1) == (((self >> j) & 1 == 1) || ((other
                        >> j) & 1 == 1))) by (bit_vector);
                } else if k >= 8 {
                    lemma_bit_above(r.as_nat(), 8, k);
                    lemma_bit_above(self.as_nat(), 8, k);
                    lemma_bit_above(other.as_nat(), 8, k);
                } else {
                    reveal(bit);
                }
            }
        }
        r
    }
}

/// Bit `k` of a `u16`, by shifting and masking.
proof fn lemma_bit_u16(x: u16, k: u16)
    requires
        k < 16,
    ensures
        bit(x as nat, k as int) == ((x >> k) & 1 == 1),
{
    reveal(bit);
    vstd::bits::lemma_u16_shr_is_div(x, k);
    let y = x >> k;
    assert(y & 1 == y % 2) by (bit_vector);
}

impl FastLanes for u16 {
    const T: usize = 16;

    const LANES: usize = 64;

    open spec fn as_nat(self) -> nat {
        self as nat
    }

    proof fn lemma_supported() {
    }

    proof fn lemma_as_nat_fits(self) {
        lemma2_to64();
    }

    proof fn lemma_as_nat_unique(self, other: Self) {
    }

    fn zero() -> (r: Self) {
        0
    }

    fn low_bits(self, n: usize) -> (r: Self) {
        if n >= 16 {
            proof {
                self.lemma_as_nat_fits();
                assert forall|k: int| #[trigger]
                    bit(self.as_nat(), k) == (k < n && bit(self.as_nat(), k)) by {
                    if k >= 16 {
                        lemma_bit_above(self.as_nat(), 16, k);
                    }
                }
            }
            self
        } else {
            let s = n as u16;
            assert(1u16 << s >= 1) by (bit_vector)
                requires
                    s < 16,
            ;
            let mask = (1u16 << s) - 1;
            let r = self & mask;
            proof {
                r.lemma_as_nat_fits();
                assert forall|k: int| #[trigger]
                    bit(r.as_nat(), k) == (k < n && bit(self.as_nat(), k)) by {
                    if 0 <= k < 16 {
                        let j = k as u16;
                        lemma_bit_u16(r, j);
                        lemma_bit_u16(self, j);
                        assert(((self & mask) >> j) & 1 == (if j < s {
                            (self >> j) & 1
                        } else {
                            0
                        })) by (bit_vector)
                            requires
                                s < 16,
                                j < 16,
                                mask == (1u16 << s) - 1,
                        ;
                    } else if k >= 16 {
                        lemma_bit_above(r.as_nat(), 16, k);
                    } else {
                        reveal(bit);
                    }
                }
            }
            r
        }
    }

    fn shift_left(self, n: usize) -> (r: Self) {
        let r = self << n;
        proof {
            r.lemma_as_nat_fits();
            let s = n as u16;
            assert forall|k: int| #[trigger]
                bit(r.as_nat(), k) == (n <= k < 16 && bit(self.as_nat(), k - n)) by {
                if 0 <= k < 16 {
                    let j = k as u16;
                    let d = if s <= j {
                        (j - s) as u16
                    } else {
                        0
                    };
                    lemma_bit_u16(r, j);
                    lemma_bit_u16(self, d);
                    assert(((self << s) >> j) & 1 == (if s <= j {
                        (self >> d) & 1
                    } else {
                        0
                    })) by (bit_vector)
                        requires
                            j < 16,
                            s < 16,
                            s <= j ==> d == j - s,
                    ;
                } else if k >= 16 {
                    lemma_bit_above(r.as_nat(), 16, k);
                } else {
                    reveal(bit);
                }
            }
        }
        r
    }

    fn shift_right(self, n: usize) -> (r: Self) {
        let r = self >> n;
        proof {
            r.lemma_as_nat_fits();
            self.lemma_as_nat_fits();
            let s = n as u16;
            assert forall|k: int| #[trigger]
                bit(r.as_nat(), k) == (0 <= k && bit(self.as_nat(), k + n)) by {
                if 0 <= k < 16 {
                    let j = k as u16;
                    let d = if k + n < 16 {
                        (j + s) as u16
                    } else {
                        0
                    };
                    lemma_bit_u16(r, j);
                    lemma_bit_u16(self, d);
                    if k + n >= 16 {
                        lemma_bit_above(self.as_nat(), 16, k + n);
                    }
                    assert(((self >> s) >> j) & 1 == (if j + s < 16 {
                        (self >> d) & 1
                    } else {
                        0
                    })) by (bit_vector)
                        requires
                            j < 16,
                            s < 16,
                            j + s < 16 ==> d == j + s,
                    ;
                } else if k >= 16 {
                    lemma_bit_above(r.as_nat(), 16, k);
                    lemma_bit_above(self.as_nat(), 16, k + n);
                } else {
                    reveal(bit);
                }
            }
        }
        r
    }

    fn bit_or(self, other: Self) -> (r: Self) {
        let r = self | other;
        proof {
            r.lemma_as_nat_fits();
            self.lemma_as_nat_fits();
            other.lemma_as_nat_fits();
            assert forall|k: int| #[trigger]
                bit(r.as_nat(), k) == (bit(self.as_nat(), k) || bit(other.as_nat(), k)) by {
                if 0 <= k < 16 {
                    let j = k as u16;
                    lemma_bit_u16(r, j);
                    lemma_bit_u16(self, j);
                    lemma_bit_u16(other, j);
                    assert((((self | other) >> j) & 1 == 1) == (((self >> j) & 1 == 1) || ((other
                        >> j) & 1 == 1))) by (bit_vector);
                } else if k >= 16 {
                    lemma_bit_above(r.as_nat(), 16, k);
                    lemma_bit_above(self.as_nat(), 16, k);
                    lemma_bit_above(other.as_nat(), 16, k);
                } else {
                    reveal(bit);
                }
            }
        }
        r
    }
}

/// Bit `k` of a `u32`, by shifting and masking.
proof fn lemma_bit_u32(x: u32, k: u32)
    requires
        k < 32,
    ensures
        bit(x as nat, k as int) == ((x >> k) & 1 == 1),
{
    reveal(bit);
    vstd::bits::lemma_u32_shr_is_div(x, k);
    let y = x >> k;
    assert(y & 1 == y % 2) by (bit_vector);
}

impl FastLanes for u32 {
    const T: usize = 32;

    const LANES: usize = 32;

    open spec fn as_nat(self) -> nat {
        self as nat
    }

    proof fn lemma_supported() {
    }

    proof fn lemma_as_nat_fits(self) {
        lemma2_to64();
    }

    proof fn lemma_as_nat_unique(self, other: Self) {
    }

    fn zero() -> (r: Self) {
        0
    }

    fn low_bits(self, n: usize) -> (r: Self) {
        if n >= 32 {
            proof {
                self.lemma_as_nat_fits();
                assert forall|k: int| #[trigger]
                    bit(self.as_nat(), k) == (k < n && bit(self.as_nat(), k)) by {
                    if k >= 32 {
                        lemma_bit_above(self.as_nat(), 32, k);
                    }
                }
            }
            self
        } else {
            let s = n as u32;
            assert(1u32 << s >= 1) by (bit_vector)
                requires
                    s < 32,
            ;
            let mask = (1u32 << s) - 1;
            let r = self & mask;
            proof {
                r.lemma_as_nat_fits();
                assert forall|k: int| #[trigger]
                    bit(r.as_nat(), k) == (k < n && bit(self.as_nat(), k)) by {
                    if 0 <= k < 32 {
                        let j = k as u32;
                        lemma_bit_u32(r, j);
                        lemma_bit_u32(self, j);
                        assert(((self & mask) >> j) & 1 == (if j < s {
                            (self >> j) & 1
                        } else {
                            0
                        })) by (bit_vector)
                            requires
                                s < 32,
                                j < 32,
                                mask == (1u32 << s) - 1,
                        ;
                    } else if k >= 32 {
                        lemma_bit_above(r.as_nat(), 32, k);
                    } else {
                        reveal(bit);
                    }
                }
            }
            r
        }
    }

    fn shift_left(self, n: usize) -> (r: Self) {
        let r = self << n;
        proof {
            r.lemma_as_nat_fits();
            let s = n as u32;
            assert forall|k: int| #[trigger]
                bit(r.as_nat(), k) == (n <= k < 32 && bit(self.as_nat(), k - n)) by {
                if 0 <= k < 32 {
                    let j = k as u32;
                    let d = if s <= j {
                        (j - s) as u32
                    } else {
                        0
                    };
                    lemma_bit_u32(r, j);
                    lemma_bit_u32(self, d);
                    assert(((self << s) >> j) & 1 == (if s <= j {
                        (self >> d) & 1
                    } else {
                        0
                    })) by (bit_vector)
                        requires
                            j < 32,
                            s < 32,
                            s <= j ==> d == j - s,
                    ;
                } else if k >= 32 {
                    lemma_bit_above(r.as_nat(), 32, k);
                } else {
                    reveal(bit);
                }
            }
        }
        r
    }

    fn shift_right(self, n: usize) -> (r: Self) {
        let r = self >> n;
        proof {
            r.lemma_as_nat_fits();
            self.lemma_as_nat_fits();
            let s = n as u32;
            assert forall|k: int| #[trigger]
                bit(r.as_nat(), k) == (0 <= k && bit(self.as_nat(), k + n)) by {
                if 0 <= k < 32 {
                    let j = k as u32;
                    let d = if k + n < 32 {
                        (j + s) as u32
                    } else {
                        0
                    };
                    lemma_bit_u32(r, j);
                    lemma_bit_u32(self, d);
                    if k + n >= 32 {
                        lemma_bit_above(self.as_nat(), 32, k + n);
                    }
                    assert(((self >> s) >> j) & 1 == (if j + s < 32 {
                        (self >> d) & 1
                    } else {
                        0
                    })) by (bit_vector)
                        requires
                            j < 32,
                            s < 32,
                            j + s < 32 ==> d == j + s,
                    ;
                } else if k >= 32 {
                    lemma_bit_above(r.as_nat(), 32, k);
                    lemma_bit_above(self.as_nat(), 32, k + n);
                } else {
                    reveal(bit);
                }
            }
        }
        r
    }

    fn bit_or(self, other: Self) -> (r: Self) {
        let r = self | other;
        proof {
            r.lemma_as_nat_fits();
            self.lemma_as_nat_fits();
            other.lemma_as_nat_fits();
            assert forall|k: int| #[trigger]
                bit(r.as_nat(), k) == (bit(self.as_nat(), k) || bit(other.as_nat(), k)) by {
                if 0 <= k < 32 {
                    let j = k as u32;
                    lemma_bit_u32(r, j);
                    lemma_bit_u32(self, j);
                    lemma_bit_u32(other, j);
                    assert((((self | other) >> j) & 1 == 1) == (((self >> j) & 1 == 1) || ((other
                        >> j) & 1 == 1))) by (bit_vector);
                } else if k >= 32 {
                    lemma_bit_above(r.as_nat(), 32, k);
                    lemma_bit_above(self.as_nat(), 32, k);
                    lemma_bit_above(other.as_nat(), 32, k);
                } else {
                    reveal(bit);
                }
            }
        }
        r
    }
}

/// Bit `k` of a `u64`, by shifting and masking.
proof fn lemma_bit_u64(x: u64, k: u64)
    requires
        k < 64,
    ensures
        bit(x as nat, k as int) == ((x >> k) & 1 == 1),
{
    reveal(bit);
    vstd::bits::lemma_u64_shr_is_div(x, k);
    let y = x >> k;
    assert(y & 1 == y % 2) by (bit_vector);
}

impl FastLanes for u64 {
    const T: usize = 64;

    const LANES: usize = 16;

    open spec fn as_nat(self) -> nat {
        self as nat
    }

    proof fn lemma_supported() {
    }

    proof fn lemma_as_nat_fits(self) {
        lemma2_to64();
    }

    proof fn lemma_as_nat_unique(self, other: Self) {
    }

    fn zero() -> (r: Self) {
        0
    }

    fn low_bits(self, n: usize) -> (r: Self) {
        if n >= 64 {
            proof {
                self.lemma_as_nat_fits();
                assert forall|k: int| #[trigger]
                    bit(self.as_nat(), k) == (k < n && bit(self.as_nat(), k)) by {
                    if k >= 64 {
                        lemma_bit_above(self.as_nat(), 64, k);
                    }
                }
            }
            self
        } else {
            let s = n as u64;
            assert(1u64 << s >= 1) by (bit_vector)
                requires
                    s < 64,
            ;
            let mask = (1u64 << s) - 1;
            let r = self & mask;
            proof {
                r.lemma_as_nat_fits();
                assert forall|k: int| #[trigger]
                    bit(r.as_nat(), k) == (k < n && bit(self.as_nat(), k)) by {
                    if 0 <= k < 64 {
                        let j = k as u64;
                        lemma_bit_u64(r, j);
                        lemma_bit_u64(self, j);
                        assert(((self & mask) >> j) & 1 == (if j < s {
                            (self >> j) & 1
                        } else {
                            0
                        })) by (bit_vector)
                            requires
                                s < 64,
                                j < 64,
                                mask == (1u64 << s) - 1,
                        ;
                    } else if k >= 64 {
                        lemma_bit_above(r.as_nat(), 64, k);
                    } else {
                        reveal(bit);
                    }
                }
            }
            r
        }
    }

    fn shift_left(self, n: usize) -> (r: Self) {
        let r = self << n;
        proof {
            r.lemma_as_nat_fits();
            let s = n as u64;
            assert forall|k: int| #[trigger]
                bit(r.as_nat(), k) == (n <= k < 64 && bit(self.as_nat(), k - n)) by {
                if 0 <= k < 64 {
                    let j = k as u64;
                    let d = if s <= j {
                        (j - s) as u64
                    } else {
                        0
                    };
                    lemma_bit_u64(r, j);
                    lemma_bit_u64(self, d);
                    assert(((self << s) >> j) & 1 == (if s <= j {
                        (self >> d) & 1
                    } else {
                        0
                    })) by (bit_vector)
                        requires
                            j < 64,
                            s < 64,
                            s <= j ==> d == j - s,
                    ;
                } else if k >= 64 {
                    lemma_bit_above(r.as_nat(), 64, k);
                } else {
                    reveal(bit);
                }
            }
        }
        r
    }

    fn shift_right(self, n: usize) -> (r: Self) {
        let r = self >> n;
        proof {
            r.lemma_as_nat_fits();
            self.lemma_as_nat_fits();
            let s = n as u64;
            assert forall|k: int| #[trigger]
                bit(r.as_nat(), k) == (0 <= k && bit(self.as_nat(), k + n)) by {
                if 0 <= k < 64 {
                    let j = k as u64;
                    let d = if k + n < 64 {
                        (j + s) as u64
                    } else {
                        0
                    };
                    lemma_bit_u64(r, j);
                    lemma_bit_u64(self, d);
                    if k + n >= 64 {
                        lemma_bit_above(self.as_nat(), 64, k + n);
                    }
                    assert(((self >> s) >> j) & 1 == (if j + s < 64 {
                        (self >> d) & 1
                    } else {
                        0
                    })) by (bit_vector)
                        requires
                            j < 64,
                            s < 64,
                            j + s < 64 ==> d == j + s,
                    ;
                } else if k >= 64 {
                    lemma_bit_above(r.as_nat(), 64, k);
                    lemma_bit_above(self.as_nat(), 64, k + n);
                } else {
                    reveal(bit);
                }
            }
        }
        r
    }

    fn bit_or(self, other: Self) -> (r: Self) {
        let r = self | other;
        proof {
            r.lemma_as_nat_fits();
            self.lemma_as_nat_fits();
            other.lemma_as_nat_fits();
            assert forall|k: int| #[trigger]
                bit(r.as_nat(), k) == (bit(self.as_nat(), k) || bit(other.as_nat(), k)) by {
                if 0 <= k < 64 {
                    let j = k as u64;
                    lemma_bit_u64(r, j);
                    lemma_bit_u64(self, j);
                    lemma_bit_u64(other, j);
                    assert((((self | other) >> j) & 1 == 1) == (((self >> j) & 1 == 1) || ((other
                        >> j) & 1 == 1))) by (bit_vector);
                } else if k >= 64 {
                    lemma_bit_above(r.as_nat(), 64, k);
                    lemma_bit_above(self.as_nat(), 64, k);
                    lemma_bit_above(other.as_nat(), 64, k);
                } else {
                    reveal(bit);
                }
            }
        }
        r
    }
}

/// The sizes of the four word types.
pub proof fn lemma_word_sizes()
    ensures
        u8::T == 8 && u8::LANES == 128,
        u16::T == 16 && u16::LANES == 64,
        u32::T == 32 && u32::LANES == 32,
        u64::T == 64 && u64::LANES == 16,
{
}

} // verus!
