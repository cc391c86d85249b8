//! The capability interface a backing integer must provide, and its
//! implementations for the five supported unsigned widths.
//!
//! Each width implements the interface as a parallel, duplicated
//! implementation; the set type above is generic over which width an
//! enumeration picked.  Every method's contract is stated over the natural
//! number reading of the word given by [`EnumSetTypeRepr::as_nat`].

use vstd::prelude::*;
use vstd::arithmetic::power2::{
    pow2, lemma_pow2_strictly_increases, lemma_pow2_unfold, lemma2_to64, lemma2_to64_rest,
};
use vstd::bits::{
    lemma_low_bits_mask_values, lemma_u8_low_bits_mask_is_mod,
    lemma_u16_low_bits_mask_is_mod, lemma_u32_low_bits_mask_is_mod, lemma_u64_low_bits_mask_is_mod,
    lemma_u8_shl_is_mul, lemma_u16_shl_is_mul, lemma_u32_shl_is_mul, lemma_u64_shl_is_mul,
    lemma_u8_shr_is_div, lemma_u16_shr_is_div, lemma_u32_shr_is_div, lemma_u64_shr_is_div,
    lemma_u128_shr_is_div,
};
use vstd::std_specs::bits::{
    axiom_u8_leading_zeros, axiom_u8_trailing_zeros, u8_leading_zeros, u8_trailing_zeros,
    axiom_u16_leading_zeros, axiom_u16_trailing_zeros, u16_leading_zeros, u16_trailing_zeros,
    axiom_u32_leading_zeros, axiom_u32_trailing_zeros, u32_leading_zeros, u32_trailing_zeros,
    axiom_u64_leading_zeros, axiom_u64_trailing_zeros, u64_leading_zeros, u64_trailing_zeros,
};
use crate::bits::{
    and_nat, comp_nat, nth_bit, or_nat, popcount, sub_mod, xor_nat,
};
use crate::bits::{lemma_nth_bit_high, lemma_pow2_128};

verus! {

/// Capabilities an unsigned integer width must offer to serve as the backing
/// storage of a set.  `as_nat` is the mathematical reading of the word; all
/// other members are specified against it.
pub trait EnumSetTypeRepr: Sized + Copy {
    /// The value of the word, read as a natural number.
    spec fn as_nat(self) -> nat;

    /// Bit width of the word.
    spec fn spec_width() -> u32;

    /// The width is one of the five supported ones.
    proof fn lemma_width()
        ensures
            Self::spec_width() == 8 || Self::spec_width() == 16 || Self::spec_width() == 32
                || Self::spec_width() == 64 || Self::spec_width() == 128,
    ;

    /// Every value fits in the width.
    proof fn lemma_bound(self)
        ensures
            self.as_nat() < pow2(Self::spec_width() as nat),
    ;

    /// Bit width of the word, as a run-time value.
    fn width() -> (r: u32)
        ensures
            r == Self::spec_width(),
    ;

    /// The all-zero word.
    fn empty() -> (r: Self)
        ensures
            r.as_nat() == 0,
    ;

    /// Whether the word is all-zero.
    fn is_empty(self) -> (r: bool)
        ensures
            r == (self.as_nat() == 0),
    ;

    /// Whether two words hold the same value.
    fn eq_repr(self, other: Self) -> (r: bool)
        ensures
            r == (self.as_nat() == other.as_nat()),
    ;

    /// Bitwise OR.
    fn bit_or(self, other: Self) -> (r: Self)
        ensures
            r.as_nat() == or_nat(self.as_nat(), other.as_nat()),
    ;

    /// Bitwise AND.
    fn bit_and(self, other: Self) -> (r: Self)
        ensures
            r.as_nat() == and_nat(self.as_nat(), other.as_nat()),
    ;

    /// Bitwise XOR.
    fn bit_xor(self, other: Self) -> (r: Self)
        ensures
            r.as_nat() == xor_nat(self.as_nat(), other.as_nat()),
    ;

    /// Bitwise complement within the width.
    fn bit_not(self) -> (r: Self)
        ensures
            r.as_nat() == comp_nat(self.as_nat(), Self::spec_width() as nat),
    ;

    /// `self & !other`, in one operation.
    fn and_not(self, other: Self) -> (r: Self)
        ensures
            r.as_nat() == and_nat(
                self.as_nat(),
                comp_nat(other.as_nat(), Self::spec_width() as nat),
            ),
    ;

    /// Population count.
    fn count_ones_repr(self) -> (r: u32)
        ensures
            r == popcount(self.as_nat()),
    ;

    /// Number of zero bits below the lowest set bit; the width if none is set.
    fn trailing_zeros_repr(self) -> (r: u32)
        ensures
            self.as_nat() == 0 ==> r == Self::spec_width(),
            self.as_nat() != 0 ==> r < Self::spec_width() && nth_bit(self.as_nat(), r as nat) && (
            forall|j: nat| j < r as nat ==> !nth_bit(self.as_nat(), j)),
    ;

    /// Number of zero bits above the highest set bit; the width if none is set.
    fn leading_zeros_repr(self) -> (r: u32)
        ensures
            self.as_nat() == 0 ==> r == Self::spec_width(),
            self.as_nat() != 0 ==> r < Self::spec_width() && nth_bit(
                self.as_nat(),
                (Self::spec_width() - 1 - r) as nat,
            ) && (forall|j: nat|
                ((Self::spec_width() - 1 - r) as nat) < j ==> !nth_bit(self.as_nat(), j)),
    ;

    /// Whether the bit at `bit` is set.
    fn has_bit(self, bit: u32) -> (r: bool)
        requires
            bit < Self::spec_width(),
        ensures
            r == nth_bit(self.as_nat(), bit as nat),
    ;

    /// The word with the bit at `bit` set.
    fn add_bit(self, bit: u32) -> (r: Self)
        requires
            bit < Self::spec_width(),
        ensures
            r.as_nat() == or_nat(self.as_nat(), pow2(bit as nat)),
    ;

    /// The word with the bit at `bit` cleared.
    fn remove_bit(self, bit: u32) -> (r: Self)
        requires
            bit < Self::spec_width(),
        ensures
            r.as_nat() == and_nat(
                self.as_nat(),
                comp_nat(pow2(bit as nat), Self::spec_width() as nat),
            ),
    ;

    /// Wrapping subtraction, modulo the width.
    fn wrapping_sub_repr(self, other: Self) -> (r: Self)
        ensures
            r.as_nat() == sub_mod(self.as_nat(), other.as_nat(), Self::spec_width() as nat),
    ;

    /// Lossless widening of the word into the widest supported integer.
    fn to_u128(self) -> (r: u128)
        ensures
            r as nat == self.as_nat(),
    ;

    /// The word holding the low bits of `v`.
    fn from_u128_truncated(v: u128) -> (r: Self)
        ensures
            r.as_nat() == (v as nat) % pow2(Self::spec_width() as nat),
    ;
}

proof fn lemma_u8_or_split(x: u8, m: u8)
    by (bit_vector)
    ensures
        (x | m) as int == 2 * (((x / 2) | (m / 2)) as int) + if x % 2 == 1 || m % 2 == 1 {
            1int
        } else {
            0int
        },
{
}

proof fn lemma_u8_or_nat(x: u8, m: u8)
    ensures
        (x | m) as nat == or_nat(x as nat, m as nat),
    decreases x as int + m as int,
{
    lemma_u8_or_split(x, m);
    if x == 0 && m == 0 {
    } else {
        lemma_u8_or_nat(x / 2, m / 2);
    }
}

proof fn lemma_u8_and_split(x: u8, m: u8)
    by (bit_vector)
    ensures
        (x & m) as int == 2 * (((x / 2) & (m / 2)) as int) + if x % 2 == 1 && m % 2 == 1 {
            1int
        } else {
            0int
        },
{
}

proof fn lemma_u8_and_nat(x: u8, m: u8)
    ensures
        (x & m) as nat == and_nat(x as nat, m as nat),
    decreases x as int + m as int,
{
    lemma_u8_and_split(x, m);
    if x == 0 || m == 0 {
        assert(x & m == 0) by (bit_vector)
            requires
                x == 0 || m == 0,
        ;
    } else {
        lemma_u8_and_nat(x / 2, m / 2);
    }
}

proof fn lemma_u8_xor_split(x: u8, m: u8)
    by (bit_vector)
    ensures
        (x ^ m) as int == 2 * (((x / 2) ^ (m / 2)) as int) + if (x % 2 == 1) != (m % 2 == 1) {
            1int
        } else {
            0int
        },
{
}

proof fn lemma_u8_xor_nat(x: u8, m: u8)
    ensures
        (x ^ m) as nat == xor_nat(x as nat, m as nat),
    decreases x as int + m as int,
{
    lemma_u8_xor_split(x, m);
    if x == 0 && m == 0 {
    } else {
        lemma_u8_xor_nat(x / 2, m / 2);
    }
}

proof fn lemma_u8_not_nat(x: u8)
    ensures
        (!x) as nat == comp_nat(x as nat, 8),
{
    assert((!x) as int == 255 - x as int) by (bit_vector);
    lemma2_to64();
}

/// Reading a single bit by shifting matches the mathematical bit reading.
proof fn lemma_u8_bit_shift(x: u8, j: u8)
    requires
        j < 8,
    ensures
        ((x >> j) & 1 == 1) == nth_bit(x as nat, j as nat),
        (x >> j) & 1 == (x >> j) % 2,
{
    lemma_u8_shr_is_div(x, j);
    lemma_u8_low_bits_mask_is_mod(x >> j, 1);
    lemma_low_bits_mask_values();
    lemma2_to64();
    assert((x >> j) & 1 == (x >> j) % 2);
}

impl EnumSetTypeRepr for u8 {
    open spec fn as_nat(self) -> nat {
        self as nat
    }

    open spec fn spec_width() -> u32 {
        8
    }

    proof fn lemma_width() {
    }

    proof fn lemma_bound(self) {
        lemma2_to64();
    }

    fn width() -> u32 {
        8
    }

    fn empty() -> Self {
        0
    }

    fn is_empty(self) -> bool {
        self == 0
    }

    fn eq_repr(self, other: Self) -> bool {
        self == other
    }

    fn bit_or(self, other: Self) -> Self {
        proof {
            lemma_u8_or_nat(self, other);
        }
        self | other
    }

    fn bit_and(self, other: Self) -> Self {
        proof {
            lemma_u8_and_nat(self, other);
        }
        self & other
    }

    fn bit_xor(self, other: Self) -> Self {
        proof {
            lemma_u8_xor_nat(self, other);
        }
        self ^ other
    }

    fn bit_not(self) -> Self {
        proof {
            lemma_u8_not_nat(self);
        }
        !self
    }

    fn and_not(self, other: Self) -> Self {
        proof {
            lemma_u8_not_nat(other);
            lemma_u8_and_nat(self, !other);
        }
        self & !other
    }

    fn count_ones_repr(self) -> u32 {
        u8::count_ones(self)
    }

    fn trailing_zeros_repr(self) -> (r: u32) {
        proof {
            axiom_u8_trailing_zeros(self);
            if self != 0 {
                let t = u8_trailing_zeros(self);
                lemma_u8_bit_shift(self, t as u8);
                assert forall|j: nat| j < t as nat implies !nth_bit(self as nat, j) by {
                    lemma_u8_bit_shift(self, j as u8);
                    assert((self >> (j as u8)) & 1 == 0);
                }
            }
        }
        u8::trailing_zeros(self)
    }

    fn leading_zeros_repr(self) -> (r: u32) {
        proof {
            axiom_u8_leading_zeros(self);
            lemma2_to64();
            if self != 0 {
                let l = u8_leading_zeros(self);
                lemma_u8_bit_shift(self, (7 - l) as u8);
                assert((self >> ((7 - l) as u8)) & 1 != 0);
                assert forall|j: nat| ((7 - l) as nat) < j implies !nth_bit(self as nat, j) by {
                    if j < 8 {
                        lemma_u8_bit_shift(self, j as u8);
                        assert((self >> (j as u8)) & 1 == 0);
                    } else {
                        lemma_nth_bit_high(self as nat, 8, j);
                    }
                }
            }
        }
        u8::leading_zeros(self)
    }

    fn has_bit(self, bit: u32) -> (r: bool) {
        let b: u8 = bit as u8;
        proof {
            lemma_u8_bit_shift(self, b);
        }
        (self >> b) & 1 == 1
    }

    fn add_bit(self, bit: u32) -> (r: Self) {
        let b: u8 = bit as u8;
        proof {
            lemma2_to64();
            if b < 7 {
                lemma_pow2_strictly_increases(b as nat, 7);
            }
            lemma_u8_shl_is_mul(1u8, b);
            lemma_u8_or_nat(self, 1u8 << b);
        }
        self | (1u8 << b)
    }

    fn remove_bit(self, bit: u32) -> (r: Self) {
        let b: u8 = bit as u8;
        proof {
            lemma2_to64();
            if b < 7 {
                lemma_pow2_strictly_increases(b as nat, 7);
            }
            lemma_u8_shl_is_mul(1u8, b);
            lemma_u8_not_nat(1u8 << b);
            lemma_u8_and_nat(self, !(1u8 << b));
        }
        self & !(1u8 << b)
    }

    fn wrapping_sub_repr(self, other: Self) -> (r: Self) {
        proof {
            lemma2_to64();
        }
        self.wrapping_sub(other)
    }

    fn to_u128(self) -> (r: u128) {
        self as u128
    }

    fn from_u128_truncated(v: u128) -> (r: Self) {
        proof {
            assert((v as u8) as int == v as int % 0x100) by (bit_vector);
            lemma2_to64();
        }
        v as u8
    }
}

/// Relies on `u8::count_ones`: the number of one bits in the value's binary
/// representation.
pub assume_specification[ u8::count_ones ](i: u8) -> (r: u32)
    ensures
        r == popcount(i as nat),
;


proof fn lemma_u16_or_split(x: u16, m: u16)
    by (bit_vector)
    ensures
        (x | m) as int == 2 * (((x / 2) | (m / 2)) as int) + if x % 2 == 1 || m % 2 == 1 {
            1int
        } else {
            0int
        },
{
}

proof fn lemma_u16_or_nat(x: u16, m: u16)
    ensures
        (x | m) as nat == or_nat(x as nat, m as nat),
    decreases x as int + m as int,
{
    lemma_u16_or_split(x, m);
    if x == 0 && m == 0 {
    } else {
        lemma_u16_or_nat(x / 2, m / 2);
    }
}

proof fn lemma_u16_and_split(x: u16, m: u16)
    by (bit_vector)
    ensures
        (x & m) as int == 2 * (((x / 2) & (m / 2)) as int) + if x % 2 == 1 && m % 2 == 1 {
            1int
        } else {
            0int
        },
{
}

proof fn lemma_u16_and_nat(x: u16, m: u16)
    ensures
        (x & m) as nat == and_nat(x as nat, m as nat),
    decreases x as int + m as int,
{
    lemma_u16_and_split(x, m);
    if x == 0 || m == 0 {
        assert(x & m == 0) by (bit_vector)
            requires
                x == 0 || m == 0,
        ;
    } else {
        lemma_u16_and_nat(x / 2, m / 2);
    }
}

proof fn lemma_u16_xor_split(x: u16, m: u16)
    by (bit_vector)
    ensures
        (x ^ m) as int == 2 * (((x / 2) ^ (m / 2)) as int) + if (x % 2 == 1) != (m % 2 == 1) {
            1int
        } else {
            0int
        },
{
}

proof fn lemma_u16_xor_nat(x: u16, m: u16)
    ensures
        (x ^ m) as nat == xor_nat(x as nat, m as nat),
    decreases x as int + m as int,
{
    lemma_u16_xor_split(x, m);
    if x == 0 && m == 0 {
    } else {
        lemma_u16_xor_nat(x / 2, m / 2);
    }
}

proof fn lemma_u16_not_nat(x: u16)
    ensures
        (!x) as nat == comp_nat(x as nat, 16),
{
    assert((!x) as int == 0xffff - x as int) by (bit_vector);
    lemma2_to64();
}

/// Reading a single bit by shifting matches the mathematical bit reading.
proof fn lemma_u16_bit_shift(x: u16, j: u16)
    requires
        j < 16,
    ensures
        ((x >> j) & 1 == 1) == nth_bit(x as nat, j as nat),
        (x >> j) & 1 == (x >> j) % 2,
{
    lemma_u16_shr_is_div(x, j);
    lemma_u16_low_bits_mask_is_mod(x >> j, 1);
    lemma_low_bits_mask_values();
    lemma2_to64();
    assert((x >> j) & 1 == (x >> j) % 2);
}

impl EnumSetTypeRepr for u16 {
    open spec fn as_nat(self) -> nat {
        self as nat
    }

    open spec fn spec_width() -> u32 {
        16
    }

    proof fn lemma_width() {
    }

    proof fn lemma_bound(self) {
        lemma2_to64();
    }

    fn width() -> u32 {
        16
    }

    fn empty() -> Self {
        0
    }

    fn is_empty(self) -> bool {
        self == 0
    }

    fn eq_repr(self, other: Self) -> bool {
        self == other
    }

    fn bit_or(self, other: Self) -> Self {
        proof {
            lemma_u16_or_nat(self, other);
        }
        self | other
    }

    fn bit_and(self, other: Self) -> Self {
        proof {
            lemma_u16_and_nat(self, other);
        }
        self & other
    }

    fn bit_xor(self, other: Self) -> Self {
        proof {
            lemma_u16_xor_nat(self, other);
        }
        self ^ other
    }

    fn bit_not(self) -> Self {
        proof {
            lemma_u16_not_nat(self);
        }
        !self
    }

    fn and_not(self, other: Self) -> Self {
        proof {
            lemma_u16_not_nat(other);
            lemma_u16_and_nat(self, !other);
        }
        self & !other
    }

    fn count_ones_repr(self) -> u32 {
        u16::count_ones(self)
    }

    fn trailing_zeros_repr(self) -> (r: u32) {
        proof {
            axiom_u16_trailing_zeros(self);
            if self != 0 {
                let t = u16_trailing_zeros(self);
                lemma_u16_bit_shift(self, t as u16);
                assert forall|j: nat| j < t as nat implies !nth_bit(self as nat, j) by {
                    lemma_u16_bit_shift(self, j as u16);
                    assert((self >> (j as u16)) & 1 == 0);
                }
            }
        }
        u16::trailing_zeros(self)
    }

    fn leading_zeros_repr(self) -> (r: u32) {
        proof {
            axiom_u16_leading_zeros(self);
            lemma2_to64();
            if self != 0 {
                let l = u16_leading_zeros(self);
                lemma_u16_bit_shift(self, (15 - l) as u16);
                assert((self >> ((15 - l) as u16)) & 1 != 0);
                assert forall|j: nat| ((15 - l) as nat) < j implies !nth_bit(self as nat, j) by {
                    if j < 16 {
                        lemma_u16_bit_shift(self, j as u16);
                        assert((self >> (j as u16)) & 1 == 0);
                    } else {
                        lemma_nth_bit_high(self as nat, 16, j);
                    }
                }
            }
        }
        u16::leading_zeros(self)
    }

    fn has_bit(self, bit: u32) -> (r: bool) {
        let b: u16 = bit as u16;
        proof {
            lemma_u16_bit_shift(self, b);
        }
        (self >> b) & 1 == 1
    }

    fn add_bit(self, bit: u32) -> (r: Self) {
        let b: u16 = bit as u16;
        proof {
            lemma2_to64();
            if b < 15 {
                lemma_pow2_strictly_increases(b as nat, 15);
            }
            lemma_u16_shl_is_mul(1u16, b);
            lemma_u16_or_nat(self, 1u16 << b);
        }
        self | (1u16 << b)
    }

    fn remove_bit(self, bit: u32) -> (r: Self) {
        let b: u16 = bit as u16;
        proof {
            lemma2_to64();
            if b < 15 {
                lemma_pow2_strictly_increases(b as nat, 15);
            }
            lemma_u16_shl_is_mul(1u16, b);
            lemma_u16_not_nat(1u16 << b);
            lemma_u16_and_nat(self, !(1u16 << b));
        }
        self & !(1u16 << b)
    }

    fn wrapping_sub_repr(self, other: Self) -> (r: Self) {
        proof {
            lemma2_to64();
        }
        self.wrapping_sub(other)
    }

    fn to_u128(self) -> (r: u128) {
        self as u128
    }

    fn from_u128_truncated(v: u128) -> (r: Self) {
        proof {
            assert((v as u16) as int == v as int % 0x10000) by (bit_vector);
            lemma2_to64();
        }
        v as u16
    }
}

/// Relies on `u16::count_ones`: the number of one bits in the value's binary
/// representation.
pub assume_specification[ u16::count_ones ](i: u16) -> (r: u32)
    ensures
        r == popcount(i as nat),
;


proof fn lemma_u32_or_split(x: u32, m: u32)
    by (bit_vector)
    ensures
        (x | m) as int == 2 * (((x / 2) | (m / 2)) as int) + if x % 2 == 1 || m % 2 == 1 {
            1int
        } else {
            0int
        },
{
}

proof fn lemma_u32_or_nat(x: u32, m: u32)
    ensures
        (x | m) as nat == or_nat(x as nat, m as nat),
    decreases x as int + m as int,
{
    lemma_u32_or_split(x, m);
    if x == 0 && m == 0 {
    } else {
        lemma_u32_or_nat(x / 2, m / 2);
    }
}

proof fn lemma_u32_and_split(x: u32, m: u32)
    by (bit_vector)
    ensures
        (x & m) as int == 2 * (((x / 2) & (m / 2)) as int) + if x % 2 == 1 && m % 2 == 1 {
            1int
        } else {
            0int
        },
{
}

proof fn lemma_u32_and_nat(x: u32, m: u32)
    ensures
        (x & m) as nat == and_nat(x as nat, m as nat),
    decreases x as int + m as int,
{
    lemma_u32_and_split(x, m);
    if x == 0 || m == 0 {
        assert(x & m == 0) by (bit_vector)
            requires
                x == 0 || m == 0,
        ;
    } else {
        lemma_u32_and_nat(x / 2, m / 2);
    }
}

proof fn lemma_u32_xor_split(x: u32, m: u32)
    by (bit_vector)
    ensures
        (x ^ m) as int == 2 * (((x / 2) ^ (m / 2)) as int) + if (x % 2 == 1) != (m % 2 == 1) {
            1int
        } else {
            0int
        },
{
}

proof fn lemma_u32_xor_nat(x: u32, m: u32)
    ensures
        (x ^ m) as nat == xor_nat(x as nat, m as nat),
    decreases x as int + m as int,
{
    lemma_u32_xor_split(x, m);
    if x == 0 && m == 0 {
    } else {
        lemma_u32_xor_nat(x / 2, m / 2);
    }
}

proof fn lemma_u32_not_nat(x: u32)
    ensures
        (!x) as nat == comp_nat(x as nat, 32),
{
    assert((!x) as int == 0xffffffff - x as int) by (bit_vector);
    lemma2_to64();
}

/// Reading a single bit by shifting matches the mathematical bit reading.
proof fn lemma_u32_bit_shift(x: u32, j: u32)
    requires
        j < 32,
    ensures
        ((x >> j) & 1 == 1) == nth_bit(x as nat, j as nat),
        (x >> j) & 1 == (x >> j) % 2,
{
    lemma_u32_shr_is_div(x, j);
    lemma_u32_low_bits_mask_is_mod(x >> j, 1);
    lemma_low_bits_mask_values();
    lemma2_to64();
    assert((x >> j) & 1 == (x >> j) % 2);
}

impl EnumSetTypeRepr for u32 {
    open spec fn as_nat(self) -> nat {
        self as nat
    }

    open spec fn spec_width() -> u32 {
        32
    }

    proof fn lemma_width() {
    }

    proof fn lemma_bound(self) {
        lemma2_to64();
    }

    fn width() -> u32 {
        32
    }

    fn empty() -> Self {
        0
    }

    fn is_empty(self) -> bool {
        self == 0
    }

    fn eq_repr(self, other: Self) -> bool {
        self == other
    }

    fn bit_or(self, other: Self) -> Self {
        proof {
            lemma_u32_or_nat(self, other);
        }
        self | other
    }

    fn bit_and(self, other: Self) -> Self {
        proof {
            lemma_u32_and_nat(self, other);
        }
        self & other
    }

    fn bit_xor(self, other: Self) -> Self {
        proof {
            lemma_u32_xor_nat(self, other);
        }
        self ^ other
    }

    fn bit_not(self) -> Self {
        proof {
            lemma_u32_not_nat(self);
        }
        !self
    }

    fn and_not(self, other: Self) -> Self {
        proof {
            lemma_u32_not_nat(other);
            lemma_u32_and_nat(self, !other);
        }
        self & !other
    }

    fn count_ones_repr(self) -> u32 {
        u32::count_ones(self)
    }

    fn trailing_zeros_repr(self) -> (r: u32) {
        proof {
            axiom_u32_trailing_zeros(self);
            if self != 0 {
                let t = u32_trailing_zeros(self);
                lemma_u32_bit_shift(self, t as u32);
                assert forall|j: nat| j < t as nat implies !nth_bit(self as nat, j) by {
                    lemma_u32_bit_shift(self, j as u32);
                    assert((self >> (j as u32)) & 1 == 0);
                }
            }
        }
        u32::trailing_zeros(self)
    }

    fn leading_zeros_repr(self) -> (r: u32) {
        proof {
            axiom_u32_leading_zeros(self);
            lemma2_to64();
            if self != 0 {
                let l = u32_leading_zeros(self);
                lemma_u32_bit_shift(self, (31 - l) as u32);
                assert((self >> ((31 - l) as u32)) & 1 != 0);
                assert forall|j: nat| ((31 - l) as nat) < j implies !nth_bit(self as nat, j) by {
                    if j < 32 {
                        lemma_u32_bit_shift(self, j as u32);
                        assert((self >> (j as u32)) & 1 == 0);
                    } else {
                        lemma_nth_bit_high(self as nat, 32, j);
                    }
                }
            }
        }
        u32::leading_zeros(self)
    }

    fn has_bit(self, bit: u32) -> (r: bool) {
        let b: u32 = bit as u32;
        proof {
            lemma_u32_bit_shift(self, b);
        }
        (self >> b) & 1 == 1
    }

    fn add_bit(self, bit: u32) -> (r: Self) {
        let b: u32 = bit as u32;
        proof {
            lemma2_to64();
            if b < 31 {
                lemma_pow2_strictly_increases(b as nat, 31);
            }
            lemma_u32_shl_is_mul(1u32, b);
            lemma_u32_or_nat(self, 1u32 << b);
        }
        self | (1u32 << b)
    }

    fn remove_bit(self, bit: u32) -> (r: Self) {
        let b: u32 = bit as u32;
        proof {
            lemma2_to64();
            if b < 31 {
                lemma_pow2_strictly_increases(b as nat, 31);
            }
            lemma_u32_shl_is_mul(1u32, b);
            lemma_u32_not_nat(1u32 << b);
            lemma_u32_and_nat(self, !(1u32 << b));
        }
        self & !(1u32 << b)
    }

    fn wrapping_sub_repr(self, other: Self) -> (r: Self) {
        proof {
            lemma2_to64();
        }
        self.wrapping_sub(other)
    }

    fn to_u128(self) -> (r: u128) {
        self as u128
    }

    fn from_u128_truncated(v: u128) -> (r: Self) {
        proof {
            assert((v as u32) as int == v as int % 0x1_0000_0000) by (bit_vector);
            lemma2_to64();
        }
        v as u32
    }
}

/// Relies on `u32::count_ones`: the number of one bits in the value's binary
/// representation.
pub assume_specification[ u32::count_ones ](i: u32) -> (r: u32)
    ensures
        r == popcount(i as nat),
;


proof fn lemma_u64_or_split(x: u64, m: u64)
    by (bit_vector)
    ensures
        (x | m) as int == 2 * (((x / 2) | (m / 2)) as int) + if x % 2 == 1 || m % 2 == 1 {
            1int
        } else {
            0int
        },
{
}

proof fn lemma_u64_or_nat(x: u64, m: u64)
    ensures
        (x | m) as nat == or_nat(x as nat, m as nat),
    decreases x as int + m as int,
{
    lemma_u64_or_split(x, m);
    if x == 0 && m == 0 {
    } else {
        lemma_u64_or_nat(x / 2, m / 2);
    }
}

proof fn lemma_u64_and_split(x: u64, m: u64)
    by (bit_vector)
    ensures
        (x & m) as int == 2 * (((x / 2) & (m / 2)) as int) + if x % 2 == 1 && m % 2 == 1 {
            1int
        } else {
            0int
        },
{
}

proof fn lemma_u64_and_nat(x: u64, m: u64)
    ensures
        (x & m) as nat == and_nat(x as nat, m as nat),
    decreases x as int + m as int,
{
    lemma_u64_and_split(x, m);
    if x == 0 || m == 0 {
        assert(x & m == 0) by (bit_vector)
            requires
                x == 0 || m == 0,
        ;
    } else {
        lemma_u64_and_nat(x / 2, m / 2);
    }
}

proof fn lemma_u64_xor_split(x: u64, m: u64)
    by (bit_vector)
    ensures
        (x ^ m) as int == 2 * (((x / 2) ^ (m / 2)) as int) + if (x % 2 == 1) != (m % 2 == 1) {
            1int
        } else {
            0int
        },
{
}

proof fn lemma_u64_xor_nat(x: u64, m: u64)
    ensures
        (x ^ m) as nat == xor_nat(x as nat, m as nat),
    decreases x as int + m as int,
{
    lemma_u64_xor_split(x, m);
    if x == 0 && m == 0 {
    } else {
        lemma_u64_xor_nat(x / 2, m / 2);
    }
}

proof fn lemma_u64_not_nat(x: u64)
    ensures
        (!x) as nat == comp_nat(x as nat, 64),
{
    assert((!x) as int == 0xffff_ffff_ffff_ffff - x as int) by (bit_vector);
    lemma2_to64();
}

/// Reading a single bit by shifting matches the mathematical bit reading.
proof fn lemma_u64_bit_shift(x: u64, j: u64)
    requires
        j < 64,
    ensures
        ((x >> j) & 1 == 1) == nth_bit(x as nat, j as nat),
        (x >> j) & 1 == (x >> j) % 2,
{
    lemma_u64_shr_is_div(x, j);
    lemma_u64_low_bits_mask_is_mod(x >> j, 1);
    lemma_low_bits_mask_values();
    lemma2_to64();
    assert((x >> j) & 1 == (x >> j) % 2);
}

impl EnumSetTypeRepr for u64 {
    open spec fn as_nat(self) -> nat {
        self as nat
    }

    open spec fn spec_width() -> u32 {
        64
    }

    proof fn lemma_width() {
    }

    proof fn lemma_bound(self) {
        lemma2_to64();
    }

    fn width() -> u32 {
        64
    }

    fn empty() -> Self {
        0
    }

    fn is_empty(self) -> bool {
        self == 0
    }

    fn eq_repr(self, other: Self) -> bool {
        self == other
    }

    fn bit_or(self, other: Self) -> Self {
        proof {
            lemma_u64_or_nat(self, other);
        }
        self | other
    }

    fn bit_and(self, other: Self) -> Self {
        proof {
            lemma_u64_and_nat(self, other);
        }
        self & other
    }

    fn bit_xor(self, other: Self) -> Self {
        proof {
            lemma_u64_xor_nat(self, other);
        }
        self ^ other
    }

    fn bit_not(self) -> Self {
        proof {
            lemma_u64_not_nat(self);
        }
        !self
    }

    fn and_not(self, other: Self) -> Self {
        proof {
            lemma_u64_not_nat(other);
            lemma_u64_and_nat(self, !other);
        }
        self & !other
    }

    fn count_ones_repr(self) -> u32 {
        u64::count_ones(self)
    }

    fn trailing_zeros_repr(self) -> (r: u32) {
        proof {
            axiom_u64_trailing_zeros(self);
            if self != 0 {
                let t = u64_trailing_zeros(self);
                lemma_u64_bit_shift(self, t as u64);
                assert forall|j: nat| j < t as nat implies !nth_bit(self as nat, j) by {
                    lemma_u64_bit_shift(self, j as u64);
                    assert((self >> (j as u64)) & 1 == 0);
                }
            }
        }
        u64::trailing_zeros(self)
    }

    fn leading_zeros_repr(self) -> (r: u32) {
        proof {
            axiom_u64_leading_zeros(self);
            lemma2_to64();
            if self != 0 {
                let l = u64_leading_zeros(self);
                lemma_u64_bit_shift(self, (63 - l) as u64);
                assert((self >> ((63 - l) as u64)) & 1 != 0);
                assert forall|j: nat| ((63 - l) as nat) < j implies !nth_bit(self as nat, j) by {
                    if j < 64 {
                        lemma_u64_bit_shift(self, j as u64);
                        assert((self >> (j as u64)) & 1 == 0);
                    } else {
                        lemma_nth_bit_high(self as nat, 64, j);
                    }
                }
            }
        }
        u64::leading_zeros(self)
    }

    fn has_bit(self, bit: u32) -> (r: bool) {
        let b: u64 = bit as u64;
        proof {
            lemma_u64_bit_shift(self, b);
        }
        (self >> b) & 1 == 1
    }

    fn add_bit(self, bit: u32) -> (r: Self) {
        let b: u64 = bit as u64;
        proof {
            lemma2_to64();
            lemma2_to64_rest();
            if b < 63 {
                lemma_pow2_strictly_increases(b as nat, 63);
            }
            lemma_u64_shl_is_mul(1u64, b);
            lemma_u64_or_nat(self, 1u64 << b);
        }
        self | (1u64 << b)
    }

    fn remove_bit(self, bit: u32) -> (r: Self) {
        let b: u64 = bit as u64;
        proof {
            lemma2_to64();
            lemma2_to64_rest();
            if b < 63 {
                lemma_pow2_strictly_increases(b as nat, 63);
            }
            lemma_u64_shl_is_mul(1u64, b);
            lemma_u64_not_nat(1u64 << b);
            lemma_u64_and_nat(self, !(1u64 << b));
        }
        self & !(1u64 << b)
    }

    fn wrapping_sub_repr(self, other: Self) -> (r: Self) {
        proof {
            lemma2_to64();
        }
        self.wrapping_sub(other)
    }

    fn to_u128(self) -> (r: u128) {
        self as u128
    }

    fn from_u128_truncated(v: u128) -> (r: Self) {
        proof {
            assert((v as u64) as int == v as int % 0x1_0000_0000_0000_0000) by (bit_vector);
            lemma2_to64();
        }
        v as u64
    }
}

/// Relies on `u64::count_ones`: the number of one bits in the value's binary
/// representation.
pub assume_specification[ u64::count_ones ](i: u64) -> (r: u32)
    ensures
        r == popcount(i as nat),
;


proof fn lemma_u128_or_split(x: u128, m: u128)
    by (bit_vector)
    ensures
        (x | m) as int == 2 * (((x / 2) | (m / 2)) as int) + if x % 2 == 1 || m % 2 == 1 {
            1int
        } else {
            0int
        },
{
}

proof fn lemma_u128_or_nat(x: u128, m: u128)
    ensures
        (x | m) as nat == or_nat(x as nat, m as nat),
    decreases x as int + m as int,
{
    lemma_u128_or_split(x, m);
    if x == 0 && m == 0 {
    } else {
        lemma_u128_or_nat(x / 2, m / 2);
    }
}

proof fn lemma_u128_and_split(x: u128, m: u128)
    by (bit_vector)
    ensures
        (x & m) as int == 2 * (((x / 2) & (m / 2)) as int) + if x % 2 == 1 && m % 2 == 1 {
            1int
        } else {
            0int
        },
{
}

proof fn lemma_u128_and_nat(x: u128, m: u128)
    ensures
        (x & m) as nat == and_nat(x as nat, m as nat),
    decreases x as int + m as int,
{
    lemma_u128_and_split(x, m);
    if x == 0 || m == 0 {
        assert(x & m == 0) by (bit_vector)
            requires
                x == 0 || m == 0,
        ;
    } else {
        lemma_u128_and_nat(x / 2, m / 2);
    }
}

proof fn lemma_u128_xor_split(x: u128, m: u128)
    by (bit_vector)
    ensures
        (x ^ m) as int == 2 * (((x / 2) ^ (m / 2)) as int) + if (x % 2 == 1) != (m % 2 == 1) {
            1int
        } else {
            0int
        },
{
}

proof fn lemma_u128_xor_nat(x: u128, m: u128)
    ensures
        (x ^ m) as nat == xor_nat(x as nat, m as nat),
    decreases x as int + m as int,
{
    lemma_u128_xor_split(x, m);
    if x == 0 && m == 0 {
    } else {
        lemma_u128_xor_nat(x / 2, m / 2);
    }
}

proof fn lemma_u128_not_nat(x: u128)
    ensures
        (!x) as nat == comp_nat(x as nat, 128),
{
    assert((!x) as int == 0xffff_ffff_ffff_ffff_ffff_ffff_ffff_ffff - x as int) by (bit_vector);
    lemma_pow2_128();
}

/// Reading a single bit by shifting matches the mathematical bit reading.
proof fn lemma_u128_bit_shift(x: u128, j: u128)
    requires
        j < 128,
    ensures
        ((x >> j) & 1 == 1) == nth_bit(x as nat, j as nat),
        (x >> j) & 1 == (x >> j) % 2,
{
    lemma_u128_shr_is_div(x, j);
    assert((x >> j) & 1 == (x >> j) % 2) by (bit_vector);
}

/// A one bit shifted into any position of the widest word is the
/// corresponding power of two.
proof fn lemma_u128_one_shl(shift: u128)
    requires
        shift < 128,
    ensures
        (1u128 << shift) as nat == pow2(shift as nat),
    decreases shift,
{
    if shift == 0 {
        assert(1u128 << 0u128 == 1) by (bit_vector);
        lemma2_to64();
    } else {
        assert((1u128 << shift) as int == 2 * ((1u128 << ((shift - 1) as u128)) as int)) by (bit_vector)
            requires
                0 < shift < 128,
        ;
        lemma_u128_one_shl((shift - 1) as u128);
        lemma_pow2_unfold(shift as nat);
        if shift < 127 {
            lemma_pow2_strictly_increases(shift as nat, 127);
        }
        lemma_pow2_128();
    }
}

impl EnumSetTypeRepr for u128 {
    open spec fn as_nat(self) -> nat {
        self as nat
    }

    open spec fn spec_width() -> u32 {
        128
    }

    proof fn lemma_width() {
    }

    proof fn lemma_bound(self) {
        lemma_pow2_128();
    }

    fn width() -> u32 {
        128
    }

    fn empty() -> Self {
        0
    }

    fn is_empty(self) -> bool {
        self == 0
    }

    fn eq_repr(self, other: Self) -> bool {
        self == other
    }

    fn bit_or(self, other: Self) -> Self {
        proof {
            lemma_u128_or_nat(self, other);
        }
        self | other
    }

    fn bit_and(self, other: Self) -> Self {
        proof {
            lemma_u128_and_nat(self, other);
        }
        self & other
    }

    fn bit_xor(self, other: Self) -> Self {
        proof {
            lemma_u128_xor_nat(self, other);
        }
        self ^ other
    }

    fn bit_not(self) -> Self {
        proof {
            lemma_u128_not_nat(self);
        }
        !self
    }

    fn and_not(self, other: Self) -> Self {
        proof {
            lemma_u128_not_nat(other);
            lemma_u128_and_nat(self, !other);
        }
        self & !other
    }

    fn count_ones_repr(self) -> u32 {
        u128::count_ones(self)
    }

    fn trailing_zeros_repr(self) -> (r: u32) {
        u128::trailing_zeros(self)
    }

    fn leading_zeros_repr(self) -> (r: u32) {
        proof {
            if self != 0 {
                lemma_pow2_128();
                assert forall|j: nat| j >= 128 implies !nth_bit(self as nat, j) by {
                    lemma_nth_bit_high(self as nat, 128, j);
                }
            }
        }
        u128::leading_zeros(self)
    }

    fn has_bit(self, bit: u32) -> (r: bool) {
        let b: u128 = bit as u128;
        proof {
            lemma_u128_bit_shift(self, b);
        }
        (self >> b) & 1 == 1
    }

    fn add_bit(self, bit: u32) -> (r: Self) {
        let b: u128 = bit as u128;
        proof {
            lemma_u128_one_shl(b);
            lemma_u128_or_nat(self, 1u128 << b);
        }
        self | (1u128 << b)
    }

    fn remove_bit(self, bit: u32) -> (r: Self) {
        let b: u128 = bit as u128;
        proof {
            lemma_u128_one_shl(b);
            lemma_u128_not_nat(1u128 << b);
            lemma_u128_and_nat(self, !(1u128 << b));
        }
        self & !(1u128 << b)
    }

    fn wrapping_sub_repr(self, other: Self) -> (r: Self) {
        proof {
            lemma_pow2_128();
        }
        self.wrapping_sub(other)
    }

    fn to_u128(self) -> (r: u128) {
        self
    }

    fn from_u128_truncated(v: u128) -> (r: Self) {
        proof {
            lemma_pow2_128();
            vstd::arithmetic::div_mod::lemma_small_mod(v as nat, pow2(128));
        }
        v
    }
}

/// Relies on `u128::count_ones`: the number of one bits in the value's binary
/// representation.
pub assume_specification[ u128::count_ones ](i: u128) -> (r: u32)
    ensures
        r == popcount(i as nat),
;

/// Relies on `u128::trailing_zeros`: the number of zero bits below the lowest
/// set bit, or the full width when the value is zero.
pub assume_specification[ u128::trailing_zeros ](i: u128) -> (r: u32)
    ensures
        i == 0 ==> r == 128,
        i != 0 ==> r < 128 && nth_bit(i as nat, r as nat) && (forall|j: nat|
            j < r as nat ==> !nth_bit(i as nat, j)),
;

/// Relies on `u128::leading_zeros`: the number of zero bits above the highest
/// set bit, or the full width when the value is zero.
pub assume_specification[ u128::leading_zeros ](i: u128) -> (r: u32)
    ensures
        i == 0 ==> r == 128,
        i != 0 ==> r < 128 && nth_bit(i as nat, (127 - r) as nat) && (forall|j: nat|
            ((127 - r) as nat) < j && j < 128 ==> !nth_bit(i as nat, j)),
;

} // verus!
