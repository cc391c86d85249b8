//! Hand-written instances of the enum/bit-index contract.
//!
//! An external code generator normally produces these implementations from a
//! declarative variant list; the two enumerations here stand in for its
//! output and back the crate's tests: a dense seven-variant enumeration on
//! an 8-bit word, and a sparse one whose indices force the widest word.

use vstd::prelude::*;
use vstd::arithmetic::power2::pow2;
use crate::bits::nth_bit;
use crate::fmt::EnumSetTypeNamed;
use crate::traits::{EnumSetType, EnumSetTypeWithRepr};

verus! {

/// A dense enumeration: seven values at the bit indices 0 through 6, backed
/// by a guaranteed 8-bit word.
#[derive(Clone, Copy, PartialEq, Eq, Structural, Debug)]
pub enum Small {
    A,
    B,
    C,
    D,
    E,
    F,
    G,
}

impl EnumSetType for Small {
    type Repr = u8;

    open spec fn spec_all_bits() -> nat {
        0x7f
    }

    open spec fn spec_bit(self) -> u32 {
        match self {
            Small::A => 0,
            Small::B => 1,
            Small::C => 2,
            Small::D => 3,
            Small::E => 4,
            Small::F => 5,
            Small::G => 6,
        }
    }

    proof fn lemma_all_bits() {
        vstd::arithmetic::power2::lemma2_to64();
    }

    proof fn lemma_bit(self) {
        vstd::arithmetic::power2::lemma2_to64();
        assert(nth_bit(0x7f, 0) && nth_bit(0x7f, 1) && nth_bit(0x7f, 2) && nth_bit(0x7f, 3)
            && nth_bit(0x7f, 4) && nth_bit(0x7f, 5) && nth_bit(0x7f, 6));
    }

    proof fn lemma_bit_injective(self, other: Self) {
    }

    proof fn lemma_mask_bit_has_value(p: u32) {
        if p >= 7 {
            crate::bits::lemma_nth_bit_bound(0x7f, p as nat);
            vstd::arithmetic::power2::lemma2_to64();
            if p > 7 {
                vstd::arithmetic::power2::lemma_pow2_strictly_increases(7, p as nat);
            }
            assert(false);
        }
        if p == 0 {
            assert(Small::A.spec_bit() == p);
        } else if p == 1 {
            assert(Small::B.spec_bit() == p);
        } else if p == 2 {
            assert(Small::C.spec_bit() == p);
        } else if p == 3 {
            assert(Small::D.spec_bit() == p);
        } else if p == 4 {
            assert(Small::E.spec_bit() == p);
        } else if p == 5 {
            assert(Small::F.spec_bit() == p);
        } else {
            assert(Small::G.spec_bit() == p);
        }
    }

    fn all_bits() -> Self::Repr {
        0x7f
    }

    fn enum_into_u32(self) -> u32 {
        match self {
            Small::A => 0,
            Small::B => 1,
            Small::C => 2,
            Small::D => 3,
            Small::E => 4,
            Small::F => 5,
            Small::G => 6,
        }
    }

    fn enum_from_u32(v: u32) -> (r: Self) {
        proof {
            if v >= 7 {
                crate::bits::lemma_nth_bit_bound(0x7f, v as nat);
                vstd::arithmetic::power2::lemma2_to64();
                if v > 7 {
                    vstd::arithmetic::power2::lemma_pow2_strictly_increases(7, v as nat);
                }
                assert(false);
            }
        }
        if v == 0 {
            Small::A
        } else if v == 1 {
            Small::B
        } else if v == 2 {
            Small::C
        } else if v == 3 {
            Small::D
        } else if v == 4 {
            Small::E
        } else if v == 5 {
            Small::F
        } else {
            Small::G
        }
    }
}

impl EnumSetTypeWithRepr for Small {

}

impl EnumSetTypeNamed for Small {
    open spec fn spec_name(self) -> Seq<char> {
        match self {
            Small::A => "A"@,
            Small::B => "B"@,
            Small::C => "C"@,
            Small::D => "D"@,
            Small::E => "E"@,
            Small::F => "F"@,
            Small::G => "G"@,
        }
    }

    fn variant_name(self) -> (r: String) {
        match self {
            Small::A => "A".to_owned(),
            Small::B => "B".to_owned(),
            Small::C => "C".to_owned(),
            Small::D => "D".to_owned(),
            Small::E => "E".to_owned(),
            Small::F => "F".to_owned(),
            Small::G => "G".to_owned(),
        }
    }
}

/// A sparse enumeration: four values at the bit indices 10, 20, 30 and 127.
/// The highest index forces the 128-bit word, and the valid-bits mask has
/// only four of its bits set.
#[derive(Clone, Copy, PartialEq, Eq, Structural, Debug)]
pub enum Sparse {
    A,
    B,
    C,
    D,
}

impl EnumSetType for Sparse {
    type Repr = u128;

    open spec fn spec_all_bits() -> nat {
        0x8000_0000_0000_0000_0000_0000_4010_0400
    }

    open spec fn spec_bit(self) -> u32 {
        match self {
            Sparse::A => 10,
            Sparse::B => 20,
            Sparse::C => 30,
            Sparse::D => 127,
        }
    }

    proof fn lemma_all_bits() {
        crate::bits::lemma_pow2_128();
    }

    proof fn lemma_bit(self) {
        lemma_sparse_mask_table();
    }

    proof fn lemma_bit_injective(self, other: Self) {
    }

    proof fn lemma_mask_bit_has_value(p: u32) {
        if p != 10 && p != 20 && p != 30 && p != 127 {
            if p > 127 {
                crate::bits::lemma_pow2_128();
                crate::bits::lemma_nth_bit_high(
                    0x8000_0000_0000_0000_0000_0000_4010_0400,
                    128,
                    p as nat,
                );
                if p > 128 {
                    vstd::arithmetic::power2::lemma_pow2_strictly_increases(128, p as nat);
                }
            } else {
                lemma_sparse_mask_bits(p as nat);
            }
            assert(false);
        }
        if p == 10 {
            assert(Sparse::A.spec_bit() == p);
        } else if p == 20 {
            assert(Sparse::B.spec_bit() == p);
        } else if p == 30 {
            assert(Sparse::C.spec_bit() == p);
        } else {
            assert(Sparse::D.spec_bit() == p);
        }
    }

    fn all_bits() -> Self::Repr {
        0x8000_0000_0000_0000_0000_0000_4010_0400
    }

    fn enum_into_u32(self) -> u32 {
        match self {
            Sparse::A => 10,
            Sparse::B => 20,
            Sparse::C => 30,
            Sparse::D => 127,
        }
    }

    fn enum_from_u32(v: u32) -> (r: Self) {
        proof {
            if v != 10 && v != 20 && v != 30 && v != 127 {
                assert(!nth_bit(0x8000_0000_0000_0000_0000_0000_4010_0400, v as nat)) by {
                    if v > 127 {
                        crate::bits::lemma_pow2_128();
                        crate::bits::lemma_nth_bit_high(
                            0x8000_0000_0000_0000_0000_0000_4010_0400,
                            128,
                            v as nat,
                        );
                        if v > 128 {
                            vstd::arithmetic::power2::lemma_pow2_strictly_increases(
                                128,
                                v as nat,
                            );
                        }
                    } else {
                        lemma_sparse_mask_bits(v as nat);
                    }
                }
                assert(false);
            }
        }
        if v == 10 {
            Sparse::A
        } else if v == 20 {
            Sparse::B
        } else if v == 30 {
            Sparse::C
        } else {
            Sparse::D
        }
    }
}

impl EnumSetTypeWithRepr for Sparse {

}

impl EnumSetTypeNamed for Sparse {
    open spec fn spec_name(self) -> Seq<char> {
        match self {
            Sparse::A => "A"@,
            Sparse::B => "B"@,
            Sparse::C => "C"@,
            Sparse::D => "D"@,
        }
    }

    fn variant_name(self) -> (r: String) {
        match self {
            Sparse::A => "A".to_owned(),
            Sparse::B => "B".to_owned(),
            Sparse::C => "C".to_owned(),
            Sparse::D => "D".to_owned(),
        }
    }
}

/// Which bits of the sparse mask are set, position by position.
proof fn lemma_sparse_mask_bits(i: nat)
    requires
        i <= 127,
    ensures
        nth_bit(0x8000_0000_0000_0000_0000_0000_4010_0400, i) == (i == 10 || i == 20 || i == 30
            || i == 127),
{
    lemma_sparse_mask_table();
}

/// The full bit table of the sparse mask, built by setting its four bits
/// one at a time.
proof fn lemma_sparse_mask_table()
    ensures
        forall|i: nat|
            #[trigger] nth_bit(0x8000_0000_0000_0000_0000_0000_4010_0400, i) == (i == 10 || i
                == 20 || i == 30 || i == 127),
{
    let m: nat = 0x8000_0000_0000_0000_0000_0000_4010_0400;
    vstd::arithmetic::power2::lemma2_to64();
    crate::bits::lemma_pow2_128();
    let v0 = pow2(10);
    let v1 = v0 + pow2(20);
    let v2 = v1 + pow2(30);
    assert(m == v2 + pow2(127));
    assert forall|i: nat| #[trigger] nth_bit(v0, i) == (i == 10) by {
        crate::bits::lemma_pow2_nth_bit(10, i);
    }
    crate::bits::lemma_set_bit_value(v0, 20, 128);
    crate::bits::lemma_set_bit_value(v1, 30, 128);
    crate::bits::lemma_set_bit_value(v2, 127, 128);
}

} // verus!
