//! The contract an enumeration type must satisfy to be stored in a set.
//!
//! An external code generator is expected to produce these implementations
//! from a declarative variant list; the crate ships a few hand-written
//! examples.  The contract is narrow: a dense bit index for every value, the
//! inverse reconstruction, and a constant mask of the valid bit positions.

use vstd::prelude::*;
use vstd::arithmetic::power2::pow2;
use crate::bits::nth_bit;
use crate::repr::EnumSetTypeRepr;

verus! {

/// An enumeration type whose values can be stored in an [`EnumSet`].
///
/// Each value owns one bit position of the backing word; the constant
/// valid-bits mask records which positions are owned by some value.  The
/// mask may be sparse when the enumeration assigns non-contiguous indices.
///
/// [`EnumSet`]: crate::EnumSet
pub trait EnumSetType: Sized + Copy {
    /// The unsigned integer width backing sets of this enumeration.
    type Repr: EnumSetTypeRepr;

    /// The constant valid-bits mask: bit `p` is set iff some value of the
    /// enumeration has bit index `p`.
    spec fn spec_all_bits() -> nat;

    /// The bit index of this value.
    spec fn spec_bit(self) -> u32;

    /// The mask fits the backing width.
    proof fn lemma_all_bits()
        ensures
            Self::spec_all_bits() < pow2(<Self::Repr as EnumSetTypeRepr>::spec_width() as nat),
    ;

    /// Every value's bit index is within the width and marked in the mask.
    proof fn lemma_bit(self)
        ensures
            self.spec_bit() < <Self::Repr as EnumSetTypeRepr>::spec_width(),
            nth_bit(Self::spec_all_bits(), self.spec_bit() as nat),
    ;

    /// No two distinct values share a bit index.
    proof fn lemma_bit_injective(self, other: Self)
        ensures
            self.spec_bit() == other.spec_bit() ==> self == other,
    ;

    /// Every set bit of the mask is the index of some value: the mask marks
    /// exactly the positions in use.
    proof fn lemma_mask_bit_has_value(p: u32)
        requires
            nth_bit(Self::spec_all_bits(), p as nat),
        ensures
            exists|v: Self| (#[trigger] v.spec_bit()) == p,
    ;

    /// The valid-bits mask, as a run-time word.
    fn all_bits() -> (r: Self::Repr)
        ensures
            r.as_nat() == Self::spec_all_bits(),
    ;

    /// The bit index of this value; every value has exactly one.
    fn enum_into_u32(self) -> (r: u32)
        ensures
            r == self.spec_bit(),
    ;

    /// The value owning the bit index `v`.  The index must be one of the
    /// enumeration's valid positions, which every caller inside the crate
    /// establishes from a bit it found set under the valid-bits mask.
    fn enum_from_u32(v: u32) -> (r: Self)
        requires
            nth_bit(Self::spec_all_bits(), v as nat),
        ensures
            r.spec_bit() == v,
    ;
}

/// Marker for enumerations whose backing width is part of their public
/// guarantee.  Sets of such an enumeration can cross a foreign-function or
/// serialization boundary as their backing word, through the zero-cost
/// `as_repr` and `from_repr` family.
pub trait EnumSetTypeWithRepr: EnumSetType {

}

} // verus!
