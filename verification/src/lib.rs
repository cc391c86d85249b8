//! A compact bitset library for closed enumerations.
//!
//! Membership of each possible enumeration value is represented by a single
//! bit of an unsigned backing integer, and every set operation reduces to
//! integer bit-twiddling.  The backing integer is one of the five unsigned
//! widths (8/16/32/64/128 bits), chosen once per enumeration.  Every public
//! operation preserves the central invariant: no bit outside the
//! enumeration's valid-bits mask is ever set.

mod bits;
mod convert;
mod examples;
mod fmt;
mod iter;
mod laws;
mod positions;
mod repr;
mod set_type;
mod spread;
mod subsets;
mod traits;

pub use examples::Small;
pub use examples::Sparse;
pub use repr::EnumSetTypeRepr;
pub use iter::EnumSetIter;
pub use subsets::EnumSetSubsetIter;
pub use set_type::EnumSet;
pub use fmt::EnumSetTypeNamed;
pub use traits::EnumSetType;
pub use traits::EnumSetTypeWithRepr;

pub use positions::bit_positions;
pub use laws::lemma_invariant_no_invalid_bits;
pub use laws::lemma_union_commutes;
pub use laws::lemma_union_associates;
pub use laws::lemma_intersection_distributes;
pub use laws::lemma_complement_involutes;
pub use laws::lemma_difference_is_masked_intersection;
pub use laws::lemma_symmetric_difference_splits;
pub use laws::lemma_only_membership;
pub use laws::lemma_conversion_round_trip;
pub use laws::lemma_iteration_order;
pub use laws::lemma_subset_enumeration;
pub use spread::spread;
pub use spread::rippler;
pub use spread::lemma_spread_onto;
pub use fmt::value_at;
pub use fmt::spec_labels;
pub use bits::nth_bit;
pub use bits::popcount;
pub use bits::bit_len;
pub use bits::and_nat;
pub use bits::or_nat;
pub use bits::xor_nat;
pub use bits::comp_nat;
pub use bits::is_submask;
pub use bits::sub_mod;
