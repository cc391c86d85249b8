//! The invariant-preserving set type.
//!
//! A set is a single backing word paired with an enumeration type.  The
//! central invariant, [`EnumSet::wf`], demands that every bit outside the
//! enumeration's valid-bits mask is clear; every public operation preserves
//! it, and the iteration and conversion layers rely on it unconditionally.

use vstd::prelude::*;
use vstd::arithmetic::power2::pow2;
use crate::bits::{
    and_nat, bit_len, comp_nat, is_submask, nth_bit, or_nat, popcount, xor_nat,
};
use crate::bits::{
    lemma_and_mask_submask, lemma_and_nat_comm, lemma_and_not_empty, lemma_bit_len_char,
    lemma_high_zeros_bound, lemma_or_nat_zero, lemma_popcount_bound, lemma_pow2_nth_bit,
    lemma_submask_and_any, lemma_submask_bits, lemma_submask_or, lemma_submask_xor,
};
use crate::repr::EnumSetTypeRepr;
use crate::traits::{EnumSetType, EnumSetTypeWithRepr};

verus! {

/// An efficient set of enumeration values.
///
/// The set is a single value of the backing integer type; a value with bit
/// index `n` is stored in the `n`-th least significant bit.  Bits that do not
/// correspond to any value are always clear.
pub struct EnumSet<T: EnumSetType> {
    repr: T::Repr,
}

impl<T: EnumSetType> Clone for EnumSet<T> {
    fn clone(&self) -> (r: Self)
        ensures
            r@ == self@,
    {
        EnumSet { repr: self.repr }
    }
}

impl<T: EnumSetType> Copy for EnumSet<T> {

}

impl<T: EnumSetType> View for EnumSet<T> {
    type V = nat;

    closed spec fn view(&self) -> nat {
        self.repr.as_nat()
    }
}

impl<T: EnumSetType> PartialEq for EnumSet<T> {
    fn eq(&self, other: &Self) -> (r: bool) {
        self.repr.eq_repr(other.repr)
    }
}

impl<T: EnumSetType> vstd::std_specs::cmp::PartialEqSpecImpl for EnumSet<T> {
    open spec fn obeys_eq_spec() -> bool {
        true
    }

    open spec fn eq_spec(&self, other: &Self) -> bool {
        self@ == other@
    }
}

impl<T: EnumSetType> Eq for EnumSet<T> {

}

impl<T: EnumSetType> Default for EnumSet<T> {
    /// Returns an empty set.
    fn default() -> (r: Self)
        ensures
            r@ == 0,
            r.wf(),
    {
        EnumSet::new()
    }
}

impl<T: EnumSetType> EnumSet<T> {
    /// The backing width of this set type.
    pub open spec fn spec_width() -> nat {
        <T::Repr as EnumSetTypeRepr>::spec_width() as nat
    }

    /// The central invariant: no bit outside the valid-bits mask is set.
    pub open spec fn wf(self) -> bool {
        is_submask(self@, T::spec_all_bits())
    }

    /// Whether the value `t` is in the set, at the specification level.
    pub open spec fn spec_contains(self, t: T) -> bool {
        nth_bit(self@, t.spec_bit() as nat)
    }

    /// The value of the set is bounded by the backing width.
    pub proof fn lemma_view_bound(self)
        ensures
            self@ < pow2(Self::spec_width()),
    {
        self.repr.lemma_bound();
    }

    /// The backing word, for the iteration and conversion layers.
    pub(crate) fn repr_of(&self) -> (r: T::Repr)
        ensures
            r.as_nat() == self@,
    {
        self.repr
    }

    /// Wraps a backing word that is already known to satisfy the invariant.
    pub(crate) fn wrap_repr(bits: T::Repr) -> (r: Self)
        requires
            is_submask(bits.as_nat(), T::spec_all_bits()),
        ensures
            r@ == bits.as_nat(),
            r.wf(),
    {
        EnumSet { repr: bits }
    }

    /// Creates an empty set.
    pub fn new() -> (r: Self)
        ensures
            r@ == 0,
            r.wf(),
            forall|v: T| !(#[trigger] r.spec_contains(v)),
    {
        proof {
            assert forall|v: T| !nth_bit(0, v.spec_bit() as nat) by {
                crate::bits::lemma_nth_bit_zero(v.spec_bit() as nat);
            }
        }
        EnumSet { repr: T::Repr::empty() }
    }

    /// Creates an empty set; an alias for [`EnumSet::new`].
    pub fn empty() -> (r: Self)
        ensures
            r@ == 0,
            r.wf(),
            forall|v: T| !(#[trigger] r.spec_contains(v)),
    {
        Self::new()
    }

    /// Returns a set containing the single value `t`, and nothing else.
    pub fn only(t: T) -> (r: Self)
        ensures
            r@ == pow2(t.spec_bit() as nat),
            r.wf(),
            r.spec_contains(t),
            forall|u: T| #[trigger] r.spec_contains(u) == (u == t),
    {
        let mut s = Self::new();
        s.insert(t);
        proof {
            lemma_or_nat_zero(pow2(t.spec_bit() as nat));
            lemma_pow2_nth_bit(t.spec_bit() as nat, t.spec_bit() as nat);
        }
        s
    }

    /// Returns a set containing every valid value of the enumeration.
    pub fn all() -> (r: Self)
        ensures
            r@ == T::spec_all_bits(),
            r.wf(),
            forall|v: T| #[trigger] r.spec_contains(v),
    {
        proof {
            assert forall|v: T| nth_bit(T::spec_all_bits(), v.spec_bit() as nat) by {
                v.lemma_bit();
            }
        }
        let repr = T::all_bits();
        proof {
            repr.lemma_bound();
            T::lemma_all_bits();
            lemma_submask_bits(T::spec_all_bits(), T::spec_all_bits(), Self::spec_width());
        }
        EnumSet { repr }
    }

    /// Total number of bits in use: the position of the highest valid bit,
    /// plus one.  Differs from [`EnumSet::variant_count`] only for
    /// enumerations with sparse bit indices.
    pub fn bit_width() -> (r: u32)
        ensures
            r == bit_len(T::spec_all_bits()),
    {
        let m = T::all_bits();
        let lz = m.leading_zeros_repr();
        proof {
            m.lemma_bound();
            let w = Self::spec_width();
            if m.as_nat() != 0 {
                let p = (<T::Repr as EnumSetTypeRepr>::spec_width() - 1 - lz) as nat;
                lemma_high_zeros_bound(m.as_nat(), w, p);
                lemma_bit_len_char(m.as_nat(), p);
            }
        }
        <T::Repr as EnumSetTypeRepr>::width() - lz
    }

    /// The number of valid values of the enumeration: the population count
    /// of the valid-bits mask.
    pub fn variant_count() -> (r: u32)
        ensures
            r == popcount(T::spec_all_bits()),
    {
        T::all_bits().count_ones_repr()
    }

    /// Returns the number of values in the set.
    pub fn len(&self) -> (r: usize)
        ensures
            r == popcount(self@),
    {
        proof {
            self.repr.lemma_bound();
            lemma_popcount_bound(self@, Self::spec_width());
        }
        self.repr.count_ones_repr() as usize
    }

    /// Returns `true` if the set contains no values.
    pub fn is_empty(&self) -> (r: bool)
        ensures
            r == (self@ == 0),
    {
        self.repr.is_empty()
    }

    /// Removes all values from the set.
    pub fn clear(&mut self)
        ensures
            final(self)@ == 0,
            final(self).wf(),
            forall|v: T| !(#[trigger] final(self).spec_contains(v)),
    {
        proof {
            assert forall|v: T| !nth_bit(0, v.spec_bit() as nat) by {
                crate::bits::lemma_nth_bit_zero(v.spec_bit() as nat);
            }
        }
        self.repr = T::Repr::empty();
    }

    /// Returns `true` if the two sets share no values.
    pub fn is_disjoint(&self, other: Self) -> (r: bool)
        ensures
            r == (and_nat(self@, other@) == 0),
            self.wf() ==> r == (forall|v: T|
                #[trigger] self.spec_contains(v) ==> !other.spec_contains(v)),
    {
        let result = self.repr.bit_and(other.repr).is_empty();
        proof {
            if self.wf() {
                let w = Self::spec_width();
                self.repr.lemma_bound();
                other.repr.lemma_bound();
                T::lemma_all_bits();
                if and_nat(self@, other@) == 0 {
                    assert forall|v: T| #[trigger] self.spec_contains(v)
                        implies !other.spec_contains(v) by {
                        crate::bits::lemma_and_nat_bit(self@, other@, v.spec_bit() as nat);
                        crate::bits::lemma_nth_bit_zero(v.spec_bit() as nat);
                    }
                } else {
                    let a = and_nat(self@, other@);
                    crate::bits::lemma_nonzero_has_bit(a);
                    let i = choose|i: nat| #[trigger] nth_bit(a, i);
                    crate::bits::lemma_and_nat_bit(self@, other@, i);
                    crate::bits::lemma_and_nat_le(self@, other@);
                    crate::bits::lemma_nth_bit_bound(a, i);
                    if i >= w {
                        if i > w {
                            vstd::arithmetic::power2::lemma_pow2_strictly_increases(w, i);
                        }
                        assert(false);
                    }
                    lemma_submask_bits(self@, T::spec_all_bits(), w);
                    T::lemma_mask_bit_has_value(i as u32);
                    let v = choose|v: T| (#[trigger] v.spec_bit()) == i as u32;
                    assert(self.spec_contains(v) && other.spec_contains(v));
                }
            }
        }
        result
    }

    /// Returns `true` if every value of `other` is in `self`.
    pub fn is_superset(&self, other: Self) -> (r: bool)
        ensures
            r == is_submask(other@, self@),
            self.wf() && other.wf() ==> r == (forall|v: T|
                #[trigger] other.spec_contains(v) ==> self.spec_contains(v)),
    {
        proof {
            lemma_and_nat_comm(self@, other@);
            if self.wf() && other.wf() {
                let w = Self::spec_width();
                self.repr.lemma_bound();
                other.repr.lemma_bound();
                T::lemma_all_bits();
                lemma_submask_bits(other@, self@, w);
                if is_submask(other@, self@) {
                    assert forall|v: T| #[trigger] other.spec_contains(v)
                        implies self.spec_contains(v) by {
                        v.lemma_bit();
                    }
                } else {
                    let i = choose|i: nat|
                        !(i < w ==> (#[trigger] nth_bit(other@, i) ==> nth_bit(self@, i)));
                    lemma_submask_bits(other@, T::spec_all_bits(), w);
                    T::lemma_mask_bit_has_value(i as u32);
                    let v = choose|v: T| (#[trigger] v.spec_bit()) == i as u32;
                    assert(other.spec_contains(v) && !self.spec_contains(v));
                }
            }
        }
        self.repr.bit_and(other.repr).eq_repr(other.repr)
    }

    /// Returns `true` if every value of `self` is in `other`.
    pub fn is_subset(&self, other: Self) -> (r: bool)
        ensures
            r == is_submask(self@, other@),
            self.wf() && other.wf() ==> r == (forall|v: T|
                #[trigger] self.spec_contains(v) ==> other.spec_contains(v)),
    {
        other.is_superset(*self)
    }

    /// Returns a set containing the values present in either set.
    pub fn union(&self, other: Self) -> (r: Self)
        ensures
            r@ == or_nat(self@, other@),
            self.wf() && other.wf() ==> r.wf(),
            forall|v: T|
                #[trigger] r.spec_contains(v) == (self.spec_contains(v) || other.spec_contains(
                    v,
                )),
    {
        proof {
            if self.wf() && other.wf() {
                self.repr.lemma_bound();
                other.repr.lemma_bound();
                T::lemma_all_bits();
                lemma_submask_or(self@, other@, T::spec_all_bits(), Self::spec_width());
            }
        }
        let result = EnumSet { repr: self.repr.bit_or(other.repr) };
        proof {
            assert forall|v: T|
                #[trigger] result.spec_contains(v) == (self.spec_contains(v)
                    || other.spec_contains(v)) by {
                crate::bits::lemma_or_nat_bit(self@, other@, v.spec_bit() as nat);
            }
        }
        result
    }

    /// Returns a set containing the values present in both sets.
    pub fn intersection(&self, other: Self) -> (r: Self)
        ensures
            r@ == and_nat(self@, other@),
            self.wf() ==> r.wf(),
            forall|v: T|
                #[trigger] r.spec_contains(v) == (self.spec_contains(v) && other.spec_contains(
                    v,
                )),
    {
        proof {
            if self.wf() {
                self.repr.lemma_bound();
                other.repr.lemma_bound();
                T::lemma_all_bits();
                lemma_submask_and_any(self@, other@, T::spec_all_bits(), Self::spec_width());
            }
        }
        let result = EnumSet { repr: self.repr.bit_and(other.repr) };
        proof {
            assert forall|v: T|
                #[trigger] result.spec_contains(v) == (self.spec_contains(v)
                    && other.spec_contains(v)) by {
                crate::bits::lemma_and_nat_bit(self@, other@, v.spec_bit() as nat);
            }
        }
        result
    }

    /// Returns a set containing the values present in `self` but not in
    /// `other`.
    pub fn difference(&self, other: Self) -> (r: Self)
        ensures
            r@ == and_nat(self@, comp_nat(other@, Self::spec_width())),
            self.wf() ==> r.wf(),
            forall|v: T|
                #[trigger] r.spec_contains(v) == (self.spec_contains(v) && !other.spec_contains(
                    v,
                )),
    {
        proof {
            self.repr.lemma_bound();
            other.repr.lemma_bound();
            if self.wf() {
                T::lemma_all_bits();
                let c = comp_nat(other@, Self::spec_width());
                crate::bits::lemma_comp_nat_bound(other@, Self::spec_width());
                lemma_submask_and_any(self@, c, T::spec_all_bits(), Self::spec_width());
            }
        }
        let result = EnumSet { repr: self.repr.and_not(other.repr) };
        proof {
            let w = Self::spec_width();
            assert forall|v: T|
                #[trigger] result.spec_contains(v) == (self.spec_contains(v)
                    && !other.spec_contains(v)) by {
                v.lemma_bit();
                crate::bits::lemma_and_nat_bit(self@, comp_nat(other@, w), v.spec_bit() as nat);
                crate::bits::lemma_comp_nat_bit(other@, w, v.spec_bit() as nat);
            }
        }
        result
    }

    /// Returns a set containing the values present in exactly one of the two
    /// sets.
    pub fn symmetrical_difference(&self, other: Self) -> (r: Self)
        ensures
            r@ == xor_nat(self@, other@),
            self.wf() && other.wf() ==> r.wf(),
            forall|v: T|
                #[trigger] r.spec_contains(v) == (self.spec_contains(v) != other.spec_contains(
                    v,
                )),
    {
        proof {
            if self.wf() && other.wf() {
                self.repr.lemma_bound();
                other.repr.lemma_bound();
                T::lemma_all_bits();
                lemma_submask_xor(self@, other@, T::spec_all_bits(), Self::spec_width());
            }
        }
        let result = EnumSet { repr: self.repr.bit_xor(other.repr) };
        proof {
            assert forall|v: T|
                #[trigger] result.spec_contains(v) == (self.spec_contains(v)
                    != other.spec_contains(v)) by {
                crate::bits::lemma_xor_nat_bit(self@, other@, v.spec_bit() as nat);
            }
        }
        result
    }

    /// Returns a set containing every valid value not in this set.
    pub fn complement(&self) -> (r: Self)
        ensures
            r@ == and_nat(comp_nat(self@, Self::spec_width()), T::spec_all_bits()),
            r.wf(),
            forall|v: T| #[trigger] r.spec_contains(v) == !self.spec_contains(v),
    {
        proof {
            self.repr.lemma_bound();
            T::lemma_all_bits();
            let c = comp_nat(self@, Self::spec_width());
            crate::bits::lemma_comp_nat_bound(self@, Self::spec_width());
            lemma_and_mask_submask(c, T::spec_all_bits(), Self::spec_width());
        }
        let result = EnumSet { repr: self.repr.bit_not().bit_and(T::all_bits()) };
        proof {
            let w = Self::spec_width();
            assert forall|v: T| #[trigger] result.spec_contains(v) == !self.spec_contains(v) by {
                v.lemma_bit();
                crate::bits::lemma_and_nat_bit(
                    comp_nat(self@, w),
                    T::spec_all_bits(),
                    v.spec_bit() as nat,
                );
                crate::bits::lemma_comp_nat_bit(self@, w, v.spec_bit() as nat);
            }
        }
        result
    }

    /// Checks whether the set contains `value`.
    pub fn contains(&self, value: T) -> (r: bool)
        ensures
            r == self.spec_contains(value),
    {
        proof {
            value.lemma_bit();
        }
        self.repr.has_bit(value.enum_into_u32())
    }

    /// Adds `value` to the set; returns `true` if it was newly added.
    pub fn insert(&mut self, value: T) -> (r: bool)
        ensures
            final(self)@ == or_nat(old(self)@, pow2(value.spec_bit() as nat)),
            r == !old(self).spec_contains(value),
            old(self).wf() ==> final(self).wf(),
            final(self).spec_contains(value),
            forall|u: T|
                #[trigger] final(self).spec_contains(u) == (old(self).spec_contains(u) || u
                    == value),
    {
        let newly = !self.contains(value);
        proof {
            value.lemma_bit();
            self.repr.lemma_bound();
            T::lemma_all_bits();
            let b = value.spec_bit() as nat;
            vstd::arithmetic::power2::lemma_pow2_strictly_increases(b, Self::spec_width());
            if old(self).wf() {
                lemma_submask_bits(pow2(b), T::spec_all_bits(), Self::spec_width());
                assert forall|i: nat| i < Self::spec_width() implies (nth_bit(pow2(b), i)
                    ==> nth_bit(T::spec_all_bits(), i)) by {
                    lemma_pow2_nth_bit(b, i);
                }
                lemma_submask_or(old(self)@, pow2(b), T::spec_all_bits(), Self::spec_width());
            }
            crate::bits::lemma_or_nat_bit(old(self)@, pow2(b), b);
            lemma_pow2_nth_bit(b, b);
        }
        self.repr = self.repr.add_bit(value.enum_into_u32());
        proof {
            let b = value.spec_bit() as nat;
            assert forall|u: T|
                #[trigger] self.spec_contains(u) == (old(self).spec_contains(u) || u
                    == value) by {
                crate::bits::lemma_or_nat_bit(old(self)@, pow2(b), u.spec_bit() as nat);
                lemma_pow2_nth_bit(b, u.spec_bit() as nat);
                if u.spec_bit() == value.spec_bit() {
                    u.lemma_bit_injective(value);
                }
            }
        }
        newly
    }

    /// Removes `value` from the set; returns `true` if it was present.
    pub fn remove(&mut self, value: T) -> (r: bool)
        ensures
            final(self)@ == and_nat(
                old(self)@,
                comp_nat(pow2(value.spec_bit() as nat), Self::spec_width()),
            ),
            r == old(self).spec_contains(value),
            old(self).wf() ==> final(self).wf(),
            !final(self).spec_contains(value),
            forall|u: T|
                #[trigger] final(self).spec_contains(u) == (old(self).spec_contains(u) && u
                    != value),
    {
        let present = self.contains(value);
        proof {
            value.lemma_bit();
            self.repr.lemma_bound();
            T::lemma_all_bits();
            let b = value.spec_bit() as nat;
            let w = Self::spec_width();
            vstd::arithmetic::power2::lemma_pow2_strictly_increases(b, w);
            crate::bits::lemma_comp_nat_bound(pow2(b), w);
            if old(self).wf() {
                lemma_submask_and_any(old(self)@, comp_nat(pow2(b), w), T::spec_all_bits(), w);
            }
            crate::bits::lemma_and_nat_bit(old(self)@, comp_nat(pow2(b), w), b);
            crate::bits::lemma_comp_nat_bit(pow2(b), w, b);
            lemma_pow2_nth_bit(b, b);
        }
        self.repr = self.repr.remove_bit(value.enum_into_u32());
        proof {
            let b = value.spec_bit() as nat;
            let w = Self::spec_width();
            assert forall|u: T|
                #[trigger] self.spec_contains(u) == (old(self).spec_contains(u) && u
                    != value) by {
                u.lemma_bit();
                crate::bits::lemma_and_nat_bit(
                    old(self)@,
                    comp_nat(pow2(b), w),
                    u.spec_bit() as nat,
                );
                crate::bits::lemma_comp_nat_bit(pow2(b), w, u.spec_bit() as nat);
                lemma_pow2_nth_bit(b, u.spec_bit() as nat);
                if u.spec_bit() == value.spec_bit() {
                    u.lemma_bit_injective(value);
                }
            }
        }
        present
    }

    /// Adds every value of `other` to the set.
    pub fn insert_all(&mut self, other: Self)
        ensures
            final(self)@ == or_nat(old(self)@, other@),
            old(self).wf() && other.wf() ==> final(self).wf(),
            forall|u: T|
                #[trigger] final(self).spec_contains(u) == (old(self).spec_contains(u)
                    || other.spec_contains(u)),
    {
        proof {
            if old(self).wf() && other.wf() {
                self.repr.lemma_bound();
                other.repr.lemma_bound();
                T::lemma_all_bits();
                lemma_submask_or(old(self)@, other@, T::spec_all_bits(), Self::spec_width());
            }
        }
        self.repr = self.repr.bit_or(other.repr);
        proof {
            assert forall|u: T|
                #[trigger] self.spec_contains(u) == (old(self).spec_contains(u)
                    || other.spec_contains(u)) by {
                crate::bits::lemma_or_nat_bit(old(self)@, other@, u.spec_bit() as nat);
            }
        }
    }

    /// Removes every value of `other` from the set.
    pub fn remove_all(&mut self, other: Self)
        ensures
            final(self)@ == and_nat(old(self)@, comp_nat(other@, Self::spec_width())),
            old(self).wf() ==> final(self).wf(),
            forall|u: T|
                #[trigger] final(self).spec_contains(u) == (old(self).spec_contains(u)
                    && !other.spec_contains(u)),
    {
        proof {
            if old(self).wf() {
                self.repr.lemma_bound();
                other.repr.lemma_bound();
                T::lemma_all_bits();
                let c = comp_nat(other@, Self::spec_width());
                crate::bits::lemma_comp_nat_bound(other@, Self::spec_width());
                lemma_submask_and_any(old(self)@, c, T::spec_all_bits(), Self::spec_width());
            }
        }
        self.repr = self.repr.and_not(other.repr);
        proof {
            let w = Self::spec_width();
            assert forall|u: T|
                #[trigger] self.spec_contains(u) == (old(self).spec_contains(u)
                    && !other.spec_contains(u)) by {
                u.lemma_bit();
                other.repr.lemma_bound();
                crate::bits::lemma_and_nat_bit(old(self)@, comp_nat(other@, w), u.spec_bit() as nat);
                crate::bits::lemma_comp_nat_bit(other@, w, u.spec_bit() as nat);
            }
        }
    }

    /// Whether the set is exactly the singleton holding `value`: how a set
    /// compares to a bare enumeration value.
    pub fn is_only(&self, value: T) -> (r: bool)
        ensures
            r == (self@ == pow2(value.spec_bit() as nat)),
    {
        proof {
            value.lemma_bit();
            lemma_or_nat_zero(pow2(value.spec_bit() as nat));
        }
        let single = Self::only(value);
        self.repr.eq_repr(single.repr)
    }

    /// The backing word of the set; zero-cost and infallible.  Available for
    /// enumerations that guarantee their backing width.
    pub fn as_repr(&self) -> (r: T::Repr) where T: EnumSetTypeWithRepr
        ensures
            r.as_nat() == self@,
    {
        self.repr
    }

    /// Builds a set from a backing word without checking the valid-bits
    /// invariant; the caller must have established it already.
    pub fn from_repr_unchecked(bits: T::Repr) -> (r: Self) where T: EnumSetTypeWithRepr
        requires
            is_submask(bits.as_nat(), T::spec_all_bits()),
        ensures
            r@ == bits.as_nat(),
            r.wf(),
    {
        EnumSet { repr: bits }
    }

    /// Builds a set from a backing word whose invalid bits must all be
    /// clear; the sibling [`EnumSet::try_from_repr`] reports that case as
    /// `None` instead of refusing the input.
    pub fn from_repr(bits: T::Repr) -> (r: Self) where T: EnumSetTypeWithRepr
        requires
            is_submask(bits.as_nat(), T::spec_all_bits()),
        ensures
            r@ == bits.as_nat(),
            r.wf(),
    {
        match Self::try_from_repr(bits) {
            Some(s) => s,
            None => {
                proof {
                    assert(false);
                }
                Self::new()
            },
        }
    }

    /// Attempts to build a set from a backing word: `Some` exactly when no
    /// invalid bit is set.
    pub fn try_from_repr(bits: T::Repr) -> (r: Option<Self>) where T: EnumSetTypeWithRepr
        ensures
            is_submask(bits.as_nat(), T::spec_all_bits()) ==> (r matches Some(s) && s@
                == bits.as_nat() && s.wf()),
            !is_submask(bits.as_nat(), T::spec_all_bits()) ==> r is None,
    {
        let mask = T::all_bits();
        proof {
            bits.lemma_bound();
            T::lemma_all_bits();
            crate::bits::lemma_comp_nat_bound(T::spec_all_bits(), Self::spec_width());
            lemma_and_not_empty(bits.as_nat(), T::spec_all_bits(), Self::spec_width());
        }
        if bits.and_not(mask).is_empty() {
            Some(EnumSet { repr: bits })
        } else {
            None
        }
    }

    /// Builds a set from a backing word, clearing any invalid bits.
    pub fn from_repr_truncated(bits: T::Repr) -> (r: Self) where T: EnumSetTypeWithRepr
        ensures
            r@ == and_nat(bits.as_nat(), T::spec_all_bits()),
            r.wf(),
    {
        proof {
            bits.lemma_bound();
            T::lemma_all_bits();
            lemma_and_mask_submask(bits.as_nat(), T::spec_all_bits(), Self::spec_width());
        }
        EnumSet { repr: bits.bit_and(T::all_bits()) }
    }
}

} // verus!
