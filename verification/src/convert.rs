//! The numeric conversion layer.
//!
//! For each supported unsigned width, and for the platform-width integer,
//! a set can be exported and imported in three forms: a checked form whose
//! sibling panics on inputs it refuses, a checked form returning `None`,
//! and a truncating form that silently discards what does not fit.  An
//! unchecked import, whose precondition is the valid-bits invariant itself,
//! completes the family.  Everything routes through the widest supported
//! integer, losslessly.

use vstd::prelude::*;
use vstd::arithmetic::power2::{pow2, lemma2_to64};
use vstd::arithmetic::div_mod::lemma_small_mod;
use crate::bits::{and_nat, is_submask};
use crate::bits::{
    lemma_and_mask_submask, lemma_and_nat_mod, lemma_pow2_128, lemma_submask_le,
};
use crate::repr::EnumSetTypeRepr;
use crate::set_type::EnumSet;
use crate::traits::EnumSetType;

verus! {

impl<T: EnumSetType> EnumSet<T> {
    /// Tries to return a `u8` holding the set's backing bits: `Some`
    /// exactly when they fit.
    pub fn try_as_u8(&self) -> (r: Option<u8>)
        ensures
            self@ < pow2(8) ==> (r matches Some(x) && x as nat == self@),
            self@ >= pow2(8) ==> r is None,
    {
        proof {
            lemma2_to64();
        }
        let v = self.repr_of().to_u128();
        if v <= 0xffu128 {
            Some(v as u8)
        } else {
            None
        }
    }

    /// Returns a `u8` holding the set's backing bits; its checked sibling
    /// [`EnumSet::try_as_u8`] reports a value that does not fit as `None`
    /// instead of refusing it.
    pub fn as_u8(&self) -> (r: u8)
        requires
            self@ < pow2(8),
        ensures
            r as nat == self@,
    {
        match self.try_as_u8() {
            Some(x) => x,
            None => {
                proof {
                    assert(false);
                }
                0
            },
        }
    }

    /// Returns a `u8` holding the set's backing bits, discarding any that
    /// do not fit.
    pub fn as_u8_truncated(&self) -> (r: u8)
        ensures
            r as nat == self@ % pow2(8),
    {
        <u8 as EnumSetTypeRepr>::from_u128_truncated(self.repr_of().to_u128())
    }

    /// Builds a set from a `u8`; its checked sibling
    /// [`EnumSet::try_from_u8`] reports invalid bits as `None` instead of
    /// refusing them.
    pub fn from_u8(bits: u8) -> (r: Self)
        requires
            is_submask(bits as nat, T::spec_all_bits()),
        ensures
            r@ == bits as nat,
            r.wf(),
    {
        match Self::try_from_u8(bits) {
            Some(s) => s,
            None => {
                proof {
                    assert(false);
                }
                Self::new()
            },
        }
    }

    /// Tries to build a set from a `u8`: `Some` exactly when no invalid
    /// bit is set.
    pub fn try_from_u8(bits: u8) -> (r: Option<Self>)
        ensures
            is_submask(bits as nat, T::spec_all_bits()) ==> (r matches Some(s) && s@ == bits as nat
                && s.wf()),
            !is_submask(bits as nat, T::spec_all_bits()) ==> r is None,
    {
        let b: u128 = bits as u128;
        let word = <T::Repr as EnumSetTypeRepr>::from_u128_truncated(b);
        let ghost wd = EnumSet::<T>::spec_width();
        proof {
            T::lemma_all_bits();
            word.lemma_bound();
            if (bits as nat) < pow2(wd) {
                lemma_small_mod(bits as nat, pow2(wd));
            } else {
                if is_submask(bits as nat, T::spec_all_bits()) {
                    lemma_submask_le(bits as nat, T::spec_all_bits());
                    assert(false);
                }
            }
            crate::bits::lemma_comp_nat_bound(T::spec_all_bits(), wd);
            crate::bits::lemma_and_not_empty(word.as_nat(), T::spec_all_bits(), wd);
        }
        if word.to_u128() == b {
            let mask = T::all_bits();
            if word.and_not(mask).is_empty() {
                Some(EnumSet::wrap_repr(word))
            } else {
                None
            }
        } else {
            None
        }
    }

    /// Builds a set from a `u8`, clearing any invalid bits.
    pub fn from_u8_truncated(bits: u8) -> (r: Self)
        ensures
            r@ == and_nat(bits as nat, T::spec_all_bits()),
            r.wf(),
    {
        let word = <T::Repr as EnumSetTypeRepr>::from_u128_truncated(bits as u128);
        let ghost wd = EnumSet::<T>::spec_width();
        proof {
            T::lemma_all_bits();
            word.lemma_bound();
            lemma_and_nat_mod(bits as nat, T::spec_all_bits(), wd);
            lemma_and_mask_submask(word.as_nat(), T::spec_all_bits(), wd);
        }
        EnumSet::wrap_repr(word.bit_and(T::all_bits()))
    }

    /// Builds a set from a `u8` without checking for invalid bits; the
    /// caller must have established the valid-bits invariant already.
    pub fn from_u8_unchecked(bits: u8) -> (r: Self)
        requires
            is_submask(bits as nat, T::spec_all_bits()),
        ensures
            r@ == bits as nat,
            r.wf(),
    {
        let word = <T::Repr as EnumSetTypeRepr>::from_u128_truncated(bits as u128);
        proof {
            T::lemma_all_bits();
            lemma_submask_le(bits as nat, T::spec_all_bits());
            lemma_small_mod(bits as nat, pow2(EnumSet::<T>::spec_width()));
        }
        EnumSet::wrap_repr(word)
    }

    /// Tries to return a `u16` holding the set's backing bits: `Some`
    /// exactly when they fit.
    pub fn try_as_u16(&self) -> (r: Option<u16>)
        ensures
            self@ < pow2(16) ==> (r matches Some(x) && x as nat == self@),
            self@ >= pow2(16) ==> r is None,
    {
        proof {
            lemma2_to64();
        }
        let v = self.repr_of().to_u128();
        if v <= 0xffffu128 {
            Some(v as u16)
        } else {
            None
        }
    }

    /// Returns a `u16` holding the set's backing bits; its checked sibling
    /// [`EnumSet::try_as_u16`] reports a value that does not fit as `None`
    /// instead of refusing it.
    pub fn as_u16(&self) -> (r: u16)
        requires
            self@ < pow2(16),
        ensures
            r as nat == self@,
    {
        match self.try_as_u16() {
            Some(x) => x,
            None => {
                proof {
                    assert(false);
                }
                0
            },
        }
    }

    /// Returns a `u16` holding the set's backing bits, discarding any that
    /// do not fit.
    pub fn as_u16_truncated(&self) -> (r: u16)
        ensures
            r as nat == self@ % pow2(16),
    {
        <u16 as EnumSetTypeRepr>::from_u128_truncated(self.repr_of().to_u128())
    }

    /// Builds a set from a `u16`; its checked sibling
    /// [`EnumSet::try_from_u16`] reports invalid bits as `None` instead of
    /// refusing them.
    pub fn from_u16(bits: u16) -> (r: Self)
        requires
            is_submask(bits as nat, T::spec_all_bits()),
        ensures
            r@ == bits as nat,
            r.wf(),
    {
        match Self::try_from_u16(bits) {
            Some(s) => s,
            None => {
                proof {
                    assert(false);
                }
                Self::new()
            },
        }
    }

    /// Tries to build a set from a `u16`: `Some` exactly when no invalid
    /// bit is set.
    pub fn try_from_u16(bits: u16) -> (r: Option<Self>)
        ensures
            is_submask(bits as nat, T::spec_all_bits()) ==> (r matches Some(s) && s@ == bits as nat
                && s.wf()),
            !is_submask(bits as nat, T::spec_all_bits()) ==> r is None,
    {
        let b: u128 = bits as u128;
        let word = <T::Repr as EnumSetTypeRepr>::from_u128_truncated(b);
        let ghost wd = EnumSet::<T>::spec_width();
        proof {
            T::lemma_all_bits();
            word.lemma_bound();
            if (bits as nat) < pow2(wd) {
                lemma_small_mod(bits as nat, pow2(wd));
            } else {
                if is_submask(bits as nat, T::spec_all_bits()) {
                    lemma_submask_le(bits as nat, T::spec_all_bits());
                    assert(false);
                }
            }
            crate::bits::lemma_comp_nat_bound(T::spec_all_bits(), wd);
            crate::bits::lemma_and_not_empty(word.as_nat(), T::spec_all_bits(), wd);
        }
        if word.to_u128() == b {
            let mask = T::all_bits();
            if word.and_not(mask).is_empty() {
                Some(EnumSet::wrap_repr(word))
            } else {
                None
            }
        } else {
            None
        }
    }

    /// Builds a set from a `u16`, clearing any invalid bits.
    pub fn from_u16_truncated(bits: u16) -> (r: Self)
        ensures
            r@ == and_nat(bits as nat, T::spec_all_bits()),
            r.wf(),
    {
        let word = <T::Repr as EnumSetTypeRepr>::from_u128_truncated(bits as u128);
        let ghost wd = EnumSet::<T>::spec_width();
        proof {
            T::lemma_all_bits();
            word.lemma_bound();
            lemma_and_nat_mod(bits as nat, T::spec_all_bits(), wd);
            lemma_and_mask_submask(word.as_nat(), T::spec_all_bits(), wd);
        }
        EnumSet::wrap_repr(word.bit_and(T::all_bits()))
    }

    /// Builds a set from a `u16` without checking for invalid bits; the
    /// caller must have established the valid-bits invariant already.
    pub fn from_u16_unchecked(bits: u16) -> (r: Self)
        requires
            is_submask(bits as nat, T::spec_all_bits()),
        ensures
            r@ == bits as nat,
            r.wf(),
    {
        let word = <T::Repr as EnumSetTypeRepr>::from_u128_truncated(bits as u128);
        proof {
            T::lemma_all_bits();
            lemma_submask_le(bits as nat, T::spec_all_bits());
            lemma_small_mod(bits as nat, pow2(EnumSet::<T>::spec_width()));
        }
        EnumSet::wrap_repr(word)
    }

    /// Tries to return a `u32` holding the set's backing bits: `Some`
    /// exactly when they fit.
    pub fn try_as_u32(&self) -> (r: Option<u32>)
        ensures
            self@ < pow2(32) ==> (r matches Some(x) && x as nat == self@),
            self@ >= pow2(32) ==> r is None,
    {
        proof {
            lemma2_to64();
        }
        let v = self.repr_of().to_u128();
        if v <= 0xffff_ffffu128 {
            Some(v as u32)
        } else {
            None
        }
    }

    /// Returns a `u32` holding the set's backing bits; its checked sibling
    /// [`EnumSet::try_as_u32`] reports a value that does not fit as `None`
    /// instead of refusing it.
    pub fn as_u32(&self) -> (r: u32)
        requires
            self@ < pow2(32),
        ensures
            r as nat == self@,
    {
        match self.try_as_u32() {
            Some(x) => x,
            None => {
                proof {
                    assert(false);
                }
                0
            },
        }
    }

    /// Returns a `u32` holding the set's backing bits, discarding any that
    /// do not fit.
    pub fn as_u32_truncated(&self) -> (r: u32)
        ensures
            r as nat == self@ % pow2(32),
    {
        <u32 as EnumSetTypeRepr>::from_u128_truncated(self.repr_of().to_u128())
    }

    /// Builds a set from a `u32`; its checked sibling
    /// [`EnumSet::try_from_u32`] reports invalid bits as `None` instead of
    /// refusing them.
    pub fn from_u32(bits: u32) -> (r: Self)
        requires
            is_submask(bits as nat, T::spec_all_bits()),
        ensures
            r@ == bits as nat,
            r.wf(),
    {
        match Self::try_from_u32(bits) {
            Some(s) => s,
            None => {
                proof {
                    assert(false);
                }
                Self::new()
            },
        }
    }

    /// Tries to build a set from a `u32`: `Some` exactly when no invalid
    /// bit is set.
    pub fn try_from_u32(bits: u32) -> (r: Option<Self>)
        ensures
            is_submask(bits as nat, T::spec_all_bits()) ==> (r matches Some(s) && s@ == bits as nat
                && s.wf()),
            !is_submask(bits as nat, T::spec_all_bits()) ==> r is None,
    {
        let b: u128 = bits as u128;
        let word = <T::Repr as EnumSetTypeRepr>::from_u128_truncated(b);
        let ghost wd = EnumSet::<T>::spec_width();
        proof {
            T::lemma_all_bits();
            word.lemma_bound();
            if (bits as nat) < pow2(wd) {
                lemma_small_mod(bits as nat, pow2(wd));
            } else {
                if is_submask(bits as nat, T::spec_all_bits()) {
                    lemma_submask_le(bits as nat, T::spec_all_bits());
                    assert(false);
                }
            }
            crate::bits::lemma_comp_nat_bound(T::spec_all_bits(), wd);
            crate::bits::lemma_and_not_empty(word.as_nat(), T::spec_all_bits(), wd);
        }
        if word.to_u128() == b {
            let mask = T::all_bits();
            if word.and_not(mask).is_empty() {
                Some(EnumSet::wrap_repr(word))
            } else {
                None
            }
        } else {
            None
        }
    }

    /// Builds a set from a `u32`, clearing any invalid bits.
    pub fn from_u32_truncated(bits: u32) -> (r: Self)
        ensures
            r@ == and_nat(bits as nat, T::spec_all_bits()),
            r.wf(),
    {
        let word = <T::Repr as EnumSetTypeRepr>::from_u128_truncated(bits as u128);
        let ghost wd = EnumSet::<T>::spec_width();
        proof {
            T::lemma_all_bits();
            word.lemma_bound();
            lemma_and_nat_mod(bits as nat, T::spec_all_bits(), wd);
            lemma_and_mask_submask(word.as_nat(), T::spec_all_bits(), wd);
        }
        EnumSet::wrap_repr(word.bit_and(T::all_bits()))
    }

    /// Builds a set from a `u32` without checking for invalid bits; the
    /// caller must have established the valid-bits invariant already.
    pub fn from_u32_unchecked(bits: u32) -> (r: Self)
        requires
            is_submask(bits as nat, T::spec_all_bits()),
        ensures
            r@ == bits as nat,
            r.wf(),
    {
        let word = <T::Repr as EnumSetTypeRepr>::from_u128_truncated(bits as u128);
        proof {
            T::lemma_all_bits();
            lemma_submask_le(bits as nat, T::spec_all_bits());
            lemma_small_mod(bits as nat, pow2(EnumSet::<T>::spec_width()));
        }
        EnumSet::wrap_repr(word)
    }

    /// Tries to return a `u64` holding the set's backing bits: `Some`
    /// exactly when they fit.
    pub fn try_as_u64(&self) -> (r: Option<u64>)
        ensures
            self@ < pow2(64) ==> (r matches Some(x) && x as nat == self@),
            self@ >= pow2(64) ==> r is None,
    {
        proof {
            lemma2_to64();
        }
        let v = self.repr_of().to_u128();
        if v <= 0xffff_ffff_ffff_ffffu128 {
            Some(v as u64)
        } else {
            None
        }
    }

    /// Returns a `u64` holding the set's backing bits; its checked sibling
    /// [`EnumSet::try_as_u64`] reports a value that does not fit as `None`
    /// instead of refusing it.
    pub fn as_u64(&self) -> (r: u64)
        requires
            self@ < pow2(64),
        ensures
            r as nat == self@,
    {
        match self.try_as_u64() {
            Some(x) => x,
            None => {
                proof {
                    assert(false);
                }
                0
            },
        }
    }

    /// Returns a `u64` holding the set's backing bits, discarding any that
    /// do not fit.
    pub fn as_u64_truncated(&self) -> (r: u64)
        ensures
            r as nat == self@ % pow2(64),
    {
        <u64 as EnumSetTypeRepr>::from_u128_truncated(self.repr_of().to_u128())
    }

    /// Builds a set from a `u64`; its checked sibling
    /// [`EnumSet::try_from_u64`] reports invalid bits as `None` instead of
    /// refusing them.
    pub fn from_u64(bits: u64) -> (r: Self)
        requires
            is_submask(bits as nat, T::spec_all_bits()),
        ensures
            r@ == bits as nat,
            r.wf(),
    {
        match Self::try_from_u64(bits) {
            Some(s) => s,
            None => {
                proof {
                    assert(false);
                }
                Self::new()
            },
        }
    }

    /// Tries to build a set from a `u64`: `Some` exactly when no invalid
    /// bit is set.
    pub fn try_from_u64(bits: u64) -> (r: Option<Self>)
        ensures
            is_submask(bits as nat, T::spec_all_bits()) ==> (r matches Some(s) && s@ == bits as nat
                && s.wf()),
            !is_submask(bits as nat, T::spec_all_bits()) ==> r is None,
    {
        let b: u128 = bits as u128;
        let word = <T::Repr as EnumSetTypeRepr>::from_u128_truncated(b);
        let ghost wd = EnumSet::<T>::spec_width();
        proof {
            T::lemma_all_bits();
            word.lemma_bound();
            if (bits as nat) < pow2(wd) {
                lemma_small_mod(bits as nat, pow2(wd));
            } else {
                if is_submask(bits as nat, T::spec_all_bits()) {
                    lemma_submask_le(bits as nat, T::spec_all_bits());
                    assert(false);
                }
            }
            crate::bits::lemma_comp_nat_bound(T::spec_all_bits(), wd);
            crate::bits::lemma_and_not_empty(word.as_nat(), T::spec_all_bits(), wd);
        }
        if word.to_u128() == b {
            let mask = T::all_bits();
            if word.and_not(mask).is_empty() {
                Some(EnumSet::wrap_repr(word))
            } else {
                None
            }
        } else {
            None
        }
    }

    /// Builds a set from a `u64`, clearing any invalid bits.
    pub fn from_u64_truncated(bits: u64) -> (r: Self)
        ensures
            r@ == and_nat(bits as nat, T::spec_all_bits()),
            r.wf(),
    {
        let word = <T::Repr as EnumSetTypeRepr>::from_u128_truncated(bits as u128);
        let ghost wd = EnumSet::<T>::spec_width();
        proof {
            T::lemma_all_bits();
            word.lemma_bound();
            lemma_and_nat_mod(bits as nat, T::spec_all_bits(), wd);
            lemma_and_mask_submask(word.as_nat(), T::spec_all_bits(), wd);
        }
        EnumSet::wrap_repr(word.bit_and(T::all_bits()))
    }

    /// Builds a set from a `u64` without checking for invalid bits; the
    /// caller must have established the valid-bits invariant already.
    pub fn from_u64_unchecked(bits: u64) -> (r: Self)
        requires
            is_submask(bits as nat, T::spec_all_bits()),
        ensures
            r@ == bits as nat,
            r.wf(),
    {
        let word = <T::Repr as EnumSetTypeRepr>::from_u128_truncated(bits as u128);
        proof {
            T::lemma_all_bits();
            lemma_submask_le(bits as nat, T::spec_all_bits());
            lemma_small_mod(bits as nat, pow2(EnumSet::<T>::spec_width()));
        }
        EnumSet::wrap_repr(word)
    }

    /// Tries to return a `u128` holding the set's backing bits: `Some`
    /// exactly when they fit.
    pub fn try_as_u128(&self) -> (r: Option<u128>)
        ensures
            self@ < pow2(128) ==> (r matches Some(x) && x as nat == self@),
            self@ >= pow2(128) ==> r is None,
    {
        proof {
            lemma_pow2_128();
        }
        let v = self.repr_of().to_u128();
        if v <= 0xffff_ffff_ffff_ffff_ffff_ffff_ffff_ffffu128 {
            Some(v as u128)
        } else {
            None
        }
    }

    /// Returns a `u128` holding the set's backing bits; its checked sibling
    /// [`EnumSet::try_as_u128`] reports a value that does not fit as `None`
    /// instead of refusing it.
    pub fn as_u128(&self) -> (r: u128)
        requires
            self@ < pow2(128),
        ensures
            r as nat == self@,
    {
        match self.try_as_u128() {
            Some(x) => x,
            None => {
                proof {
                    assert(false);
                }
                0
            },
        }
    }

    /// Returns a `u128` holding the set's backing bits, discarding any that
    /// do not fit.
    pub fn as_u128_truncated(&self) -> (r: u128)
        ensures
            r as nat == self@ % pow2(128),
    {
        <u128 as EnumSetTypeRepr>::from_u128_truncated(self.repr_of().to_u128())
    }

    /// Builds a set from a `u128`; its checked sibling
    /// [`EnumSet::try_from_u128`] reports invalid bits as `None` instead of
    /// refusing them.
    pub fn from_u128(bits: u128) -> (r: Self)
        requires
            is_submask(bits as nat, T::spec_all_bits()),
        ensures
            r@ == bits as nat,
            r.wf(),
    {
        match Self::try_from_u128(bits) {
            Some(s) => s,
            None => {
                proof {
                    assert(false);
                }
                Self::new()
            },
        }
    }

    /// Tries to build a set from a `u128`: `Some` exactly when no invalid
    /// bit is set.
    pub fn try_from_u128(bits: u128) -> (r: Option<Self>)
        ensures
            is_submask(bits as nat, T::spec_all_bits()) ==> (r matches Some(s) && s@ == bits as nat
                && s.wf()),
            !is_submask(bits as nat, T::spec_all_bits()) ==> r is None,
    {
        let b: u128 = bits as u128;
        let word = <T::Repr as EnumSetTypeRepr>::from_u128_truncated(b);
        let ghost wd = EnumSet::<T>::spec_width();
        proof {
            T::lemma_all_bits();
            word.lemma_bound();
            if (bits as nat) < pow2(wd) {
                lemma_small_mod(bits as nat, pow2(wd));
            } else {
                if is_submask(bits as nat, T::spec_all_bits()) {
                    lemma_submask_le(bits as nat, T::spec_all_bits());
                    assert(false);
                }
            }
            crate::bits::lemma_comp_nat_bound(T::spec_all_bits(), wd);
            crate::bits::lemma_and_not_empty(word.as_nat(), T::spec_all_bits(), wd);
        }
        if word.to_u128() == b {
            let mask = T::all_bits();
            if word.and_not(mask).is_empty() {
                Some(EnumSet::wrap_repr(word))
            } else {
                None
            }
        } else {
            None
        }
    }

    /// Builds a set from a `u128`, clearing any invalid bits.
    pub fn from_u128_truncated(bits: u128) -> (r: Self)
        ensures
            r@ == and_nat(bits as nat, T::spec_all_bits()),
            r.wf(),
    {
        let word = <T::Repr as EnumSetTypeRepr>::from_u128_truncated(bits as u128);
        let ghost wd = EnumSet::<T>::spec_width();
        proof {
            T::lemma_all_bits();
            word.lemma_bound();
            lemma_and_nat_mod(bits as nat, T::spec_all_bits(), wd);
            lemma_and_mask_submask(word.as_nat(), T::spec_all_bits(), wd);
        }
        EnumSet::wrap_repr(word.bit_and(T::all_bits()))
    }

    /// Builds a set from a `u128` without checking for invalid bits; the
    /// caller must have established the valid-bits invariant already.
    pub fn from_u128_unchecked(bits: u128) -> (r: Self)
        requires
            is_submask(bits as nat, T::spec_all_bits()),
        ensures
            r@ == bits as nat,
            r.wf(),
    {
        let word = <T::Repr as EnumSetTypeRepr>::from_u128_truncated(bits as u128);
        proof {
            T::lemma_all_bits();
            lemma_submask_le(bits as nat, T::spec_all_bits());
            lemma_small_mod(bits as nat, pow2(EnumSet::<T>::spec_width()));
        }
        EnumSet::wrap_repr(word)
    }

    /// Tries to return a `usize` holding the set's backing bits: `Some`
    /// exactly when they fit in the platform width.
    pub fn try_as_usize(&self) -> (r: Option<usize>)
        ensures
            self@ <= usize::MAX as nat ==> (r matches Some(x) && x as nat == self@),
            self@ > usize::MAX as nat ==> r is None,
    {
        let v = self.repr_of().to_u128();
        if v <= usize::MAX as u128 {
            Some(v as usize)
        } else {
            None
        }
    }

    /// Returns a `usize` holding the set's backing bits; its checked
    /// sibling [`EnumSet::try_as_usize`] reports a value that does not fit
    /// as `None` instead of refusing it.
    pub fn as_usize(&self) -> (r: usize)
        requires
            self@ <= usize::MAX as nat,
        ensures
            r as nat == self@,
    {
        match self.try_as_usize() {
            Some(x) => x,
            None => {
                proof {
                    assert(false);
                }
                0
            },
        }
    }

    /// Returns a `usize` holding the set's backing bits, discarding any
    /// that do not fit in the platform width.
    pub fn as_usize_truncated(&self) -> (r: usize)
        ensures
            r as nat == self@ % (usize::MAX as nat + 1),
    {
        proof {
            lemma2_to64();
        }
        if usize::BITS == 64 {
            self.as_u64_truncated() as usize
        } else {
            self.as_u32_truncated() as usize
        }
    }

    /// Builds a set from a `usize`; its checked sibling
    /// [`EnumSet::try_from_usize`] reports invalid bits as `None` instead
    /// of refusing them.
    pub fn from_usize(bits: usize) -> (r: Self)
        requires
            is_submask(bits as nat, T::spec_all_bits()),
        ensures
            r@ == bits as nat,
            r.wf(),
    {
        match Self::try_from_usize(bits) {
            Some(s) => s,
            None => {
                proof {
                    assert(false);
                }
                Self::new()
            },
        }
    }

    /// Tries to build a set from a `usize`: `Some` exactly when no invalid
    /// bit is set.
    pub fn try_from_usize(bits: usize) -> (r: Option<Self>)
        ensures
            is_submask(bits as nat, T::spec_all_bits()) ==> (r matches Some(s) && s@ == bits as nat
                && s.wf()),
            !is_submask(bits as nat, T::spec_all_bits()) ==> r is None,
    {
        let b: u128 = bits as u128;
        let word = <T::Repr as EnumSetTypeRepr>::from_u128_truncated(b);
        let ghost wd = EnumSet::<T>::spec_width();
        proof {
            T::lemma_all_bits();
            word.lemma_bound();
            if (bits as nat) < pow2(wd) {
                lemma_small_mod(bits as nat, pow2(wd));
            } else {
                if is_submask(bits as nat, T::spec_all_bits()) {
                    lemma_submask_le(bits as nat, T::spec_all_bits());
                    assert(false);
                }
            }
            crate::bits::lemma_comp_nat_bound(T::spec_all_bits(), wd);
            crate::bits::lemma_and_not_empty(word.as_nat(), T::spec_all_bits(), wd);
        }
        if word.to_u128() == b {
            let mask = T::all_bits();
            if word.and_not(mask).is_empty() {
                Some(EnumSet::wrap_repr(word))
            } else {
                None
            }
        } else {
            None
        }
    }

    /// Builds a set from a `usize`, clearing any invalid bits.
    pub fn from_usize_truncated(bits: usize) -> (r: Self)
        ensures
            r@ == and_nat(bits as nat, T::spec_all_bits()),
            r.wf(),
    {
        let word = <T::Repr as EnumSetTypeRepr>::from_u128_truncated(bits as u128);
        let ghost wd = EnumSet::<T>::spec_width();
        proof {
            T::lemma_all_bits();
            word.lemma_bound();
            lemma_and_nat_mod(bits as nat, T::spec_all_bits(), wd);
            lemma_and_mask_submask(word.as_nat(), T::spec_all_bits(), wd);
        }
        EnumSet::wrap_repr(word.bit_and(T::all_bits()))
    }

    /// Builds a set from a `usize` without checking for invalid bits; the
    /// caller must have established the valid-bits invariant already.
    pub fn from_usize_unchecked(bits: usize) -> (r: Self)
        requires
            is_submask(bits as nat, T::spec_all_bits()),
        ensures
            r@ == bits as nat,
            r.wf(),
    {
        let word = <T::Repr as EnumSetTypeRepr>::from_u128_truncated(bits as u128);
        proof {
            T::lemma_all_bits();
            lemma_submask_le(bits as nat, T::spec_all_bits());
            lemma_small_mod(bits as nat, pow2(EnumSet::<T>::spec_width()));
        }
        EnumSet::wrap_repr(word)
    }
}

} // verus!
