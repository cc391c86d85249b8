//! The subset-enumeration iterator.
//!
//! Starting from the empty submask, each step yields the current submask of
//! the target set and advances by the carry-rippler `(current - set) & set`
//! with wrap-around subtraction.  The spec-level account of the walk — that
//! it visits every submask exactly once, in strictly ascending order,
//! beginning with the empty set and ending with the full target — lives in
//! [`crate::spread`].

use vstd::prelude::*;
use crate::bits::{is_submask, lemma_submask_trans};
use crate::repr::EnumSetTypeRepr;
use crate::set_type::EnumSet;
use crate::spread::{lemma_rippler_submask, rippler};
use crate::traits::EnumSetType;

verus! {

/// The iterator over all subsets of an [`EnumSet`].
pub struct EnumSetSubsetIter<T: EnumSetType> {
    set: EnumSet<T>,
    next: EnumSet<T>,
    done: bool,
}

impl<T: EnumSetType> EnumSetSubsetIter<T> {
    /// The target set whose subsets are being enumerated.
    pub closed spec fn target(self) -> nat {
        self.set@
    }

    /// The submask the next step will yield.
    pub closed spec fn upcoming(self) -> nat {
        self.next@
    }

    /// Whether the walk is over.
    pub closed spec fn is_done(self) -> bool {
        self.done
    }

    /// The walk's invariant: both sets are valid and the upcoming submask
    /// lies within the target.
    pub closed spec fn wf(self) -> bool {
        self.set.wf() && self.next.wf() && is_submask(self.next@, self.set@)
    }

    pub(crate) fn new(set: EnumSet<T>) -> (r: Self)
        requires
            set.wf(),
        ensures
            r.wf(),
            r.target() == set@,
            r.upcoming() == 0,
            !r.is_done(),
    {
        EnumSetSubsetIter { set, next: EnumSet::empty(), done: false }
    }

    /// Yields the next submask of the target, advancing by the
    /// carry-rippler step; `None` once every submask has been yielded.
    pub fn next(&mut self) -> (r: Option<EnumSet<T>>)
        requires
            old(self).wf(),
        ensures
            final(self).wf(),
            final(self).target() == old(self).target(),
            old(self).is_done() ==> r is None && *final(self) == *old(self),
            !old(self).is_done() ==> (r matches Some(c) && c@ == old(self).upcoming() && c.wf()
                && final(self).upcoming() == rippler(
                old(self).upcoming(),
                old(self).target(),
                EnumSet::<T>::spec_width(),
            ) && final(self).is_done() == (final(self).upcoming() == 0)),
    {
        if self.done {
            None
        } else {
            let current = self.next;
            let s_repr = self.set.repr_of();
            let c_repr = self.next.repr_of();
            let ghost w = EnumSet::<T>::spec_width();
            proof {
                s_repr.lemma_bound();
                c_repr.lemma_bound();
                T::lemma_all_bits();
                lemma_rippler_submask(self.next@, self.set@, w);
                crate::bits::lemma_and_nat_le(
                    crate::bits::sub_mod(self.next@, self.set@, w),
                    self.set@,
                );
                lemma_submask_trans(
                    rippler(self.next@, self.set@, w),
                    self.set@,
                    T::spec_all_bits(),
                    w,
                );
            }
            let cand = c_repr.wrapping_sub_repr(s_repr).bit_and(s_repr);
            let finished = cand.is_empty();
            self.next = EnumSet::wrap_repr(cand);
            self.done = finished;
            Some(current)
        }
    }
}

impl<T: EnumSetType> EnumSet<T> {
    /// Iterates the subsets of the set, in ascending numeric order, from
    /// the empty set to the set itself.  The iterator holds a copy; the set
    /// itself is never invalidated.
    pub fn subsets(&self) -> (r: EnumSetSubsetIter<T>)
        requires
            self.wf(),
        ensures
            r.wf(),
            r.target() == self@,
            r.upcoming() == 0,
            !r.is_done(),
    {
        EnumSetSubsetIter::new(*self)
    }
}

} // verus!
