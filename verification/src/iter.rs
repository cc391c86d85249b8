//! Forward and reverse iteration over a set.
//!
//! The iterator holds a private copy of the set, so iteration can never
//! invalidate a live set.  Each forward step extracts the lowest set bit's
//! position, clears it in the copy, and yields the value at that position;
//! each reverse step does the same with the highest set bit.

use vstd::prelude::*;
use vstd::arithmetic::power2::pow2;
use crate::bits::nth_bit;
use crate::bits::lemma_submask_bits;
use crate::positions::{
    bit_positions, lemma_bit_positions_drop_first, lemma_bit_positions_drop_last,
    lemma_bit_positions_len, lemma_clear_bit_value, lemma_popcount_pos,
};
use crate::repr::EnumSetTypeRepr;
use crate::set_type::EnumSet;
use crate::traits::EnumSetType;

verus! {

/// The iterator over the values of an [`EnumSet`], in either direction.
pub struct EnumSetIter<T: EnumSetType> {
    set: EnumSet<T>,
}

impl<T: EnumSetType> EnumSetIter<T> {
    /// The invariant carried from the source set.
    pub closed spec fn wf(self) -> bool {
        self.set.wf()
    }

    /// The positions of the values not yet yielded, in ascending order.
    pub closed spec fn remaining(self) -> Seq<nat> {
        bit_positions(self.set@)
    }

    pub(crate) fn new(set: EnumSet<T>) -> (r: Self)
        requires
            set.wf(),
        ensures
            r.wf(),
            r.remaining() == bit_positions(set@),
    {
        EnumSetIter { set }
    }

    /// Yields the not-yet-yielded value with the lowest bit index, if any.
    pub fn next(&mut self) -> (r: Option<T>)
        requires
            old(self).wf(),
        ensures
            final(self).wf(),
            old(self).remaining().len() == 0 ==> r is None && final(self).remaining() == old(
                self,
            ).remaining(),
            old(self).remaining().len() > 0 ==> (r matches Some(v) && v.spec_bit() as nat == old(
                self,
            ).remaining()[0] && final(self).remaining() == old(self).remaining().drop_first()),
    {
        proof {
            lemma_bit_positions_len(self.set@);
            if self.set@ != 0 {
                lemma_popcount_pos(self.set@);
            }
        }
        if self.set.is_empty() {
            None
        } else {
            let repr = self.set.repr_of();
            let bit = repr.trailing_zeros_repr();
            let ghost v = self.set@;
            let ghost w = EnumSet::<T>::spec_width();
            let ghost p = bit as nat;
            proof {
                repr.lemma_bound();
                T::lemma_all_bits();
                lemma_clear_bit_value(v, p, w);
                lemma_bit_positions_drop_first(v, p);
                // The cleared word still satisfies the invariant.
                lemma_submask_bits(v, T::spec_all_bits(), w);
                assert forall|i: nat| i < w implies (nth_bit((v - pow2(p)) as nat, i)
                    ==> nth_bit(T::spec_all_bits(), i)) by {
                    assert(nth_bit((v - pow2(p)) as nat, i) == (i != p && nth_bit(v, i)));
                }
                lemma_submask_bits((v - pow2(p)) as nat, T::spec_all_bits(), w);
                // The bit found set is valid, so the value can be rebuilt.
                assert(nth_bit(T::spec_all_bits(), p));
                assert(bit_positions(v).drop_first() =~= bit_positions((v - pow2(p)) as nat));
            }
            let next_repr = repr.remove_bit(bit);
            self.set = EnumSet::wrap_repr(next_repr);
            Some(T::enum_from_u32(bit))
        }
    }

    /// Yields the not-yet-yielded value with the highest bit index, if any.
    pub fn next_back(&mut self) -> (r: Option<T>)
        requires
            old(self).wf(),
        ensures
            final(self).wf(),
            old(self).remaining().len() == 0 ==> r is None && final(self).remaining() == old(
                self,
            ).remaining(),
            old(self).remaining().len() > 0 ==> (r matches Some(v) && v.spec_bit() as nat == old(
                self,
            ).remaining().last() && final(self).remaining() == old(
                self,
            ).remaining().drop_last()),
    {
        proof {
            lemma_bit_positions_len(self.set@);
            if self.set@ != 0 {
                lemma_popcount_pos(self.set@);
            }
        }
        if self.set.is_empty() {
            None
        } else {
            let repr = self.set.repr_of();
            let lz = repr.leading_zeros_repr();
            let bit = <T::Repr as EnumSetTypeRepr>::width() - 1 - lz;
            let ghost v = self.set@;
            let ghost w = EnumSet::<T>::spec_width();
            let ghost p = bit as nat;
            proof {
                repr.lemma_bound();
                T::lemma_all_bits();
                lemma_clear_bit_value(v, p, w);
                lemma_bit_positions_drop_last(v, p);
                lemma_submask_bits(v, T::spec_all_bits(), w);
                assert forall|i: nat| i < w implies (nth_bit((v - pow2(p)) as nat, i)
                    ==> nth_bit(T::spec_all_bits(), i)) by {
                    assert(nth_bit((v - pow2(p)) as nat, i) == (i != p && nth_bit(v, i)));
                }
                lemma_submask_bits((v - pow2(p)) as nat, T::spec_all_bits(), w);
                assert(nth_bit(T::spec_all_bits(), p));
                assert(bit_positions(v).last() == p);
                assert(bit_positions(v).drop_last() =~= bit_positions((v - pow2(p)) as nat));
            }
            let next_repr = repr.remove_bit(bit);
            self.set = EnumSet::wrap_repr(next_repr);
            Some(T::enum_from_u32(bit))
        }
    }

    /// The exact number of values left to yield.
    pub fn size_hint(&self) -> (r: (usize, Option<usize>))
        ensures
            r.0 == self.remaining().len(),
            r.1 == Some(r.0),
    {
        proof {
            lemma_bit_positions_len(self.set@);
        }
        let left = self.set.len();
        (left, Some(left))
    }
}

impl<T: EnumSetType> EnumSet<T> {
    /// Iterates the values of the set in ascending bit-index order (or
    /// descending, through [`EnumSetIter::next_back`]).  The iterator holds
    /// a copy; the set itself is never invalidated.
    pub fn iter(&self) -> (r: EnumSetIter<T>)
        requires
            self.wf(),
        ensures
            r.wf(),
            r.remaining() == bit_positions(self@),
    {
        EnumSetIter::new(*self)
    }
}

} // verus!
