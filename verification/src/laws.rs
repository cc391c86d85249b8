//! The algebraic laws of the set operations.
//!
//! Each law is stated over the same spec functions the operations'
//! contracts use, so a caller can move between any chain of set operations
//! and its algebraic normal form.

use vstd::prelude::*;
use vstd::arithmetic::power2::pow2;
use crate::bits::{and_nat, comp_nat, is_submask, nth_bit, or_nat, popcount, xor_nat};
use crate::bits::{
    lemma_and_nat_bit, lemma_and_nat_le, lemma_bit_ext, lemma_comp_nat_bit, lemma_comp_nat_bound,
    lemma_nth_bit_high, lemma_or_nat_bit, lemma_or_nat_bound, lemma_popcount_pow2,
    lemma_pow2_nth_bit, lemma_submask_bits, lemma_xor_nat_bit, lemma_xor_nat_bound,
};
use crate::positions::{
    bit_positions, lemma_bit_positions_complete, lemma_bit_positions_increasing,
    lemma_bit_positions_len,
};
use crate::set_type::EnumSet;
use crate::spread::{
    lemma_rippler_step, lemma_spread_full, lemma_spread_mono, lemma_spread_submask,
    lemma_spread_zero, rippler, spread,
};
use crate::traits::EnumSetType;

verus! {

/// Invariant preservation, read off a value: a well-formed set has no bit
/// outside its enumeration's valid-bits mask.
pub proof fn lemma_invariant_no_invalid_bits<T: EnumSetType>(s: EnumSet<T>, i: nat)
    requires
        s.wf(),
        !nth_bit(T::spec_all_bits(), i),
    ensures
        !nth_bit(s@, i),
{
    let w = EnumSet::<T>::spec_width();
    s.lemma_view_bound();
    T::lemma_all_bits();
    if i < w {
        lemma_submask_bits(s@, T::spec_all_bits(), w);
    } else {
        lemma_nth_bit_high(s@, w, i);
    }
}

/// Union is commutative.
pub proof fn lemma_union_commutes<T: EnumSetType>(a: EnumSet<T>, b: EnumSet<T>)
    ensures
        or_nat(a@, b@) == or_nat(b@, a@),
{
    let w = EnumSet::<T>::spec_width();
    a.lemma_view_bound();
    b.lemma_view_bound();
    lemma_or_nat_bound(a@, b@, w);
    lemma_or_nat_bound(b@, a@, w);
    assert forall|i: nat| i < w implies #[trigger] nth_bit(or_nat(a@, b@), i) == nth_bit(
        or_nat(b@, a@),
        i,
    ) by {
        lemma_or_nat_bit(a@, b@, i);
        lemma_or_nat_bit(b@, a@, i);
    }
    lemma_bit_ext(or_nat(a@, b@), or_nat(b@, a@), w);
}

/// Union is associative.
pub proof fn lemma_union_associates<T: EnumSetType>(a: EnumSet<T>, b: EnumSet<T>, c: EnumSet<T>)
    ensures
        or_nat(or_nat(a@, b@), c@) == or_nat(a@, or_nat(b@, c@)),
{
    let w = EnumSet::<T>::spec_width();
    a.lemma_view_bound();
    b.lemma_view_bound();
    c.lemma_view_bound();
    lemma_or_nat_bound(a@, b@, w);
    lemma_or_nat_bound(b@, c@, w);
    lemma_or_nat_bound(or_nat(a@, b@), c@, w);
    lemma_or_nat_bound(a@, or_nat(b@, c@), w);
    assert forall|i: nat| i < w implies #[trigger] nth_bit(or_nat(or_nat(a@, b@), c@), i)
        == nth_bit(or_nat(a@, or_nat(b@, c@)), i) by {
        lemma_or_nat_bit(or_nat(a@, b@), c@, i);
        lemma_or_nat_bit(a@, b@, i);
        lemma_or_nat_bit(a@, or_nat(b@, c@), i);
        lemma_or_nat_bit(b@, c@, i);
    }
    lemma_bit_ext(or_nat(or_nat(a@, b@), c@), or_nat(a@, or_nat(b@, c@)), w);
}

/// Intersection distributes over union.
pub proof fn lemma_intersection_distributes<T: EnumSetType>(
    a: EnumSet<T>,
    b: EnumSet<T>,
    c: EnumSet<T>,
)
    ensures
        and_nat(a@, or_nat(b@, c@)) == or_nat(and_nat(a@, b@), and_nat(a@, c@)),
{
    let w = EnumSet::<T>::spec_width();
    a.lemma_view_bound();
    b.lemma_view_bound();
    c.lemma_view_bound();
    lemma_or_nat_bound(b@, c@, w);
    lemma_and_nat_le(a@, or_nat(b@, c@));
    lemma_and_nat_le(a@, b@);
    lemma_and_nat_le(a@, c@);
    lemma_or_nat_bound(and_nat(a@, b@), and_nat(a@, c@), w);
    assert forall|i: nat| i < w implies #[trigger] nth_bit(and_nat(a@, or_nat(b@, c@)), i)
        == nth_bit(or_nat(and_nat(a@, b@), and_nat(a@, c@)), i) by {
        lemma_and_nat_bit(a@, or_nat(b@, c@), i);
        lemma_or_nat_bit(b@, c@, i);
        lemma_or_nat_bit(and_nat(a@, b@), and_nat(a@, c@), i);
        lemma_and_nat_bit(a@, b@, i);
        lemma_and_nat_bit(a@, c@, i);
    }
    lemma_bit_ext(and_nat(a@, or_nat(b@, c@)), or_nat(and_nat(a@, b@), and_nat(a@, c@)), w);
}

/// Complementing twice gives the original set back.
pub proof fn lemma_complement_involutes<T: EnumSetType>(a: EnumSet<T>)
    requires
        a.wf(),
    ensures
        and_nat(
            comp_nat(and_nat(comp_nat(a@, EnumSet::<T>::spec_width()), T::spec_all_bits()),
                EnumSet::<T>::spec_width()),
            T::spec_all_bits(),
        ) == a@,
{
    let w = EnumSet::<T>::spec_width();
    let m = T::spec_all_bits();
    a.lemma_view_bound();
    T::lemma_all_bits();
    let c1 = and_nat(comp_nat(a@, w), m);
    lemma_comp_nat_bound(a@, w);
    lemma_and_nat_le(comp_nat(a@, w), m);
    let c2 = and_nat(comp_nat(c1, w), m);
    lemma_comp_nat_bound(c1, w);
    lemma_and_nat_le(comp_nat(c1, w), m);
    lemma_submask_bits(a@, m, w);
    assert forall|i: nat| i < w implies #[trigger] nth_bit(c2, i) == nth_bit(a@, i) by {
        lemma_and_nat_bit(comp_nat(c1, w), m, i);
        lemma_comp_nat_bit(c1, w, i);
        lemma_and_nat_bit(comp_nat(a@, w), m, i);
        lemma_comp_nat_bit(a@, w, i);
    }
    lemma_bit_ext(c2, a@, w);
}

/// Difference is intersection with the masked complement.
pub proof fn lemma_difference_is_masked_intersection<T: EnumSetType>(a: EnumSet<T>, b: EnumSet<T>)
    requires
        a.wf(),
    ensures
        and_nat(a@, comp_nat(b@, EnumSet::<T>::spec_width())) == and_nat(
            a@,
            and_nat(comp_nat(b@, EnumSet::<T>::spec_width()), T::spec_all_bits()),
        ),
{
    let w = EnumSet::<T>::spec_width();
    let m = T::spec_all_bits();
    a.lemma_view_bound();
    b.lemma_view_bound();
    T::lemma_all_bits();
    let g = comp_nat(b@, w);
    lemma_comp_nat_bound(b@, w);
    lemma_and_nat_le(a@, g);
    lemma_and_nat_le(g, m);
    lemma_and_nat_le(a@, and_nat(g, m));
    lemma_submask_bits(a@, m, w);
    assert forall|i: nat| i < w implies #[trigger] nth_bit(and_nat(a@, g), i) == nth_bit(
        and_nat(a@, and_nat(g, m)),
        i,
    ) by {
        lemma_and_nat_bit(a@, g, i);
        lemma_and_nat_bit(a@, and_nat(g, m), i);
        lemma_and_nat_bit(g, m, i);
    }
    lemma_bit_ext(and_nat(a@, g), and_nat(a@, and_nat(g, m)), w);
}

/// Symmetric difference is the union of the two one-sided differences.
pub proof fn lemma_symmetric_difference_splits<T: EnumSetType>(a: EnumSet<T>, b: EnumSet<T>)
    ensures
        xor_nat(a@, b@) == or_nat(
            and_nat(a@, comp_nat(b@, EnumSet::<T>::spec_width())),
            and_nat(b@, comp_nat(a@, EnumSet::<T>::spec_width())),
        ),
{
    let w = EnumSet::<T>::spec_width();
    a.lemma_view_bound();
    b.lemma_view_bound();
    let ga = comp_nat(a@, w);
    let gb = comp_nat(b@, w);
    lemma_comp_nat_bound(a@, w);
    lemma_comp_nat_bound(b@, w);
    lemma_xor_nat_bound(a@, b@, w);
    lemma_and_nat_le(a@, gb);
    lemma_and_nat_le(b@, ga);
    lemma_or_nat_bound(and_nat(a@, gb), and_nat(b@, ga), w);
    assert forall|i: nat| i < w implies #[trigger] nth_bit(xor_nat(a@, b@), i) == nth_bit(
        or_nat(and_nat(a@, gb), and_nat(b@, ga)),
        i,
    ) by {
        lemma_xor_nat_bit(a@, b@, i);
        lemma_or_nat_bit(and_nat(a@, gb), and_nat(b@, ga), i);
        lemma_and_nat_bit(a@, gb, i);
        lemma_and_nat_bit(b@, ga, i);
        lemma_comp_nat_bit(a@, w, i);
        lemma_comp_nat_bit(b@, w, i);
    }
    lemma_bit_ext(xor_nat(a@, b@), or_nat(and_nat(a@, gb), and_nat(b@, ga)), w);
}

/// Membership round trip: the singleton of `v` contains `v`, and nothing
/// else.
pub proof fn lemma_only_membership<T: EnumSetType>(v: T)
    ensures
        nth_bit(pow2(v.spec_bit() as nat), v.spec_bit() as nat),
        popcount(pow2(v.spec_bit() as nat)) == 1,
        forall|u: T| #[trigger] nth_bit(pow2(v.spec_bit() as nat), u.spec_bit() as nat) ==> u == v,
{
    let b = v.spec_bit() as nat;
    lemma_pow2_nth_bit(b, b);
    lemma_popcount_pow2(b);
    assert forall|u: T| #[trigger] nth_bit(pow2(b), u.spec_bit() as nat) implies u == v by {
        lemma_pow2_nth_bit(b, u.spec_bit() as nat);
        u.lemma_bit_injective(v);
    }
}

/// Iteration completeness and order: the position sequence a set's
/// iterator walks holds exactly the set bits, one position per member, in
/// strictly ascending order.  The forward iterator yields its front, the
/// reverse iterator its back, so the two directions yield the same values
/// in exactly opposite orders.
pub proof fn lemma_iteration_order<T: EnumSetType>(s: EnumSet<T>)
    ensures
        bit_positions(s@).len() == popcount(s@),
        forall|i: nat| #[trigger] bit_positions(s@).contains(i) == nth_bit(s@, i),
        forall|k1: int, k2: int|
            0 <= k1 < k2 < bit_positions(s@).len() ==> bit_positions(s@)[k1] < bit_positions(
                s@,
            )[k2],
{
    lemma_bit_positions_len(s@);
    lemma_bit_positions_increasing(s@);
    assert forall|i: nat| #[trigger] bit_positions(s@).contains(i) == nth_bit(s@, i) by {
        lemma_bit_positions_complete(s@, i);
    }
}

/// Subset enumeration: the submasks of a set are `spread(s, 0)` up to
/// `spread(s, 2^popcount(s) - 1)`, strictly ascending, starting at the
/// empty set and ending at the set itself; the carry-rippler step the
/// subset iterator takes advances from each to the next and returns to
/// zero after the last.
pub proof fn lemma_subset_enumeration<T: EnumSetType>(s: EnumSet<T>, k: nat)
    requires
        k < pow2(popcount(s@)),
    ensures
        spread(s@, 0) == 0,
        spread(s@, (pow2(popcount(s@)) - 1) as nat) == s@,
        is_submask(spread(s@, k), s@),
        k + 1 < pow2(popcount(s@)) ==> spread(s@, k) < spread(s@, k + 1),
        rippler(spread(s@, k), s@, EnumSet::<T>::spec_width()) == if k + 1 < pow2(
            popcount(s@),
        ) {
            spread(s@, k + 1)
        } else {
            0nat
        },
{
    s.lemma_view_bound();
    lemma_spread_zero(s@);
    lemma_spread_full(s@);
    lemma_spread_submask(s@, k);
    if k + 1 < pow2(popcount(s@)) {
        lemma_spread_mono(s@, k, k + 1);
    }
    lemma_rippler_step(s@, k, EnumSet::<T>::spec_width());
}

/// Conversion round trip: a well-formed set's exported bits always pass
/// the checked import unchanged, and the truncating import keeps exactly
/// the valid bits of any word.
pub proof fn lemma_conversion_round_trip<T: EnumSetType>(s: EnumSet<T>, b: nat)
    requires
        s.wf(),
    ensures
        is_submask(s@, T::spec_all_bits()),
        and_nat(s@, T::spec_all_bits()) == s@,
        is_submask(b, T::spec_all_bits()) ==> and_nat(b, T::spec_all_bits()) == b,
{
}

} // verus!
