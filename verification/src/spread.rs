//! The mathematics of subset enumeration by the carry-rippler step.
//!
//! `spread(s, k)` distributes the binary digits of `k` over the set bit
//! positions of the mask `s`, lowest digit to lowest position.  As `k` runs
//! from `0` to `2^popcount(s) - 1`, `spread(s, k)` runs through every
//! submask of `s` exactly once, in strictly ascending numeric order.  The
//! carry-rippler step `(c - s) & s`, with wrap-around subtraction, advances
//! `spread(s, k)` to `spread(s, k + 1)` and returns to zero after the full
//! mask: that is what [`lemma_rippler_step`] proves, and what the subset
//! iterator's contract is stated with.

use vstd::prelude::*;
use vstd::arithmetic::power2::{pow2, lemma_pow2_pos, lemma_pow2_unfold};
use crate::bits::{
    and_nat, comp_nat, is_submask, nth_bit, or_nat, popcount, sub_mod,
};
use crate::bits::{
    lemma_and_mask_submask, lemma_and_nat_bit, lemma_and_nat_le, lemma_and_not_empty,
    lemma_bit_ext, lemma_comp_nat_bit, lemma_comp_nat_bound, lemma_disjoint_or_add,
    lemma_or_nat_bit, lemma_or_nat_bound, lemma_submask_bits,
};

verus! {

/// The `k`-th smallest submask of `s`: the binary digits of `k`, spread
/// over the set bit positions of `s`.
pub open spec fn spread(s: nat, k: nat) -> nat
    decreases s,
{
    if s == 0 {
        0
    } else if s % 2 == 1 {
        2 * spread(s / 2, k / 2) + k % 2
    } else {
        2 * spread(s / 2, k)
    }
}

/// One carry-rippler step from the submask `c` of `s`, in a `w`-bit word.
pub open spec fn rippler(c: nat, s: nat, w: nat) -> nat {
    and_nat(sub_mod(c, s, w), s)
}

/// The first submask is the empty one.
pub proof fn lemma_spread_zero(s: nat)
    ensures
        spread(s, 0) == 0,
    decreases s,
{
    if s != 0 {
        lemma_spread_zero(s / 2);
    }
}

/// A spread value never exceeds its mask.
pub proof fn lemma_spread_le(s: nat, k: nat)
    ensures
        spread(s, k) <= s,
    decreases s,
{
    if s != 0 {
        if s % 2 == 1 {
            lemma_spread_le(s / 2, k / 2);
        } else {
            lemma_spread_le(s / 2, k);
        }
    }
}

/// Every spread value is a submask of the mask.
pub proof fn lemma_spread_submask(s: nat, k: nat)
    ensures
        is_submask(spread(s, k), s),
    decreases s,
{
    let c = spread(s, k);
    if s == 0 {
    } else if c == 0 {
    } else if s % 2 == 1 {
        lemma_spread_submask(s / 2, k / 2);
        assert(c / 2 == spread(s / 2, k / 2));
        assert(and_nat(c, s) == 2 * and_nat(c / 2, s / 2) + if c % 2 == 1 && s % 2 == 1 {
            1nat
        } else {
            0nat
        });
    } else {
        lemma_spread_submask(s / 2, k);
        assert(c / 2 == spread(s / 2, k));
        assert(and_nat(c, s) == 2 * and_nat(c / 2, s / 2) + if c % 2 == 1 && s % 2 == 1 {
            1nat
        } else {
            0nat
        });
    }
}

/// The last submask is the mask itself.
pub proof fn lemma_spread_full(s: nat)
    ensures
        spread(s, (pow2(popcount(s)) - 1) as nat) == s,
    decreases s,
{
    lemma_pow2_pos(popcount(s));
    if s == 0 {
    } else {
        let pc = popcount(s);
        let k = (pow2(pc) - 1) as nat;
        if s % 2 == 1 {
            assert(pc == popcount(s / 2) + 1);
            lemma_pow2_unfold(pc);
            assert(k % 2 == 1);
            assert(k / 2 == (pow2((pc - 1) as nat) - 1) as nat);
            lemma_spread_full(s / 2);
        } else {
            assert(pc == popcount(s / 2));
            lemma_spread_full(s / 2);
            assert(spread(s, k) == 2 * spread(s / 2, k));
        }
    }
}

/// Spreading is strictly monotone below `2^popcount(s)`.
pub proof fn lemma_spread_mono(s: nat, k1: nat, k2: nat)
    requires
        k1 < k2,
        k2 < pow2(popcount(s)),
    ensures
        spread(s, k1) < spread(s, k2),
    decreases s,
{
    let pc = popcount(s);
    lemma_pow2_pos(pc);
    if s == 0 {
        assert(pow2(0) == 1) by {
            vstd::arithmetic::power2::lemma2_to64();
        }
        assert(false);
    } else if s % 2 == 1 {
        assert(pc == popcount(s / 2) + 1);
        lemma_pow2_unfold(pc);
        assert(k2 / 2 < pow2((pc - 1) as nat));
        if k1 / 2 == k2 / 2 {
            assert(k1 % 2 == 0 && k2 % 2 == 1);
        } else {
            lemma_spread_mono(s / 2, k1 / 2, k2 / 2);
        }
    } else {
        assert(pc == popcount(s / 2));
        lemma_spread_mono(s / 2, k1, k2);
    }
}

/// Every submask of `s` is `spread(s, k)` for some `k` below
/// `2^popcount(s)`.
pub proof fn lemma_spread_onto(s: nat, c: nat)
    requires
        is_submask(c, s),
    ensures
        exists|k: nat| k < pow2(popcount(s)) && #[trigger] spread(s, k) == c,
    decreases s,
{
    let pc = popcount(s);
    lemma_pow2_pos(pc);
    if c == 0 {
        lemma_spread_zero(s);
        assert(spread(s, 0) == c);
    } else {
        assert(s != 0) by {
            if s == 0 {
                assert(and_nat(c, 0) == 0);
            }
        }
        assert(and_nat(c, s) == 2 * and_nat(c / 2, s / 2) + if c % 2 == 1 && s % 2 == 1 {
            1nat
        } else {
            0nat
        });
        assert(and_nat(c / 2, s / 2) == c / 2);
        if s % 2 == 1 {
            assert(pc == popcount(s / 2) + 1);
            lemma_pow2_unfold(pc);
            lemma_spread_onto(s / 2, c / 2);
            let k1 = choose|k1: nat|
                k1 < pow2(popcount(s / 2)) && #[trigger] spread(s / 2, k1) == c / 2;
            let k = 2 * k1 + c % 2;
            assert(k / 2 == k1 && k % 2 == c % 2);
            assert(spread(s, k) == 2 * spread(s / 2, k1) + c % 2);
            assert(spread(s, k) == c);
            assert(k < pow2(pc));
        } else {
            assert(pc == popcount(s / 2));
            assert(c % 2 == 0);
            lemma_spread_onto(s / 2, c / 2);
            let k1 = choose|k1: nat|
                k1 < pow2(popcount(s / 2)) && #[trigger] spread(s / 2, k1) == c / 2;
            assert(spread(s, k1) == 2 * spread(s / 2, k1));
            assert(spread(s, k1) == c);
        }
    }
}

/// ORing a submask with the mask's complement and ANDing back with the mask
/// recovers the submask.
proof fn lemma_or_comp_and(c: nat, m: nat, w: nat)
    requires
        m < pow2(w),
        is_submask(c, m),
    ensures
        and_nat(or_nat(c, comp_nat(m, w)), m) == c,
{
    let g = comp_nat(m, w);
    crate::bits::lemma_submask_le(c, m);
    lemma_comp_nat_bound(m, w);
    lemma_or_nat_bound(c, g, w);
    lemma_and_nat_le(or_nat(c, g), m);
    lemma_submask_bits(c, m, w);
    assert forall|i: nat| i < w implies #[trigger] nth_bit(and_nat(or_nat(c, g), m), i) == nth_bit(
        c,
        i,
    ) by {
        lemma_and_nat_bit(or_nat(c, g), m, i);
        lemma_or_nat_bit(c, g, i);
        lemma_comp_nat_bit(m, w, i);
    }
    lemma_bit_ext(and_nat(or_nat(c, g), m), c, w);
}

/// The core of the carry-rippler: adding one to the submask filled up with
/// the mask's complement, then masking, yields the next submask.
proof fn lemma_ripple_core(s: nat, k: nat, w: nat)
    requires
        s < pow2(w),
        s > 0,
        k + 1 < pow2(popcount(s)),
    ensures
        and_nat(spread(s, k) + comp_nat(s, w) + 1, s) == spread(s, k + 1),
    decreases s,
{
    let pc = popcount(s);
    let c = spread(s, k);
    let g = comp_nat(s, w);
    lemma_pow2_pos(pc);
    assert(w > 0) by {
        if w == 0 {
            assert(pow2(0) == 1) by {
                vstd::arithmetic::power2::lemma2_to64();
            }
        }
    }
    let w1 = (w - 1) as nat;
    lemma_pow2_unfold(w);
    let g1 = comp_nat(s / 2, w1);
    if s % 2 == 0 {
        // The mask is even: everything happens one bit higher.
        assert(g == 2 * g1 + 1);
        let c1 = spread(s / 2, k);
        assert(c == 2 * c1);
        assert(c + g + 1 == 2 * (c1 + g1 + 1));
        assert(popcount(s / 2) == pc);
        assert(s / 2 > 0);
        lemma_ripple_core(s / 2, k, w1);
        assert(c1 + g1 + 1 > 0);
        assert(and_nat(c + g + 1, s) == 2 * and_nat(c1 + g1 + 1, s / 2) + if (c + g + 1) % 2 == 1
            && s % 2 == 1 {
            1nat
        } else {
            0nat
        });
        assert(spread(s, k + 1) == 2 * spread(s / 2, k + 1));
    } else {
        assert(g == 2 * g1);
        let c1 = spread(s / 2, k / 2);
        assert(c == 2 * c1 + k % 2);
        assert(popcount(s / 2) + 1 == pc);
        lemma_pow2_unfold(pc);
        lemma_spread_submask(s / 2, k / 2);
        if k % 2 == 0 {
            // The step only sets the mask's lowest bit.
            assert(c + g + 1 == 2 * (c1 + g1) + 1);
            crate::spread::lemma_spread_le(s / 2, k / 2);
            assert(s / 2 < pow2(w1));
            lemma_and_not_empty(c1, s / 2, w1);
            crate::bits::lemma_submask_le(c1, s / 2);
            lemma_disjoint_or_add(c1, g1);
            lemma_or_comp_and(c1, s / 2, w1);
            assert(c1 + g1 == or_nat(c1, g1));
            assert(and_nat(or_nat(c1, g1), s / 2) == c1);
            assert(c + g + 1 > 0);
            assert(and_nat(c + g + 1, s) == 2 * and_nat(c1 + g1, s / 2) + 1);
            assert((k + 1) % 2 == 1 && (k + 1) / 2 == k / 2);
            assert(spread(s, k + 1) == 2 * spread(s / 2, k / 2) + 1);
        } else {
            // The step clears the mask's lowest bit and carries upward.
            assert(c + g + 1 == 2 * (c1 + g1 + 1));
            assert((k + 1) % 2 == 0 && (k + 1) / 2 == k / 2 + 1);
            assert(k / 2 + 1 < pow2((pc - 1) as nat));
            assert(s / 2 > 0) by {
                if s / 2 == 0 {
                    assert(popcount(s / 2) == 0);
                    assert(pow2(0) == 1) by {
                        vstd::arithmetic::power2::lemma2_to64();
                    }
                }
            }
            lemma_ripple_core(s / 2, k / 2, w1);
            assert(c1 + g1 + 1 > 0);
            assert(and_nat(c + g + 1, s) == 2 * and_nat(c1 + g1 + 1, s / 2) + if (c + g + 1) % 2
                == 1 && s % 2 == 1 {
                1nat
            } else {
                0nat
            });
            assert(spread(s, k + 1) == 2 * spread(s / 2, k / 2 + 1));
        }
    }
}

/// The carry-rippler step law: from the `k`-th submask, one step reaches
/// the `k + 1`-th, and returns to the empty submask after the last one.
pub proof fn lemma_rippler_step(s: nat, k: nat, w: nat)
    requires
        s < pow2(w),
        k < pow2(popcount(s)),
    ensures
        rippler(spread(s, k), s, w) == if k + 1 < pow2(popcount(s)) {
            spread(s, k + 1)
        } else {
            0nat
        },
{
    let pc = popcount(s);
    let c = spread(s, k);
    lemma_spread_le(s, k);
    lemma_pow2_pos(w);
    if s == 0 {
        assert(c == 0);
        assert(sub_mod(0, 0, w) == 0);
    } else if k + 1 == pow2(pc) {
        lemma_spread_full(s);
        assert(c == s);
        assert(sub_mod(c, s, w) == 0);
    } else {
        // Below the last submask the spread is strictly under the mask.
        lemma_spread_mono(s, k, (pow2(pc) - 1) as nat);
        lemma_spread_full(s);
        assert(c < s);
        assert(sub_mod(c, s, w) == (c + pow2(w) - s) as nat);
        assert(c + pow2(w) - s == c + comp_nat(s, w) + 1);
        lemma_ripple_core(s, k, w);
    }
}

/// A step from a submask stays within the mask.
pub proof fn lemma_rippler_submask(c: nat, s: nat, w: nat)
    requires
        c < pow2(w),
        s < pow2(w),
    ensures
        is_submask(rippler(c, s, w), s),
{
    lemma_pow2_pos(w);
    assert(sub_mod(c, s, w) < pow2(w));
    lemma_and_mask_submask(sub_mod(c, s, w), s, w);
}

} // verus!
