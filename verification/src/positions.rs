//! The sequence of set-bit positions of a value, in ascending order.
//!
//! This is the mathematical account of forward and reverse iteration: the
//! forward iterator yields the values at these positions front to back, the
//! reverse iterator back to front.

use vstd::prelude::*;
use vstd::arithmetic::power2::{pow2, lemma_pow2_pos, lemma_pow2_strictly_increases, lemma2_to64};
use crate::bits::{
    and_nat, comp_nat, nth_bit, popcount,
};
use crate::bits::{
    lemma_and_nat_bit, lemma_and_nat_le, lemma_bit_ext, lemma_comp_nat_bit, lemma_comp_nat_bound,
    lemma_nth_bit_high, lemma_nth_bit_unfold, lemma_nth_bit_zero, lemma_pow2_nth_bit,
    lemma_set_bit_value,
};

verus! {

/// The positions of the set bits of `v`, lowest first.
pub open spec fn bit_positions(v: nat) -> Seq<nat>
    decreases v,
{
    if v == 0 {
        Seq::empty()
    } else if v % 2 == 1 {
        seq![0nat] + bit_positions(v / 2).map_values(|p: nat| (p + 1) as nat)
    } else {
        bit_positions(v / 2).map_values(|p: nat| (p + 1) as nat)
    }
}

/// A non-zero value has a set bit.
pub proof fn lemma_popcount_pos(v: nat)
    requires
        v > 0,
    ensures
        popcount(v) > 0,
    decreases v,
{
    if v % 2 == 0 {
        lemma_popcount_pos(v / 2);
    }
}

/// There are as many positions as set bits.
pub proof fn lemma_bit_positions_len(v: nat)
    ensures
        bit_positions(v).len() == popcount(v),
    decreases v,
{
    if v != 0 {
        lemma_bit_positions_len(v / 2);
    }
}

/// The positions are exactly the set bits of the value.
pub proof fn lemma_bit_positions_complete(v: nat, i: nat)
    ensures
        bit_positions(v).contains(i) == nth_bit(v, i),
    decreases v,
{
    let s = bit_positions(v);
    if v == 0 {
        lemma_nth_bit_zero(i);
    } else {
        let tail = bit_positions(v / 2).map_values(|p: nat| (p + 1) as nat);
        lemma_nth_bit_unfold(v, i);
        if i == 0 {
            if v % 2 == 1 {
                assert(s[0] == 0);
                assert(s.contains(0));
            } else {
                if s.contains(0) {
                    let k = choose|k: int| 0 <= k < s.len() && #[trigger] s[k] == 0;
                    assert(bit_positions(v / 2)[k] + 1 == 0);
                    assert(false);
                }
            }
        } else {
            lemma_bit_positions_complete(v / 2, (i - 1) as nat);
            if nth_bit(v, i) {
                let k = choose|k: int|
                    0 <= k < bit_positions(v / 2).len() && #[trigger] bit_positions(v / 2)[k] == (
                    i - 1);
                assert(tail[k] == i);
                assert(tail.contains(i));
                if v % 2 == 1 {
                    assert(s[k + 1] == i);
                    assert(s.contains(i));
                }
            }
            if s.contains(i) {
                let k = choose|k: int| 0 <= k < s.len() && #[trigger] s[k] == i;
                if v % 2 == 1 {
                    assert(k >= 1);
                    assert(tail[k - 1] == i);
                    assert(bit_positions(v / 2)[k - 1] == i - 1);
                    assert(bit_positions(v / 2).contains((i - 1) as nat));
                } else {
                    assert(bit_positions(v / 2)[k] == i - 1);
                    assert(bit_positions(v / 2).contains((i - 1) as nat));
                }
            }
        }
    }
}

/// The positions are strictly increasing.
pub proof fn lemma_bit_positions_increasing(v: nat)
    ensures
        forall|k1: int, k2: int|
            0 <= k1 < k2 < bit_positions(v).len() ==> bit_positions(v)[k1] < bit_positions(v)[k2],
    decreases v,
{
    let s = bit_positions(v);
    if v != 0 {
        lemma_bit_positions_increasing(v / 2);
        let tail = bit_positions(v / 2).map_values(|p: nat| (p + 1) as nat);
        assert forall|k1: int, k2: int| 0 <= k1 < k2 < s.len() implies s[k1] < s[k2] by {
            if v % 2 == 1 {
                if k1 == 0 {
                    assert(s[k2] == tail[k2 - 1]);
                    assert(tail[k2 - 1] == bit_positions(v / 2)[k2 - 1] + 1);
                } else {
                    assert(s[k1] == bit_positions(v / 2)[k1 - 1] + 1);
                    assert(s[k2] == bit_positions(v / 2)[k2 - 1] + 1);
                }
            } else {
                assert(s[k1] == bit_positions(v / 2)[k1] + 1);
                assert(s[k2] == bit_positions(v / 2)[k2] + 1);
            }
        }
    }
}

/// Clearing a set bit subtracts its power of two, and clears exactly it.
pub proof fn lemma_clear_bit_value(v: nat, p: nat, w: nat)
    requires
        v < pow2(w),
        p < w,
        nth_bit(v, p),
    ensures
        and_nat(v, comp_nat(pow2(p), w)) == (v - pow2(p)) as nat,
        ((v - pow2(p)) as nat) < pow2(w),
        forall|i: nat| #[trigger] nth_bit((v - pow2(p)) as nat, i) == (i != p && nth_bit(v, i)),
{
    crate::bits::lemma_nth_bit_bound(v, p);
    let c = comp_nat(pow2(p), w);
    let u = and_nat(v, c);
    lemma_pow2_strictly_increases(p, w);
    lemma_comp_nat_bound(pow2(p), w);
    lemma_and_nat_le(v, c);
    // The bits of u are those of v, except position p.
    assert forall|i: nat| i < w implies #[trigger] nth_bit(u, i) == (i != p && nth_bit(v, i)) by {
        lemma_and_nat_bit(v, c, i);
        lemma_comp_nat_bit(pow2(p), w, i);
        lemma_pow2_nth_bit(p, i);
    }
    assert(!nth_bit(u, p));
    // Setting bit p of u restores v.
    lemma_set_bit_value(u, p, w);
    assert forall|i: nat| i < w implies #[trigger] nth_bit(u + pow2(p), i) == nth_bit(v, i) by {
    }
    lemma_bit_ext((u + pow2(p)) as nat, v, w);
    assert(u == (v - pow2(p)) as nat);
    assert forall|i: nat| #[trigger] nth_bit(u, i) == (i != p && nth_bit(v, i)) by {
        if i >= w {
            lemma_nth_bit_high(u, w, i);
            lemma_nth_bit_high(v, w, i);
        }
    }
}

/// The lowest set bit heads the position sequence; clearing it drops the
/// head.
pub proof fn lemma_bit_positions_drop_first(v: nat, p: nat)
    requires
        nth_bit(v, p),
        forall|j: nat| j < p ==> !nth_bit(v, j),
    ensures
        bit_positions(v) == seq![p] + bit_positions((v - pow2(p)) as nat),
    decreases p,
{
    crate::bits::lemma_nth_bit_bound(v, p);
    lemma_pow2_pos(p);
    let f = |q: nat| (q + 1) as nat;
    if p == 0 {
        lemma_nth_bit_unfold(v, 0);
        assert(v % 2 == 1);
        lemma2_to64();
        let u = (v - 1) as nat;
        assert(u % 2 == 0);
        assert(u / 2 == v / 2);
        if u == 0 {
            assert(bit_positions(v) =~= seq![0nat] + bit_positions(0));
        } else {
            assert(bit_positions(v) =~= seq![0nat] + bit_positions(u));
        }
    } else {
        lemma_nth_bit_unfold(v, 0);
        assert(!nth_bit(v, 0));
        assert(v % 2 == 0);
        let p1 = (p - 1) as nat;
        lemma_nth_bit_unfold(v, p);
        assert forall|j: nat| j < p1 implies !(#[trigger] nth_bit(v / 2, j)) by {
            lemma_nth_bit_unfold(v, j + 1);
            assert(!nth_bit(v, j + 1));
        }
        lemma_bit_positions_drop_first(v / 2, p1);
        vstd::arithmetic::power2::lemma_pow2_unfold(p);
        let u = (v - pow2(p)) as nat;
        assert(u % 2 == 0);
        assert(u / 2 == (v / 2 - pow2(p1)) as nat);
        assert(bit_positions(v / 2) == seq![p1] + bit_positions(u / 2));
        assert(bit_positions(v) == bit_positions(v / 2).map_values(f));
        assert(bit_positions(v / 2).map_values(f) =~= seq![p] + bit_positions(u / 2).map_values(
            f,
        ));
        if u == 0 {
            assert(bit_positions(u / 2).map_values(f) =~= bit_positions(u));
        } else {
            assert(bit_positions(u) == bit_positions(u / 2).map_values(f));
        }
        assert(bit_positions(v) =~= seq![p] + bit_positions(u));
    }
}

/// The highest set bit ends the position sequence; clearing it drops the
/// last element.
pub proof fn lemma_bit_positions_drop_last(v: nat, p: nat)
    requires
        nth_bit(v, p),
        forall|j: nat| j > p ==> !nth_bit(v, j),
    ensures
        bit_positions(v) == bit_positions((v - pow2(p)) as nat) + seq![p],
    decreases v,
{
    crate::bits::lemma_nth_bit_bound(v, p);
    lemma_pow2_pos(p);
    let f = |q: nat| (q + 1) as nat;
    let u = (v - pow2(p)) as nat;
    if p == 0 {
        lemma_nth_bit_unfold(v, 0);
        assert(v % 2 == 1);
        lemma2_to64();
        if v / 2 > 0 {
            crate::bits::lemma_nonzero_has_bit(v / 2);
            let i = choose|i: nat| #[trigger] nth_bit(v / 2, i);
            lemma_nth_bit_unfold(v, i + 1);
            assert(nth_bit(v, i + 1));
            assert(false);
        }
        assert(v == 1);
        assert(bit_positions(1) =~= bit_positions(0) + seq![0nat]);
    } else {
        let p1 = (p - 1) as nat;
        lemma_nth_bit_unfold(v, p);
        assert(nth_bit(v / 2, p1));
        assert forall|j: nat| j > p1 implies !(#[trigger] nth_bit(v / 2, j)) by {
            lemma_nth_bit_unfold(v, j + 1);
            assert(!nth_bit(v, j + 1));
        }
        lemma_bit_positions_drop_last(v / 2, p1);
        vstd::arithmetic::power2::lemma_pow2_unfold(p);
        assert(u / 2 == (v / 2 - pow2(p1)) as nat);
        assert(bit_positions(v / 2) == bit_positions(u / 2) + seq![p1]);
        if v % 2 == 1 {
            assert(u % 2 == 1);
            assert(u != 0);
            assert(bit_positions(v) == seq![0nat] + bit_positions(v / 2).map_values(f));
            assert(bit_positions(u) == seq![0nat] + bit_positions(u / 2).map_values(f));
            assert(bit_positions(v / 2).map_values(f) =~= bit_positions(u / 2).map_values(f)
                + seq![p]);
            assert(bit_positions(v) =~= bit_positions(u) + seq![p]);
        } else {
            assert(u % 2 == 0);
            assert(bit_positions(v) == bit_positions(v / 2).map_values(f));
            if u == 0 {
                assert(bit_positions(u / 2).map_values(f) =~= bit_positions(u));
            } else {
                assert(bit_positions(u) == bit_positions(u / 2).map_values(f));
            }
            assert(bit_positions(v) =~= bit_positions(u) + seq![p]);
        }
    }
}

} // verus!
