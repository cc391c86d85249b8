//! Mathematical model of fixed-width bit patterns.
//!
//! A backing integer of any width is modelled as a natural number; the spec
//! functions here give the bit-level reading of that number.  All executable
//! contracts of the crate are stated over these functions.

use vstd::prelude::*;
use vstd::arithmetic::power2::{
    pow2, lemma_pow2_adds, lemma_pow2_pos, lemma_pow2_strictly_increases, lemma_pow2_unfold,
    lemma2_to64,
};
use vstd::arithmetic::div_mod::{lemma_basic_div, lemma_div_denominator};

verus! {

/// True iff bit `i` (counting from the least significant end) of `v` is set.
pub open spec fn nth_bit(v: nat, i: nat) -> bool {
    v / pow2(i) % 2 == 1
}

/// Number of set bits of `v` (its population count).
pub open spec fn popcount(v: nat) -> nat
    decreases v,
{
    if v == 0 {
        0
    } else {
        popcount(v / 2) + v % 2
    }
}

/// Position of the highest set bit of `v`, plus one; 0 for an empty pattern.
pub open spec fn bit_len(v: nat) -> nat
    decreases v,
{
    if v == 0 {
        0
    } else {
        bit_len(v / 2) + 1
    }
}

/// Bitwise AND of two bit patterns.
pub open spec fn and_nat(a: nat, b: nat) -> nat
    decreases a + b,
{
    if a == 0 || b == 0 {
        0
    } else {
        2 * and_nat(a / 2, b / 2) + if a % 2 == 1 && b % 2 == 1 {
            1nat
        } else {
            0nat
        }
    }
}

/// Bitwise OR of two bit patterns.
pub open spec fn or_nat(a: nat, b: nat) -> nat
    decreases a + b,
{
    if a == 0 && b == 0 {
        0
    } else {
        2 * or_nat(a / 2, b / 2) + if a % 2 == 1 || b % 2 == 1 {
            1nat
        } else {
            0nat
        }
    }
}

/// Bitwise XOR of two bit patterns.
pub open spec fn xor_nat(a: nat, b: nat) -> nat
    decreases a + b,
{
    if a == 0 && b == 0 {
        0
    } else {
        2 * xor_nat(a / 2, b / 2) + if (a % 2 == 1) != (b % 2 == 1) {
            1nat
        } else {
            0nat
        }
    }
}

/// Bitwise complement of `v` within a `w`-bit word.
pub open spec fn comp_nat(v: nat, w: nat) -> nat
    recommends
        v < pow2(w),
{
    (pow2(w) - 1 - v) as nat
}

/// Subtraction modulo a `w`-bit word: the wrap-around difference of `a` and `b`.
pub open spec fn sub_mod(a: nat, b: nat, w: nat) -> nat
    recommends
        a < pow2(w),
        b < pow2(w),
{
    if a >= b {
        (a - b) as nat
    } else {
        (a + pow2(w) - b) as nat
    }
}

/// The complement within a width stays within the width.
pub proof fn lemma_comp_nat_bound(v: nat, w: nat)
    requires
        v < pow2(w),
    ensures
        comp_nat(v, w) < pow2(w),
{
    lemma_pow2_pos(w);
}

/// True iff every set bit of `a` is also set in `b`.
pub open spec fn is_submask(a: nat, b: nat) -> bool {
    and_nat(a, b) == a
}

/// The powers of two at the widest supported word size.
pub proof fn lemma_pow2_128()
    ensures
        pow2(127) == 0x8000_0000_0000_0000_0000_0000_0000_0000,
        pow2(128) == 0x1_0000_0000_0000_0000_0000_0000_0000_0000,
{
    lemma_pow2_adds(64, 63);
    lemma_pow2_adds(64, 64);
    lemma2_to64();
    vstd::arithmetic::power2::lemma2_to64_rest();
}

/// How `nth_bit` decomposes into the lowest bit and the remaining bits.
pub proof fn lemma_nth_bit_unfold(v: nat, i: nat)
    ensures
        i == 0 ==> nth_bit(v, i) == (v % 2 == 1),
        i > 0 ==> nth_bit(v, i) == nth_bit(v / 2, (i - 1) as nat),
{
    if i == 0 {
        lemma2_to64();
        assert(pow2(0) == 1);
    } else {
        let j = (i - 1) as nat;
        lemma_pow2_unfold(i);
        lemma_pow2_pos(j);
        lemma_div_denominator(v as int, 2, pow2(j) as int);
        assert(v as int / (2 * pow2(j) as int) == (v as int / 2) / pow2(j) as int);
    }
}

/// Bits at or above the word width of a bounded value are clear.
pub proof fn lemma_nth_bit_high(v: nat, w: nat, i: nat)
    requires
        v < pow2(w),
        w <= i,
    ensures
        !nth_bit(v, i),
{
    if w < i {
        lemma_pow2_strictly_increases(w, i);
    }
    lemma_pow2_pos(i);
    lemma_basic_div(v as int, pow2(i) as int);
}

/// A set bit gives a lower bound on the value.
pub proof fn lemma_nth_bit_bound(v: nat, i: nat)
    requires
        nth_bit(v, i),
    ensures
        pow2(i) <= v,
{
    if v < pow2(i) {
        lemma_pow2_pos(i);
        lemma_basic_div(v as int, pow2(i) as int);
        assert(false);
    }
}

/// Two `w`-bit values with the same bits are the same value.
pub proof fn lemma_bit_ext(a: nat, b: nat, w: nat)
    requires
        a < pow2(w),
        b < pow2(w),
        forall|i: nat| i < w ==> nth_bit(a, i) == nth_bit(b, i),
    ensures
        a == b,
    decreases w,
{
    if w == 0 {
        lemma2_to64();
        assert(pow2(0) == 1);
    } else {
        let w1 = (w - 1) as nat;
        lemma_pow2_unfold(w);
        assert(nth_bit(a, 0) == nth_bit(b, 0));
        lemma_nth_bit_unfold(a, 0);
        lemma_nth_bit_unfold(b, 0);
        assert(a % 2 == b % 2);
        assert forall|i: nat| i < w1 implies #[trigger] nth_bit(a / 2, i) == nth_bit(b / 2, i) by {
            lemma_nth_bit_unfold(a, i + 1);
            lemma_nth_bit_unfold(b, i + 1);
            assert(nth_bit(a, i + 1) == nth_bit(b, i + 1));
        }
        assert(a / 2 < pow2(w1));
        assert(b / 2 < pow2(w1));
        lemma_bit_ext(a / 2, b / 2, w1);
    }
}

/// The empty pattern has no set bits.
pub proof fn lemma_nth_bit_zero(i: nat)
    ensures
        !nth_bit(0, i),
{
    lemma_pow2_pos(i);
    lemma_basic_div(0, pow2(i) as int);
}

/// Bits of an AND are the conjunctions of the operand bits.
pub proof fn lemma_and_nat_bit(a: nat, b: nat, i: nat)
    ensures
        nth_bit(and_nat(a, b), i) == (nth_bit(a, i) && nth_bit(b, i)),
    decreases a + b,
{
    if a == 0 || b == 0 {
        if a == 0 {
            lemma_nth_bit_zero(i);
        } else {
            lemma_nth_bit_zero(i);
        }
    } else if i == 0 {
        lemma_nth_bit_unfold(and_nat(a, b), 0);
        lemma_nth_bit_unfold(a, 0);
        lemma_nth_bit_unfold(b, 0);
    } else {
        let j = (i - 1) as nat;
        lemma_and_nat_bit(a / 2, b / 2, j);
        lemma_nth_bit_unfold(and_nat(a, b), i);
        lemma_nth_bit_unfold(a, i);
        lemma_nth_bit_unfold(b, i);
        assert(and_nat(a, b) / 2 == and_nat(a / 2, b / 2));
    }
}

/// An AND never exceeds either operand.
pub proof fn lemma_and_nat_le(a: nat, b: nat)
    ensures
        and_nat(a, b) <= a,
        and_nat(a, b) <= b,
    decreases a + b,
{
    if a == 0 || b == 0 {
    } else {
        lemma_and_nat_le(a / 2, b / 2);
    }
}

/// Bits of an OR are the disjunctions of the operand bits.
pub proof fn lemma_or_nat_bit(a: nat, b: nat, i: nat)
    ensures
        nth_bit(or_nat(a, b), i) == (nth_bit(a, i) || nth_bit(b, i)),
    decreases a + b,
{
    if a == 0 && b == 0 {
        lemma_nth_bit_zero(i);
    } else if i == 0 {
        lemma_nth_bit_unfold(or_nat(a, b), 0);
        lemma_nth_bit_unfold(a, 0);
        lemma_nth_bit_unfold(b, 0);
    } else {
        let j = (i - 1) as nat;
        lemma_or_nat_bit(a / 2, b / 2, j);
        lemma_nth_bit_unfold(or_nat(a, b), i);
        lemma_nth_bit_unfold(a, i);
        lemma_nth_bit_unfold(b, i);
        assert(or_nat(a, b) / 2 == or_nat(a / 2, b / 2));
    }
}

/// An OR of `w`-bit values stays within `w` bits.
pub proof fn lemma_or_nat_bound(a: nat, b: nat, w: nat)
    requires
        a < pow2(w),
        b < pow2(w),
    ensures
        or_nat(a, b) < pow2(w),
        or_nat(a, b) >= a,
        or_nat(a, b) >= b,
    decreases w,
{
    if a == 0 && b == 0 {
        lemma_pow2_pos(w);
    } else {
        if w == 0 {
            lemma2_to64();
            assert(pow2(0) == 1);
            assert(false);
        }
        let w1 = (w - 1) as nat;
        lemma_pow2_unfold(w);
        lemma_or_nat_bound(a / 2, b / 2, w1);
    }
}

/// Bits of an XOR are the inequalities of the operand bits.
pub proof fn lemma_xor_nat_bit(a: nat, b: nat, i: nat)
    ensures
        nth_bit(xor_nat(a, b), i) == (nth_bit(a, i) != nth_bit(b, i)),
    decreases a + b,
{
    if a == 0 && b == 0 {
        lemma_nth_bit_zero(i);
    } else if i == 0 {
        lemma_nth_bit_unfold(xor_nat(a, b), 0);
        lemma_nth_bit_unfold(a, 0);
        lemma_nth_bit_unfold(b, 0);
    } else {
        let j = (i - 1) as nat;
        lemma_xor_nat_bit(a / 2, b / 2, j);
        lemma_nth_bit_unfold(xor_nat(a, b), i);
        lemma_nth_bit_unfold(a, i);
        lemma_nth_bit_unfold(b, i);
        assert(xor_nat(a, b) / 2 == xor_nat(a / 2, b / 2));
    }
}

/// An XOR of `w`-bit values stays within `w` bits.
pub proof fn lemma_xor_nat_bound(a: nat, b: nat, w: nat)
    requires
        a < pow2(w),
        b < pow2(w),
    ensures
        xor_nat(a, b) < pow2(w),
    decreases w,
{
    if a == 0 && b == 0 {
        lemma_pow2_pos(w);
    } else {
        if w == 0 {
            lemma2_to64();
            assert(pow2(0) == 1);
            assert(false);
        }
        let w1 = (w - 1) as nat;
        lemma_pow2_unfold(w);
        lemma_xor_nat_bound(a / 2, b / 2, w1);
    }
}

/// Bits of the `w`-bit complement are the negated bits, below the width.
pub proof fn lemma_comp_nat_bit(v: nat, w: nat, i: nat)
    requires
        v < pow2(w),
        i < w,
    ensures
        comp_nat(v, w) < pow2(w),
        nth_bit(comp_nat(v, w), i) == !nth_bit(v, i),
    decreases w,
{
    let c = comp_nat(v, w);
    let w1 = (w - 1) as nat;
    lemma_pow2_unfold(w);
    assert(v / 2 < pow2(w1));
    assert(c == 2 * (pow2(w1) - 1 - v / 2) + (1 - v % 2));
    assert(c / 2 == comp_nat(v / 2, w1));
    assert(c % 2 == 1 - v % 2);
    if i == 0 {
        lemma_nth_bit_unfold(c, 0);
        lemma_nth_bit_unfold(v, 0);
    } else {
        lemma_comp_nat_bit(v / 2, w1, (i - 1) as nat);
        lemma_nth_bit_unfold(c, i);
        lemma_nth_bit_unfold(v, i);
    }
}

/// OR with the empty pattern is the identity.
pub proof fn lemma_or_nat_zero(a: nat)
    ensures
        or_nat(a, 0) == a,
        or_nat(0, a) == a,
    decreases a,
{
    if a != 0 {
        lemma_or_nat_zero(a / 2);
    }
}

/// An OR of disjoint patterns is their sum.
pub proof fn lemma_disjoint_or_add(a: nat, b: nat)
    requires
        and_nat(a, b) == 0,
    ensures
        or_nat(a, b) == a + b,
    decreases a + b,
{
    if a == 0 {
        lemma_or_nat_zero(b);
    } else if b == 0 {
        lemma_or_nat_zero(a);
    } else {
        assert(2 * and_nat(a / 2, b / 2) <= and_nat(a, b));
        lemma_disjoint_or_add(a / 2, b / 2);
    }
}

/// A non-zero value has at least one set bit.
pub proof fn lemma_nonzero_has_bit(v: nat)
    requires
        v > 0,
    ensures
        exists|i: nat| #[trigger] nth_bit(v, i),
    decreases v,
{
    lemma_nth_bit_unfold(v, 0);
    if v % 2 == 1 {
        assert(nth_bit(v, 0));
    } else {
        lemma_nonzero_has_bit(v / 2);
        let i = choose|i: nat| #[trigger] nth_bit(v / 2, i);
        lemma_nth_bit_unfold(v, i + 1);
        assert(nth_bit(v, i + 1));
    }
}

/// A bounded value has a bounded population count.
pub proof fn lemma_popcount_bound(v: nat, w: nat)
    requires
        v < pow2(w),
    ensures
        popcount(v) <= w,
    decreases w,
{
    if v == 0 {
    } else {
        if w == 0 {
            lemma2_to64();
            assert(pow2(0) == 1);
            assert(false);
        }
        let w1 = (w - 1) as nat;
        lemma_pow2_unfold(w);
        lemma_popcount_bound(v / 2, w1);
    }
}

/// A single-bit pattern has population count one.
pub proof fn lemma_popcount_pow2(i: nat)
    ensures
        popcount(pow2(i)) == 1,
    decreases i,
{
    if i == 0 {
        lemma2_to64();
        assert(pow2(0) == 1);
        assert(popcount(1) == popcount(0) + 1);
    } else {
        lemma_pow2_unfold(i);
        lemma_pow2_pos((i - 1) as nat);
        assert(pow2(i) % 2 == 0);
        assert(pow2(i) / 2 == pow2((i - 1) as nat));
        lemma_popcount_pow2((i - 1) as nat);
    }
}

/// A submask relation is the pointwise implication of bits.
pub proof fn lemma_submask_bits(a: nat, m: nat, w: nat)
    requires
        a < pow2(w),
        m < pow2(w),
    ensures
        is_submask(a, m) <==> (forall|i: nat| i < w ==> (nth_bit(a, i) ==> nth_bit(m, i))),
{
    if is_submask(a, m) {
        assert forall|i: nat| i < w implies (nth_bit(a, i) ==> nth_bit(m, i)) by {
            lemma_and_nat_bit(a, m, i);
        }
    }
    if forall|i: nat| i < w ==> (nth_bit(a, i) ==> nth_bit(m, i)) {
        lemma_and_nat_le(a, m);
        assert forall|i: nat| i < w implies nth_bit(and_nat(a, m), i) == nth_bit(a, i) by {
            lemma_and_nat_bit(a, m, i);
        }
        lemma_bit_ext(and_nat(a, m), a, w);
    }
}

/// A submask never exceeds its mask.
pub proof fn lemma_submask_le(a: nat, m: nat)
    requires
        is_submask(a, m),
    ensures
        a <= m,
{
    lemma_and_nat_le(a, m);
}

/// AND is commutative.
pub proof fn lemma_and_nat_comm(a: nat, b: nat)
    ensures
        and_nat(a, b) == and_nat(b, a),
    decreases a + b,
{
    if a == 0 || b == 0 {
    } else {
        lemma_and_nat_comm(a / 2, b / 2);
    }
}

/// A power of two has exactly one set bit, at its exponent.
pub proof fn lemma_pow2_nth_bit(p: nat, i: nat)
    ensures
        nth_bit(pow2(p), i) == (i == p),
{
    lemma_pow2_pos(p);
    lemma_pow2_pos(i);
    if i == p {
        assert(pow2(p) / pow2(p) == 1);
    } else if i > p {
        lemma_pow2_strictly_increases(p, i);
        lemma_basic_div(pow2(p) as int, pow2(i) as int);
    } else {
        vstd::arithmetic::power2::lemma_pow2_subtracts(i, p);
        assert(pow2(p) / pow2(i) == pow2((p - i) as nat));
        lemma_pow2_unfold((p - i) as nat);
        assert(pow2((p - i) as nat) % 2 == 0);
    }
}

/// A bounded value is zero exactly when it has no set bit below the width.
pub proof fn lemma_zero_iff_no_bits(v: nat, w: nat)
    requires
        v < pow2(w),
    ensures
        (v == 0) <==> (forall|i: nat| i < w ==> !nth_bit(v, i)),
{
    if v == 0 {
        assert forall|i: nat| i < w implies !nth_bit(v, i) by {
            lemma_nth_bit_zero(i);
        }
    }
    if forall|i: nat| i < w ==> !nth_bit(v, i) {
        assert forall|i: nat| i < w implies nth_bit(v, i) == nth_bit(0, i) by {
            lemma_nth_bit_zero(i);
        }
        lemma_pow2_pos(w);
        lemma_bit_ext(v, 0, w);
    }
}

/// An OR of two submasks of `m` is again a submask of `m`.
pub proof fn lemma_submask_or(a: nat, b: nat, m: nat, w: nat)
    requires
        a < pow2(w),
        b < pow2(w),
        m < pow2(w),
        is_submask(a, m),
        is_submask(b, m),
    ensures
        is_submask(or_nat(a, b), m),
{
    lemma_or_nat_bound(a, b, w);
    lemma_submask_bits(a, m, w);
    lemma_submask_bits(b, m, w);
    lemma_submask_bits(or_nat(a, b), m, w);
    assert forall|i: nat| i < w implies (nth_bit(or_nat(a, b), i) ==> nth_bit(m, i)) by {
        lemma_or_nat_bit(a, b, i);
    }
}

/// An AND with a submask of `m` on either side is a submask of `m`.
pub proof fn lemma_submask_and_any(a: nat, x: nat, m: nat, w: nat)
    requires
        a < pow2(w),
        x < pow2(w),
        m < pow2(w),
        is_submask(a, m),
    ensures
        is_submask(and_nat(a, x), m),
        is_submask(and_nat(x, a), m),
{
    lemma_and_nat_le(a, x);
    lemma_and_nat_comm(a, x);
    lemma_submask_bits(a, m, w);
    lemma_submask_bits(and_nat(a, x), m, w);
    assert forall|i: nat| i < w implies (nth_bit(and_nat(a, x), i) ==> nth_bit(m, i)) by {
        lemma_and_nat_bit(a, x, i);
    }
}

/// An AND with the mask itself is always a submask of the mask.
pub proof fn lemma_and_mask_submask(x: nat, m: nat, w: nat)
    requires
        x < pow2(w),
        m < pow2(w),
    ensures
        is_submask(and_nat(x, m), m),
{
    lemma_and_nat_le(x, m);
    lemma_submask_bits(and_nat(x, m), m, w);
    assert forall|i: nat| i < w implies (nth_bit(and_nat(x, m), i) ==> nth_bit(m, i)) by {
        lemma_and_nat_bit(x, m, i);
    }
}

/// An XOR of two submasks of `m` is again a submask of `m`.
pub proof fn lemma_submask_xor(a: nat, b: nat, m: nat, w: nat)
    requires
        a < pow2(w),
        b < pow2(w),
        m < pow2(w),
        is_submask(a, m),
        is_submask(b, m),
    ensures
        is_submask(xor_nat(a, b), m),
{
    lemma_xor_nat_bound(a, b, w);
    lemma_submask_bits(a, m, w);
    lemma_submask_bits(b, m, w);
    lemma_submask_bits(xor_nat(a, b), m, w);
    assert forall|i: nat| i < w implies (nth_bit(xor_nat(a, b), i) ==> nth_bit(m, i)) by {
        lemma_xor_nat_bit(a, b, i);
    }
}

/// The submask relation is transitive.
pub proof fn lemma_submask_trans(a: nat, b: nat, c: nat, w: nat)
    requires
        a < pow2(w),
        b < pow2(w),
        c < pow2(w),
        is_submask(a, b),
        is_submask(b, c),
    ensures
        is_submask(a, c),
{
    lemma_submask_bits(a, b, w);
    lemma_submask_bits(b, c, w);
    lemma_submask_bits(a, c, w);
}

/// Clearing the bits of the mask clears everything exactly for submasks.
pub proof fn lemma_and_not_empty(a: nat, m: nat, w: nat)
    requires
        a < pow2(w),
        m < pow2(w),
    ensures
        (and_nat(a, comp_nat(m, w)) == 0) <==> is_submask(a, m),
{
    let c = comp_nat(m, w);
    lemma_and_nat_le(a, c);
    lemma_submask_bits(a, m, w);
    lemma_zero_iff_no_bits(and_nat(a, c), w);
    if and_nat(a, c) == 0 {
        assert forall|i: nat| i < w implies (nth_bit(a, i) ==> nth_bit(m, i)) by {
            lemma_comp_nat_bit(m, w, i);
            lemma_and_nat_bit(a, c, i);
            assert(!nth_bit(and_nat(a, c), i));
        }
        assert(is_submask(a, m));
    }
    if is_submask(a, m) {
        assert forall|i: nat| i < w implies !nth_bit(and_nat(a, c), i) by {
            lemma_comp_nat_bit(m, w, i);
            lemma_and_nat_bit(a, c, i);
        }
        assert(and_nat(a, c) == 0);
    }
}

/// Adding a power of two whose bit is clear just sets that bit.
pub proof fn lemma_set_bit_value(v: nat, p: nat, w: nat)
    requires
        v < pow2(w),
        p < w,
        !nth_bit(v, p),
    ensures
        v + pow2(p) < pow2(w),
        forall|i: nat| #[trigger] nth_bit(v + pow2(p), i) == (i == p || nth_bit(v, i)),
{
    lemma_pow2_strictly_increases(p, w);
    lemma_and_nat_le(v, pow2(p));
    assert forall|i: nat| i < w implies !nth_bit(and_nat(v, pow2(p)), i) by {
        lemma_and_nat_bit(v, pow2(p), i);
        lemma_pow2_nth_bit(p, i);
    }
    lemma_zero_iff_no_bits(and_nat(v, pow2(p)), w);
    lemma_disjoint_or_add(v, pow2(p));
    lemma_or_nat_bound(v, pow2(p), w);
    assert forall|i: nat| #[trigger] nth_bit(v + pow2(p), i) == (i == p || nth_bit(v, i)) by {
        lemma_or_nat_bit(v, pow2(p), i);
        lemma_pow2_nth_bit(p, i);
    }
}

/// Reducing modulo the word size keeps the bits below the width.
pub proof fn lemma_mod_pow2_bit(b: nat, w: nat, i: nat)
    requires
        i < w,
    ensures
        nth_bit(b % pow2(w), i) == nth_bit(b, i),
    decreases i,
{
    lemma_pow2_pos(w);
    let w1 = (w - 1) as nat;
    lemma_pow2_unfold(w);
    lemma_pow2_pos(w1);
    vstd::arithmetic::div_mod::lemma_mod_breakdown(b as int, 2, pow2(w1) as int);
    assert(b % pow2(w) == 2 * ((b / 2) % pow2(w1)) + b % 2);
    if i == 0 {
        lemma_nth_bit_unfold(b % pow2(w), 0);
        lemma_nth_bit_unfold(b, 0);
        assert((b % pow2(w)) % 2 == b % 2);
    } else {
        assert((b % pow2(w)) / 2 == (b / 2) % pow2(w1));
        lemma_mod_pow2_bit(b / 2, w1, (i - 1) as nat);
        lemma_nth_bit_unfold(b % pow2(w), i);
        lemma_nth_bit_unfold(b, i);
    }
}

/// ANDing with a mask below the width ignores truncation of the other side.
pub proof fn lemma_and_nat_mod(b: nat, m: nat, w: nat)
    requires
        m < pow2(w),
    ensures
        and_nat(b % pow2(w), m) == and_nat(b, m),
{
    lemma_pow2_pos(w);
    let t = b % pow2(w);
    assert(t < pow2(w));
    lemma_and_nat_le(t, m);
    lemma_and_nat_le(b, m);
    assert forall|i: nat| i < w implies #[trigger] nth_bit(and_nat(t, m), i) == nth_bit(
        and_nat(b, m),
        i,
    ) by {
        lemma_and_nat_bit(t, m, i);
        lemma_and_nat_bit(b, m, i);
        lemma_mod_pow2_bit(b, w, i);
    }
    lemma_bit_ext(and_nat(t, m), and_nat(b, m), w);
}

/// A value with a set bit at `p` and nothing above has bit length `p + 1`.
pub proof fn lemma_bit_len_char(v: nat, p: nat)
    requires
        nth_bit(v, p),
        v < pow2(p + 1),
    ensures
        bit_len(v) == p + 1,
    decreases p,
{
    lemma_nth_bit_bound(v, p);
    lemma_pow2_pos(p);
    if p == 0 {
        lemma2_to64();
        assert(v == 1);
        assert(bit_len(0) == 0);
        assert(bit_len(1) == bit_len(0) + 1);
    } else {
        lemma_nth_bit_unfold(v, p);
        lemma_pow2_unfold(p + 1);
        assert(v / 2 < pow2(p));
        lemma_bit_len_char(v / 2, (p - 1) as nat);
    }
}

/// A bounded value with no set bit at its top position fits one bit fewer.
pub proof fn lemma_no_high_bit(v: nat, w: nat)
    requires
        v < pow2(w),
        w > 0,
        !nth_bit(v, (w - 1) as nat),
    ensures
        v < pow2((w - 1) as nat),
{
    let w1 = (w - 1) as nat;
    lemma_pow2_unfold(w);
    lemma_pow2_pos(w1);
    let d = pow2(w1) as int;
    let q = v as int / d;
    let r = v as int % d;
    vstd::arithmetic::div_mod::lemma_fundamental_div_mod(v as int, d);
    assert(q < 2) by (nonlinear_arith)
        requires
            v as int == d * q + r,
            0 <= r < d,
            v < 2 * d,
            d > 0,
    ;
    assert(q % 2 == 0);
    assert(q == 0);
    assert(d * q == 0) by (nonlinear_arith)
        requires
            q == 0,
    ;
    assert(v as int == r);
}

/// A bounded value with no set bits above `p` fits in `p + 1` bits.
pub proof fn lemma_high_zeros_bound(v: nat, w: nat, p: nat)
    requires
        v < pow2(w),
        p < w,
        forall|j: nat| p < j ==> !nth_bit(v, j),
    ensures
        v < pow2(p + 1),
    decreases w,
{
    if w == p + 1 {
    } else {
        lemma_no_high_bit(v, w);
        lemma_high_zeros_bound(v, (w - 1) as nat, p);
    }
}

} // verus!
