//! The bit stream that a state gives rise to, and the numbers read off it.

use vstd::prelude::*;
use vstd::arithmetic::power2::{
    pow2, lemma_pow2_adds, lemma_pow2_strictly_increases, lemma_pow2_unfold, lemma2_to64,
    lemma2_to64_rest,
};
use vstd::arithmetic::mul::lemma_mul_is_distributive_add;
use vstd::bits::{lemma_u64_pow2_no_overflow, lemma_u64_shl_is_mul};
use crate::rule::{
    cell, steps, lemma_steps_add, lemma_zero_is_fixed, CENTER, MASK, WIDTH,
};

verus! {

/// Whether the observed cell of `s` is set.
pub open spec fn center_bit(s: u32) -> bool {
    s & MASK != 0
}

/// The `i`-th bit of the stream that starts at `s`: the observed cell after `i` steps.
pub open spec fn bit_at(s: u32, i: nat) -> bool {
    center_bit(steps(s, i))
}

/// The first `n` bits of the stream that starts at `s`.
pub open spec fn bits(s: u32, n: nat) -> Seq<bool> {
    Seq::new(n, |i: int| bit_at(s, i as nat))
}

/// The weight that stream bit `i` carries in a number: `2^i` if it is set.
pub open spec fn weight(s: u32, i: nat) -> nat {
    if bit_at(s, i) {
        pow2(i)
    } else {
        0
    }
}

/// The number whose binary digits are the first `n` stream bits of `s`,
/// the first bit being the least significant.
pub open spec fn value(s: u32, n: nat) -> nat
    decreases n,
{
    if n == 0 {
        0
    } else {
        value(s, (n - 1) as nat) + weight(s, (n - 1) as nat)
    }
}

/// The `k`-th byte drawn from `s`: eight stream bits, starting after `8 * k` steps.
pub open spec fn byte_at(s: u32, k: nat) -> nat {
    value(steps(s, 8 * k), 8)
}

/// The first `n` bytes drawn from `s`.
pub open spec fn bytes(s: u32, n: nat) -> Seq<u8> {
    Seq::new(n, |k: int| byte_at(s, k as nat) as u8)
}

/// The observed cell is the middle cell of the ring.
pub proof fn lemma_center_is_middle_cell(s: u32)
    ensures
        center_bit(s) == cell(s, CENTER as int),
        CENTER == WIDTH / 2,
{
    assert((s & 0x0001_0000u32 != 0) == ((s >> 16u32) & 1 == 1)) by (bit_vector);
}

/// A number read from `n` stream bits is below `2^n`.
pub proof fn lemma_value_bound(s: u32, n: nat)
    ensures
        value(s, n) < pow2(n),
    decreases n,
{
    if n == 0 {
        lemma2_to64();
    } else {
        lemma_value_bound(s, (n - 1) as nat);
        lemma_pow2_unfold(n);
    }
}

/// Stream bit `i` sits at bit position `i` of the number read from the stream.
pub proof fn lemma_value_bits(s: u32, n: nat, i: nat)
    requires
        i < n <= 64,
    ensures
        value(s, n) <= u64::MAX,
        (((value(s, n) as u64) >> (i as u64)) & 1 == 1) == bit_at(s, i),
    decreases n,
{
    let m: nat = (n - 1) as nat;
    lemma_value_bound(s, m);
    lemma_value_bound(s, n);
    lemma2_to64();
    lemma2_to64_rest();
    lemma_u64_pow2_no_overflow(m);
    lemma_u64_shl_is_mul(1u64, m as u64);
    lemma_pow2_strictly_increases(m, n);
    if n < 64 {
        lemma_u64_pow2_no_overflow(n);
    }
    let k: u64 = m as u64;
    let j: u64 = i as u64;
    let p: u64 = value(s, m) as u64;
    let v: u64 = value(s, n) as u64;
    if i == m {
        if bit_at(s, m) {
            assert((v >> k) & 1 == 1) by (bit_vector)
                requires
                    k < 64,
                    p < (1u64 << k),
                    v == p + (1u64 << k),
            ;
        } else {
            assert((v >> k) & 1 == 0) by (bit_vector)
                requires
                    k < 64,
                    v < (1u64 << k),
            ;
        }
    } else {
        lemma_value_bits(s, m, i);
        if bit_at(s, m) {
            assert((v >> j) & 1 == (p >> j) & 1) by (bit_vector)
                requires
                    j < k < 64,
                    p < (1u64 << k),
                    v == p + (1u64 << k),
            ;
        }
    }
}

/// Drawing `a + b` bits is drawing `a` bits and then `b` more from the state
/// that the first draw leaves, the later bits standing above the earlier ones.
pub proof fn lemma_value_split(s: u32, a: nat, b: nat)
    ensures
        value(s, a + b) == value(s, a) + pow2(a) * value(steps(s, a), b),
    decreases b,
{
    let t: u32 = steps(s, a);
    if b == 0 {
        assert(value(t, 0) == 0);
        assert(pow2(a) * 0 == 0);
    } else {
        let c: nat = (b - 1) as nat;
        lemma_value_split(s, a, c);
        lemma_steps_add(s, a, c);
        assert(bit_at(s, a + c) == bit_at(t, c));
        lemma_pow2_adds(a, c);
        assert(weight(s, a + c) == pow2(a) * weight(t, c)) by {
            if !bit_at(t, c) {
                assert(pow2(a) * 0 == 0);
            }
        }
        assert(value(t, b) == value(t, c) + weight(t, c));
        lemma_mul_is_distributive_add(pow2(a) as int, value(t, c) as int, weight(t, c) as int);
    }
}

/// The ring with no cell set never yields a set bit.
pub proof fn lemma_zero_is_silent(n: nat)
    ensures
        forall|i: nat| !bit_at(0, i),
        value(0, n) == 0,
    decreases n,
{
    assert forall|i: nat| !bit_at(0, i) by {
        lemma_zero_is_fixed(i);
        assert(0u32 & 0x0001_0000u32 == 0u32) by (bit_vector);
    }
    if n > 0 {
        lemma_zero_is_silent((n - 1) as nat);
    }
}

} // verus!
