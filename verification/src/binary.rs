//! Binary digits of natural numbers, and the masks that test and set them.

use vstd::arithmetic::div_mod::{lemma_basic_div, lemma_div_by_multiple, lemma_div_denominator};
use vstd::arithmetic::power2::{
    lemma2_to64, lemma_pow2_pos, lemma_pow2_strictly_increases, lemma_pow2_unfold, pow2,
};
use vstd::bits::{lemma_u64_pow2_no_overflow, lemma_u64_shl_is_mul, lemma_u64_shr_is_div};
use vstd::prelude::*;

verus! {

/// Binary digit `k` of `v`, counted from the least significant: 0 or 1.
pub open spec fn bit_of(v: nat, k: nat) -> nat {
    (v / pow2(k)) % 2
}

/// Binary digit 0 is the remainder by 2, and halving a number moves each of
/// its other digits one place down.
pub proof fn lemma_bit_of_half(v: nat, k: nat)
    ensures
        bit_of(v, 0) == v % 2,
        bit_of(v / 2, k) == bit_of(v, k + 1),
{
    lemma2_to64();
    lemma_pow2_pos(k);
    lemma_pow2_unfold(k + 1);
    lemma_div_denominator(v as int, 2, pow2(k) as int);
}

/// The mask with only bit `k` set is `2^k`, and a value has a bit in common
/// with it exactly when its binary digit `k` is 1.
pub proof fn lemma_mask_tests_bit(v: u64, k: u64)
    requires
        k < 64,
    ensures
        (1u64 << k) == pow2(k as nat),
        (v & (1u64 << k) != 0) == (bit_of(v as nat, k as nat) == 1),
{
    assert((v & (1u64 << k) != 0) == ((v >> k) % 2 == 1)) by (bit_vector)
        requires
            k < 64,
    ;
    lemma_u64_shr_is_div(v, k);
    lemma_u64_pow2_no_overflow(k as nat);
    lemma_u64_shl_is_mul(1, k);
}

/// Bit `k` of an even multiple of `2^k` is clear, so setting it through the
/// mask adds `2^k`: the multiple becomes the next, odd one.
pub proof fn lemma_mask_sets_bit(v: u64, c: nat, k: u64)
    requires
        k < 64,
        v == (2 * c) * pow2(k as nat),
    ensures
        (v | (1u64 << k)) == (2 * c + 1) * pow2(k as nat),
{
    let m = 1u64 << k;
    lemma_mask_tests_bit(v, k);
    lemma_pow2_pos(k as nat);
    lemma_div_by_multiple((2 * c) as int, pow2(k as nat) as int);
    assert((v | m) == v + m) by (bit_vector)
        requires
            v & m == 0,
    ;
    assert((2 * c + 1) * pow2(k as nat) == (2 * c) * pow2(k as nat) + pow2(k as nat))
        by (nonlinear_arith);
}

/// A 64-bit value has no binary digit set from position 64 on.
pub proof fn lemma_bit_above_range(v: u64, k: nat)
    requires
        k >= 64,
    ensures
        bit_of(v as nat, k) == 0,
{
    lemma2_to64();
    if k > 64 {
        lemma_pow2_strictly_increases(64, k);
    }
    lemma_basic_div(v as int, pow2(k) as int);
}

} // verus!
