//! Closed forms that some families are defined by: Mersenne and Fermat
//! numbers, the Proth shape, two quadratic polynomials, the factorial
//! condition of Wilson and the centered hexagonal numbers. Each form has
//! an explicit bound on the part of its domain that is searched.

use vstd::prelude::*;
use vstd::arithmetic::div_mod::{
    lemma_add_mod_noop,
    lemma_mod_multiples_basic,
    lemma_mul_mod_noop_left,
    lemma_small_mod,
};
use vstd::arithmetic::power2::{
    pow2,
    lemma2_to64,
    lemma2_to64_rest,
    lemma_pow2_adds,
    lemma_pow2_pos,
    lemma_pow2_strictly_increases,
    lemma_pow2_unfold,
};
use vstd::bits::{lemma_u64_pow2_no_overflow, lemma_u64_shl_is_mul};
use crate::primality::{divides, lemma_divides_transitive};

verus! {

/// The largest exponent whose Mersenne number fits in 64 bits.
pub const MERSENNE_MAX_EXPONENT: u64 = 63;

/// The largest index of a Fermat number that is looked at.
pub const FERMAT_MAX_INDEX: u64 = 6;

/// The largest exponent of two that the Proth shape is searched to.
pub const PROTH_MAX_EXPONENT: u64 = 63;

/// Candidates from here on are outside the Wilson family.
pub const WILSON_LIMIT: u64 = 50;

/// Two to the power 64, one more than the largest 64-bit value.
pub open spec fn two_to_64() -> nat {
    0x1_0000_0000_0000_0000
}

/// The Mersenne number of exponent `e`: `2^e - 1`.
pub open spec fn mersenne(e: nat) -> int {
    pow2(e) - 1
}

/// The Fermat number of index `k`: `2^(2^k) + 1`.
pub open spec fn fermat(k: nat) -> nat {
    pow2(pow2(k)) + 1
}

/// What is left of the Fermat number of index `k` in 64 bits.
pub open spec fn fermat_low_bits(k: nat) -> nat {
    fermat(k) % two_to_64()
}

/// `p` is more than a power of two, from the first to that of
/// [`PROTH_MAX_EXPONENT`], which divides `p - 1`.
pub open spec fn proth_shape(p: nat) -> bool {
    exists|n: nat| 1 <= n <= PROTH_MAX_EXPONENT && #[trigger] proth_shape_at(p, n)
}

/// `p` is more than `2^n`, and `2^n` divides `p - 1`.
pub open spec fn proth_shape_at(p: nat, n: nat) -> bool {
    p > pow2(n) && divides(pow2(n), (p - 1) as nat)
}

/// The cuban polynomial `3p^2 + 3p + 1`, the difference of the cubes of
/// `p + 1` and `p`.
pub open spec fn cuban(p: nat) -> nat {
    3 * p * p + 3 * p + 1
}

/// Euler's polynomial `p^2 + p + 41`.
pub open spec fn euler_polynomial(p: nat) -> nat {
    p * p + p + 41
}

/// The product of the numbers from 1 to `n`.
pub open spec fn factorial(n: nat) -> nat
    decreases n,
{
    if n == 0 {
        1
    } else {
        n * factorial((n - 1) as nat)
    }
}

/// `p` divides `(p - 1)! + 1`.
pub open spec fn wilson_condition(p: nat) -> bool {
    p >= 1 && (factorial((p - 1) as nat) + 1) % p == 0
}

/// The centered hexagonal number of index `n`, from index 1 on:
/// `3n(n - 1) + 1`.
pub open spec fn centered_hexagonal(n: nat) -> int {
    3 * n * (n - 1) + 1
}

/// `p` is a centered hexagonal number.
pub open spec fn is_centered_hexagonal(p: nat) -> bool {
    exists|n: nat| n >= 1 && #[trigger] centered_hexagonal(n) == p
}

/// The centered hexagonal numbers rise with the index.
pub proof fn lemma_centered_hexagonal_increases(a: nat, b: nat)
    requires
        1 <= a <= b,
    ensures
        1 <= centered_hexagonal(a) <= centered_hexagonal(b),
        a < b ==> centered_hexagonal(a) < centered_hexagonal(b),
{
    assert(3 * a * (a - 1) >= 0) by (nonlinear_arith)
        requires
            a >= 1,
    ;
    assert(3 * a * (a - 1) <= 3 * b * (b - 1)) by (nonlinear_arith)
        requires
            1 <= a <= b,
    ;
    if a < b {
        assert(3 * a * (a - 1) < 3 * b * (b - 1)) by (nonlinear_arith)
            requires
                1 <= a < b,
        ;
    }
}

/// The Proth shape, read plainly: the numbers that have it are the odd
/// numbers from three on.
pub proof fn lemma_proth_shape_is_odd(p: nat)
    ensures
        proth_shape(p) <==> p >= 3 && p % 2 == 1,
{
    lemma2_to64();
    if p >= 3 && p % 2 == 1 {
        assert(proth_shape_at(p, 1));
    }
    if proth_shape(p) {
        let n = choose|n: nat| 1 <= n <= PROTH_MAX_EXPONENT && #[trigger] proth_shape_at(p, n);
        lemma_pow2_unfold(n);
        let half = pow2((n - 1) as nat);
        lemma_pow2_pos((n - 1) as nat);
        assert(divides(2, pow2(n))) by {
            lemma_mod_multiples_basic(half as int, 2);
            assert(half * 2 == 2 * half);
        }
        lemma_divides_transitive(2, pow2(n), (p - 1) as nat);
    }
}

/// The Mersenne number of exponent `e`.
pub fn mersenne_number(e: u64) -> (m: u64)
    requires
        e <= MERSENNE_MAX_EXPONENT,
    ensures
        m == mersenne(e as nat),
{
    proof {
        lemma_u64_pow2_no_overflow(e as nat);
        lemma_u64_shl_is_mul(1, e);
    }
    (1u64 << e) - 1
}

/// What is left in 64 bits of the Fermat number of index `k`, which is
/// computed in 128 bits.
pub fn fermat_number_low_bits(k: u64) -> (f: u64)
    requires
        k <= FERMAT_MAX_INDEX,
    ensures
        f == fermat_low_bits(k as nat),
{
    let mut tower: u128 = 2;
    let mut i: u64 = 0;
    proof {
        lemma2_to64();
    }
    while i < k
        invariant
            i <= k <= FERMAT_MAX_INDEX,
            tower == pow2(pow2(i as nat)),
            pow2(i as nat) <= 64,
        decreases k - i,
    {
        proof {
            lemma2_to64();
            lemma2_to64_rest();
            if i < 5 {
                lemma_pow2_strictly_increases(i as nat, 5);
            }
            assert(pow2(i as nat) <= 32);
            if pow2(i as nat) < 32 {
                lemma_pow2_strictly_increases(pow2(i as nat), 32);
            }
            assert(tower <= 0x1_0000_0000);
            assert(tower * tower <= 0x1_0000_0000 * 0x1_0000_0000) by (nonlinear_arith)
                requires
                    tower <= 0x1_0000_0000,
            ;
            lemma_pow2_adds(pow2(i as nat), pow2(i as nat));
            lemma_pow2_unfold((i + 1) as nat);
        }
        tower = tower * tower;
        i = i + 1;
    }
    proof {
        lemma2_to64_rest();
        if pow2(k as nat) < 64 {
            lemma_pow2_strictly_increases(pow2(k as nat), 64);
        }
    }
    let wide: u128 = tower + 1;
    (wide % 0x1_0000_0000_0000_0000u128) as u64
}

/// Whether `p` has the Proth shape.
pub fn has_proth_shape(p: u64) -> (r: bool)
    ensures
        r == proth_shape(p as nat),
{
    if p == 0 {
        proof {
            assert forall|n: nat| !#[trigger] proth_shape_at(0, n) by {}
        }
        return false;
    }
    let mut n: u64 = 1;
    let mut power: u64 = 2;
    proof {
        lemma2_to64();
    }
    while n <= PROTH_MAX_EXPONENT
        invariant
            p >= 1,
            1 <= n <= PROTH_MAX_EXPONENT + 1,
            n <= PROTH_MAX_EXPONENT ==> power == pow2(n as nat),
            power >= 2,
            forall|m: nat| 1 <= m < n ==> !#[trigger] proth_shape_at(p as nat, m),
        decreases PROTH_MAX_EXPONENT + 1 - n,
    {
        proof {
            lemma2_to64_rest();
            if n < 63 {
                lemma_pow2_strictly_increases(n as nat, 63);
            }
        }
        if p > power && (p - 1) % power == 0 {
            assert(proth_shape_at(p as nat, n as nat));
            return true;
        }
        if n < PROTH_MAX_EXPONENT {
            proof {
                lemma_pow2_unfold((n + 1) as nat);
                if n + 1 < 63 {
                    lemma_pow2_strictly_increases((n + 1) as nat, 63);
                }
            }
            power = power * 2;
        }
        n = n + 1;
    }
    false
}

/// The value of the cuban polynomial at `p`, or `None` where it does not
/// fit in 64 bits.
pub fn cuban_value(p: u64) -> (r: Option<u64>)
    ensures
        match r {
            Some(v) => v == cuban(p as nat),
            None => cuban(p as nat) > u64::MAX,
        },
{
    if p > 0xFFFF_FFFF {
        proof {
            assert(3 * p * p + 3 * p + 1 > 0xFFFF_FFFF_FFFF_FFFF) by (nonlinear_arith)
                requires
                    p >= 0x1_0000_0000,
            ;
        }
        return None;
    }
    let wide: u128 = p as u128;
    proof {
        assert(wide * wide <= 0xFFFF_FFFF * 0xFFFF_FFFF) by (nonlinear_arith)
            requires
                wide <= 0xFFFF_FFFF,
        ;
    }
    let square: u128 = wide * wide;
    let value: u128 = 3 * square + 3 * wide + 1;
    proof {
        assert(3 * p * p == 3 * (p * p)) by (nonlinear_arith);
    }
    if value > u64::MAX as u128 {
        None
    } else {
        Some(value as u64)
    }
}

/// The value of Euler's polynomial at `p`, or `None` where it does not
/// fit in 64 bits.
pub fn euler_polynomial_value(p: u64) -> (r: Option<u64>)
    ensures
        match r {
            Some(v) => v == euler_polynomial(p as nat),
            None => euler_polynomial(p as nat) > u64::MAX,
        },
{
    if p > 0xFFFF_FFFF {
        proof {
            assert(p * p + p + 41 > 0xFFFF_FFFF_FFFF_FFFF) by (nonlinear_arith)
                requires
                    p >= 0x1_0000_0000,
            ;
        }
        return None;
    }
    let wide: u128 = p as u128;
    proof {
        assert(wide * wide <= 0xFFFF_FFFF * 0xFFFF_FFFF) by (nonlinear_arith)
            requires
                wide <= 0xFFFF_FFFF,
        ;
    }
    let value: u128 = wide * wide + wide + 41;
    if value > u64::MAX as u128 {
        None
    } else {
        Some(value as u64)
    }
}

/// Whether `p` divides `(p - 1)! + 1`. The factorial is reduced modulo
/// `p` after every factor.
pub fn satisfies_wilson(p: u64) -> (r: bool)
    ensures
        r == wilson_condition(p as nat),
{
    if p == 0 {
        return false;
    }
    let modulus: u128 = p as u128;
    let mut product: u128 = 1 % modulus;
    let mut i: u64 = 2;
    assert(factorial(1) == 1) by {
        reveal_with_fuel(factorial, 2);
    }
    if p == 1 {
        assert(factorial(0) == 1);
        return (product + 1) % modulus == 0;
    }
    while i < p
        invariant
            2 <= i <= p,
            modulus == p,
            product == factorial((i - 1) as nat) % (p as nat),
        decreases p - i,
    {
        proof {
            let f = factorial((i - 1) as nat);
            lemma_mul_mod_noop_left(f as int, i as int, p as int);
            assert(f * i == i * f) by (nonlinear_arith);
            assert(product * i <= modulus * modulus) by (nonlinear_arith)
                requires
                    product < modulus,
                    i < modulus,
            ;
            assert(modulus * modulus <= 0xFFFF_FFFF_FFFF_FFFF * 0xFFFF_FFFF_FFFF_FFFF)
                by (nonlinear_arith)
                requires
                    modulus <= 0xFFFF_FFFF_FFFF_FFFF,
            ;
        }
        product = product * (i as u128) % modulus;
        i = i + 1;
    }
    proof {
        let f = factorial((p - 1) as nat);
        lemma_add_mod_noop(f as int, 1, p as int);
        lemma_small_mod(1, p as nat);
    }
    (product + 1) % modulus == 0
}

/// Whether `p` is a centered hexagonal number. The index is found by
/// bisection, since the numbers rise with the index.
pub fn is_centered_hexagonal_number(p: u64) -> (r: bool)
    ensures
        r == is_centered_hexagonal(p as nat),
{
    if p == 0 {
        proof {
            assert forall|n: nat| n >= 1 implies #[trigger] centered_hexagonal(n) != 0 by {
                lemma_centered_hexagonal_increases(1, n);
            }
        }
        return false;
    }
    let mut low: u64 = 1;
    let mut high: u64 = 0x1_0000_0000;
    while high - low > 1
        invariant
            1 <= low < high <= 0x1_0000_0000,
            centered_hexagonal(low as nat) <= p < centered_hexagonal(high as nat),
        decreases high - low,
    {
        let middle: u64 = low + (high - low) / 2;
        let wide: u128 = middle as u128;
        proof {
            assert(3 * wide * (wide - 1) <= 3 * 0x1_0000_0000 * 0x1_0000_0000) by (nonlinear_arith)
                requires
                    1 <= wide <= 0x1_0000_0000,
            ;
            assert(3 * wide * (wide - 1) >= 0) by (nonlinear_arith)
                requires
                    1 <= wide,
            ;
        }
        let value: u128 = 3 * wide * (wide - 1) + 1;
        if value <= p as u128 {
            low = middle;
        } else {
            high = middle;
        }
    }
    let wide: u128 = low as u128;
    proof {
        assert(0 <= 3 * wide * (wide - 1) <= 3 * 0x1_0000_0000 * 0x1_0000_0000) by (nonlinear_arith)
            requires
                1 <= wide <= 0x1_0000_0000,
        ;
    }
    let value: u128 = 3 * wide * (wide - 1) + 1;
    if value == p as u128 {
        return true;
    }
    proof {
        assert forall|n: nat| n >= 1 implies #[trigger] centered_hexagonal(n) != p by {
            if n < low {
                lemma_centered_hexagonal_increases(n, low as nat);
            } else if n > low {
                lemma_centered_hexagonal_increases(high as nat, n);
            }
        }
    }
    false
}

} // verus!
