//! Primality of a natural number, and trial division.

use vstd::prelude::*;
use vstd::arithmetic::div_mod::{
    lemma_div_multiples_vanish,
    lemma_fundamental_div_mod,
    lemma_mod_multiples_basic,
};

verus! {

/// `d` divides `n` without remainder.
pub open spec fn divides(d: nat, n: nat) -> bool {
    d != 0 && n % d == 0
}

/// `n` is a prime number: at least two, and divisible by nothing strictly
/// between one and itself. Zero and one are not prime.
pub open spec fn prime(n: nat) -> bool {
    n >= 2 && forall|d: nat| 2 <= d < n ==> !#[trigger] divides(d, n)
}

/// `d` splits `q` into two primes: `d` and the cofactor `q / d`.
pub open spec fn prime_split(q: nat, d: nat) -> bool {
    divides(d, q) && prime(d) && prime(q / d)
}

/// `q` is the product of exactly two primes, which may be equal.
pub open spec fn semiprime(q: nat) -> bool {
    exists|d: nat| #[trigger] prime_split(q, d)
}

/// If `i` exceeds the quotient `n / i`, then `i * i` exceeds `n`.
pub proof fn lemma_past_square_root(n: nat, i: nat)
    requires
        i >= 1,
        i > n / i,
    ensures
        i * i > n,
{
    lemma_fundamental_div_mod(n as int, i as int);
    let q = n / i;
    assert(n == i * q + n % i);
    assert(i * q <= i * (i - 1)) by (nonlinear_arith)
        requires
            q <= i - 1,
            i >= 1,
            q >= 0,
    ;
    assert(i * (i - 1) + i == i * i) by (nonlinear_arith);
}

/// A divisor `d` of `n` has a cofactor `n / d` that divides `n` too and
/// multiplies with `d` to `n`.
pub proof fn lemma_cofactor(n: nat, d: nat)
    requires
        divides(d, n),
    ensures
        (n / d) * d == n,
        n > 0 ==> divides(n / d, n),
{
    lemma_fundamental_div_mod(n as int, d as int);
    let c = n / d;
    assert(d * c == c * d) by (nonlinear_arith);
    if n > 0 {
        assert(c != 0) by (nonlinear_arith)
            requires
                c * d == n,
                n > 0,
        ;
        lemma_mod_multiples_basic(d as int, c as int);
    }
}

/// Trial division may stop at the square root: a number with no divisor
/// in `[2, i)`, where `i * i > n`, has no proper divisor at all.
pub proof fn lemma_trial_division_complete(n: nat, i: nat)
    requires
        n >= 2,
        i >= 2,
        i * i > n,
        forall|d: nat| 2 <= d < i ==> !#[trigger] divides(d, n),
    ensures
        prime(n),
{
    assert forall|d: nat| 2 <= d < n implies !#[trigger] divides(d, n) by {
        if d >= i && divides(d, n) {
            let c = n / d;
            lemma_cofactor(n, d);
            assert(c >= 2) by (nonlinear_arith)
                requires
                    c * d == n,
                    d < n,
                    d >= 2,
            ;
            assert(c < i) by (nonlinear_arith)
                requires
                    c * d == n,
                    d >= i,
                    i * i > n,
                    i >= 2,
            ;
            assert(divides(c, n));
        }
    }
}

/// A divisor of a divisor is a divisor.
pub proof fn lemma_divides_transitive(k: nat, d: nat, n: nat)
    requires
        divides(k, d),
        divides(d, n),
    ensures
        divides(k, n),
{
    lemma_fundamental_div_mod(n as int, d as int);
    lemma_fundamental_div_mod(d as int, k as int);
    let a = (n / d) as int;
    let b = (d / k) as int;
    assert(n == (b * a) * k) by (nonlinear_arith)
        requires
            n == d * a,
            d == k * b,
    ;
    lemma_mod_multiples_basic(b * a, k as int);
}

/// A number that neither two nor three divides has no divisor that two
/// or three divides.
proof fn lemma_wheel_skips(n: nat, d: nat)
    requires
        d >= 2,
        !divides(2, n),
        !divides(3, n),
        d % 2 == 0 || d % 3 == 0,
    ensures
        !divides(d, n),
{
    if divides(d, n) {
        if d % 2 == 0 {
            lemma_divides_transitive(2, d, n);
        } else {
            lemma_divides_transitive(3, d, n);
        }
    }
}

/// Decides primality by trial division up to the square root. After two
/// and three, only the divisors next to a multiple of six are tried: every
/// other number has two or three as a divisor.
pub fn is_prime(n: u64) -> (r: bool)
    ensures
        r == prime(n as nat),
{
    if n < 2 {
        return false;
    }
    if n < 4 {
        assert forall|d: nat| 2 <= d < n implies !#[trigger] divides(d, n as nat) by {}
        return true;
    }
    if n % 2 == 0 {
        assert(divides(2, n as nat));
        return false;
    }
    if n % 3 == 0 {
        assert(divides(3, n as nat));
        return false;
    }
    let mut i: u64 = 5;
    proof {
        assert forall|d: nat| 2 <= d < 5 implies !#[trigger] divides(d, n as nat) by {
            if d == 4 {
                lemma_wheel_skips(n as nat, d);
            }
        }
    }
    while i <= n / i
        invariant
            n >= 4,
            5 <= i <= n,
            i % 6 == 5,
            !divides(2, n as nat),
            !divides(3, n as nat),
            forall|d: nat| 2 <= d < i ==> !#[trigger] divides(d, n as nat),
        decreases n - i,
    {
        proof {
            lemma_fundamental_div_mod(n as int, i as int);
            assert(i * (n / i) >= i * i) by (nonlinear_arith)
                requires
                    n / i >= i,
                    i >= 5,
            ;
            assert(i * i >= i + 6) by (nonlinear_arith)
                requires
                    i >= 5,
            ;
        }
        if n % i == 0 {
            assert(divides(i as nat, n as nat));
            return false;
        }
        if n % (i + 2) == 0 {
            assert(divides((i + 2) as nat, n as nat));
            return false;
        }
        proof {
            assert forall|d: nat| 2 <= d < i + 6 implies !#[trigger] divides(d, n as nat) by {
                if d == i + 1 || d == i + 3 || d == i + 4 || d == i + 5 {
                    lemma_wheel_skips(n as nat, d);
                }
            }
        }
        i = i + 6;
    }
    proof {
        lemma_past_square_root(n as nat, i as nat);
        lemma_trial_division_complete(n as nat, i as nat);
    }
    true
}

/// A split into two primes can be read from either factor: the cofactor
/// of a splitting divisor splits the number too.
pub proof fn lemma_prime_split_symmetric(q: nat, d: nat)
    requires
        prime_split(q, d),
    ensures
        prime_split(q, q / d),
        q / (q / d) == d,
{
    let c = q / d;
    lemma_cofactor(q, d);
    assert(q > 0) by (nonlinear_arith)
        requires
            c * d == q,
            c >= 2,
            d >= 2,
    ;
    lemma_div_multiples_vanish(d as int, c as int);
}

/// Decides whether `q` is the product of exactly two primes, by trying
/// the divisors up to the square root.
pub fn is_semiprime(q: u64) -> (r: bool)
    ensures
        r == semiprime(q as nat),
{
    if q < 4 {
        proof {
            assert forall|d: nat| !#[trigger] prime_split(q as nat, d) by {
                if prime_split(q as nat, d) {
                    lemma_cofactor(q as nat, d);
                    let c = q as nat / d;
                    assert(c * d >= 4) by (nonlinear_arith)
                        requires
                            c >= 2,
                            d >= 2,
                    ;
                }
            }
        }
        return false;
    }
    let mut i: u64 = 2;
    while i <= q / i
        invariant
            q >= 4,
            2 <= i <= q,
            forall|d: nat| d < i ==> !#[trigger] prime_split(q as nat, d),
        decreases q - i,
    {
        if q % i == 0 && is_prime(i) && is_prime(q / i) {
            assert(prime_split(q as nat, i as nat));
            return true;
        }
        proof {
            lemma_fundamental_div_mod(q as int, i as int);
            assert(i * (q / i) >= i * 2) by (nonlinear_arith)
                requires
                    q / i >= i,
                    i >= 2,
            ;
        }
        i = i + 1;
    }
    proof {
        lemma_past_square_root(q as nat, i as nat);
        assert forall|d: nat| !#[trigger] prime_split(q as nat, d) by {
            if d >= i && prime_split(q as nat, d) {
                let c = q as nat / d;
                lemma_cofactor(q as nat, d);
                lemma_prime_split_symmetric(q as nat, d);
                assert(c < i) by (nonlinear_arith)
                    requires
                        c * d == q,
                        d >= i,
                        i * i > q,
                        i >= 2,
                ;
            }
        }
    }
    false
}

} // verus!
