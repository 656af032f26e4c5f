//! The divisors of a Mersenne number. Every prime divisor of `2^e - 1`,
//! for an odd prime `e`, leaves the remainder one on division by `2e`;
//! so trial division of a Mersenne number has to try only those.

use vstd::prelude::*;
use vstd::arithmetic::div_mod::{
    lemma_fundamental_div_mod,
    lemma_fundamental_div_mod_converse,
    lemma_mod_multiples_basic,
    lemma_small_mod,
};
use vstd::arithmetic::power2::{
    pow2,
    lemma2_to64,
    lemma_pow2_adds,
    lemma_pow2_pos,
    lemma_pow2_strictly_increases,
    lemma_pow2_unfold,
};
use crate::forms::{mersenne, mersenne_number, MERSENNE_MAX_EXPONENT};
use crate::primality::{
    divides,
    is_prime,
    lemma_cofactor,
    lemma_divides_transitive,
    lemma_past_square_root,
    prime,
};

verus! {

/// `x` is a multiple of `q`.
pub open spec fn multiple(x: int, q: int) -> bool {
    x % q == 0
}

/// A product with `q` is a multiple of `q`.
proof fn lemma_multiple_product(q: int, t: int)
    requires
        q > 0,
    ensures
        multiple(q * t, q),
        multiple(t * q, q),
{
    lemma_mod_multiples_basic(t, q);
    assert(q * t == t * q) by (nonlinear_arith);
}

/// A multiple of `q` is `q` times the quotient.
proof fn lemma_multiple_quotient(x: int, q: int)
    requires
        q > 0,
        multiple(x, q),
    ensures
        x == q * (x / q),
{
    lemma_fundamental_div_mod(x, q);
}

/// Sums and differences of multiples are multiples.
proof fn lemma_multiple_sum(a: int, b: int, q: int)
    requires
        q > 0,
        multiple(a, q),
        multiple(b, q),
    ensures
        multiple(a + b, q),
        multiple(a - b, q),
{
    lemma_multiple_quotient(a, q);
    lemma_multiple_quotient(b, q);
    let s = a / q;
    let t = b / q;
    assert(a + b == q * (s + t)) by (nonlinear_arith)
        requires
            a == q * s,
            b == q * t,
    ;
    assert(a - b == q * (s - t)) by (nonlinear_arith)
        requires
            a == q * s,
            b == q * t,
    ;
    lemma_multiple_product(q, s + t);
    lemma_multiple_product(q, s - t);
}

/// A product with a multiple is a multiple.
proof fn lemma_multiple_times(a: int, c: int, q: int)
    requires
        q > 0,
        multiple(a, q),
    ensures
        multiple(a * c, q),
        multiple(c * a, q),
{
    lemma_multiple_quotient(a, q);
    let s = a / q;
    assert(a * c == q * (s * c)) by (nonlinear_arith)
        requires
            a == q * s,
    ;
    assert(c * a == q * (s * c)) by (nonlinear_arith)
        requires
            a == q * s,
    ;
    lemma_multiple_product(q, s * c);
}

/// A prime that divides a product divides one of the factors.
pub proof fn lemma_prime_divides_product(q: int, a: int, b: int)
    requires
        q >= 0,
        prime(q as nat),
        a >= 0,
        b >= 0,
        multiple(a * b, q),
    ensures
        multiple(a, q) || multiple(b, q),
    decreases a,
{
    if !multiple(b, q) {
        if a >= q {
            let less = a - q;
            lemma_multiple_product(q, b);
            lemma_multiple_sum(a * b, q * b, q);
            assert(less * b == a * b - q * b) by (nonlinear_arith)
                requires
                    less == a - q,
            ;
            lemma_prime_divides_product(q, less, b);
            lemma_multiple_product(q, 1);
            lemma_multiple_sum(less, q * 1, q);
            assert(less + q * 1 == a);
        } else if a == 0 {
        } else if a == 1 {
            assert(a * b == b) by (nonlinear_arith)
                requires
                    a == 1,
            ;
        } else {
            let rest = q % a;
            let times = q / a;
            lemma_fundamental_div_mod(q, a);
            lemma_multiple_product(q, b);
            lemma_multiple_times(a * b, times, q);
            lemma_multiple_sum(q * b, (a * b) * times, q);
            assert(rest * b == q * b - (a * b) * times) by (nonlinear_arith)
                requires
                    q == a * times + rest,
            ;
            lemma_prime_divides_product(q, rest, b);
            lemma_small_mod(rest as nat, q as nat);
            assert(rest == 0);
            assert(divides(a as nat, q as nat));
        }
    }
}

/// The binomial coefficient: the number of ways to pick `k` of `n`.
pub open spec fn binomial(n: nat, k: nat) -> nat
    decreases n,
{
    if k == 0 {
        1
    } else if n == 0 {
        0
    } else {
        binomial((n - 1) as nat, (k - 1) as nat) + binomial((n - 1) as nat, k)
    }
}

/// The sum of the binomial coefficients of `n` from the first to that of
/// `m`.
pub open spec fn row_sum(n: nat, m: nat) -> nat
    decreases m,
{
    if m == 0 {
        1
    } else {
        row_sum(n, (m - 1) as nat) + binomial(n, m)
    }
}

/// There is no way to pick more than there is.
proof fn lemma_binomial_past(n: nat, k: nat)
    requires
        k > n,
    ensures
        binomial(n, k) == 0,
    decreases n,
{
    if n > 0 {
        lemma_binomial_past((n - 1) as nat, (k - 1) as nat);
        lemma_binomial_past((n - 1) as nat, k);
    }
}

/// There is one way to pick all.
proof fn lemma_binomial_full(n: nat)
    ensures
        binomial(n, n) == 1,
    decreases n,
{
    if n > 0 {
        lemma_binomial_full((n - 1) as nat);
        lemma_binomial_past((n - 1) as nat, n);
    }
}

/// The sums of a row are the sums of the row before, added to themselves
/// one place on.
proof fn lemma_row_sum_step(n: nat, m: nat)
    ensures
        row_sum(n + 1, m) == row_sum(n, m) + if m >= 1 {
            row_sum(n, (m - 1) as nat)
        } else {
            0
        },
    decreases m,
{
    if m >= 1 {
        lemma_row_sum_step(n, (m - 1) as nat);
        assert(binomial(n + 1, m) == binomial(n, (m - 1) as nat) + binomial(n, m));
        if m == 1 {
            assert(row_sum(n, 0) == 1);
            assert(row_sum(n + 1, 0) == 1);
        }
    }
}

/// The binomial coefficients of `n` add up to `2^n`.
pub proof fn lemma_row_sum_full(n: nat)
    ensures
        row_sum(n, n) == pow2(n),
    decreases n,
{
    lemma2_to64();
    if n > 0 {
        let m = (n - 1) as nat;
        lemma_row_sum_full(m);
        lemma_row_sum_step(m, n);
        lemma_binomial_past(m, n);
        lemma_pow2_unfold(n);
    }
}

/// `k` times the ways to pick `k` of `n` is `n` times the ways to pick
/// `k - 1` of `n - 1`.
proof fn lemma_absorption(n: nat, k: nat)
    requires
        n >= 1,
        k >= 1,
    ensures
        k * binomial(n, k) == n * binomial((n - 1) as nat, (k - 1) as nat),
    decreases n,
{
    let m = (n - 1) as nat;
    let j = (k - 1) as nat;
    if n == 1 {
        if k >= 2 {
            lemma_binomial_past(0, j);
            lemma_binomial_past(1, k);
        }
        assert(k * binomial(n, k) == n * binomial(m, j)) by (nonlinear_arith)
            requires
                n == 1,
                k == 1 ==> binomial(n, k) == 1 && binomial(m, j) == 1,
                k != 1 ==> binomial(n, k) == 0 && binomial(m, j) == 0,
        ;
    } else {
        // binomial(n, k) == binomial(m, j) + binomial(m, k)
        lemma_absorption(m, k);
        let a = binomial(m, j);
        let b = binomial(m, k);
        let c = binomial((m - 1) as nat, j);
        assert(k * b == m * c);
        if k == 1 {
            assert(c == 1);
            assert(k * (a + b) == n * a) by (nonlinear_arith)
                requires
                    k == 1,
                    a == 1,
                    k * b == m * c,
                    c == 1,
                    n == m + 1,
            ;
        } else {
            lemma_absorption(m, j);
            let d = binomial((m - 1) as nat, (j - 1) as nat);
            assert(j * a == m * d);
            assert(a == d + c);
            assert(k * (a + b) == n * a) by (nonlinear_arith)
                requires
                    k == j + 1,
                    n == m + 1,
                    j * a == m * d,
                    k * b == m * c,
                    a == d + c,
            ;
        }
    }
}

/// A prime divides the number of ways to pick some, but not all, of as
/// many as itself.
proof fn lemma_binomial_prime(q: nat, k: nat)
    requires
        prime(q),
        0 < k < q,
    ensures
        multiple(binomial(q, k) as int, q as int),
{
    lemma_absorption(q, k);
    let c = binomial(q, k);
    let d = binomial((q - 1) as nat, (k - 1) as nat);
    lemma_multiple_product(q as int, d as int);
    assert(k * c == q * d);
    lemma_prime_divides_product(q as int, k as int, c as int);
    lemma_small_mod(k, q);
}

/// Short of its last place, the sum of the row of a prime is one more
/// than a multiple of the prime.
proof fn lemma_row_sum_prime(q: nat, m: nat)
    requires
        prime(q),
        m < q,
    ensures
        multiple(row_sum(q, m) - 1, q as int),
    decreases m,
{
    if m > 0 {
        lemma_row_sum_prime(q, (m - 1) as nat);
        lemma_binomial_prime(q, m);
        lemma_multiple_sum(row_sum(q, (m - 1) as nat) - 1, binomial(q, m) as int, q as int);
    } else {
        lemma_small_mod(0, q);
    }
}

/// For an odd prime `q`, `2^(q - 1)` is one more than a multiple of `q`.
pub proof fn lemma_fermat_two(q: nat)
    requires
        prime(q),
        q != 2,
    ensures
        multiple(pow2((q - 1) as nat) - 1, q as int),
{
    let m = (q - 1) as nat;
    lemma_row_sum_full(q);
    lemma_row_sum_prime(q, m);
    lemma_binomial_full(q);
    lemma_pow2_unfold(q);
    lemma_pow2_pos(m);
    let half = pow2(m);
    assert(2 * (half - 1) == row_sum(q, m) - 1);
    lemma_prime_divides_product(q as int, 2, half - 1);
    lemma_small_mod(2, q);
}

/// `2^m` is one more than a multiple of `q`.
pub open spec fn unit_power(q: int, m: nat) -> bool {
    multiple(pow2(m) - 1, q)
}

/// Exponents of unit powers add up to one.
proof fn lemma_unit_power_sum(q: int, a: nat, b: nat)
    requires
        q > 0,
        unit_power(q, a),
        unit_power(q, b),
    ensures
        unit_power(q, a + b),
{
    lemma_pow2_adds(a, b);
    let x = pow2(a) as int;
    let y = pow2(b) as int;
    lemma_multiple_times(x - 1, y, q);
    lemma_multiple_sum((x - 1) * y, y - 1, q);
    assert((x - 1) * y + (y - 1) == x * y - 1) by (nonlinear_arith);
}

/// A multiple of the exponent of a unit power is one.
proof fn lemma_unit_power_times(q: int, m: nat, k: nat)
    requires
        q > 0,
        unit_power(q, m),
    ensures
        unit_power(q, m * k),
    decreases k,
{
    lemma2_to64();
    if k == 0 {
        assert(m * k == 0) by (nonlinear_arith)
            requires
                k == 0,
        ;
        lemma_small_mod(0, q as nat);
    } else {
        lemma_unit_power_times(q, m, (k - 1) as nat);
        lemma_unit_power_sum(q, m * ((k - 1) as nat), m);
        assert(m * ((k - 1) as nat) + m == m * k) by (nonlinear_arith)
            requires
                k >= 1,
        ;
    }
}

/// The rest of the exponent of a unit power, on division by that of
/// another, is the exponent of a unit power.
proof fn lemma_unit_power_rest(q: int, a: nat, m: nat)
    requires
        q > 0,
        m >= 1,
        unit_power(q, a),
        unit_power(q, m),
    ensures
        unit_power(q, a % m),
{
    let k = a / m;
    let r = a % m;
    lemma_fundamental_div_mod(a as int, m as int);
    lemma_unit_power_times(q, m, k);
    lemma_pow2_adds(m * k, r);
    let x = pow2(m * k) as int;
    let y = pow2(r) as int;
    assert(pow2(a) == x * y);
    lemma_multiple_times(x - 1, y, q);
    lemma_multiple_sum(x * y - 1, (x - 1) * y, q);
    assert((x * y - 1) - (x - 1) * y == y - 1) by (nonlinear_arith);
}

/// Two exponents of unit powers have a common divisor that is one too.
proof fn lemma_unit_power_common(q: int, a: nat, b: nat) -> (g: nat)
    requires
        q > 0,
        a >= 1,
        unit_power(q, a),
        unit_power(q, b),
    ensures
        g >= 1,
        unit_power(q, g),
        multiple(a as int, g as int),
        multiple(b as int, g as int),
    decreases b,
{
    if b == 0 {
        lemma_multiple_product(a as int, 1);
        lemma_multiple_product(a as int, 0);
        a
    } else {
        let r = a % b;
        lemma_unit_power_rest(q, a, b);
        let g = lemma_unit_power_common(q, b, r);
        lemma_fundamental_div_mod(a as int, b as int);
        lemma_multiple_times(b as int, (a / b) as int, g as int);
        lemma_multiple_sum((b as int) * ((a / b) as int), r as int, g as int);
        g
    }
}

/// Every prime divisor of the Mersenne number of an odd prime exponent
/// `e` leaves the remainder one on division by `2e`.
pub proof fn lemma_mersenne_divisor(q: nat, e: nat)
    requires
        prime(q),
        prime(e),
        e >= 3,
        divides(q, (pow2(e) - 1) as nat),
    ensures
        q % (2 * e) == 1,
{
    lemma_pow2_pos(e);
    lemma_pow2_unfold(e);
    let qi = q as int;
    // two divides no odd number
    assert(q != 2) by {
        let half = pow2((e - 1) as nat);
        assert((2 * half - 1) % 2 == 1);
    }
    assert(q % 2 == 1) by {
        if q % 2 == 0 {
            assert(divides(2, q));
        }
    }
    assert(e % 2 == 1) by {
        if e % 2 == 0 {
            assert(divides(2, e));
        }
    }
    lemma_fermat_two(q);
    let r = ((q - 1) as nat) % e;
    lemma_unit_power_rest(qi, (q - 1) as nat, e);
    if r > 0 {
        let g = lemma_unit_power_common(qi, e, r);
        lemma_multiple_quotient(r as int, g as int);
        assert(g <= r) by (nonlinear_arith)
            requires
                r == g * (r as int / g as int),
                r > 0,
                g >= 1,
        ;
        if g >= 2 {
            assert(divides(g, e));
        }
        assert(g == 1);
        lemma2_to64();
        lemma_small_mod(1, q);
        assert(false);
    }
    // e divides q - 1, and so does two
    lemma_fundamental_div_mod(q - 1, e as int);
    let t = (q - 1) / (e as int);
    assert(q - 1 == e * t);
    assert(t % 2 == 0) by {
        if t % 2 == 1 {
            let a = e as int / 2;
            let b = t / 2;
            assert(e * t == 2 * (2 * a * b + a + b) + 1) by (nonlinear_arith)
                requires
                    e == 2 * a + 1,
                    t == 2 * b + 1,
            ;
        }
    }
    let s = t / 2;
    assert(q == s * (2 * e) + 1) by (nonlinear_arith)
        requires
            q - 1 == e * t,
            t == 2 * s,
    ;
    lemma_fundamental_div_mod_converse(q as int, (2 * e) as int, s, 1);
}

/// A number with a divisor from two on has a prime divisor that is no
/// more than it.
pub proof fn lemma_prime_divisor(n: nat, d: nat) -> (p: nat)
    requires
        d >= 2,
        divides(d, n),
    ensures
        prime(p),
        p <= d,
        divides(p, n),
    decreases d,
{
    if prime(d) {
        d
    } else {
        let c = choose|c: nat| 2 <= c < d && #[trigger] divides(c, d);
        lemma_divides_transitive(c, d, n);
        lemma_prime_divisor(n, c)
    }
}

/// The `k`-th number that leaves the remainder one on division by
/// `step`.
pub open spec fn candidate(step: nat, k: nat) -> nat {
    step * k + 1
}

/// A Mersenne number of an odd prime exponent `e` that none of the
/// candidates up to its square root divides is prime.
proof fn lemma_mersenne_trial_complete(e: nat, bound: nat, k: nat)
    requires
        prime(e),
        e >= 3,
        k >= 1,
        bound == candidate(2 * e, k),
        bound * bound > pow2(e) - 1,
        forall|j: nat|
            1 <= j < k ==> !divides(#[trigger] candidate(2 * e, j), (pow2(e) - 1) as nat),
    ensures
        prime((pow2(e) - 1) as nat),
{
    lemma2_to64();
    if e > 3 {
        lemma_pow2_strictly_increases(3, e);
    }
    let m = (pow2(e) - 1) as nat;
    let step = 2 * e;
    assert forall|d: nat| 2 <= d < m implies !#[trigger] divides(d, m) by {
        if divides(d, m) {
            let c = m / d;
            lemma_cofactor(m, d);
            assert(c >= 2) by (nonlinear_arith)
                requires
                    c * d == m,
                    d < m,
                    d >= 2,
            ;
            let small = if d <= c {
                d
            } else {
                c
            };
            assert(small < bound) by (nonlinear_arith)
                requires
                    c * d == m,
                    small == d || small == c,
                    small <= d,
                    small <= c,
                    bound * bound > m,
                    small >= 2,
            ;
            let p = lemma_prime_divisor(m, small);
            lemma_mersenne_divisor(p, e);
            let j = p / step;
            lemma_fundamental_div_mod(p as int, step as int);
            assert(p == candidate(step, j));
            assert(1 <= j < k) by (nonlinear_arith)
                requires
                    p == step * j + 1,
                    bound == step * k + 1,
                    p < bound,
                    p >= 2,
                    step >= 6,
            ;
        }
    }
}

/// Decides whether the Mersenne number of exponent `e` is prime. For an
/// odd prime exponent only the candidates `2ek + 1` are tried as
/// divisors, which every prime divisor is among.
pub fn is_mersenne_prime(e: u64) -> (r: bool)
    requires
        e <= MERSENNE_MAX_EXPONENT,
    ensures
        r == prime(mersenne(e as nat) as nat),
{
    let m = mersenne_number(e);
    if e < 3 || !is_prime(e) {
        return is_prime(m);
    }
    let step: u64 = 2 * e;
    let mut q: u64 = step + 1;
    let ghost mut k: nat = 1;
    proof {
        lemma2_to64();
        if e > 3 {
            lemma_pow2_strictly_increases(3, e as nat);
        }
    }
    while q <= m / q
        invariant
            3 <= e <= MERSENNE_MAX_EXPONENT,
            prime(e as nat),
            step == 2 * e,
            m == pow2(e as nat) - 1,
            m >= 7,
            k >= 1,
            q >= 7,
            q == candidate(step as nat, k),
            forall|j: nat|
                1 <= j < k ==> !divides(#[trigger] candidate((2 * e) as nat, j), m as nat),
        decreases (if q <= m { m - q } else { 0 }),
    {
        proof {
            lemma_fundamental_div_mod(m as int, q as int);
            assert(q * (m / q) >= q * q) by (nonlinear_arith)
                requires
                    m / q >= q,
                    q >= 7,
            ;
            assert(q < m && q < 0x1_0000_0000) by (nonlinear_arith)
                requires
                    q * q <= m,
                    q >= 7,
                    m <= 0xFFFF_FFFF_FFFF_FFFF,
            ;
            assert(step * k + step == step * (k + 1)) by (nonlinear_arith);
        }
        if m % q == 0 {
            assert(divides(q as nat, m as nat));
            return false;
        }
        q = q + step;
        proof {
            k = k + 1;
        }
    }
    proof {
        lemma_past_square_root(m as nat, q as nat);
        lemma_mersenne_trial_complete(e as nat, q as nat, k);
    }
    true
}

} // verus!
