//! Integer sequences that some families are drawn from: the power-of-two
//! shapes of Cullen, Woodall and Thabit, the primorials of Euclid, and the
//! sequences of Fibonacci and Perrin.

use vstd::prelude::*;
use vstd::arithmetic::power2::{
    pow2,
    lemma2_to64,
    lemma2_to64_rest,
    lemma_pow2_strictly_increases,
    lemma_pow2_unfold,
};

verus! {

/// The largest exponent that the power-of-two shapes are searched to.
pub const MAX_SHAPE_EXPONENT: u64 = 60;

/// How many primes the primorials are built from.
pub const EUCLID_PRIMES: usize = 8;

/// A closed form built on a power of two.
#[derive(Clone, Copy, Debug, PartialEq, Eq, Structural)]
pub enum PowerShape {
    /// `n * 2^n + 1`
    Cullen,
    /// `n * 2^n - 1`
    Woodall,
    /// `3 * 2^n - 1`
    Thabit,
}

/// The term of a shape at exponent `n`.
pub open spec fn shape_term(shape: PowerShape, n: nat) -> int {
    match shape {
        PowerShape::Cullen => (n * pow2(n)) as int + 1,
        PowerShape::Woodall => (n * pow2(n)) as int - 1,
        PowerShape::Thabit => (3 * pow2(n)) as int - 1,
    }
}

/// `p` is the term of the shape at some exponent from 1 to
/// [`MAX_SHAPE_EXPONENT`].
pub open spec fn is_shape_term(shape: PowerShape, p: nat) -> bool {
    exists|n: nat| 1 <= n <= MAX_SHAPE_EXPONENT && #[trigger] shape_term(shape, n) == p
}

/// The first [`EUCLID_PRIMES`] primes.
pub open spec fn first_primes() -> Seq<u64> {
    seq![2u64, 3u64, 5u64, 7u64, 11u64, 13u64, 17u64, 19u64]
}

/// The product of the first `k` primes, for `k` up to [`EUCLID_PRIMES`].
pub open spec fn primorial(k: nat) -> nat
    decreases k,
{
    if k == 0 {
        1
    } else {
        primorial((k - 1) as nat) * first_primes()[k - 1] as nat
    }
}

/// `p` is one more than the product of the first `k` primes, for some `k`
/// from 1 to [`EUCLID_PRIMES`].
pub open spec fn is_euclid_number(p: nat) -> bool {
    exists|k: nat| 1 <= k <= EUCLID_PRIMES && #[trigger] primorial(k) + 1 == p
}

/// The Fibonacci numbers 1, 1, 2, 3, 5, ...
pub open spec fn fib(n: nat) -> nat
    decreases n,
{
    if n <= 1 {
        1
    } else {
        fib((n - 1) as nat) + fib((n - 2) as nat)
    }
}

/// `p` is a Fibonacci number.
pub open spec fn is_fibonacci(p: nat) -> bool {
    exists|n: nat| #[trigger] fib(n) == p
}

/// The Perrin sequence 3, 0, 2, 3, 2, 5, 5, 7, 10, 12, 17, ...: after the
/// first three terms, every term is the sum of the second and the third
/// term before it.
pub open spec fn perrin(n: nat) -> nat
    decreases n,
{
    if n == 0 {
        3
    } else if n == 1 {
        0
    } else if n == 2 {
        2
    } else {
        perrin((n - 2) as nat) + perrin((n - 3) as nat)
    }
}

/// `p` is a term of the Perrin sequence.
pub open spec fn is_perrin(p: nat) -> bool {
    exists|n: nat| #[trigger] perrin(n) == p
}

/// The primorials, written out.
pub proof fn lemma_primorial_values()
    ensures
        primorial(0) == 1,
        primorial(1) == 2,
        primorial(2) == 6,
        primorial(3) == 30,
        primorial(4) == 210,
        primorial(5) == 2310,
        primorial(6) == 30030,
        primorial(7) == 510510,
        primorial(8) == 9699690,
{
    let primes = first_primes();
    assert(primes[0] == 2 && primes[1] == 3 && primes[2] == 5 && primes[3] == 7);
    assert(primes[4] == 11 && primes[5] == 13 && primes[6] == 17 && primes[7] == 19);
    assert(primorial(0) == 1);
    assert(primorial(1) == primorial(0) * 2);
    assert(primorial(2) == primorial(1) * 3);
    assert(primorial(3) == primorial(2) * 5);
    assert(primorial(4) == primorial(3) * 7);
    assert(primorial(5) == primorial(4) * 11);
    assert(primorial(6) == primorial(5) * 13);
    assert(primorial(7) == primorial(6) * 17);
    assert(primorial(8) == primorial(7) * 19);
}

/// The Fibonacci numbers are positive and never fall.
pub proof fn lemma_fib_monotonic(i: nat, j: nat)
    requires
        i <= j,
    ensures
        1 <= fib(i) <= fib(j),
    decreases j,
{
    if j >= 2 {
        lemma_fib_monotonic(0, (j - 2) as nat);
        if i < j {
            lemma_fib_monotonic(i, (j - 1) as nat);
        } else {
            lemma_fib_monotonic(0, (j - 1) as nat);
        }
    }
}

/// The Perrin sequence up to its eighth term, written out.
pub proof fn lemma_perrin_values()
    ensures
        perrin(0) == 3,
        perrin(1) == 0,
        perrin(2) == 2,
        perrin(3) == 3,
        perrin(4) == 2,
        perrin(5) == 5,
        perrin(6) == 5,
        perrin(7) == 7,
{
    assert(perrin(3) == perrin(1) + perrin(0));
    assert(perrin(4) == perrin(2) + perrin(1));
    assert(perrin(5) == perrin(3) + perrin(2));
    assert(perrin(6) == perrin(4) + perrin(3));
    assert(perrin(7) == perrin(5) + perrin(4));
}

/// From its third term on, the Perrin sequence is at least two.
pub proof fn lemma_perrin_at_least_two(n: nat)
    requires
        n >= 2,
    ensures
        perrin(n) >= 2,
    decreases n,
{
    lemma_perrin_values();
    if n >= 5 {
        lemma_perrin_at_least_two((n - 2) as nat);
        lemma_perrin_at_least_two((n - 3) as nat);
    }
}

/// From the fifth term on, a term and the term four places before it add
/// up to the next term.
pub proof fn lemma_perrin_step(n: nat)
    requires
        n >= 4,
    ensures
        perrin(n + 1) == perrin(n) + perrin((n - 4) as nat),
{
    assert(perrin(n + 1) == perrin((n - 1) as nat) + perrin((n - 2) as nat));
    assert(perrin(n) == perrin((n - 2) as nat) + perrin((n - 3) as nat));
    assert(perrin((n - 1) as nat) == perrin((n - 3) as nat) + perrin((n - 4) as nat));
}

/// From its fifth term on, the Perrin sequence never falls.
pub proof fn lemma_perrin_monotonic(i: nat, j: nat)
    requires
        4 <= i <= j,
    ensures
        perrin(i) <= perrin(j),
    decreases j,
{
    if i < j {
        lemma_perrin_monotonic(i, (j - 1) as nat);
        lemma_perrin_step((j - 1) as nat);
    }
}

/// Whether `p` is a term of the shape at an exponent from 1 to
/// [`MAX_SHAPE_EXPONENT`].
pub fn is_power_term(shape: PowerShape, p: u64) -> (r: bool)
    ensures
        r == is_shape_term(shape, p as nat),
{
    let mut n: u64 = 1;
    let mut power: u128 = 2;
    proof {
        lemma2_to64();
    }
    while n <= MAX_SHAPE_EXPONENT
        invariant
            1 <= n <= MAX_SHAPE_EXPONENT + 1,
            power == pow2(n as nat),
            power >= 2,
            forall|m: nat| 1 <= m < n ==> #[trigger] shape_term(shape, m) != p,
        decreases MAX_SHAPE_EXPONENT + 1 - n,
    {
        proof {
            lemma2_to64_rest();
            if n < 61 {
                lemma_pow2_strictly_increases(n as nat, 61);
            }
            assert(power <= 0x2000000000000000);
            assert(1 <= n * power <= 61 * 0x2000000000000000) by (nonlinear_arith)
                requires
                    1 <= n <= 61,
                    1 <= power <= 0x2000000000000000,
            ;
        }
        let term: u128 = match shape {
            PowerShape::Cullen => (n as u128) * power + 1,
            PowerShape::Woodall => (n as u128) * power - 1,
            PowerShape::Thabit => 3 * power - 1,
        };
        assert(term == shape_term(shape, n as nat));
        if term == p as u128 {
            return true;
        }
        proof {
            lemma_pow2_unfold((n + 1) as nat);
        }
        power = power * 2;
        n = n + 1;
    }
    false
}

/// Whether `p` is one more than a primorial of the first
/// [`EUCLID_PRIMES`] primes.
pub fn is_euclid_term(p: u64) -> (r: bool)
    ensures
        r == is_euclid_number(p as nat),
{
    let primes: [u64; 8] = [2, 3, 5, 7, 11, 13, 17, 19];
    assert(primes@ =~= first_primes());
    let mut product: u64 = 1;
    let mut k: usize = 0;
    while k < EUCLID_PRIMES
        invariant
            0 <= k <= EUCLID_PRIMES,
            primes@ == first_primes(),
            product == primorial(k as nat),
            forall|m: nat| 1 <= m <= k ==> #[trigger] primorial(m) + 1 != p,
        decreases EUCLID_PRIMES - k,
    {
        proof {
            lemma_primorial_values();
        }
        product = product * primes[k];
        k = k + 1;
        if product + 1 == p {
            return true;
        }
    }
    false
}

/// Whether `p` is a Fibonacci number.
pub fn is_fibonacci_term(p: u64) -> (r: bool)
    ensures
        r == is_fibonacci(p as nat),
{
    let ghost mut n: nat = 1;
    let mut before: u64 = 1;
    let mut last: u64 = 1;
    while last < p
        invariant
            n >= 1,
            before == fib((n - 1) as nat),
            last == fib(n),
            before >= 1,
            n == 1 || before < p,
        decreases (if last < p { p - last } else { 0 }),
    {
        match before.checked_add(last) {
            Some(next) => {
                before = last;
                last = next;
                proof {
                    n = n + 1;
                }
            },
            None => {
                proof {
                    assert forall|m: nat| #[trigger] fib(m) != p by {
                        if m <= n {
                            lemma_fib_monotonic(m, n);
                        } else {
                            lemma_fib_monotonic(n + 1, m);
                        }
                    }
                }
                return false;
            },
        }
    }
    if last == p {
        return true;
    }
    proof {
        assert forall|m: nat| #[trigger] fib(m) != p by {
            if m < n {
                lemma_fib_monotonic(m, (n - 1) as nat);
                lemma_fib_monotonic(0, m);
            } else {
                lemma_fib_monotonic(n, m);
            }
        }
    }
    false
}

/// Whether `p` is a term of the Perrin sequence. The terms up to the
/// seventh are looked up; from there on the sequence rises, and three
/// terms are walked until `p` is reached or passed.
pub fn is_perrin_term(p: u64) -> (r: bool)
    ensures
        r == is_perrin(p as nat),
{
    proof {
        lemma_perrin_values();
    }
    if p <= 5 {
        if p == 1 || p == 4 {
            proof {
                assert forall|m: nat| #[trigger] perrin(m) != p by {
                    if m >= 5 {
                        lemma_perrin_monotonic(5, m);
                    }
                }
            }
            return false;
        }
        assert(perrin(1) == 0 && perrin(2) == 2 && perrin(3) == 3 && perrin(5) == 5);
        return true;
    }
    let ghost mut n: nat = 6;
    let mut second_before: u64 = 2;
    let mut before: u64 = 5;
    let mut last: u64 = 5;
    while last < p
        invariant
            n >= 6,
            p > 5,
            second_before == perrin((n - 2) as nat),
            before == perrin((n - 1) as nat),
            last == perrin(n),
            before < p,
        decreases (if last < p { p - last } else { 0 }),
    {
        proof {
            lemma_perrin_step(n);
            lemma_perrin_at_least_two((n - 4) as nat);
            assert(perrin(n + 1) == perrin((n - 1) as nat) + perrin((n - 2) as nat));
        }
        match second_before.checked_add(before) {
            Some(next) => {
                second_before = before;
                before = last;
                last = next;
                proof {
                    n = n + 1;
                }
            },
            None => {
                proof {
                    lemma_perrin_values();
                    assert forall|m: nat| #[trigger] perrin(m) != p by {
                        if m < 4 {
                        } else if m <= n {
                            lemma_perrin_monotonic(m, n);
                        } else {
                            lemma_perrin_monotonic(n + 1, m);
                        }
                    }
                }
                return false;
            },
        }
    }
    if last == p {
        return true;
    }
    proof {
        assert forall|m: nat| #[trigger] perrin(m) != p by {
            if m < 4 {
            } else if m < n {
                lemma_perrin_monotonic(m, (n - 1) as nat);
            } else {
                lemma_perrin_monotonic(n, m);
            }
        }
    }
    false
}

} // verus!
