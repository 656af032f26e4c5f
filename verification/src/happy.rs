//! Happy numbers: those whose orbit under "sum of the squares of the
//! decimal digits" reaches one.

use std::collections::HashSet;
use vstd::prelude::*;
use vstd::set_lib::lemma_len_subset;

verus! {

/// No orbit value after the first exceeds this: twenty digits of nine.
pub const ORBIT_BOUND: u64 = 1620;

/// The sum of the squares of the decimal digits of `n`.
pub open spec fn digit_square_sum(n: nat) -> nat
    decreases n,
{
    if n == 0 {
        0
    } else {
        (n % 10) * (n % 10) + digit_square_sum(n / 10)
    }
}

/// The value that `n` reaches after `k` steps of [`digit_square_sum`].
pub open spec fn happy_orbit(n: nat, k: nat) -> nat
    decreases k,
{
    if k == 0 {
        n
    } else {
        digit_square_sum(happy_orbit(n, (k - 1) as nat))
    }
}

/// The orbit of `n` reaches one.
pub open spec fn is_happy(n: nat) -> bool {
    exists|k: nat| #[trigger] happy_orbit(n, k) == 1
}

/// Ten to the power `k`.
spec fn pow10(k: nat) -> nat
    decreases k,
{
    if k == 0 {
        1
    } else {
        10 * pow10((k - 1) as nat)
    }
}

/// The 64-bit values below `n`.
spec fn below(n: nat) -> Set<u64> {
    Set::new(|v: u64| (v as nat) < n)
}

/// A number of at most `k` digits has a digit square sum of at most
/// `81 * k`.
proof fn lemma_digit_square_sum_by_length(n: nat, k: nat)
    requires
        n < pow10(k),
    ensures
        digit_square_sum(n) <= 81 * k,
    decreases k,
{
    if n > 0 {
        let d = n % 10;
        assert(d * d <= 81) by (nonlinear_arith)
            requires
                d <= 9,
        ;
        lemma_digit_square_sum_by_length(n / 10, (k - 1) as nat);
    }
}

/// The digit square sum of a 64-bit value is at most [`ORBIT_BOUND`].
pub proof fn lemma_digit_square_sum_bound(n: u64)
    ensures
        digit_square_sum(n as nat) <= ORBIT_BOUND,
{
    assert(pow10(20) == 100000000000000000000) by {
        reveal_with_fuel(pow10, 21);
    }
    lemma_digit_square_sum_by_length(n as nat, 20);
}

/// There are exactly `n` 64-bit values below `n`.
proof fn lemma_below_len(n: nat)
    requires
        n <= u64::MAX,
    ensures
        below(n).finite(),
        below(n).len() == n,
    decreases n,
{
    if n == 0 {
        assert(below(0) =~= Set::<u64>::empty());
    } else {
        lemma_below_len((n - 1) as nat);
        assert(below(n) =~= below((n - 1) as nat).insert((n - 1) as u64));
    }
}

/// Two places of an orbit that hold the same value are followed by the
/// same values.
proof fn lemma_orbit_shift(n: nat, a: nat, b: nat, t: nat)
    requires
        happy_orbit(n, a) == happy_orbit(n, b),
    ensures
        happy_orbit(n, a + t) == happy_orbit(n, b + t),
    decreases t,
{
    if t > 0 {
        lemma_orbit_shift(n, a, b, (t - 1) as nat);
    }
}

/// An orbit that comes back to an earlier value without having met one
/// never meets one.
pub proof fn lemma_orbit_cycle(n: nat, j: nat, i: nat, k: nat)
    requires
        j < i,
        happy_orbit(n, i) == happy_orbit(n, j),
        forall|m: nat| m <= i ==> #[trigger] happy_orbit(n, m) != 1,
    ensures
        happy_orbit(n, k) != 1,
    decreases k,
{
    if k > i {
        lemma_orbit_shift(n, i, j, (k - i) as nat);
        assert(i + (k - i) as nat == k);
        lemma_orbit_cycle(n, j, i, j + (k - i) as nat);
    }
}

/// One step of the orbit: the sum of the squares of the decimal digits.
pub fn digit_square_step(x: u64) -> (r: u64)
    ensures
        r == digit_square_sum(x as nat),
        r <= ORBIT_BOUND,
{
    let mut rest: u64 = x;
    let mut sum: u64 = 0;
    proof {
        lemma_digit_square_sum_bound(x);
    }
    while rest > 0
        invariant
            sum + digit_square_sum(rest as nat) == digit_square_sum(x as nat),
            digit_square_sum(x as nat) <= ORBIT_BOUND,
        decreases rest,
    {
        let d: u64 = rest % 10;
        assert(d * d <= 81) by (nonlinear_arith)
            requires
                d <= 9,
        ;
        sum = sum + d * d;
        rest = rest / 10;
    }
    sum
}

/// Whether the orbit of `p` reaches one. The values met are remembered,
/// and the walk ends at one or at the first value met twice.
pub fn is_happy_number(p: u64) -> (r: bool)
    ensures
        r == is_happy(p as nat),
{
    let mut seen: HashSet<u64> = HashSet::new();
    let mut current: u64 = p;
    let ghost mut steps: nat = 0;
    let ghost universe: Set<u64> = below(1621).insert(p);
    proof {
        lemma_below_len(1621);
    }
    while current != 1 && !seen.contains(&current)
        invariant
            current == happy_orbit(p as nat, steps),
            forall|v: u64|
                seen@.contains(v) <==> exists|j: nat|
                    j < steps && #[trigger] happy_orbit(p as nat, j) == v,
            forall|j: nat| j < steps ==> #[trigger] happy_orbit(p as nat, j) != 1,
            universe == below(1621).insert(p),
            universe.finite(),
            universe.len() <= 1622,
            seen@.finite(),
            seen@.subset_of(universe),
            universe.contains(current),
        decreases 1622 - seen@.len(),
    {
        let ghost before = seen@;
        let ghost met = current;
        seen.insert(current);
        current = digit_square_step(current);
        proof {
            assert(happy_orbit(p as nat, steps) == met);
            steps = steps + 1;
            assert forall|v: u64|
                seen@.contains(v) <==> exists|j: nat|
                    j < steps && #[trigger] happy_orbit(p as nat, j) == v by {
                if seen@.contains(v) {
                    if v == met {
                        assert(happy_orbit(p as nat, (steps - 1) as nat) == v);
                    } else {
                        assert(before.contains(v));
                        let j = choose|j: nat|
                            j < steps - 1 && #[trigger] happy_orbit(p as nat, j) == v;
                        assert(j < steps && happy_orbit(p as nat, j) == v);
                    }
                }
                if exists|j: nat| j < steps && #[trigger] happy_orbit(p as nat, j) == v {
                    let j = choose|j: nat| j < steps && #[trigger] happy_orbit(p as nat, j) == v;
                    if j < steps - 1 {
                        assert(before.contains(v));
                    }
                }
            }
            assert(below(1621).contains(current));
            lemma_len_subset(seen@, universe);
        }
    }
    if current == 1 {
        return true;
    }
    proof {
        let j = choose|j: nat| j < steps && #[trigger] happy_orbit(p as nat, j) == current;
        assert forall|k: nat| #[trigger] happy_orbit(p as nat, k) != 1 by {
            lemma_orbit_cycle(p as nat, j, steps, k);
        }
    }
    false
}

} // verus!
