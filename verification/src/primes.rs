//! The families of primes: which candidates belong to each, the text
//! that a member is shown as, and the scan of a range of candidates.

use vstd::prelude::*;
pub use crate::memo::{cache_stats, compute_with_memo, CacheKey, MemoCache};
pub use crate::primes_error::PrimeError;
use crate::decimal::{
    dec_digits,
    dec_text,
    decimal_digits,
    decimal_string,
    digits_to_u64,
    digits_value,
    is_palindrome,
    push_decimal,
    reversed,
    rotated,
    rotation,
};
use crate::forms::{
    cuban,
    cuban_value,
    euler_polynomial,
    euler_polynomial_value,
    fermat_low_bits,
    fermat_number_low_bits,
    has_proth_shape,
    is_centered_hexagonal,
    is_centered_hexagonal_number,
    mersenne,
    mersenne_number,
    proth_shape,
    satisfies_wilson,
    wilson_condition,
    FERMAT_MAX_INDEX,
    MERSENNE_MAX_EXPONENT,
    WILSON_LIMIT,
};
use crate::happy::{is_happy, is_happy_number};
use crate::mersenne::is_mersenne_prime;
use crate::primality::{is_prime, is_semiprime, prime, semiprime};
use crate::sequences::{
    is_euclid_number,
    is_euclid_term,
    is_fibonacci,
    is_fibonacci_term,
    is_perrin,
    is_perrin_term,
    is_power_term,
    is_shape_term,
    PowerShape,
};

verus! {

/// A family of primes.
#[derive(Clone, Copy, Debug, PartialEq, Eq, Hash, Structural)]
pub enum PrimeType {
    /// Primes of the form `2^p - 1`; the candidate is the exponent.
    Mersenne,
    /// Primes `p` with `2p + 1` prime.
    SophieGermain,
    /// Primes `p` with `p + 2` prime.
    Twin,
    /// Primes whose decimal digits read the same in both directions.
    Palindromic,
    /// Primes `p` with `p + 6` prime.
    Sexy,
    /// Primes `p` with `p + 4` prime.
    Cousin,
    /// Primes whose decimal digits, reversed, spell another prime.
    Emirp,
    /// Primes `p` with `(p - 1) / 2` prime.
    Safe,
    /// Primes `p` with `p + 2` prime or the product of two primes.
    Chen,
    /// Primes all of whose digit rotations are prime.
    Circular,
    /// Primes of the form `2^(2^p) + 1`; the candidate is the index.
    Fermat,
    /// Primes of the form `3p^2 + 3p + 1`; the candidate is `p`.
    Cuban,
    /// Primes of the form `p^2 + p + 41`; the candidate is `p`.
    Ebl,
    /// Primes one more than a multiple of a power of two below them.
    Proth,
    /// Primes of the form `n * 2^n + 1`.
    Cullen,
    /// Primes of the form `n * 2^n - 1`.
    Woodall,
    /// Primes of the form `3 * 2^n - 1`.
    Thabit,
    /// Primes one more than a product of the first primes.
    Euclid,
    /// Primes among the Fibonacci numbers.
    Fibonacci,
    /// Primes among the terms of [`crate::sequences::perrin`].
    Perrin,
    /// Primes whose digit-square orbit reaches one.
    Happy,
    /// Primes below [`WILSON_LIMIT`] that divide `(p - 1)! + 1`.
    Wilson,
    /// Primes among the centered hexagonal numbers.
    CenteredHex,
}

/// All the families, in the order of their declaration.
pub open spec fn all_families() -> Seq<PrimeType> {
    seq![
        PrimeType::Mersenne,
        PrimeType::SophieGermain,
        PrimeType::Twin,
        PrimeType::Palindromic,
        PrimeType::Sexy,
        PrimeType::Cousin,
        PrimeType::Emirp,
        PrimeType::Safe,
        PrimeType::Chen,
        PrimeType::Circular,
        PrimeType::Fermat,
        PrimeType::Cuban,
        PrimeType::Ebl,
        PrimeType::Proth,
        PrimeType::Cullen,
        PrimeType::Woodall,
        PrimeType::Thabit,
        PrimeType::Euclid,
        PrimeType::Fibonacci,
        PrimeType::Perrin,
        PrimeType::Happy,
        PrimeType::Wilson,
        PrimeType::CenteredHex,
    ]
}

/// The place of a family in the order of the declaration.
pub open spec fn family_index(kind: PrimeType) -> int {
    match kind {
        PrimeType::Mersenne => 0,
        PrimeType::SophieGermain => 1,
        PrimeType::Twin => 2,
        PrimeType::Palindromic => 3,
        PrimeType::Sexy => 4,
        PrimeType::Cousin => 5,
        PrimeType::Emirp => 6,
        PrimeType::Safe => 7,
        PrimeType::Chen => 8,
        PrimeType::Circular => 9,
        PrimeType::Fermat => 10,
        PrimeType::Cuban => 11,
        PrimeType::Ebl => 12,
        PrimeType::Proth => 13,
        PrimeType::Cullen => 14,
        PrimeType::Woodall => 15,
        PrimeType::Thabit => 16,
        PrimeType::Euclid => 17,
        PrimeType::Fibonacci => 18,
        PrimeType::Perrin => 19,
        PrimeType::Happy => 20,
        PrimeType::Wilson => 21,
        PrimeType::CenteredHex => 22,
    }
}

/// Every family is listed by [`all_families`], at its place and nowhere
/// else.
pub proof fn lemma_all_families_complete()
    ensures
        all_families().len() == 23,
        forall|kind: PrimeType|
            0 <= #[trigger] family_index(kind) < 23 && all_families()[family_index(kind)] == kind,
        forall|i: int| 0 <= i < 23 ==> family_index(#[trigger] all_families()[i]) == i,
        all_families().no_duplicates(),
{
    let all = all_families();
    assert forall|i: int| 0 <= i < 23 implies family_index(#[trigger] all[i]) == i by {
        if i < 8 {
            assert(i == 0 || i == 1 || i == 2 || i == 3 || i == 4 || i == 5 || i == 6 || i == 7);
        } else if i < 16 {
            assert(i == 8 || i == 9 || i == 10 || i == 11 || i == 12 || i == 13 || i == 14 || i
                == 15);
        } else {
            assert(i == 16 || i == 17 || i == 18 || i == 19 || i == 20 || i == 21 || i == 22);
        }
    }
    assert forall|i: int, j: int| 0 <= i < all.len() && 0 <= j < all.len() && i != j implies all[i]
        != all[j] by {
        assert(family_index(all[i]) == i);
        assert(family_index(all[j]) == j);
    }
}

/// `p` and `p + gap` are both prime, and `p + gap` fits in 64 bits.
pub open spec fn prime_pair(p: nat, gap: nat) -> bool {
    prime(p) && p + gap <= u64::MAX && prime(p + gap)
}

/// The rotation of `digits` by `i` places spells a prime that fits in 64
/// bits.
pub open spec fn rotation_prime(digits: Seq<u8>, i: int) -> bool {
    digits_value(rotation(digits, i)) <= u64::MAX && prime(digits_value(rotation(digits, i)))
}

/// Every rotation of `digits` spells a prime that fits in 64 bits.
pub open spec fn all_rotations_prime(digits: Seq<u8>) -> bool {
    forall|i: int| 0 <= i < digits.len() ==> #[trigger] rotation_prime(digits, i)
}

/// The number that the decimal digits of `p` spell in reverse.
pub open spec fn reversal(p: nat) -> nat {
    digits_value(dec_digits(p).reverse())
}

/// The candidate `p` belongs to the family `kind`. A candidate whose
/// defining arithmetic leaves the 64-bit range does not belong.
pub open spec fn is_member(kind: PrimeType, p: nat) -> bool {
    match kind {
        PrimeType::Mersenne => p <= MERSENNE_MAX_EXPONENT && prime(mersenne(p) as nat),
        PrimeType::SophieGermain => prime(p) && 2 * p + 1 <= u64::MAX && prime(2 * p + 1),
        PrimeType::Twin => prime_pair(p, 2),
        PrimeType::Palindromic => prime(p) && dec_digits(p) == dec_digits(p).reverse(),
        PrimeType::Sexy => prime_pair(p, 6),
        PrimeType::Cousin => prime_pair(p, 4),
        PrimeType::Emirp => reversal(p) <= u64::MAX && reversal(p) != p && prime(p) && prime(
            reversal(p),
        ),
        PrimeType::Safe => prime(p) && prime(((p - 1) / 2) as nat),
        PrimeType::Chen => prime(p) && p + 2 <= u64::MAX && (prime(p + 2) || semiprime(p + 2)),
        PrimeType::Circular => prime(p) && all_rotations_prime(dec_digits(p)),
        PrimeType::Fermat => p <= FERMAT_MAX_INDEX && prime(fermat_low_bits(p)),
        PrimeType::Cuban => cuban(p) <= u64::MAX && prime(cuban(p)),
        PrimeType::Ebl => euler_polynomial(p) <= u64::MAX && prime(euler_polynomial(p)),
        PrimeType::Proth => proth_shape(p) && prime(p),
        PrimeType::Cullen => is_shape_term(PowerShape::Cullen, p) && prime(p),
        PrimeType::Woodall => is_shape_term(PowerShape::Woodall, p) && prime(p),
        PrimeType::Thabit => is_shape_term(PowerShape::Thabit, p) && prime(p),
        PrimeType::Euclid => is_euclid_number(p) && prime(p),
        PrimeType::Fibonacci => is_fibonacci(p) && prime(p),
        PrimeType::Perrin => is_perrin(p) && prime(p),
        PrimeType::Happy => is_happy(p) && prime(p),
        PrimeType::Wilson => p < WILSON_LIMIT && wilson_condition(p) && prime(p),
        PrimeType::CenteredHex => is_centered_hexagonal(p) && prime(p),
    }
}

/// The text of a pair: `(a,b)`.
pub open spec fn pair_text(a: nat, b: nat) -> Seq<char> {
    seq!['('] + dec_text(a) + seq![','] + dec_text(b) + seq![')']
}

/// The text that the member `p` of the family `kind` is shown as: the
/// pair for the families of pairs, the prime that the candidate yields
/// where the candidate is an exponent or an argument, the index after an
/// `F` for Fermat, and the candidate itself for the rest.
pub open spec fn member_text(kind: PrimeType, p: nat) -> Seq<char> {
    match kind {
        PrimeType::Mersenne => dec_text(mersenne(p) as nat),
        PrimeType::Twin => pair_text(p, p + 2),
        PrimeType::Sexy => pair_text(p, p + 6),
        PrimeType::Cousin => pair_text(p, p + 4),
        PrimeType::Fermat => seq!['F'] + dec_text(p),
        PrimeType::Cuban => dec_text(cuban(p)),
        PrimeType::Ebl => dec_text(euler_polynomial(p)),
        _ => dec_text(p),
    }
}

/// What the test of the candidate `p` against the family `kind` yields:
/// the member's text, or nothing.
pub open spec fn hit(kind: PrimeType, p: nat) -> Option<Seq<char>> {
    if is_member(kind, p) {
        Some(member_text(kind, p))
    } else {
        None
    }
}

/// The hits of the candidates from `start` up to, and without, `end`, in
/// ascending order of the candidates. Empty unless `start < end`.
pub open spec fn range_hits(kind: PrimeType, start: nat, end: nat) -> Seq<Seq<char>>
    decreases end,
{
    if start >= end {
        Seq::empty()
    } else {
        let before = range_hits(kind, start, (end - 1) as nat);
        match hit(kind, (end - 1) as nat) {
            Some(text) => before.push(text),
            None => before,
        }
    }
}

/// The text of an optional string.
pub open spec fn text_of(s: Option<String>) -> Option<Seq<char>> {
    match s {
        Some(s) => Some(s@),
        None => None,
    }
}

/// The texts of a sequence of strings.
pub open spec fn texts(v: Seq<String>) -> Seq<Seq<char>> {
    v.map_values(|s: String| s@)
}

impl PrimeType {
    /// All the families, in the order of their declaration.
    pub fn all() -> (kinds: &'static [PrimeType])
        ensures
            kinds@ == all_families(),
    {
        let kinds: &'static [PrimeType] = &[
            PrimeType::Mersenne,
            PrimeType::SophieGermain,
            PrimeType::Twin,
            PrimeType::Palindromic,
            PrimeType::Sexy,
            PrimeType::Cousin,
            PrimeType::Emirp,
            PrimeType::Safe,
            PrimeType::Chen,
            PrimeType::Circular,
            PrimeType::Fermat,
            PrimeType::Cuban,
            PrimeType::Ebl,
            PrimeType::Proth,
            PrimeType::Cullen,
            PrimeType::Woodall,
            PrimeType::Thabit,
            PrimeType::Euclid,
            PrimeType::Fibonacci,
            PrimeType::Perrin,
            PrimeType::Happy,
            PrimeType::Wilson,
            PrimeType::CenteredHex,
        ];
        kinds
    }
}

/// The text `(a,b)`.
fn pair_string(a: u64, b: u64) -> (s: String)
    ensures
        s@ == pair_text(a as nat, b as nat),
{
    proof {
        reveal_strlit("(");
        reveal_strlit(",");
        reveal_strlit(")");
    }
    let mut s = String::new();
    s.append("(");
    push_decimal(&mut s, a);
    s.append(",");
    push_decimal(&mut s, b);
    s.append(")");
    proof {
        assert(s@ =~= pair_text(a as nat, b as nat));
    }
    s
}

/// The pair `(p,p+gap)` where both are prime.
fn pair_hit(p: u64, gap: u64) -> (r: Option<String>)
    ensures
        text_of(r) == if prime_pair(p as nat, gap as nat) {
            Some(pair_text(p as nat, (p + gap) as nat))
        } else {
            None
        },
{
    if !is_prime(p) {
        return None;
    }
    match p.checked_add(gap) {
        Some(q) => {
            if is_prime(q) {
                Some(pair_string(p, q))
            } else {
                None
            }
        },
        None => None,
    }
}

/// Whether every rotation of the digits spells a prime that fits in 64
/// bits.
fn rotations_all_prime(digits: &Vec<u8>) -> (r: bool)
    ensures
        r == all_rotations_prime(digits@),
{
    let mut i: usize = 0;
    while i < digits.len()
        invariant
            0 <= i <= digits.len(),
            forall|j: int| 0 <= j < i ==> #[trigger] rotation_prime(digits@, j),
        decreases digits.len() - i,
    {
        let turned = rotated(digits, i);
        match digits_to_u64(&turned) {
            Some(value) => {
                if !is_prime(value) {
                    assert(!rotation_prime(digits@, i as int));
                    return false;
                }
            },
            None => {
                assert(!rotation_prime(digits@, i as int));
                return false;
            },
        }
        i = i + 1;
    }
    true
}

/// The number that the decimal digits of `p` spell in reverse, or `None`
/// where it does not fit in 64 bits.
fn reversal_of(p: u64) -> (r: Option<u64>)
    ensures
        match r {
            Some(v) => v == reversal(p as nat),
            None => reversal(p as nat) > u64::MAX,
        },
{
    let digits = decimal_digits(p);
    let turned = reversed(&digits);
    digits_to_u64(&turned)
}

/// Tests the candidate `p` against the family `ty`, and gives the text of
/// the member where it belongs. A candidate whose defining arithmetic
/// leaves the 64-bit range does not belong; nothing here fails.
pub fn family_hit(ty: PrimeType, p: u64) -> (found: Option<String>)
    ensures
        text_of(found) == hit(ty, p as nat),
{
    match ty {
        PrimeType::Mersenne => {
            if p > MERSENNE_MAX_EXPONENT {
                return None;
            }
            if is_mersenne_prime(p) {
                Some(decimal_string(mersenne_number(p)))
            } else {
                None
            }
        },
        PrimeType::SophieGermain => {
            if p > (u64::MAX - 1) / 2 {
                return None;
            }
            if is_prime(p) && is_prime(2 * p + 1) {
                Some(decimal_string(p))
            } else {
                None
            }
        },
        PrimeType::Twin => pair_hit(p, 2),
        PrimeType::Palindromic => {
            let digits = decimal_digits(p);
            if is_palindrome(&digits) && is_prime(p) {
                Some(decimal_string(p))
            } else {
                None
            }
        },
        PrimeType::Sexy => pair_hit(p, 6),
        PrimeType::Cousin => pair_hit(p, 4),
        PrimeType::Emirp => {
            match reversal_of(p) {
                Some(r) => {
                    if r != p && is_prime(p) && is_prime(r) {
                        Some(decimal_string(p))
                    } else {
                        None
                    }
                },
                None => None,
            }
        },
        PrimeType::Safe => {
            if is_prime(p) && is_prime((p - 1) / 2) {
                Some(decimal_string(p))
            } else {
                None
            }
        },
        PrimeType::Chen => {
            if p > u64::MAX - 2 {
                return None;
            }
            let q = p + 2;
            if is_prime(p) && (is_prime(q) || is_semiprime(q)) {
                Some(decimal_string(p))
            } else {
                None
            }
        },
        PrimeType::Circular => {
            if !is_prime(p) {
                return None;
            }
            let digits = decimal_digits(p);
            if rotations_all_prime(&digits) {
                Some(decimal_string(p))
            } else {
                None
            }
        },
        PrimeType::Fermat => {
            if p > FERMAT_MAX_INDEX {
                return None;
            }
            if is_prime(fermat_number_low_bits(p)) {
                proof {
                    reveal_strlit("F");
                }
                let mut s = String::new();
                s.append("F");
                push_decimal(&mut s, p);
                proof {
                    assert(s@ =~= seq!['F'] + dec_text(p as nat));
                }
                Some(s)
            } else {
                None
            }
        },
        PrimeType::Cuban => {
            match cuban_value(p) {
                Some(v) => {
                    if is_prime(v) {
                        Some(decimal_string(v))
                    } else {
                        None
                    }
                },
                None => None,
            }
        },
        PrimeType::Ebl => {
            match euler_polynomial_value(p) {
                Some(v) => {
                    if is_prime(v) {
                        Some(decimal_string(v))
                    } else {
                        None
                    }
                },
                None => None,
            }
        },
        PrimeType::Proth => {
            if has_proth_shape(p) && is_prime(p) {
                Some(decimal_string(p))
            } else {
                None
            }
        },
        PrimeType::Cullen => {
            if is_power_term(PowerShape::Cullen, p) && is_prime(p) {
                Some(decimal_string(p))
            } else {
                None
            }
        },
        PrimeType::Woodall => {
            if is_power_term(PowerShape::Woodall, p) && is_prime(p) {
                Some(decimal_string(p))
            } else {
                None
            }
        },
        PrimeType::Thabit => {
            if is_power_term(PowerShape::Thabit, p) && is_prime(p) {
                Some(decimal_string(p))
            } else {
                None
            }
        },
        PrimeType::Euclid => {
            if is_euclid_term(p) && is_prime(p) {
                Some(decimal_string(p))
            } else {
                None
            }
        },
        PrimeType::Fibonacci => {
            if is_fibonacci_term(p) && is_prime(p) {
                Some(decimal_string(p))
            } else {
                None
            }
        },
        PrimeType::Perrin => {
            if is_perrin_term(p) && is_prime(p) {
                Some(decimal_string(p))
            } else {
                None
            }
        },
        PrimeType::Happy => {
            if is_happy_number(p) && is_prime(p) {
                Some(decimal_string(p))
            } else {
                None
            }
        },
        PrimeType::Wilson => {
            if p < WILSON_LIMIT && satisfies_wilson(p) && is_prime(p) {
                Some(decimal_string(p))
            } else {
                None
            }
        },
        PrimeType::CenteredHex => {
            if is_centered_hexagonal_number(p) && is_prime(p) {
                Some(decimal_string(p))
            } else {
                None
            }
        },
    }
}

/// The first candidate from which on the family has no member, for the
/// families that have such a bound.
pub open spec fn candidate_limit(kind: PrimeType) -> Option<u64> {
    match kind {
        PrimeType::Mersenne => Some((MERSENNE_MAX_EXPONENT + 1) as u64),
        PrimeType::Fermat => Some((FERMAT_MAX_INDEX + 1) as u64),
        PrimeType::Wilson => Some(WILSON_LIMIT),
        _ => None,
    }
}

/// A scan past the bound of a family finds what a scan up to the bound
/// finds.
pub proof fn lemma_no_hits_past_limit(kind: PrimeType, start: nat, end: nat)
    requires
        candidate_limit(kind) is Some,
        candidate_limit(kind).unwrap() <= end,
    ensures
        range_hits(kind, start, end) == range_hits(
            kind,
            start,
            candidate_limit(kind).unwrap() as nat,
        ),
    decreases end,
{
    let limit = candidate_limit(kind).unwrap() as nat;
    if end > limit {
        assert(hit(kind, (end - 1) as nat) is None);
        lemma_no_hits_past_limit(kind, start, (end - 1) as nat);
        if start >= end {
            assert(range_hits(kind, start, limit) =~= Seq::<Seq<char>>::empty());
        }
    }
}

/// Where a scan up to `end` stops: at `end`, or at the bound of the
/// family if the family has one and it comes first.
pub open spec fn scan_stop(kind: PrimeType, end: u64) -> u64 {
    match candidate_limit(kind) {
        Some(limit) => if end <= limit {
            end
        } else {
            limit
        },
        None => end,
    }
}

/// Where a scan up to `end` stops: at `end`, or at the bound of the
/// family if that comes first. A scan that stops there finds what a scan
/// up to `end` finds.
fn scan_end(ty: PrimeType, end: u64) -> (stop: u64)
    ensures
        stop == scan_stop(ty, end),
        stop <= end,
        forall|start: nat| #[trigger]
            range_hits(ty, start, stop as nat) == range_hits(ty, start, end as nat),
{
    let limit: u64 = match ty {
        PrimeType::Mersenne => MERSENNE_MAX_EXPONENT + 1,
        PrimeType::Fermat => FERMAT_MAX_INDEX + 1,
        PrimeType::Wilson => WILSON_LIMIT,
        _ => {
            return end;
        },
    };
    if end <= limit {
        return end;
    }
    proof {
        assert forall|start: nat| #[trigger]
            range_hits(ty, start, limit as nat) == range_hits(ty, start, end as nat) by {
            lemma_no_hits_past_limit(ty, start, end as nat);
        }
    }
    limit
}

/// Tests every candidate from `start` up to, and without, `end` against
/// the family `ty`, and lists the texts of the members in ascending order
/// of the candidates. The list is empty unless `start < end`. Candidates
/// past the bound of a bounded family are known not to belong, and are
/// not visited.
pub fn calculate_family(ty: PrimeType, start: u64, end: u64) -> (found: Vec<String>)
    ensures
        texts(found@) == range_hits(ty, start as nat, end as nat),
{
    let mut found: Vec<String> = Vec::new();
    if start >= end {
        assert(texts(found@) =~= range_hits(ty, start as nat, end as nat));
        return found;
    }
    let stop = scan_end(ty, end);
    let mut p: u64 = start;
    assert(texts(found@) =~= range_hits(ty, start as nat, p as nat));
    while p < stop
        invariant
            start <= p,
            stop <= end,
            p <= stop || p == start,
            texts(found@) == range_hits(ty, start as nat, p as nat),
        decreases stop - p,
    {
        let ghost before = found@;
        match family_hit(ty, p) {
            Some(text) => {
                found.push(text);
                assert(texts(found@) =~= texts(before).push(text@));
            },
            None => {},
        }
        p = p + 1;
    }
    proof {
        if p > stop {
            assert(range_hits(ty, start as nat, stop as nat) =~= Seq::<Seq<char>>::empty());
        }
    }
    found
}

/// A range scanned in two parts yields the hits of the first part and
/// then those of the second.
pub proof fn lemma_range_hits_split(kind: PrimeType, start: nat, middle: nat, end: nat)
    requires
        start <= middle <= end,
    ensures
        range_hits(kind, start, end) == range_hits(kind, start, middle) + range_hits(
            kind,
            middle,
            end,
        ),
    decreases end,
{
    if middle == end {
        assert(range_hits(kind, middle, end) =~= Seq::<Seq<char>>::empty());
        assert(range_hits(kind, start, end) =~= range_hits(kind, start, middle) + range_hits(
            kind,
            middle,
            end,
        ));
    } else {
        lemma_range_hits_split(kind, start, middle, (end - 1) as nat);
        let first = range_hits(kind, start, middle);
        let second = range_hits(kind, middle, (end - 1) as nat);
        match hit(kind, (end - 1) as nat) {
            Some(text) => {
                assert((first + second).push(text) =~= first + second.push(text));
            },
            None => {},
        }
    }
}

/// A range of one candidate yields the candidate's hit, if it has one.
pub proof fn lemma_range_hits_single(kind: PrimeType, p: nat)
    ensures
        range_hits(kind, p, p + 1) == match hit(kind, p) {
            Some(text) => seq![text],
            None => Seq::<Seq<char>>::empty(),
        },
{
    assert(range_hits(kind, p, p) =~= Seq::<Seq<char>>::empty());
    match hit(kind, p) {
        Some(text) => {
            assert(range_hits(kind, p, p + 1) =~= seq![text]);
        },
        None => {},
    }
}

} // verus!
