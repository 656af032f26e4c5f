//! Decimal digits of a number, the text they spell, and the number that a
//! sequence of digits stands for.

use vstd::prelude::*;

verus! {

/// The decimal digits of `n`, most significant first, without leading
/// zeros. Zero has the single digit `0`.
pub open spec fn dec_digits(n: nat) -> Seq<u8>
    decreases n,
{
    if n < 10 {
        seq![n as u8]
    } else {
        dec_digits(n / 10).push((n % 10) as u8)
    }
}

/// The character that shows the digit `d`. What is more than nine is
/// shown as nine.
pub open spec fn digit_char(d: u8) -> char {
    if d == 0 {
        '0'
    } else if d == 1 {
        '1'
    } else if d == 2 {
        '2'
    } else if d == 3 {
        '3'
    } else if d == 4 {
        '4'
    } else if d == 5 {
        '5'
    } else if d == 6 {
        '6'
    } else if d == 7 {
        '7'
    } else if d == 8 {
        '8'
    } else {
        '9'
    }
}

/// Every element is a decimal digit.
pub open spec fn all_digits(s: Seq<u8>) -> bool {
    forall|i: int| 0 <= i < s.len() ==> #[trigger] s[i] < 10
}

/// The text that shows a sequence of digits, one character per digit.
pub open spec fn digits_text(s: Seq<u8>) -> Seq<char> {
    s.map_values(|d: u8| digit_char(d))
}

/// The decimal text of `n`.
pub open spec fn dec_text(n: nat) -> Seq<char> {
    digits_text(dec_digits(n))
}

/// The number that a sequence of digits spells, most significant first.
/// Leading zeros do not count, and the empty sequence spells zero.
pub open spec fn digits_value(s: Seq<u8>) -> nat
    decreases s.len(),
{
    if s.len() == 0 {
        0
    } else {
        digits_value(s.drop_last()) * 10 + s.last() as nat
    }
}

/// The digits of `s` rotated left by `i` places: the digit at place `i`
/// comes first, and the first `i` digits follow the last.
pub open spec fn rotation(s: Seq<u8>, i: int) -> Seq<u8> {
    s.subrange(i, s.len() as int) + s.subrange(0, i)
}

/// The digits of a number are decimal digits, and there is at least one.
pub proof fn lemma_dec_digits_shape(n: nat)
    ensures
        dec_digits(n).len() >= 1,
        all_digits(dec_digits(n)),
    decreases n,
{
    if n >= 10 {
        lemma_dec_digits_shape(n / 10);
    }
}

/// A number is what its own digits spell.
pub proof fn lemma_digits_value_of_dec_digits(n: nat)
    ensures
        digits_value(dec_digits(n)) == n,
    decreases n,
{
    if n < 10 {
        let s = dec_digits(n);
        assert(s.drop_last() =~= Seq::<u8>::empty());
        assert(digits_value(s.drop_last()) == 0);
    } else {
        lemma_digits_value_of_dec_digits(n / 10);
        let s = dec_digits(n);
        assert(s.drop_last() =~= dec_digits(n / 10));
    }
}

/// A longer sequence of digits spells at least what its first digits
/// spell.
pub proof fn lemma_digits_value_grows(s: Seq<u8>, k: int)
    requires
        0 <= k <= s.len(),
    ensures
        digits_value(s.subrange(0, k)) <= digits_value(s),
    decreases s.len() - k,
{
    if k == s.len() {
        assert(s.subrange(0, k) =~= s);
    } else {
        lemma_digits_value_grows(s, k + 1);
        let t = s.subrange(0, k + 1);
        assert(t.drop_last() =~= s.subrange(0, k));
    }
}

/// Appends the digits of `n` to `v`.
fn push_digits(v: &mut Vec<u8>, n: u64)
    ensures
        final(v)@ == old(v)@ + dec_digits(n as nat),
    decreases n,
{
    if n >= 10 {
        push_digits(v, n / 10);
    }
    v.push((n % 10) as u8);
    proof {
        assert(v@ =~= old(v)@ + dec_digits(n as nat));
    }
}

/// The decimal digits of `n`, most significant first.
pub fn decimal_digits(n: u64) -> (v: Vec<u8>)
    ensures
        v@ == dec_digits(n as nat),
        v@.len() >= 1,
        all_digits(v@),
{
    let mut v: Vec<u8> = Vec::new();
    push_digits(&mut v, n);
    proof {
        lemma_dec_digits_shape(n as nat);
    }
    v
}

/// The one-character text of a digit.
fn digit_str(d: u8) -> (s: &'static str)
    ensures
        s@ == seq![digit_char(d)],
{
    proof {
        reveal_strlit("0");
        reveal_strlit("1");
        reveal_strlit("2");
        reveal_strlit("3");
        reveal_strlit("4");
        reveal_strlit("5");
        reveal_strlit("6");
        reveal_strlit("7");
        reveal_strlit("8");
        reveal_strlit("9");
    }
    match d {
        0 => "0",
        1 => "1",
        2 => "2",
        3 => "3",
        4 => "4",
        5 => "5",
        6 => "6",
        7 => "7",
        8 => "8",
        _ => "9",
    }
}

/// Appends the text of the digits in `v` to `out`.
pub fn push_digits_text(out: &mut String, v: &Vec<u8>)
    ensures
        final(out)@ == old(out)@ + digits_text(v@),
{
    let mut i: usize = 0;
    while i < v.len()
        invariant
            0 <= i <= v.len(),
            out@ == old(out)@ + digits_text(v@.subrange(0, i as int)),
        decreases v.len() - i,
    {
        let d = v[i];
        out.append(digit_str(d));
        proof {
            assert(v@.subrange(0, i + 1) =~= v@.subrange(0, i as int).push(d));
            assert(digits_text(v@.subrange(0, i + 1)) =~= digits_text(
                v@.subrange(0, i as int),
            ).push(digit_char(d)));
        }
        i = i + 1;
    }
    proof {
        assert(v@.subrange(0, i as int) =~= v@);
    }
}

/// Appends the decimal text of `n` to `out`.
pub fn push_decimal(out: &mut String, n: u64)
    ensures
        final(out)@ == old(out)@ + dec_text(n as nat),
{
    let v = decimal_digits(n);
    push_digits_text(out, &v);
}

/// The decimal text of `n`.
pub fn decimal_string(n: u64) -> (s: String)
    ensures
        s@ == dec_text(n as nat),
{
    let mut s = String::new();
    push_decimal(&mut s, n);
    s
}

/// Whether the digits read the same in both directions.
pub fn is_palindrome(v: &Vec<u8>) -> (r: bool)
    ensures
        r == (v@ == v@.reverse()),
{
    let n = v.len();
    let mut i: usize = 0;
    while i < n
        invariant
            n == v.len(),
            0 <= i <= n,
            forall|j: int| 0 <= j < i ==> #[trigger] v@[j] == v@[n - 1 - j],
        decreases n - i,
    {
        if v[i] != v[n - 1 - i] {
            proof {
                assert(v@.reverse()[i as int] == v@[n - 1 - i]);
            }
            return false;
        }
        i = i + 1;
    }
    proof {
        assert(v@ =~= v@.reverse());
    }
    true
}

/// The digits in the opposite order.
pub fn reversed(v: &Vec<u8>) -> (r: Vec<u8>)
    ensures
        r@ == v@.reverse(),
{
    let n = v.len();
    let mut r: Vec<u8> = Vec::new();
    let mut i: usize = 0;
    while i < n
        invariant
            n == v.len(),
            0 <= i <= n,
            r@.len() == i,
            forall|j: int| 0 <= j < i ==> #[trigger] r@[j] == v@[n - 1 - j],
        decreases n - i,
    {
        r.push(v[n - 1 - i]);
        i = i + 1;
    }
    proof {
        assert(r@ =~= v@.reverse());
    }
    r
}

/// The digits rotated left by `i` places.
pub fn rotated(v: &Vec<u8>, i: usize) -> (r: Vec<u8>)
    requires
        i <= v.len(),
    ensures
        r@ == rotation(v@, i as int),
{
    let n = v.len();
    let mut r: Vec<u8> = Vec::new();
    let mut j: usize = i;
    while j < n
        invariant
            n == v.len(),
            i <= j <= n,
            r@ == v@.subrange(i as int, j as int),
        decreases n - j,
    {
        r.push(v[j]);
        proof {
            assert(r@ =~= v@.subrange(i as int, j + 1));
        }
        j = j + 1;
    }
    let mut k: usize = 0;
    while k < i
        invariant
            n == v.len(),
            i <= n,
            0 <= k <= i,
            r@ == v@.subrange(i as int, n as int) + v@.subrange(0, k as int),
        decreases i - k,
    {
        r.push(v[k]);
        proof {
            assert(r@ =~= v@.subrange(i as int, n as int) + v@.subrange(0, k + 1));
        }
        k = k + 1;
    }
    r
}

/// The number that the digits spell, or `None` if it does not fit in 64
/// bits.
pub fn digits_to_u64(v: &Vec<u8>) -> (r: Option<u64>)
    ensures
        match r {
            Some(x) => x == digits_value(v@),
            None => digits_value(v@) > u64::MAX,
        },
{
    let mut acc: u64 = 0;
    let mut i: usize = 0;
    while i < v.len()
        invariant
            0 <= i <= v.len(),
            acc == digits_value(v@.subrange(0, i as int)),
        decreases v.len() - i,
    {
        let d = v[i];
        proof {
            assert(v@.subrange(0, i + 1).drop_last() =~= v@.subrange(0, i as int));
            lemma_digits_value_grows(v@, i + 1);
        }
        let scaled = match acc.checked_mul(10) {
            Some(x) => x,
            None => {
                return None;
            },
        };
        let next = match scaled.checked_add(d as u64) {
            Some(x) => x,
            None => {
                return None;
            },
        };
        acc = next;
        i = i + 1;
    }
    proof {
        assert(v@.subrange(0, i as int) =~= v@);
    }
    Some(acc)
}

} // verus!
