//! Numbers as text: decimal output, decimal input, and the rounding of decimal
//! fractions to the 53 significant bits of a double.

use crate::text::is_digit;
use vstd::arithmetic::div_mod::{lemma_fundamental_div_mod, lemma_fundamental_div_mod_converse};
use vstd::prelude::*;
use vstd::string::*;

verus! {

// ---------------------------------------------------------------------------
// Decimal output
// ---------------------------------------------------------------------------

/// The character of a digit.
pub open spec fn digit_char(d: nat) -> char {
    (d + 48) as u8 as char
}

/// A number in decimal.
pub open spec fn decimal(n: nat) -> Seq<char>
    decreases n,
{
    if n < 10 {
        seq![digit_char(n)]
    } else {
        decimal(n / 10).push(digit_char(n % 10))
    }
}

pub fn digit_of(d: u8) -> (r: char)
    requires
        d < 10,
    ensures
        r == digit_char(d as nat),
{
    (d + 48) as char
}

/// Appends a number in decimal.
pub fn push_decimal(out: &mut String, n: u128)
    ensures
        final(out)@ == old(out)@ + decimal(n as nat),
    decreases n,
{
    if n >= 10 {
        push_decimal(out, n / 10);
    }
    out.push(digit_of((n % 10) as u8));
    assert(out@ =~= old(out)@ + decimal(n as nat));
}

/// A number in decimal.
pub fn decimal_text(n: u64) -> (r: String)
    ensures
        r@ == decimal(n as nat),
{
    let mut r = String::new();
    push_decimal(&mut r, n as u128);
    assert(r@ =~= decimal(n as nat));
    r
}

/// A number below 1000 with leading zeros.
pub open spec fn three_digits(n: nat) -> Seq<char> {
    seq![digit_char(n / 100), digit_char(n / 10 % 10), digit_char(n % 10)]
}

/// A number in decimal with a comma before each group of three digits.
pub open spec fn grouped(n: nat) -> Seq<char>
    decreases n,
{
    if n < 1000 {
        decimal(n)
    } else {
        grouped(n / 1000).push(',') + three_digits(n % 1000)
    }
}

/// Appends a number with its digits in groups of three.
pub fn push_grouped(out: &mut String, n: u64)
    ensures
        final(out)@ == old(out)@ + grouped(n as nat),
    decreases n,
{
    if n < 1000 {
        push_decimal(out, n as u128);
    } else {
        push_grouped(out, n / 1000);
        out.push(',');
        let low = n % 1000;
        out.push(digit_of((low / 100) as u8));
        out.push(digit_of((low / 10 % 10) as u8));
        out.push(digit_of((low % 10) as u8));
        assert(out@ =~= old(out)@ + grouped(n as nat));
    }
}

// ---------------------------------------------------------------------------
// Decimal input
// ---------------------------------------------------------------------------

pub open spec fn all_digits(s: Seq<char>) -> bool {
    forall|i: int| 0 <= i < s.len() ==> is_digit(#[trigger] s[i])
}

/// The value of a row of digits.
pub open spec fn digits_value(s: Seq<char>) -> nat
    decreases s.len(),
{
    if s.len() == 0 {
        0
    } else {
        digits_value(s.drop_last()) * 10 + (s.last() as nat - 48) as nat
    }
}

/// A whole number no larger than `max`: digits, with a plus sign before them or
/// not.
pub open spec fn whole_number(s: Seq<char>, max: nat) -> Option<nat> {
    let digits = if s.len() > 0 && s[0] == '+' {
        s.drop_first()
    } else {
        s
    };
    if digits.len() > 0 && all_digits(digits) && digits_value(digits) <= max {
        Some(digits_value(digits))
    } else {
        None
    }
}

pub proof fn lemma_digits_grow(s: Seq<char>, n: int)
    requires
        all_digits(s),
        0 <= n <= s.len(),
    ensures
        digits_value(s.take(n)) <= digits_value(s),
    decreases s.len() - n,
{
    if n < s.len() {
        lemma_digits_grow(s, n + 1);
        assert(s.take(n + 1).drop_last() =~= s.take(n));
        assert(is_digit(s[n]));
    } else {
        assert(s.take(n) =~= s);
    }
}

/// Reads a whole number no larger than `max`.
pub fn parse_whole(s: &[char], max: u32) -> (r: Option<u32>)
    ensures
        r is Some <==> whole_number(s@, max as nat) is Some,
        r matches Some(n) ==> whole_number(s@, max as nat) == Some(n as nat),
{
    let start: usize = if s.len() > 0 && s[0] == '+' {
        1
    } else {
        0
    };
    let ghost digits = s@.skip(start as int);
    assert(digits =~= if s@.len() > 0 && s@[0] == '+' {
        s@.drop_first()
    } else {
        s@
    });
    if start == s.len() {
        return None;
    }
    let mut n: u64 = 0;
    let mut over = false;
    assert(digits.take(0) =~= Seq::<char>::empty());
    for i in start..s.len()
        invariant
            start <= i <= s@.len(),
            start <= 1,
            digits == s@.skip(start as int),
            digits == (if s@.len() > 0 && s@[0] == '+' {
                s@.drop_first()
            } else {
                s@
            }),
            all_digits(digits.take(i - start)),
            !over ==> n == digits_value(digits.take(i - start)) && n <= max,
            over ==> digits_value(digits.take(i - start)) > max,
    {
        let c = s[i];
        assert(digits[i - start] == c);
        assert(digits.take(i + 1 - start).drop_last() =~= digits.take(i - start));
        assert(digits.take(i + 1 - start).last() == c);
        if !('0' <= c && c <= '9') {
            assert(!is_digit(digits[i - start]));
            return None;
        }
        assert forall|k: int| 0 <= k < digits.take(i + 1 - start).len() implies is_digit(
            #[trigger] digits.take(i + 1 - start)[k],
        ) by {
            if k < i - start {
                assert(is_digit(digits.take(i - start)[k]));
            }
        }
        if !over {
            n = n * 10 + (c as u64 - 48);
            if n > max as u64 {
                over = true;
            }
        }
    }
    assert(digits.take(digits.len() as int) =~= digits);
    if over {
        None
    } else {
        Some(n as u32)
    }
}

// ---------------------------------------------------------------------------
// Doubles
// ---------------------------------------------------------------------------

/// Two to the power of `n`.
pub open spec fn two_to(n: nat) -> nat
    decreases n,
{
    if n == 0 {
        1
    } else {
        2 * two_to((n - 1) as nat)
    }
}

/// Ten to the power of `n`.
pub open spec fn ten_to(n: nat) -> nat
    decreases n,
{
    if n == 0 {
        1
    } else {
        10 * ten_to((n - 1) as nat)
    }
}

/// `n / d` rounded to the nearest whole number, and to the even one of two
/// equally near.
pub open spec fn rounded(n: nat, d: nat) -> nat {
    let q = n / d;
    let r = n % d;
    if 2 * r < d || (2 * r == d && q % 2 == 0) {
        q
    } else {
        q + 1
    }
}

/// Position of the highest bit of a number; 0 for 0.
pub open spec fn high_bit(n: nat) -> nat
    decreases n,
{
    if n < 2 {
        0
    } else {
        1 + high_bit(n / 2)
    }
}

/// The whole part of the double nearest to `n / d`: a double has 53 significant
/// bits. Below 1, where the position of the highest bit no longer matters to the
/// whole part, the bits are counted from one half.
pub open spec fn double_whole(n: nat, d: nat) -> nat {
    let whole = n / d;
    let high = high_bit(whole);
    if whole == 0 {
        rounded(n * two_to(53), d) / two_to(53)
    } else if high <= 52 {
        let s = (52 - high) as nat;
        rounded(n * two_to(s), d) / two_to(s)
    } else {
        let t = (high - 52) as nat;
        rounded(n, d * two_to(t)) * two_to(t)
    }
}

/// The double nearest to a whole number; it is a whole number too.
pub open spec fn double_of(n: nat) -> nat {
    double_whole(n, 1)
}

pub proof fn lemma_two_pos(n: nat)
    ensures
        two_to(n) > 0,
    decreases n,
{
    if n > 0 {
        lemma_two_pos((n - 1) as nat);
    }
}

pub proof fn lemma_ten_pos(n: nat)
    ensures
        ten_to(n) > 0,
    decreases n,
{
    if n > 0 {
        lemma_ten_pos((n - 1) as nat);
    }
}

pub proof fn lemma_two_add(a: nat, b: nat)
    ensures
        two_to(a + b) == two_to(a) * two_to(b),
    decreases a,
{
    if a > 0 {
        lemma_two_add((a - 1) as nat, b);
        assert(two_to(a + b) == 2 * two_to(((a - 1) as nat + b) as nat));
        assert(2 * (two_to((a - 1) as nat) * two_to(b)) == (2 * two_to((a - 1) as nat)) * two_to(b))
            by (nonlinear_arith);
    } else {
        assert(two_to(0) * two_to(b) == two_to(b)) by (nonlinear_arith)
            requires
                two_to(0) == 1,
        ;
    }
}

pub proof fn lemma_two_mono(a: nat, b: nat)
    requires
        a <= b,
    ensures
        two_to(a) <= two_to(b),
    decreases b,
{
    if a < b {
        lemma_two_mono(a, (b - 1) as nat);
        lemma_two_pos((b - 1) as nat);
    }
}

/// The powers of two that occur as sizes and limits.
pub proof fn lemma_two_values()
    ensures
        two_to(0) == 1,
        two_to(10) == 1024,
        two_to(20) == 0x10_0000,
        two_to(30) == 0x4000_0000,
        two_to(40) == 0x100_0000_0000,
        two_to(52) == 0x10_0000_0000_0000,
        two_to(53) == 0x20_0000_0000_0000,
        two_to(64) == 0x1_0000_0000_0000_0000,
{
    reveal_with_fuel(two_to, 11);
    assert(two_to(10) == 1024);
    lemma_two_add(10, 10);
    lemma_two_add(20, 10);
    lemma_two_add(20, 20);
    lemma_two_add(40, 10);
    lemma_two_add(50, 2);
    lemma_two_add(52, 1);
    lemma_two_add(53, 10);
    lemma_two_add(63, 1);
    assert(two_to(2) == 4);
    assert(two_to(1) == 2);
}

pub proof fn lemma_high_bit(n: nat)
    requires
        n > 0,
    ensures
        two_to(high_bit(n)) <= n < two_to(high_bit(n) + 1),
    decreases n,
{
    if n >= 2 {
        lemma_high_bit(n / 2);
        assert(two_to(high_bit(n)) == 2 * two_to(high_bit(n / 2)));
        assert(two_to(high_bit(n) + 1) == 2 * two_to(high_bit(n / 2) + 1));
    } else {
        reveal_with_fuel(two_to, 2);
    }
}

/// Quotient and remainder are determined by their defining equation.
proof fn lemma_quotient(n: nat, d: nat, q: nat, r: nat)
    requires
        n == q * d + r,
        r < d,
    ensures
        n / d == q,
        n % d == r,
{
    lemma_fundamental_div_mod_converse(n as int, d as int, q as int, r as int);
}

// ---------------------------------------------------------------------------
// Decimal fractions
// ---------------------------------------------------------------------------

/// The value of a row of digits, as numbers.
pub open spec fn row_value(d: Seq<u8>) -> nat
    decreases d.len(),
{
    if d.len() == 0 {
        0
    } else {
        row_value(d.drop_last()) * 10 + d.last() as nat
    }
}

pub open spec fn is_row(d: Seq<u8>) -> bool {
    forall|i: int| 0 <= i < d.len() ==> (#[trigger] d[i]) < 10
}

proof fn lemma_row_bound(d: Seq<u8>)
    requires
        is_row(d),
    ensures
        row_value(d) < ten_to(d.len()),
    decreases d.len(),
{
    if d.len() > 0 {
        let f = d.drop_last();
        assert forall|i: int| 0 <= i < f.len() implies (#[trigger] f[i]) < 10 by {
            assert(f[i] == d[i]);
        }
        lemma_row_bound(f);
        assert(d[d.len() - 1] < 10);
    }
}

/// A row and the value of its last part: what a change from the right end does.
proof fn lemma_row_split(d: Seq<u8>, i: int)
    requires
        0 <= i <= d.len(),
    ensures
        row_value(d) == row_value(d.take(i)) * ten_to((d.len() - i) as nat) + row_value(d.skip(i)),
    decreases d.len() - i,
{
    let a = d.take(i);
    let b = d.skip(i);
    if i == d.len() {
        assert(a =~= d);
        assert(b =~= Seq::<u8>::empty());
        assert(row_value(a) * ten_to(0) == row_value(a)) by (nonlinear_arith)
            requires
                ten_to(0) == 1,
        ;
    } else {
        lemma_row_split(d.drop_last(), i);
        assert(d.drop_last().take(i) =~= a);
        assert(d.drop_last().skip(i) =~= b.drop_last());
        assert(b.last() == d.last());
        let m = (d.len() - i) as nat;
        let x = row_value(a);
        let t = ten_to((m - 1) as nat);
        assert((x * t) * 10 == x * (10 * t)) by (nonlinear_arith);
    }
}

/// Doubles a row of digits in place; returns what is carried out of it.
fn double_row(d: &mut Vec<u8>) -> (carry: u8)
    requires
        is_row(old(d)@),
    ensures
        is_row(final(d)@),
        final(d)@.len() == old(d)@.len(),
        carry <= 1,
        2 * row_value(old(d)@) == carry * ten_to(old(d)@.len()) + row_value(final(d)@),
{
    let ghost start = d@;
    let mut i: usize = d.len();
    let mut carry: u8 = 0;
    proof {
        assert(start.skip(start.len() as int) =~= Seq::<u8>::empty());
        assert(d@.skip(start.len() as int) =~= Seq::<u8>::empty());
    }
    while i > 0
        invariant
            i <= d@.len(),
            d@.len() == start.len(),
            is_row(d@),
            is_row(start),
            carry <= 1,
            d@.take(i as int) == start.take(i as int),
            2 * row_value(start.skip(i as int)) == carry * ten_to((start.len() - i) as nat)
                + row_value(d@.skip(i as int)),
        decreases i,
    {
        let ghost before = d@;
        i = i - 1;
        let x: u8 = d[i];
        assert(start[i as int] == x) by {
            assert(d@.take(i + 1)[i as int] == start.take(i + 1)[i as int]);
        }
        assert(x < 10);
        let y: u8 = 2 * x + carry;
        let out: u8 = if y >= 10 {
            1
        } else {
            0
        };
        d.set(i, if y >= 10 {
            y - 10
        } else {
            y
        });
        proof {
            let m = (start.len() - i - 1) as nat;
            let old_tail = start.skip(i as int);
            let new_tail = d@.skip(i as int);
            lemma_row_split(old_tail, 1);
            lemma_row_split(new_tail, 1);
            assert(old_tail.skip(1) =~= start.skip(i + 1));
            assert(new_tail.skip(1) =~= before.skip(i + 1));
            reveal_with_fuel(row_value, 2);
            assert(old_tail.take(1).drop_last() =~= Seq::<u8>::empty());
            assert(new_tail.take(1).drop_last() =~= Seq::<u8>::empty());
            assert(row_value(old_tail.take(1)) == x);
            assert(row_value(new_tail.take(1)) == d@[i as int]);
            let t = ten_to(m);
            let digit = d@[i as int] as nat;
            let c0 = carry as nat;
            let c1 = out as nat;
            assert(2 * (x as nat) + c0 == c1 * 10 + digit);
            assert(2 * (x as nat * t) + c0 * t == c1 * (10 * t) + digit * t) by (nonlinear_arith)
                requires
                    2 * (x as nat) + c0 == c1 * 10 + digit,
            ;
            assert(ten_to(m + 1) == 10 * t);
            assert(d@.take(i as int) =~= start.take(i as int)) by {
                assert(before.take(i + 1).take(i as int) =~= d@.take(i as int));
                assert(start.take(i + 1).take(i as int) =~= start.take(i as int));
            }
        }
        carry = out;
    }
    assert(start.skip(0) =~= start);
    assert(d@.skip(0) =~= d@);
    carry
}

/// Shifts a row of digits left by `s` bits: `acc` collects what is carried out.
fn shift_row(d: &mut Vec<u8>, acc: u128, s: u32) -> (r: u128)
    requires
        is_row(old(d)@),
        (acc + 1) * two_to(s as nat) <= 0x1_0000_0000_0000_0000_0000_0000_0000,
    ensures
        is_row(final(d)@),
        final(d)@.len() == old(d)@.len(),
        r * ten_to(old(d)@.len()) + row_value(final(d)@) == (acc * ten_to(old(d)@.len())
            + row_value(old(d)@)) * two_to(s as nat),
        r < (acc + 1) * two_to(s as nat),
{
    let ghost start = d@;
    let ghost b = ten_to(d@.len());
    let mut r: u128 = acc;
    let mut n: u32 = 0;
    proof {
        let x = (acc * b + row_value(start)) as nat;
        let one = two_to(0);
        assert(x * one == x && (acc + 1) * one == acc + 1) by (nonlinear_arith)
            requires
                one == 1,
        ;
    }
    while n < s
        invariant
            n <= s,
            is_row(d@),
            d@.len() == start.len(),
            b == ten_to(start.len()),
            (acc + 1) * two_to(s as nat) <= 0x1_0000_0000_0000_0000_0000_0000_0000,
            r * b + row_value(d@) == (acc * b + row_value(start)) * two_to(n as nat),
            r < (acc + 1) * two_to(n as nat),
        decreases s - n,
    {
        let ghost before = row_value(d@);
        let ghost r0 = r as nat;
        proof {
            lemma_two_mono((n + 1) as nat, s as nat);
            let p = two_to(n as nat);
            let q = two_to(s as nat);
            let a = acc as nat;
            assert(2 * ((a + 1) * p) <= (a + 1) * q) by (nonlinear_arith)
                requires
                    2 * p <= q,
            ;
        }
        let c = double_row(d);
        r = 2 * r + c as u128;
        proof {
            let p = two_to(n as nat);
            let x = (acc * b + row_value(start)) as nat;
            let v = row_value(d@);
            let cc = c as nat;
            assert((2 * r0 + cc) * b + v == 2 * (r0 * b + before)) by (nonlinear_arith)
                requires
                    2 * before == cc * b + v,
            ;
            assert(2 * (x * p) == x * (2 * p)) by (nonlinear_arith);
            let a = acc as nat;
            assert(2 * ((a + 1) * p) == (a + 1) * (2 * p)) by (nonlinear_arith);
        }
        n = n + 1;
    }
    r
}

/// Whether every digit is zero.
fn row_is_zero(d: &[u8]) -> (r: bool)
    requires
        is_row(d@),
    ensures
        r == (row_value(d@) == 0),
{
    for i in 0..d.len()
        invariant
            row_value(d@.take(i as int)) == 0,
            is_row(d@),
    {
        assert(d@.take(i + 1).drop_last() =~= d@.take(i as int));
        if d[i] != 0 {
            proof {
                lemma_row_split(d@, i + 1);
                lemma_ten_pos((d@.len() - i - 1) as nat);
                let x = row_value(d@.take(i + 1));
                let t = ten_to((d@.len() - i - 1) as nat);
                assert(x * t > 0) by (nonlinear_arith)
                    requires
                        x > 0,
                        t > 0,
                ;
            }
            return false;
        }
    }
    assert(d@.take(d@.len() as int) =~= d@);
    true
}

/// Rounding is a matter of comparing twice the remainder with the divisor.
proof fn lemma_rounded(n: nat, d: nat, q: nat, r: nat)
    requires
        n == q * d + r,
        r < d,
    ensures
        rounded(n, d) == if 2 * r < d || (2 * r == d && q % 2 == 0) {
            q
        } else {
            q + 1
        },
{
    lemma_quotient(n, d, q, r);
}

/// The position of the highest bit of a number.
fn highest_bit(n: u64) -> (r: u32)
    ensures
        r == high_bit(n as nat),
        r < 64,
{
    let mut m: u64 = n;
    let mut r: u32 = 0;
    proof {
        if n > 0 {
            lemma_high_bit(n as nat);
            lemma_two_values();
            if high_bit(n as nat) >= 64 {
                lemma_two_mono(64, high_bit(n as nat));
            }
        }
    }
    while m >= 2
        invariant
            high_bit(n as nat) == r + high_bit(m as nat),
            high_bit(n as nat) < 64,
        decreases m,
    {
        m = m / 2;
        r = r + 1;
    }
    r
}

/// Two to the power of `n`.
fn two_power(n: u32) -> (r: u128)
    requires
        n <= 64,
    ensures
        r == two_to(n as nat),
{
    let mut r: u128 = 1;
    let mut i: u32 = 0;
    while i < n
        invariant
            i <= n <= 64,
            r == two_to(i as nat),
        decreases n - i,
    {
        proof {
            lemma_two_mono(i as nat, 64);
            lemma_two_values();
        }
        r = 2 * r;
        i = i + 1;
    }
    r
}

/// The whole part of the double nearest to `whole` plus the decimal fraction
/// `row`.
fn whole_of_double(whole: u64, row: &mut Vec<u8>) -> (r: u128)
    requires
        is_row(old(row)@),
    ensures
        r == double_whole(
            (whole * ten_to(old(row)@.len()) + row_value(old(row)@)) as nat,
            ten_to(old(row)@.len()),
        ),
{
    let ghost b = ten_to(row@.len());
    let ghost f = row_value(row@);
    let ghost n = (whole * b + f) as nat;
    proof {
        lemma_row_bound(row@);
        lemma_two_values();
        lemma_quotient(n, b, whole as nat, f);
        if whole > 0 {
            lemma_high_bit(whole as nat);
        }
    }
    let high = highest_bit(whole);
    if high <= 52 {
        let s: u32 = if whole == 0 {
            53
        } else {
            52 - high
        };
        let ghost p = two_to(s as nat);
        proof {
            lemma_two_pos(s as nat);
            if whole > 0 {
                lemma_two_add((high + 1) as nat, s as nat);
                let w = whole as nat;
                let h = two_to((high + 1) as nat);
                assert((w + 1) * p <= h * p) by (nonlinear_arith)
                    requires
                        w + 1 <= h,
                ;
            }
        }
        let m = shift_row(row, whole as u128, s);
        let ghost r0 = row_value(row@);
        proof {
            lemma_row_bound(row@);
        }
        // Doubling the rest once more tells how it compares with one half.
        let carry = double_row(row);
        let rest = row_is_zero(row.as_slice());
        let up = carry == 1 && (!rest || m % 2 == 1);
        let q: u128 = if up {
            m + 1
        } else {
            m
        };
        proof {
            lemma_row_bound(row@);
            assert(n * p == m * b + r0);
            lemma_rounded(n * p, b, m as nat, r0);
            assert(q == rounded(n * p, b));
        }
        q / two_power(s)
    } else {
        let t: u32 = high - 52;
        let p128 = two_power(t);
        let ghost p = two_to(t as nat);
        proof {
            lemma_two_pos(t as nat);
            lemma_two_mono(t as nat, 11);
            reveal_with_fuel(two_to, 12);
        }
        let w = whole as u128;
        let hi: u128 = w / p128;
        let lo: u128 = w % p128;
        let rest = row_is_zero(row.as_slice());
        let up = 2 * lo > p128 || (2 * lo == p128 && (!rest || hi % 2 == 1));
        let q: u128 = if up {
            hi + 1
        } else {
            hi
        };
        proof {
            lemma_fundamental_div_mod(w as int, p as int);
            let d = b * p;
            let r = (lo * b + f) as nat;
            let x = hi as nat;
            let y = lo as nat;
            assert(w == p * x + y);
            assert(n == x * d + r) by (nonlinear_arith)
                requires
                    n == (p * x + y) * b + f,
                    d == b * p,
                    r == y * b + f,
            ;
            assert(r < d) by (nonlinear_arith)
                requires
                    r == y * b + f,
                    d == b * p,
                    y < p,
                    f < b,
            ;
            // 2 * r against d is 2 * lo against p, and then the fraction.
            assert(2 * y > p ==> 2 * r > d) by (nonlinear_arith)
                requires
                    r == y * b + f,
                    d == b * p,
                    b > 0,
            ;
            assert(2 * y == p ==> 2 * r == d + 2 * f) by (nonlinear_arith)
                requires
                    r == y * b + f,
                    d == b * p,
            ;
            lemma_even_power(t as nat);
            if 2 * y < p {
                assert(2 * y + 2 <= p);
                assert((2 * y + 2) * b <= p * b) by (nonlinear_arith)
                    requires
                        2 * y + 2 <= p,
                ;
                assert((2 * y + 2) * b == 2 * (y * b) + 2 * b) by (nonlinear_arith);
                assert(p * b == b * p) by (nonlinear_arith);
                assert(2 * r < d);
            }
            lemma_rounded(n, d, x, r);
            assert(q == rounded(n, d));
            assert(q * p128 <= 0x2_0000_0000_0000_0000) by (nonlinear_arith)
                requires
                    q <= x + 1,
                    p128 == p,
                    p * x <= 0xffff_ffff_ffff_ffff,
                    p <= 2048,
            ;
        }
        q * p128
    }
}

proof fn lemma_even_power(t: nat)
    requires
        t > 0,
    ensures
        two_to(t) % 2 == 0,
{
}

// ---------------------------------------------------------------------------
// Scaled decimal numbers
// ---------------------------------------------------------------------------

/// A decimal number as written: its sign and its digits before and after the
/// point.
pub struct DecimalParts {
    pub negative: bool,
    pub whole: Seq<char>,
    pub fraction: Seq<char>,
}

/// Position of the first `c`, or the length where there is none.
pub open spec fn first_of(s: Seq<char>, c: char) -> nat
    decreases s.len(),
{
    if s.len() == 0 || s[0] == c {
        0
    } else {
        1 + first_of(s.drop_first(), c)
    }
}

/// Reads a decimal number: a sign or none, digits, a point or none, digits. At
/// least one digit is needed.
pub open spec fn decimal_parts(s: Seq<char>) -> Option<DecimalParts> {
    let signed = s.len() > 0 && (s[0] == '+' || s[0] == '-');
    let body = if signed {
        s.drop_first()
    } else {
        s
    };
    let dot = first_of(body, '.');
    let whole = body.take(dot as int);
    let fraction = if dot < body.len() {
        body.skip(dot as int + 1)
    } else {
        Seq::empty()
    };
    if all_digits(whole) && all_digits(fraction) && whole.len() + fraction.len() > 0 {
        Some(DecimalParts { negative: signed && s[0] == '-', whole, fraction })
    } else {
        None
    }
}

/// The whole part of the double nearest to a decimal number times a power of
/// two, kept within 64 bits.
pub open spec fn scaled_value(p: DecimalParts, shift: nat) -> u64 {
    let n = digits_value(p.whole + p.fraction) * two_to(shift);
    let v = double_whole(n, ten_to(p.fraction.len()));
    if p.negative {
        0
    } else if v > u64::MAX {
        u64::MAX
    } else {
        v as u64
    }
}

pub proof fn lemma_first_of(s: Seq<char>, c: char, n: int)
    requires
        0 <= n <= s.len(),
        forall|i: int| 0 <= i < n ==> s[i] != c,
        n < s.len() ==> s[n] == c,
    ensures
        first_of(s, c) == n,
    decreases s.len(),
{
    if n > 0 {
        assert forall|i: int| 0 <= i < n - 1 implies s.drop_first()[i] != c by {
            assert(s.drop_first()[i] == s[i + 1]);
        }
        assert(s[0] != c);
        lemma_first_of(s.drop_first(), c, n - 1);
    }
}

proof fn lemma_digits_concat(a: Seq<char>, b: Seq<char>)
    ensures
        digits_value(a + b) == digits_value(a) * ten_to(b.len()) + digits_value(b),
    decreases b.len(),
{
    if b.len() == 0 {
        assert(a + b =~= a);
        assert(digits_value(a) * ten_to(0) == digits_value(a)) by (nonlinear_arith)
            requires
                ten_to(0) == 1,
        ;
    } else {
        lemma_digits_concat(a, b.drop_last());
        assert((a + b).drop_last() =~= a + b.drop_last());
        let x = digits_value(a);
        let t = ten_to((b.len() - 1) as nat);
        assert((x * t) * 10 == x * (10 * t)) by (nonlinear_arith);
    }
}

/// A quotient of 2^64 or more is not rounded below 2^64.
proof fn lemma_double_big(n: nat, d: nat)
    requires
        d > 0,
        n / d >= 0x1_0000_0000_0000_0000,
    ensures
        double_whole(n, d) >= 0x1_0000_0000_0000_0000,
{
    let whole = n / d;
    let high = high_bit(whole);
    lemma_high_bit(whole);
    lemma_two_values();
    if high < 64 {
        lemma_two_mono(high + 1, 64);
    }
    let t = (high - 52) as nat;
    let p = two_to(t);
    lemma_two_pos(t);
    lemma_two_add(52, t);
    lemma_two_mono(64, high);
    vstd::arithmetic::div_mod::lemma_div_denominator(n as int, d as int, p as int);
    let q = n / (d * p);
    assert(q == whole / p);
    lemma_fundamental_div_mod(whole as int, p as int);
    assert(q >= two_to(52)) by (nonlinear_arith)
        requires
            whole == p * q + whole % p,
            0 <= whole % p < p,
            whole >= two_to(52) * p,
            p > 0,
    ;
    let r = rounded(n, d * p);
    assert(r >= q);
    assert(r * p >= two_to(52) * p) by (nonlinear_arith)
        requires
            r >= two_to(52),
    ;
}

/// Reads a decimal number and scales it by a power of two.
#[verifier::rlimit(100)]
pub fn parse_scaled(s: &[char], shift: u32) -> (r: Option<u64>)
    requires
        shift <= 40,
    ensures
        r is Some <==> decimal_parts(s@) is Some,
        r matches Some(v) ==> v == scaled_value(decimal_parts(s@)->0, shift as nat),
{
    let signed = s.len() > 0 && (s[0] == '+' || s[0] == '-');
    let negative = signed && s[0] == '-';
    let start: usize = if signed {
        1
    } else {
        0
    };
    let ghost body = s@.skip(start as int);
    assert(body =~= if signed {
        s@.drop_first()
    } else {
        s@
    });
    // Digits before the point.
    let mut i: usize = start;
    let mut whole: u128 = 0;
    let mut big = false;
    assert(body.take(0) =~= Seq::<char>::empty());
    while i < s.len() && s[i] != '.'
        invariant
            start <= i <= s@.len(),
            start <= 1,
            body == s@.skip(start as int),
            body == (if signed {
                s@.drop_first()
            } else {
                s@
            }),
            signed == (s@.len() > 0 && (s@[0] == '+' || s@[0] == '-')),
            all_digits(body.take(i - start)),
            forall|k: int| 0 <= k < i - start ==> body[k] != '.',
            !big ==> whole == digits_value(body.take(i - start)) && whole < 0x1_0000_0000_0000_0000,
            big ==> digits_value(body.take(i - start)) >= 0x1_0000_0000_0000_0000,
        decreases s@.len() - i,
    {
        let c = s[i];
        assert(body[i - start] == c);
        let ghost now = body.take(i + 1 - start);
        assert(now.drop_last() =~= body.take(i - start));
        assert(now.last() == c);
        if !('0' <= c && c <= '9') {
            proof {
                lemma_no_number(body, i - start);
            }
            return None;
        }
        assert forall|k: int| 0 <= k < now.len() implies is_digit(#[trigger] now[k]) by {
            if k < i - start {
                assert(is_digit(body.take(i - start)[k]));
            }
        }
        if !big {
            whole = whole * 10 + (c as u128 - 48);
            if whole >= 0x1_0000_0000_0000_0000 {
                big = true;
            }
        }
        i = i + 1;
    }
    let dot = i;
    let ghost dot_at = dot - start;
    proof {
        if dot < s@.len() {
            assert(body[dot_at] == '.');
        }
        lemma_first_of(body, '.', dot_at);
    }
    let ghost int_part = body.take(dot_at);
    // Digits after it.
    let mut row: Vec<u8> = Vec::new();
    let ghost frac = if dot_at < body.len() {
        body.skip(dot_at + 1)
    } else {
        Seq::empty()
    };
    if dot < s.len() {
        i = dot + 1;
        assert(frac.take(0) =~= Seq::<char>::empty());
        while i < s.len()
            invariant
                dot < s@.len(),
                dot + 1 <= i <= s@.len(),
                start <= dot,
                start <= 1,
                body == s@.skip(start as int),
                dot_at == dot - start,
                body == (if signed {
                    s@.drop_first()
                } else {
                    s@
                }),
                signed == (s@.len() > 0 && (s@[0] == '+' || s@[0] == '-')),
                first_of(body, '.') == dot_at,
                frac == body.skip(dot_at + 1),
                all_digits(frac.take(i - dot - 1)),
                is_row(row@),
                row@.len() == i - dot - 1,
                row_value(row@) == digits_value(frac.take(i - dot - 1)),
            decreases s@.len() - i,
        {
            let c = s[i];
            assert(frac[i - dot - 1] == c);
            let ghost now = frac.take(i - dot);
            assert(now.drop_last() =~= frac.take(i - dot - 1));
            assert(now.last() == c);
            if !('0' <= c && c <= '9') {
                assert(!is_digit(frac[i - dot - 1]));
                return None;
            }
            assert forall|k: int| 0 <= k < now.len() implies is_digit(#[trigger] now[k]) by {
                if k < i - dot - 1 {
                    assert(is_digit(frac.take(i - dot - 1)[k]));
                }
            }
            let ghost before = row@;
            row.push((c as u8) - 48);
            assert(row@.drop_last() =~= before);
            i = i + 1;
        }
        assert(frac.take(frac.len() as int) =~= frac);
    }
    assert(row@.len() == frac.len());
    if dot == start && row.len() == 0 {
        return None;
    }
    let ghost parts = DecimalParts { negative, whole: int_part, fraction: frac };
    assert(decimal_parts(s@) == Some(parts));
    if negative {
        return Some(0);
    }
    let ghost b = ten_to(frac.len());
    let ghost m = two_to(shift as nat);
    let ghost n = digits_value(int_part + frac);
    proof {
        lemma_digits_concat(int_part, frac);
        lemma_ten_pos(frac.len());
        lemma_two_pos(shift as nat);
        lemma_two_values();
        lemma_two_mono(shift as nat, 40);
        lemma_row_bound(row@);
    }
    let scale = two_power(shift);
    let limit: u128 = 0x1_0000_0000_0000_0000 / scale;
    proof {
        lemma_two_add(shift as nat, (64 - shift) as nat);
        assert(limit == two_to((64 - shift) as nat)) by {
            lemma_quotient(
                0x1_0000_0000_0000_0000,
                m,
                two_to((64 - shift) as nat),
                0,
            );
            assert(two_to((64 - shift) as nat) * m == m * two_to((64 - shift) as nat))
                by (nonlinear_arith);
        }
    }
    if big || whole >= limit {
        proof {
            let x = digits_value(int_part);
            let l = two_to((64 - shift) as nat);
            lemma_two_mono((64 - shift) as nat, 64);
            assert(x >= l);
            let f = digits_value(frac);
            assert(n * m >= 0x1_0000_0000_0000_0000 * b) by (nonlinear_arith)
                requires
                    n == x * b + f,
                    x >= l,
                    m * l == 0x1_0000_0000_0000_0000,
                    m > 0,
                    b > 0,
            ;
            assert((n * m) / b >= 0x1_0000_0000_0000_0000) by {
                vstd::arithmetic::div_mod::lemma_div_is_ordered(
                    0x1_0000_0000_0000_0000 * b as int,
                    (n * m) as int,
                    b as int,
                );
                vstd::arithmetic::div_mod::lemma_div_multiples_vanish(
                    0x1_0000_0000_0000_0000,
                    b as int,
                );
                assert(0x1_0000_0000_0000_0000 * b as int == b as int * 0x1_0000_0000_0000_0000);
            }
            lemma_double_big(n * m, b);
        }
        return Some(u64::MAX);
    }
    proof {
        let l = two_to((64 - shift) as nat);
        assert((whole + 1) * m <= 0x1_0000_0000_0000_0000) by (nonlinear_arith)
            requires
                whole + 1 <= l,
                m * l == 0x1_0000_0000_0000_0000,
        ;
    }
    let w = shift_row(&mut row, whole, shift);
    let v = whole_of_double(w as u64, &mut row);
    proof {
        let f = digits_value(frac);
        assert((whole * b + f) * m == n * m);
    }
    if v > u64::MAX as u128 {
        Some(u64::MAX)
    } else {
        Some(v as u64)
    }
}

/// A character that is neither a digit nor the first point spoils a number.
proof fn lemma_no_number(body: Seq<char>, k: int)
    requires
        0 <= k < body.len(),
        !is_digit(body[k]),
        forall|i: int| 0 <= i <= k ==> body[i] != '.',
    ensures
        !all_digits(body.take(first_of(body, '.') as int)),
{
    lemma_first_of_after(body, '.', k);
    let whole = body.take(first_of(body, '.') as int);
    assert(whole[k] == body[k]);
}

proof fn lemma_first_of_after(s: Seq<char>, c: char, k: int)
    requires
        0 <= k < s.len(),
        forall|i: int| 0 <= i <= k ==> s[i] != c,
    ensures
        k < first_of(s, c) <= s.len(),
    decreases s.len(),
{
    assert(s[0] != c);
    lemma_first_of_bound(s.drop_first(), c);
    if k > 0 {
        assert forall|i: int| 0 <= i <= k - 1 implies s.drop_first()[i] != c by {
            assert(s.drop_first()[i] == s[i + 1]);
        }
        lemma_first_of_after(s.drop_first(), c, k - 1);
    }
}

pub proof fn lemma_first_of_bound(s: Seq<char>, c: char)
    ensures
        first_of(s, c) <= s.len(),
        forall|i: int| 0 <= i < first_of(s, c) ==> s[i] != c,
        first_of(s, c) < s.len() ==> s[first_of(s, c) as int] == c,
    decreases s.len(),
{
    if s.len() > 0 && s[0] != c {
        let r = s.drop_first();
        lemma_first_of_bound(r, c);
        assert forall|i: int| 0 <= i < first_of(s, c) implies s[i] != c by {
            if i > 0 {
                assert(r[i - 1] == s[i]);
            }
        }
    }
}

/// The double nearest to a whole number.
pub fn round_double(n: u64) -> (r: u128)
    ensures
        r == double_of(n as nat),
        r <= 0x1_0000_0000_0000_0000,
{
    let mut none: Vec<u8> = Vec::new();
    proof {
        let one = ten_to(0);
        assert(n * one == n) by (nonlinear_arith)
            requires
                one == 1,
        ;
        lemma_double_of(n as nat);
    }
    whole_of_double(n, &mut none)
}

/// Rounding a 64-bit number to a double does not lead beyond 2^64, and keeps
/// numbers of at most 53 bits.
pub proof fn lemma_double_of(n: nat)
    requires
        n <= 0xffff_ffff_ffff_ffff,
    ensures
        double_of(n) <= 0x1_0000_0000_0000_0000,
        n < 0x20_0000_0000_0000 ==> double_of(n) == n,
        n >= 1024 ==> double_of(n) >= 1024,
{
    lemma_two_values();
    let high = high_bit(n);
    assert(n / 1 == n);
    if n == 0 {
        lemma_quotient(0, 1, 0, 0);
        lemma_quotient(0, two_to(53), 0, 0);
    } else {
        lemma_high_bit(n);
        if high <= 52 {
            let s = (52 - high) as nat;
            let p = two_to(s);
            lemma_two_pos(s);
            lemma_rounded(n * p, 1, n * p, 0);
            lemma_quotient(n * p, p, n, 0);
            lemma_two_mono(high + 1, 53);
        } else {
            let t = (high - 52) as nat;
            let p = two_to(t);
            lemma_two_pos(t);
            lemma_two_add(52, t);
            lemma_two_add(53, t);
            if high >= 64 {
                lemma_two_mono(64, high);
            }
            lemma_two_mono(high + 1, 64);
            lemma_two_mono(53, high);
            let q = n / p;
            lemma_fundamental_div_mod(n as int, p as int);
            assert(two_to(52) <= q) by (nonlinear_arith)
                requires
                    n == p * q + n % p,
                    0 <= n % p < p,
                    n >= two_to(52) * p,
                    p > 0,
            ;
            assert(q < two_to(53)) by (nonlinear_arith)
                requires
                    n == p * q + n % p,
                    0 <= n % p,
                    n < two_to(53) * p,
                    p > 0,
            ;
            let r = rounded(n, 1 * p);
            assert(r * p <= two_to(53) * p) by (nonlinear_arith)
                requires
                    r <= two_to(53),
            ;
            assert(r * p >= two_to(52) * p) by (nonlinear_arith)
                requires
                    r >= two_to(52),
            ;
        }
    }
}

// ---------------------------------------------------------------------------
// Laws
// ---------------------------------------------------------------------------

/// A number in decimal is made of digits and reads back as the number.
pub proof fn law_decimals_read_back(n: nat)
    ensures
        decimal(n).len() > 0,
        all_digits(decimal(n)),
        digits_value(decimal(n)) == n,
        n > 0 ==> decimal(n)[0] != '0',
    decreases n,
{
    if n < 10 {
        let s = decimal(n);
        assert(s.len() == 1 && s[0] == digit_char(n));
        assert(s.drop_last() =~= Seq::<char>::empty());
        reveal_with_fuel(digits_value, 2);
    } else {
        law_decimals_read_back(n / 10);
        let s = decimal(n);
        let front = decimal(n / 10);
        assert(s.drop_last() =~= front);
        assert(s.last() == digit_char(n % 10));
        assert forall|i: int| 0 <= i < s.len() implies is_digit(#[trigger] s[i]) by {
            if i < front.len() {
                assert(is_digit(front[i]));
            }
        }
        assert(s[0] == front[0]);
    }
}

/// A number in decimal is read as a whole number, with a plus sign before it or
/// not, exactly when it is not too large.
pub proof fn law_whole_numbers_are_read(n: nat, max: nat)
    ensures
        whole_number(decimal(n), max) == (if n <= max {
            Some(n)
        } else {
            None
        }),
        whole_number(seq!['+'] + decimal(n), max) == (if n <= max {
            Some(n)
        } else {
            None
        }),
{
    law_decimals_read_back(n);
    assert(is_digit(decimal(n)[0]));
    assert((seq!['+'] + decimal(n)).drop_first() =~= decimal(n));
}

/// Whole numbers below 2 to the power of 53 are doubles themselves.
pub proof fn law_small_numbers_are_doubles(n: nat)
    requires
        n < 0x20_0000_0000_0000,
    ensures
        double_of(n) == n,
{
    lemma_two_values();
    assert(n / 1 == n);
    if n == 0 {
        let m = two_to(53);
        assert(n * m == 0) by (nonlinear_arith)
            requires
                n == 0,
        ;
        assert(rounded(0, 1) == 0);
        assert(0nat / m == 0) by {
            vstd::arithmetic::div_mod::lemma_div_of0(m as int);
        }
    } else {
        lemma_high_bit(n);
        let high = high_bit(n);
        if high > 52 {
            lemma_two_mono(53, high);
        }
        let s = (52 - high) as nat;
        let d = two_to(s);
        lemma_two_pos(s);
        let m = n * d;
        assert(m / 1 == m && m % 1 == 0);
        assert(rounded(m, 1) == m);
        vstd::arithmetic::div_mod::lemma_div_multiples_vanish(n as int, d as int);
        assert(m == d * n) by (nonlinear_arith)
            requires
                m == n * d,
        ;
    }
}

/// What is rounded is at most half a unit off.
pub proof fn law_rounding_is_to_the_nearest(n: nat, d: nat)
    requires
        d > 0,
    ensures
        2 * n <= 2 * rounded(n, d) * d + d,
        2 * rounded(n, d) * d <= 2 * n + d,
{
    let q = n / d;
    let r = n % d;
    lemma_fundamental_div_mod(n as int, d as int);
    assert(n == q * d + r && r < d) by {
        vstd::arithmetic::div_mod::lemma_mod_bound(n as int, d as int);
        assert(d * q == q * d) by (nonlinear_arith);
    }
    assert((q + 1) * d == q * d + d) by (nonlinear_arith);
    assert(2 * q * d == 2 * (q * d)) by (nonlinear_arith);
    assert(2 * (q + 1) * d == 2 * ((q + 1) * d)) by (nonlinear_arith);
}

/// A number with its digits in groups is the number in decimal with a comma
/// between each three digits and the digits before them, counted from the end.
pub proof fn law_commas_only_group(n: nat)
    ensures
        grouped(n).filter(|c: char| c != ',') == decimal(n),
        forall|k: int|
            0 <= k < grouped(n).len() ==> ((#[trigger] grouped(n)[k]) == ',' <==> (grouped(n).len()
                - k) % 4 == 0),
        grouped(n)[0] != ',',
        grouped(n).len() > 0,
    decreases n,
{
    let keep = |c: char| c != ',';
    let g = grouped(n);
    if n < 1000 {
        law_decimals_read_back(n);
        lemma_short_decimal(n);
        assert forall|k: int| 0 <= k < g.len() implies (#[trigger] g[k]) != ',' && (g.len() - k) % 4
            != 0 by {
            assert(is_digit(g[k]));
        }
        lemma_filter_all(g, keep);
    } else {
        law_commas_only_group(n / 1000);
        let head = grouped(n / 1000);
        let tail = three_digits(n % 1000);
        assert(g == head.push(',') + tail);
        assert(tail[0] != ',' && tail[1] != ',' && tail[2] != ',');
        assert forall|k: int| 0 <= k < g.len() implies ((#[trigger] g[k]) == ',' <==> (g.len() - k)
            % 4 == 0) by {
            if k < head.len() {
                assert(g[k] == head[k]);
                assert((head.len() + 4 - k) % 4 == (head.len() - k) % 4) by {
                    vstd::arithmetic::div_mod::lemma_mod_add_multiples_vanish(
                        head.len() - k,
                        4,
                    );
                }
            } else if k == head.len() {
                assert(g[k] == ',');
            } else {
                assert(g[k] == tail[k - head.len() - 1]);
            }
        }
        lemma_filter_all(tail, keep);
        Seq::filter_distributes_over_add(head.push(','), tail, keep);
        let comma = seq![','];
        assert(head.push(',') =~= head + comma);
        Seq::filter_distributes_over_add(head, comma, keep);
        assert(comma.drop_last() =~= Seq::<char>::empty());
        reveal(Seq::filter);
        assert(comma.drop_last().filter(keep) =~= Seq::<char>::empty());
        assert(!keep(comma.last()));
        assert(comma.filter(keep) =~= Seq::<char>::empty());
        assert(g.filter(keep) =~= decimal(n / 1000) + tail);
        lemma_three_digits(n);
        assert(g[0] == head[0]);
    }
}

proof fn lemma_filter_all(s: Seq<char>, keep: spec_fn(char) -> bool)
    requires
        forall|k: int| 0 <= k < s.len() ==> keep(#[trigger] s[k]),
    ensures
        s.filter(keep) == s,
    decreases s.len(),
{
    reveal(Seq::filter);
    if s.len() > 0 {
        let front = s.drop_last();
        assert forall|k: int| 0 <= k < front.len() implies keep(#[trigger] front[k]) by {
            assert(front[k] == s[k]);
        }
        lemma_filter_all(front, keep);
        assert(keep(s[s.len() - 1]));
        assert(front.push(s.last()) =~= s);
    } else {
        assert(s.filter(keep) =~= s);
    }
}

proof fn lemma_short_decimal(n: nat)
    requires
        n < 1000,
    ensures
        1 <= decimal(n).len() <= 3,
{
    reveal_with_fuel(decimal, 4);
}

proof fn lemma_three_digits(n: nat)
    requires
        n >= 1000,
    ensures
        decimal(n) == decimal(n / 1000) + three_digits(n % 1000),
{
    let a = n / 10;
    let b = a / 10;
    let c = b / 10;
    assert(decimal(n) == decimal(a).push(digit_char(n % 10)));
    assert(decimal(a) == decimal(b).push(digit_char(a % 10)));
    assert(decimal(b) == decimal(c).push(digit_char(b % 10)));
    assert(c == n / 1000);
    let low = n % 1000;
    assert(low % 10 == n % 10);
    assert(low / 10 % 10 == a % 10);
    assert(low / 100 == b % 10);
    assert(decimal(n) =~= decimal(c) + three_digits(low));
}

/// A quotient that is a whole number below 2 to the power of 53 is a double itself.
pub proof fn law_whole_quotients_are_doubles(q: nat, d: nat)
    requires
        q < 0x20_0000_0000_0000,
        d > 0,
    ensures
        double_whole(q * d, d) == q,
{
    lemma_two_values();
    let n = q * d;
    lemma_quotient(n, d, q, 0);
    if q == 0 {
        let m = two_to(53);
        assert(n * m == 0) by (nonlinear_arith)
            requires
                n == 0,
        ;
        lemma_quotient(0, d, 0, 0);
        assert(rounded(0, d) == 0);
        vstd::arithmetic::div_mod::lemma_div_of0(m as int);
    } else {
        lemma_high_bit(q);
        let high = high_bit(q);
        if high > 52 {
            lemma_two_mono(53, high);
        }
        let s = (52 - high) as nat;
        let p = two_to(s);
        lemma_two_pos(s);
        assert(n * p == (q * p) * d) by (nonlinear_arith)
            requires
                n == q * d,
        ;
        lemma_quotient(n * p, d, q * p, 0);
        assert(rounded(n * p, d) == q * p);
        lemma_quotient(q * p, p, q, 0);
    }
}

}
