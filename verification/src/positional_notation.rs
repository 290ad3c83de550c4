//! Numbers written as digit strings in a given base.

use vstd::arithmetic::power::{lemma_pow0, lemma_pow1, lemma_pow_adds, lemma_pow_positive, pow};
use vstd::prelude::*;

verus! {

/// The digit that a character stands for when read: its distance from `'0'`.
pub open spec fn digit_of(c: char) -> int {
    c as int - 48
}

/// The number written by `digits` in base `base`, the first digit being
/// the most significant.
pub open spec fn digits_value(digits: Seq<char>, base: int) -> int
    decreases digits.len(),
{
    if digits.len() == 0 {
        0
    } else {
        digits_value(digits.drop_last(), base) * base + digit_of(digits.last())
    }
}

/// Whether every character is `'0'` or comes after it.
pub open spec fn all_digits(digits: Seq<char>) -> bool {
    forall|i: int| 0 <= i < digits.len() ==> digit_of(#[trigger] digits[i]) >= 0
}

/// The value of a digit string is not negative.
proof fn lemma_value_nonnegative(digits: Seq<char>, base: int)
    requires
        all_digits(digits),
        base >= 0,
    ensures
        digits_value(digits, base) >= 0,
    decreases digits.len(),
{
    if digits.len() > 0 {
        lemma_value_nonnegative(digits.drop_last(), base);
        assert(digits_value(digits.drop_last(), base) * base >= 0) by (nonlinear_arith)
            requires
                digits_value(digits.drop_last(), base) >= 0,
                base >= 0,
        ;
    }
}

/// A power of a number that is not negative is not negative.
proof fn lemma_pow_nonnegative(base: int, e: nat)
    requires
        base >= 0,
    ensures
        pow(base, e) >= 0,
{
    if base > 0 {
        lemma_pow_positive(base, e);
    } else if e == 0 {
        lemma_pow0(base);
    } else {
        vstd::arithmetic::power::lemma0_pow(e);
    }
}

/// The value of a string of two parts: the first part is shifted by the
/// length of the second.
proof fn lemma_value_concat(a: Seq<char>, b: Seq<char>, base: int)
    ensures
        digits_value(a + b, base) == digits_value(a, base) * pow(base, b.len()) + digits_value(
            b,
            base,
        ),
    decreases b.len(),
{
    if b.len() == 0 {
        assert(a + b =~= a);
        lemma_pow0(base);
    } else {
        let front = b.drop_last();
        assert((a + b).drop_last() =~= a + front);
        lemma_value_concat(a, front, base);
        let (va, vf, e) = (digits_value(a, base), digits_value(front, base), pow(base, front.len()));
        lemma_pow_adds(base, front.len(), 1);
        lemma_pow1(base);
        assert((va * e + vf) * base == va * (e * base) + vf * base) by (nonlinear_arith);
    }
}

/// The value of the digits from position `i` on: the digit at `i`, shifted
/// past the digits behind it, plus the value of those.
proof fn lemma_value_suffix(digits: Seq<char>, i: int, base: int)
    requires
        0 <= i < digits.len(),
        all_digits(digits),
        base >= 0,
    ensures
        digits_value(digits.skip(i), base) == digit_of(digits[i]) * pow(
            base,
            (digits.len() - 1 - i) as nat,
        ) + digits_value(digits.skip(i + 1), base),
        0 <= digits_value(digits.skip(i + 1), base),
        0 <= digit_of(digits[i]) * pow(base, (digits.len() - 1 - i) as nat),
        digits_value(digits.skip(i), base) <= digits_value(digits, base),
{
    let one = seq![digits[i]];
    let tail = digits.skip(i + 1);
    let e = pow(base, (digits.len() - 1 - i) as nat);
    assert(one + tail =~= digits.skip(i));
    lemma_value_concat(one, tail, base);
    assert(digits_value(one, base) == digit_of(digits[i])) by {
        assert(one.drop_last() =~= Seq::<char>::empty());
        assert(digits_value(one.drop_last(), base) == 0);
    }
    lemma_value_nonnegative(tail, base);
    lemma_pow_nonnegative(base, (digits.len() - 1 - i) as nat);
    assert(digit_of(digits[i]) * e >= 0) by (nonlinear_arith)
        requires
            digit_of(digits[i]) >= 0,
            e >= 0,
    ;
    // The digits before `i` only add to the value.
    let head = digits.take(i);
    assert(head + digits.skip(i) =~= digits);
    lemma_value_concat(head, digits.skip(i), base);
    lemma_value_nonnegative(head, base);
    let shift = pow(base, digits.skip(i).len());
    lemma_pow_nonnegative(base, digits.skip(i).len());
    assert(digits_value(head, base) * shift >= 0) by (nonlinear_arith)
        requires
            digits_value(head, base) >= 0,
            shift >= 0,
    ;
}

/// The number of a character in Unicode.
fn code_point(c: char) -> (code: u32)
    ensures
        code == c as int,
{
    c as u32
}

/// Reads the number that the characters of `n` write in base `base`,
/// each character counting as its distance from `'0'`.
///
/// Both the value and `base` raised to the number of characters must fit
/// a `usize`.
pub fn chars_to_decimal(n: Vec<char>, base: usize) -> (value: usize)
    requires
        all_digits(n@),
        pow(base as int, n@.len()) <= usize::MAX,
        digits_value(n@, base as int) <= usize::MAX,
    ensures
        value == digits_value(n@, base as int),
{
    let len = n.len();
    let mut result: usize = 0;
    let mut x: usize = 1;
    let mut done: usize = 0;
    proof {
        lemma_pow0(base as int);
        assert(n@.skip(len as int) =~= Seq::<char>::empty());
    }
    while done < len
        invariant
            len == n@.len(),
            done <= len,
            all_digits(n@),
            pow(base as int, n@.len()) <= usize::MAX,
            digits_value(n@, base as int) <= usize::MAX,
            x == pow(base as int, done as nat),
            result == digits_value(n@.skip(len - done), base as int),
        decreases len - done,
    {
        let i = len - 1 - done;
        let c = n[i];
        proof {
            lemma_value_suffix(n@, i as int, base as int);
            assert(digit_of(n@[i as int]) >= 0);
            assert(c as int >= 48);
            lemma_pow_adds(base as int, done as nat, 1);
            lemma_pow1(base as int);
            lemma_power_fits(base as nat, (done + 1) as nat, len as nat);
        }
        let d = (code_point(c) - 48) as usize;
        result += d * x;
        x *= base;
        done += 1;
    }
    proof {
        assert(n@.skip(0) =~= n@);
    }
    result
}

/// A power with a smaller exponent fits where one with a greater exponent does.
proof fn lemma_power_fits(base: nat, e: nat, full: nat)
    requires
        e <= full,
        pow(base as int, full) <= usize::MAX,
    ensures
        0 <= pow(base as int, e) <= usize::MAX,
{
    lemma_pow_nonnegative(base as int, e);
    if base == 0 {
        if e == 0 {
            lemma_pow0(0);
        } else {
            vstd::arithmetic::power::lemma0_pow(e);
        }
    } else {
        vstd::arithmetic::power::lemma_pow_increases(base, e, full);
    }
}

/// The character that writes the digit `d`: `'0'` to `'9'`, then `'a'` to `'z'`.
pub open spec fn digit_char(d: nat) -> char {
    if d < 10 {
        (48 + d) as char
    } else {
        (87 + d) as char
    }
}

/// The digits of `n` in base `base`, the most significant first; the
/// single digit `0` for `n == 0`.
pub open spec fn digits_of(n: nat, base: nat) -> Seq<nat>
    decreases n,
    via digits_of_terminates
{
    if n < base || base < 2 {
        seq![n]
    } else {
        digits_of(n / base, base).push(n % base)
    }
}

#[via_fn]
proof fn digits_of_terminates(n: nat, base: nat) {
    if !(n < base || base < 2) {
        lemma_shorter(n, base);
    }
}

/// Dropping the last digit of a positive number makes it smaller, and a
/// number below the base is its own last digit.
proof fn lemma_shorter(n: nat, base: nat)
    requires
        base >= 2,
        n > 0,
    ensures
        n / base < n,
        n < base ==> n / base == 0 && n % base == n,
        n >= base ==> n / base > 0,
{
    vstd::arithmetic::div_mod::lemma_fundamental_div_mod(n as int, base as int);
    let (q, r) = (n / base, n % base);
    assert(q < n) by (nonlinear_arith)
        requires
            n == base * q + r,
            r >= 0,
            base >= 2,
            n > 0,
            q >= 0,
    ;
    if n < base {
        vstd::arithmetic::div_mod::lemma_small_mod(n, base);
        assert(q == 0) by (nonlinear_arith)
            requires
                n == base * q + r,
                r >= 0,
                n < base,
                q >= 0,
        ;
    } else {
        assert(q > 0) by (nonlinear_arith)
            requires
                n == base * q + r,
                r < base,
                n >= base,
                q >= 0,
        ;
    }
}

/// The character for the digit `d`.
fn char_from_digit(d: u8) -> (c: char)
    requires
        d < 36,
    ensures
        c == digit_char(d as nat),
{
    if d < 10 {
        (48 + d) as char
    } else {
        (87 + d) as char
    }
}

/// Writes `n` in base `base`, with the digits `'0'` to `'9'` and `'a'` to
/// `'z'` and without leading zeros.
pub fn decimal_to_chars(n: usize, base: usize) -> (text: Vec<char>)
    requires
        2 <= base <= 36,
    ensures
        text@ == digits_of(n as nat, base as nat).map_values(|d: nat| digit_char(d)),
{
    if n == 0 {
        let mut zero: Vec<char> = Vec::new();
        zero.push('0');
        assert(zero@ =~= digits_of(0, base as nat).map_values(|d: nat| digit_char(d)));
        return zero;
    }
    let mut rest = n;
    let mut reversed: Vec<char> = Vec::new();
    let ghost mut written: Seq<nat> = Seq::empty();
    while rest > 0
        invariant
            2 <= base <= 36,
            rest > 0 ==> digits_of(n as nat, base as nat) == digits_of(rest as nat, base as nat)
                + written,
            rest == 0 ==> digits_of(n as nat, base as nat) == written,
            reversed@.len() == written.len(),
            forall|k: int|
                0 <= k < written.len() ==> #[trigger] reversed@[k] == digit_char(
                    written[written.len() - 1 - k],
                ),
        decreases rest,
    {
        let d = rest % base;
        let c = char_from_digit(d as u8);
        proof {
            let shorter = (rest / base) as nat;
            lemma_shorter(rest as nat, base as nat);
            if rest < base {
                assert(seq![rest as nat] + written =~= seq![d as nat] + written);
            } else {
                assert(digits_of(shorter, base as nat).push(d as nat) + written =~= digits_of(
                    shorter,
                    base as nat,
                ) + (seq![d as nat] + written));
            }
            written = seq![d as nat] + written;
        }
        reversed.push(c);
        rest /= base;
    }
    let mut text: Vec<char> = Vec::new();
    let mut k = reversed.len();
    while k > 0
        invariant
            k <= reversed@.len(),
            reversed@.len() == written.len(),
            text@.len() == reversed@.len() - k,
            forall|j: int| 0 <= j < text@.len() ==> #[trigger] text@[j] == digit_char(written[j]),
            forall|j: int|
                0 <= j < written.len() ==> #[trigger] reversed@[j] == digit_char(
                    written[written.len() - 1 - j],
                ),
        decreases k,
    {
        k -= 1;
        text.push(reversed[k]);
    }
    assert(text@ =~= written.map_values(|d: nat| digit_char(d)));
    text
}

} // verus!
