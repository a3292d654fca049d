//! Decimal numerals: writing numbers down and reading them back.

use vstd::arithmetic::power2;
use vstd::prelude::*;

use crate::text::chars_of;

verus! {

/// The character of a decimal digit.
pub open spec fn digit_char(digit: nat) -> char {
    (0x30 + digit) as char
}

/// The decimal numeral of a number, without leading zeros.
pub open spec fn decimal(n: nat) -> Seq<char>
    decreases n,
{
    if n < 10 {
        seq![digit_char(n)]
    } else {
        decimal(n / 10).push(digit_char(n % 10))
    }
}

/// A character from `0` to `9`.
pub open spec fn is_digit(c: char) -> bool {
    '0' <= c <= '9'
}

/// One or more digits and nothing else.
pub open spec fn is_numeral(s: Seq<char>) -> bool {
    s.len() > 0 && forall|i: int| 0 <= i < s.len() ==> is_digit(#[trigger] s[i])
}

/// The number that a numeral stands for.
pub open spec fn numeral_value(s: Seq<char>) -> nat
    decreases s.len(),
{
    if s.len() == 0 {
        0
    } else {
        numeral_value(s.drop_last()) * 10 + (s.last() as nat - 0x30) as nat
    }
}

/// A numeral without the plus sign that may stand before it.
pub open spec fn unsigned_part(s: Seq<char>) -> Seq<char> {
    if s.len() > 1 && s[0] == '+' {
        s.subrange(1, s.len() as int)
    } else {
        s
    }
}

/// The 32-bit number that a text stands for: digits, a plus sign before them at most, and a
/// value that fits.
pub open spec fn u32_of(s: Seq<char>) -> Option<u32> {
    let digits = unsigned_part(s);
    if is_numeral(digits) && numeral_value(digits) <= u32::MAX {
        Some(numeral_value(digits) as u32)
    } else {
        None
    }
}

/// A longer numeral stands for no smaller number.
proof fn lemma_value_grows(s: Seq<char>, k: int)
    requires
        0 <= k <= s.len(),
        forall|i: int| 0 <= i < s.len() ==> is_digit(#[trigger] s[i]),
    ensures
        numeral_value(s.subrange(0, k)) <= numeral_value(s),
    decreases s.len(),
{
    if k == s.len() {
        assert(s.subrange(0, k) == s);
    } else {
        let shorter = s.drop_last();
        assert(shorter.subrange(0, k) == s.subrange(0, k));
        lemma_value_grows(shorter, k);
    }
}

/// Writing a number down gives a numeral that stands for it.
pub proof fn lemma_decimal(n: nat)
    ensures
        is_numeral(decimal(n)),
        numeral_value(decimal(n)) == n,
    decreases n,
{
    if n < 10 {
        assert(decimal(n).drop_last() == Seq::<char>::empty());
        assert(numeral_value(Seq::<char>::empty()) == 0);
    } else {
        lemma_decimal(n / 10);
        assert(decimal(n).drop_last() == decimal(n / 10));
    }
}

/// Reading back a number that was written down gives that number.
pub proof fn law_numeral_round_trip(n: u32)
    ensures
        u32_of(decimal(n as nat)) == Some(n),
{
    lemma_decimal(n as nat);
    assert(is_digit(decimal(n as nat)[0]));
    assert(unsigned_part(decimal(n as nat)) == decimal(n as nat));
}

/// Reads a 32-bit number.
pub fn parse_u32(s: &str) -> (number: Option<u32>)
    ensures
        number == u32_of(s@),
{
    let chars = chars_of(s);
    let start: usize = if chars.len() > 1 && chars[0] == '+' {
        1
    } else {
        0
    };
    let ghost digits = unsigned_part(s@);
    assert(digits == s@.subrange(start as int, s@.len() as int));
    if chars.len() == 0 {
        return None;
    }
    let mut value: u64 = 0;
    let mut at: usize = start;
    assert(digits.subrange(0, 0) == Seq::<char>::empty());
    while at < chars.len()
        invariant
            start <= at <= chars.len(),
            chars@ == s@,
            digits == s@.subrange(start as int, s@.len() as int),
            value <= u32::MAX,
            value == numeral_value(digits.subrange(0, at - start)),
            forall|i: int| 0 <= i < at - start ==> is_digit(#[trigger] digits[i]),
            digits == unsigned_part(s@),
        decreases chars.len() - at,
    {
        let c = chars[at];
        assert(digits[at - start] == c);
        if c < '0' || '9' < c {
            return None;
        }
        proof {
            let longer = digits.subrange(0, at - start + 1);
            assert(longer.drop_last() == digits.subrange(0, at - start));
            if is_numeral(digits) {
                lemma_value_grows(digits, at - start + 1);
            }
        }
        value = value * 10 + (c as u64 - 0x30);
        if value > 0xffff_ffff {
            return None;
        }
        at = at + 1;
    }
    assert(digits.subrange(0, at - start) == digits);
    Some(value as u32)
}

/// Writes one digit at the end of a text.
fn push_digit(text: &mut String, digit: u8)
    requires
        digit < 10,
    ensures
        final(text)@ == old(text)@.push(digit_char(digit as nat)),
{
    proof {
        reveal_strlit("0123456789");
    }
    let at: usize = digit as usize;
    let numeral = "0123456789".substring_char(at, at + 1);
    assert(numeral@ =~= seq![digit_char(digit as nat)]);
    text.append(numeral);
    assert(text@ =~= old(text)@.push(digit_char(digit as nat)));
}

/// Writes a number down.
pub fn decimal_text(n: u64) -> (text: String)
    ensures
        text@ == decimal(n as nat),
    decreases n,
{
    if n < 10 {
        let mut text = String::new();
        push_digit(&mut text, n as u8);
        assert(text@ =~= seq![digit_char(n as nat)]);
        text
    } else {
        let mut text = decimal_text(n / 10);
        push_digit(&mut text, (n % 10) as u8);
        text
    }
}

/// Digits, the lowest first.
pub open spec fn are_digits(digits: Seq<u8>) -> bool {
    forall|i: int| 0 <= i < digits.len() ==> #[trigger] digits[i] < 10
}

/// The number that digits stand for, the lowest first.
pub open spec fn digits_value(digits: Seq<u8>) -> nat
    decreases digits.len(),
{
    if digits.len() == 0 {
        0
    } else {
        digits[0] as nat + 10 * digits_value(digits.drop_first())
    }
}

/// Digits without a useless zero at the high end.
pub open spec fn are_plain_digits(digits: Seq<u8>) -> bool {
    are_digits(digits) && digits.len() > 0 && (digits.len() > 1 ==> digits.last() > 0)
}

proof fn lemma_value_positive(digits: Seq<u8>)
    requires
        digits.len() > 0,
        digits.last() > 0,
    ensures
        digits_value(digits) > 0,
    decreases digits.len(),
{
    if digits.len() > 1 {
        assert(digits.drop_first().last() == digits.last());
        lemma_value_positive(digits.drop_first());
    }
}

/// The digits of a number, the lowest first.
fn digits_of(n: u64) -> (digits: Vec<u8>)
    ensures
        are_plain_digits(digits@),
        digits_value(digits@) == n,
        digits@.last() > 0 || n == 0,
    decreases n,
{
    if n < 10 {
        let mut digits: Vec<u8> = Vec::new();
        digits.push(n as u8);
        assert(digits@.drop_first() == Seq::<u8>::empty());
        assert(digits_value(Seq::<u8>::empty()) == 0);
        digits
    } else {
        let mut digits = digits_of(n / 10);
        let ghost high = digits@;
        digits.insert(0, (n % 10) as u8);
        assert(digits@.drop_first() == high);
        assert(digits@.last() == high.last());
        digits
    }
}

/// Doubles the number that the digits from `from` on stand for, and adds `carry`.
fn double_digits(digits: &mut Vec<u8>, from: usize, carry: u8)
    requires
        are_digits(old(digits)@),
        from <= old(digits)@.len(),
        carry <= 1,
    ensures
        are_digits(final(digits)@),
        final(digits)@.len() >= old(digits)@.len(),
        final(digits)@.subrange(0, from as int) == old(digits)@.subrange(0, from as int),
        digits_value(final(digits)@.subrange(from as int, final(digits)@.len() as int)) == 2
            * digits_value(old(digits)@.subrange(from as int, old(digits)@.len() as int)) + carry,
        old(digits)@.len() > from && old(digits)@.last() > 0 ==> final(digits)@.last() > 0,
        old(digits)@.len() == from && final(digits)@.len() > from ==> final(digits)@.last() > 0,
    decreases old(digits)@.len() - from,
{
    let ghost before = digits@;
    let ghost tail = before.subrange(from as int, before.len() as int);
    if from == digits.len() {
        assert(tail == Seq::<u8>::empty());
        if carry > 0 {
            digits.push(carry);
            let ghost added = digits@.subrange(from as int, digits@.len() as int);
            assert(added == seq![carry]);
            assert(added.drop_first() == Seq::<u8>::empty());
            assert(digits_value(Seq::<u8>::empty()) == 0);
            assert(digits@.subrange(0, from as int) == before.subrange(0, from as int));
        }
    } else {
        let twice: u8 = 2 * digits[from] + carry;
        digits.set(from, twice % 10);
        let ghost middle = digits@;
        double_digits(digits, from + 1, twice / 10);
        proof {
            let now = digits@.subrange(from as int, digits@.len() as int);
            assert(digits@[from as int] == digits@.subrange(0, from + 1)[from as int]);
            assert(middle.subrange(0, from + 1)[from as int] == (twice % 10) as u8);
            assert(now.drop_first() == digits@.subrange(from + 1, digits@.len() as int));
            assert(middle.subrange(from + 1, middle.len() as int) == tail.drop_first());
            assert forall|i: int| 0 <= i < from implies digits@.subrange(0, from as int)[i]
                == before.subrange(0, from as int)[i] by {
                assert(digits@.subrange(0, from + 1)[i] == middle.subrange(0, from + 1)[i]);
            }
            assert(digits@.subrange(0, from as int) =~= before.subrange(0, from as int));
            if before.last() > 0 && before.len() == from + 1 {
                if digits@.len() == from + 1 {
                    assert(digits@.subrange(from + 1, digits@.len() as int) == Seq::<u8>::empty());
                    assert(digits_value(Seq::<u8>::empty()) == 0);
                    assert(tail.drop_first() == Seq::<u8>::empty());
                    assert(twice / 10 == 0);
                    assert(digits@.last() == twice);
                }
            }
        }
    }
}

/// Writes down the number that digits stand for.
fn digits_text(digits: &Vec<u8>) -> (text: String)
    requires
        are_plain_digits(digits@),
    ensures
        text@ == decimal(digits_value(digits@)),
{
    let mut text = String::new();
    let mut at: usize = digits.len() - 1;
    push_digit(&mut text, digits[at]);
    proof {
        let top = digits@.subrange(at as int, digits@.len() as int);
        assert(top.drop_first() == Seq::<u8>::empty());
        assert(digits_value(Seq::<u8>::empty()) == 0);
        assert(text@ =~= seq![digit_char(digits@[at as int] as nat)]);
    }
    while at > 0
        invariant
            at < digits@.len(),
            are_plain_digits(digits@),
            text@ == decimal(
                digits_value(digits@.subrange(at as int, digits@.len() as int)),
            ),
        decreases at,
    {
        let ghost high = digits@.subrange(at as int, digits@.len() as int);
        at = at - 1;
        push_digit(&mut text, digits[at]);
        proof {
            let now = digits@.subrange(at as int, digits@.len() as int);
            assert(now.drop_first() == high);
            assert(high.last() == digits@.last());
            lemma_value_positive(high);
        }
    }
    assert(digits@.subrange(0, digits@.len() as int) == digits@);
    text
}

/// Writes down `n` times two to the power `doublings`.
pub fn shifted_decimal_text(n: u64, doublings: u32) -> (text: String)
    ensures
        text@ == decimal(n as nat * power2::pow2(doublings as nat)),
{
    if n == 0 {
        return decimal_text(0);
    }
    let mut digits = digits_of(n);
    let mut done: u32 = 0;
    proof {
        power2::lemma2_to64();
    }
    while done < doublings
        invariant
            done <= doublings,
            are_plain_digits(digits@),
            digits@.last() > 0,
            digits_value(digits@) == n as nat * power2::pow2(done as nat),
        decreases doublings - done,
    {
        let ghost before = digits@;
        assert(before.subrange(0, before.len() as int) == before);
        double_digits(&mut digits, 0, 0);
        proof {
            assert(digits@.subrange(0, digits@.len() as int) == digits@);
            power2::lemma_pow2_unfold((done + 1) as nat);
            let p = power2::pow2(done as nat);
            assert(n as nat * (2 * p) == 2 * (n as nat * p)) by (nonlinear_arith);
        }
        done = done + 1;
    }
    digits_text(&digits)
}

/// A number is written with digits only, without leading zeros, so that they stand for it.
pub proof fn law_number_is_written(n: nat)
    ensures
        is_numeral(decimal(n)),
        numeral_value(decimal(n)) == n,
        decimal(n).len() > 1 ==> decimal(n)[0] != '0',
    decreases n,
{
    lemma_decimal(n);
    if n >= 10 {
        law_number_is_written(n / 10);
        assert(decimal(n)[0] == decimal(n / 10)[0]);
        if n / 10 < 10 {
            assert(decimal(n / 10) =~= seq![digit_char(n / 10)]);
        } else {
            lemma_decimal(n / 10 / 10);
        }
    }
}

/// Different numbers are written differently.
pub proof fn law_numerals_differ(a: nat, b: nat)
    ensures
        decimal(a) == decimal(b) ==> a == b,
{
    lemma_decimal(a);
    lemma_decimal(b);
}

/// Each further digit counts one, and what stands before it ten times as much.
pub proof fn law_value_of_digits(s: Seq<char>, c: char)
    requires
        '0' <= c <= '9',
    ensures
        numeral_value(Seq::<char>::empty()) == 0,
        numeral_value(s.push(c)) == 10 * numeral_value(s) + (c as int - '0' as int),
{
    assert(s.push(c).drop_last() =~= s);
}

/// Digits are read as the number that they stand for, with or without a plus sign, if it fits
/// into 32 bits.
pub proof fn law_digits_are_read(s: Seq<char>)
    requires
        s.len() > 0,
        forall|i: int| 0 <= i < s.len() ==> '0' <= #[trigger] s[i] <= '9',
    ensures
        numeral_value(s) <= u32::MAX ==> u32_of(s) == Some(numeral_value(s) as u32) && u32_of(
            seq!['+'] + s,
        ) == Some(numeral_value(s) as u32),
        numeral_value(s) > u32::MAX ==> u32_of(s) is None && u32_of(seq!['+'] + s) is None,
{
    assert(s[0] != '+');
    let signed = seq!['+'] + s;
    assert(signed.subrange(1, signed.len() as int) =~= s);
    assert(is_numeral(s));
}

/// Anything else is not read as a number: no text at all, a plus sign alone, or a character
/// that is no digit, but for a plus sign in front.
pub proof fn law_others_are_not_read(s: Seq<char>, i: int)
    requires
        s.len() == 0 || s == seq!['+'] || (0 <= i < s.len() && !('0' <= s[i] <= '9') && !(i == 0
            && s[i] == '+')),
    ensures
        u32_of(s) is None,
{
    if s == seq!['+'] {
        assert(!is_digit(s[0]));
    } else if s.len() > 0 {
        if s.len() > 1 && s[0] == '+' {
            let digits = s.subrange(1, s.len() as int);
            assert(digits[i - 1] == s[i]);
            assert(!is_digit(digits[i - 1]));
        } else {
            assert(!is_digit(s[i]));
        }
    }
}

} // verus!
