//! Decimal numbers as text.

use vstd::prelude::*;

use crate::chars;
use crate::chars::is_ascii_digit;
use crate::strings::{chars_of, text_of};

verus! {

/// Whether `s` holds ASCII digits only.
pub open spec fn all_digits(s: Seq<char>) -> bool {
    forall|i: int| 0 <= i < s.len() ==> chars::is_ascii_digit_char(#[trigger] s[i])
}

/// The number that a run of digits spells.
pub open spec fn digits_value(s: Seq<char>) -> nat
    decreases s.len(),
{
    if s.len() == 0 {
        0
    } else {
        digits_value(s.drop_last()) * 10 + (s.last() as nat - '0' as nat) as nat
    }
}

/// `s` without the sign `sign` in front, if it is there.
pub open spec fn without_sign(s: Seq<char>, sign: char) -> Seq<char> {
    if s.len() > 0 && s[0] == sign {
        s.skip(1)
    } else {
        s
    }
}

/// The number that `s` spells: digits, at least one, after an optional plus sign.
pub open spec fn unsigned_value(s: Seq<char>) -> Option<nat> {
    let body = without_sign(s, '+');
    if body.len() > 0 && all_digits(body) {
        Some(digits_value(body))
    } else {
        None
    }
}

/// The number that `s` spells when a minus sign may stand in front too.
pub open spec fn signed_value(s: Seq<char>) -> Option<int> {
    if s.len() > 0 && s[0] == '-' {
        let body = s.skip(1);
        if body.len() > 0 && all_digits(body) {
            Some(-digits_value(body))
        } else {
            None
        }
    } else {
        match unsigned_value(s) {
            Some(value) => Some(value as int),
            None => None,
        }
    }
}

/// The digit `d` as a character.
pub open spec fn digit_char(d: nat) -> char {
    ('0' as nat + d) as char
}

/// The shortest decimal spelling of `n`.
pub open spec fn decimal(n: nat) -> Seq<char>
    decreases n,
{
    if n < 10 {
        seq![digit_char(n)]
    } else {
        decimal(n / 10).push(digit_char(n % 10))
    }
}

/// Reading back the decimal spelling of a number gives that number.
pub proof fn law_decimal_round_trip(n: nat)
    ensures
        decimal(n).len() > 0,
        all_digits(decimal(n)),
        digits_value(decimal(n)) == n,
        unsigned_value(decimal(n)) == Some(n),
    decreases n,
{
    if n < 10 {
        let d = decimal(n);
        assert(d.drop_last().len() == 0);
        assert(digits_value(d.drop_last()) == 0);
    } else {
        law_decimal_round_trip(n / 10);
        assert(decimal(n).drop_last() == decimal(n / 10));
    }
}

proof fn lemma_digits_value_grows(s: Seq<char>, n: int)
    requires
        all_digits(s),
        0 <= n <= s.len(),
    ensures
        digits_value(s.take(n)) <= digits_value(s),
    decreases s.len() - n,
{
    if n == s.len() {
        assert(s.take(n) == s);
    } else {
        lemma_digits_value_grows(s, n + 1);
        assert(s.take(n + 1).drop_last() == s.take(n));
        assert(chars::is_ascii_digit_char(s[n]));
    }
}

/// The number spelled by `chars` from `start` on, unless it exceeds `max`.
fn read_digits(chars: &Vec<char>, start: usize, max: u64) -> (res: Option<u64>)
    requires
        start <= chars.len(),
    ensures
        ({
            let body = chars@.skip(start as int);
            match res {
                Some(value) => body.len() > 0 && all_digits(body) && digits_value(body) == value
                    && value <= max,
                None => !(body.len() > 0 && all_digits(body) && digits_value(body) <= max),
            }
        }),
{
    let count = chars.len();
    let ghost body = chars@.skip(start as int);
    if start == count {
        return None;
    }
    let mut value: u64 = 0;
    for index in start..count
        invariant
            start < count == chars.len(),
            body == chars@.skip(start as int),
            all_digits(body.take(index - start)),
            value == digits_value(body.take(index - start)),
            value <= max,
    {
        let c = chars[index];
        let ghost done = index - start;
        assert(body.take(done + 1).drop_last() == body.take(done));
        assert(body.take(done + 1).last() == c);
        assert(body[done] == c);
        if !is_ascii_digit(c) {
            return None;
        }
        let digit: u64 = (c as u32 - '0' as u32) as u64;
        let next = match value.checked_mul(10) {
            Some(tens) => tens.checked_add(digit),
            None => None,
        };
        proof {
            if all_digits(body) {
                lemma_digits_value_grows(body, done + 1);
            }
        }
        match next {
            Some(sum) => {
                if sum > max {
                    return None;
                }
                value = sum;
            },
            None => {
                return None;
            },
        }
    }
    assert(body.take(count - start) == body);
    Some(value)
}

/// Reads a decimal number of at most `max`: digits after an optional plus sign.
pub fn parse_unsigned(text: &str, max: u64) -> (res: Option<u64>)
    ensures
        match res {
            Some(value) => unsigned_value(text@) == Some(value as nat) && value <= max,
            None => unsigned_value(text@) matches Some(value) ==> value > max,
        },
{
    let chars = chars_of(text);
    let start: usize = if chars.len() > 0 && chars[0] == '+' {
        1
    } else {
        0
    };
    assert(chars@.skip(0) == chars@);
    read_digits(&chars, start, max)
}

/// Reads a decimal number in the range of `i32`: digits after an optional sign.
pub fn parse_i32(text: &str) -> (res: Option<i32>)
    ensures
        match res {
            Some(value) => signed_value(text@) == Some(value as int),
            None => signed_value(text@) matches Some(value) ==> !(i32::MIN <= value <= i32::MAX),
        },
{
    let chars = chars_of(text);
    if chars.len() > 0 && chars[0] == '-' {
        match read_digits(&chars, 1, 0x8000_0000) {
            Some(value) => Some((0 - value as i64) as i32),
            None => None,
        }
    } else {
        match parse_unsigned(text, 0x7fff_ffff) {
            Some(value) => Some(value as i32),
            None => None,
        }
    }
}

fn decimal_chars(n: u64) -> (res: Vec<char>)
    ensures
        res@ == decimal(n as nat),
    decreases n,
{
    if n < 10 {
        let mut digits: Vec<char> = Vec::new();
        digits.push((48 + n as u8) as char);
        digits
    } else {
        let mut digits = decimal_chars(n / 10);
        digits.push((48 + (n % 10) as u8) as char);
        digits
    }
}

/// The decimal spelling of a number.
pub fn decimal_text(n: u64) -> (res: String)
    ensures
        res@ == decimal(n as nat),
{
    let digits = decimal_chars(n);
    text_of(&digits)
}

/// The value of `digits` in the decimal system, written from the front: each
/// digit counts by its place.
pub open spec fn place_value(digits: Seq<char>) -> nat
    decreases digits.len(),
{
    if digits.len() == 0 {
        0
    } else {
        ((digits[0] as u32 - 48) * vstd::arithmetic::power::pow(
            10,
            (digits.len() - 1) as nat,
        )) as nat + place_value(digits.skip(1))
    }
}

/// Digits are worth what their places make of them.
pub proof fn law_digits_count_by_place(digits: Seq<char>)
    requires
        all_digits(digits),
    ensures
        digits_value(digits) == place_value(digits),
    decreases digits.len(),
{
    if digits.len() > 0 {
        let rest = digits.drop_last();
        assert(all_digits(rest)) by {
            assert forall|i: int| 0 <= i < rest.len() implies chars::is_ascii_digit_char(
                #[trigger] rest[i],
            ) by {
                assert(chars::is_ascii_digit_char(digits[i]));
            }
        }
        law_digits_count_by_place(rest);
        lemma_place_value_push(rest, digits.last());
        assert(rest.push(digits.last()) =~= digits);
        assert(chars::is_ascii_digit_char(digits[digits.len() - 1]));
    }
}

proof fn lemma_place_value_push(digits: Seq<char>, d: char)
    requires
        all_digits(digits),
        chars::is_ascii_digit_char(d),
    ensures
        place_value(digits.push(d)) == 10 * place_value(digits) + (d as u32 - 48),
    decreases digits.len(),
{
    let more = digits.push(d);
    vstd::arithmetic::power::lemma_pow0(10);
    if digits.len() == 0 {
        assert(more.skip(1) =~= Seq::empty());
        assert(place_value(more.skip(1)) == 0);
    } else {
        let rest = digits.skip(1);
        assert(all_digits(rest)) by {
            assert forall|i: int| 0 <= i < rest.len() implies chars::is_ascii_digit_char(
                #[trigger] rest[i],
            ) by {
                assert(chars::is_ascii_digit_char(digits[i + 1]));
            }
        }
        lemma_place_value_push(rest, d);
        assert(more.skip(1) =~= rest.push(d));
        assert(chars::is_ascii_digit_char(digits[0]));
        let n = (digits.len() - 1) as nat;
        reveal(vstd::arithmetic::power::pow);
        let p = vstd::arithmetic::power::pow(10, n);
        vstd::arithmetic::power::lemma_pow_positive(10, n);
        assert(vstd::arithmetic::power::pow(10, n + 1) == 10 * p);
        let h = digits[0] as u32 - 48;
        assert(h * (10 * p) == 10 * (h * p)) by (nonlinear_arith);
        assert(h * p >= 0) by (nonlinear_arith)
            requires
                h >= 0,
                p > 0,
        ;
    }
}

/// Exactly the texts of digits, with one sign in front or none, spell numbers: a
/// plus changes nothing, a minus turns the value round, and text without digits
/// or with anything else in it spells none.
pub proof fn law_signs(digits: Seq<char>)
    ensures
        digits.len() > 0 && all_digits(digits) ==> {
            &&& unsigned_value(digits) == Some(digits_value(digits))
            &&& unsigned_value(seq!['+'] + digits) == Some(digits_value(digits))
            &&& unsigned_value(seq!['-'] + digits) is None
            &&& signed_value(digits) == Some(digits_value(digits) as int)
            &&& signed_value(seq!['+'] + digits) == Some(digits_value(digits) as int)
            &&& signed_value(seq!['-'] + digits) == Some(-(digits_value(digits) as int))
        },
        digits.len() == 0 || !all_digits(digits) ==> {
            &&& unsigned_value(seq!['+'] + digits) is None
            &&& signed_value(seq!['-'] + digits) is None
            &&& digits.len() == 0 || (digits[0] != '+' && digits[0] != '-') ==> unsigned_value(
                digits,
            ) is None && signed_value(digits) is None
        },
{
    let plus = seq!['+'] + digits;
    let minus = seq!['-'] + digits;
    assert(plus.skip(1) =~= digits);
    assert(minus.skip(1) =~= digits);
    assert(plus.drop_first() =~= digits);
    assert(minus.drop_first() =~= digits);
    assert(!chars::is_ascii_digit_char(minus[0]));
    assert(!all_digits(minus));
    if digits.len() > 0 && all_digits(digits) {
        assert(chars::is_ascii_digit_char(digits[0]));
    }
}

} // verus!
