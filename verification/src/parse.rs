//! Floating values read from decimal text.
//!
//! A text holds a floating value if it is an optional sign followed by
//! `inf`, `infinity` or `nan` in any case, or by a decimal number: digits
//! with at most one point among them and at least one digit, and an optional
//! exponent `e` or `E` with an optional sign and at least one digit. The
//! value of a number is the binary64 value nearest to it, a tie going to the
//! even significand, however many digits it is written with.

use crate::binary64::{Binary64, HIDDEN_BIT, INFINITY_BITS};
use crate::decimal::{
    all_below_ten, at_least, double, lemma_leading_zero, lemma_value_below, pow10, shift_up,
    subtract, value_of,
};
use crate::ieee::NAN_BITS;
use crate::rounding::{
    lemma_pow2_grows, lemma_ratio_overflows, lemma_ratio_top_is, lemma_ratio_underflows,
    lemma_round_ratio_scales, of_ratio, ratio_top, round_ratio, LEAST_SCALE,
};
use crate::text::{all_digits, decimal_value, digit_value, is_digit, trim, trimmed};
use vstd::arithmetic::div_mod::lemma_fundamental_div_mod_converse;
use vstd::arithmetic::power2::{
    lemma2_to64, lemma2_to64_rest, lemma_pow2_adds, lemma_pow2_pos, pow2,
};
use vstd::prelude::*;

verus! {

/// The bound at which an exponent is held while its digits are added up,
/// `2^80`.
pub const EXPONENT_CAP: u128 = 0x1_0000_0000_0000_0000_0000;

/// An ASCII capital letter made small; any other character as it is.
pub open spec fn lowered(c: char) -> char {
    if 'A' <= c <= 'Z' {
        (c as u32 + 32) as char
    } else {
        c
    }
}

/// Whether a text is the given word, whatever the case of its letters. The
/// word is in small letters.
pub open spec fn spells(s: Seq<char>, word: Seq<char>) -> bool {
    s.len() == word.len() && forall|i: int| 0 <= i < s.len() ==> lowered(#[trigger] s[i]) == word[i]
}

/// The number of digits that stand in a row from place `from` on.
pub open spec fn digit_run(s: Seq<char>, from: int) -> nat
    decreases s.len() - from,
{
    if 0 <= from < s.len() && is_digit(s[from]) {
        1 + digit_run(s, from + 1)
    } else {
        0
    }
}

/// The digits of the number that a text starts with: the run of digits at
/// its start and the run after the point, if a point follows.
pub open spec fn number_digits(s: Seq<char>) -> Seq<char> {
    let whole = digit_run(s, 0) as int;
    if whole < s.len() && s[whole] == '.' {
        s.subrange(0, whole) + s.subrange(whole + 1, whole + 1 + digit_run(s, whole + 1))
    } else {
        s.subrange(0, whole)
    }
}

/// The digits of a decimal number and the power of ten that they are to be
/// taken with, or `None` if the text is no decimal number.
///
/// The number starts with a run of digits, which may be followed by a point
/// and another run of digits; the two runs together hold at least one
/// digit. Then the text ends, or an `e` or `E` follows with an optional sign
/// and one or more digits up to the end. Each digit after the point lowers
/// the power of ten by one.
pub open spec fn number_of(s: Seq<char>) -> Option<(Seq<char>, int)> {
    let whole = digit_run(s, 0) as int;
    let pointed = whole < s.len() && s[whole] == '.';
    let fraction = if pointed {
        digit_run(s, whole + 1) as int
    } else {
        0
    };
    let end = if pointed {
        whole + 1 + fraction
    } else {
        whole
    };
    if whole + fraction == 0 {
        None
    } else if end == s.len() {
        Some((number_digits(s), -fraction))
    } else if lowered(s[end]) != 'e' {
        None
    } else {
        let signed = end + 1 < s.len() && (s[end + 1] == '+' || s[end + 1] == '-');
        let start = if signed {
            end + 2
        } else {
            end + 1
        };
        let power = s.subrange(start, s.len() as int);
        if power.len() >= 1 && all_digits(power) {
            let size = decimal_value(power) as int;
            if signed && s[end + 1] == '-' {
                Some((number_digits(s), -size - fraction))
            } else {
                Some((number_digits(s), size - fraction))
            }
        } else {
            None
        }
    }
}

/// The digits of the decimal number that a text is.
pub open spec fn mantissa_of(s: Seq<char>) -> Seq<char> {
    match number_of(s) {
        Some((digits, _)) => digits,
        None => Seq::empty(),
    }
}

/// The power of ten of the decimal number that a text is.
pub open spec fn exponent_of(s: Seq<char>) -> int {
    match number_of(s) {
        Some((_, exponent)) => exponent,
        None => 0,
    }
}

/// The binary64 value nearest to `n * 10^exponent`.
pub open spec fn of_decimal(n: nat, exponent: int) -> Binary64 {
    if exponent >= 0 {
        of_ratio(n * pow10(exponent as nat), 1, 0)
    } else {
        of_ratio(n, pow10((-exponent) as nat), 0)
    }
}

/// The floating value that a text holds, or `None` if it holds none.
pub open spec fn float_of(s: Seq<char>) -> Option<Binary64> {
    let signed = s.len() > 0 && (s[0] == '+' || s[0] == '-');
    let negative = signed && s[0] == '-';
    let body = if signed {
        s.drop_first()
    } else {
        s
    };
    if spells(body, seq!['i', 'n', 'f']) || spells(
        body,
        seq!['i', 'n', 'f', 'i', 'n', 'i', 't', 'y'],
    ) {
        Some(Binary64 { bits: INFINITY_BITS }.with_sign(negative))
    } else if spells(body, seq!['n', 'a', 'n']) {
        Some(Binary64 { bits: NAN_BITS }.with_sign(negative))
    } else {
        match number_of(body) {
            Some((digits, exponent)) => Some(
                of_decimal(decimal_value(digits), exponent).with_sign(negative),
            ),
            None => None,
        }
    }
}

/// Whether an exponent that was kept within bounds stands for the exact
/// one: it is the exact one, or both lie beyond `2^79` on one side.
pub open spec fn stands_for(kept: i128, exact: int) -> bool {
    ||| kept == exact
    ||| kept >= 0x8000_0000_0000_0000_0000 && exact >= kept
    ||| kept <= -0x8000_0000_0000_0000_0000 && exact <= kept
}

/// The values of the digits of a text, in the order of the text.
pub open spec fn digit_values(s: Seq<char>) -> Seq<u8> {
    Seq::new(s.len(), |i: int| digit_value(s[i]) as u8)
}

/// Reads the floating value that a line holds between its leading and
/// trailing white space.
pub fn parse_float(line: &str) -> (parsed: Option<Binary64>)
    ensures
        parsed == float_of(trimmed(line@)),
{
    let text = trim(line);
    let signed: bool = text.len() > 0 && (text[0] == '+' || text[0] == '-');
    let negative: bool = signed && text[0] == '-';
    let mut body: Vec<char> = Vec::new();
    let mut at: usize = if signed {
        1
    } else {
        0
    };
    let ghost first = at;
    while at < text.len()
        invariant
            first <= at <= text.len(),
            body@ == text@.subrange(first as int, at as int),
        decreases text.len() - at,
    {
        body.push(text[at]);
        at = at + 1;
        assert(body@ =~= text@.subrange(first as int, at as int));
    }
    assert(body@ =~= if signed {
        text@.drop_first()
    } else {
        text@
    });
    if is_word_inf(&body) || is_word_infinity(&body) {
        Some(Binary64 { bits: INFINITY_BITS }.signed(negative))
    } else if is_word_nan(&body) {
        Some(Binary64 { bits: NAN_BITS }.signed(negative))
    } else {
        match scan_number(&body) {
            Some((digits, exponent)) => {
                let value = decimal_to_binary(&digits, exponent, Ghost(exponent_of(body@)));
                Some(value.signed(negative))
            },
            None => None,
        }
    }
}

/// Makes an ASCII capital letter small.
pub fn lower(c: char) -> (small: char)
    ensures
        small == lowered(c),
{
    if 'A' <= c && c <= 'Z' {
        (c as u8 + 32) as char
    } else {
        c
    }
}

/// Whether the character is an ASCII digit.
pub fn digit(c: char) -> (value: Option<u8>)
    ensures
        value is Some == is_digit(c),
        value matches Some(v) ==> v == digit_value(c) && v < 10,
{
    if '0' <= c && c <= '9' {
        Some((c as u32 - '0' as u32) as u8)
    } else {
        None
    }
}

/// Whether the text is `inf` in any case.
fn is_word_inf(text: &Vec<char>) -> (holds: bool)
    ensures
        holds == spells(text@, seq!['i', 'n', 'f']),
{
    let ghost word = seq!['i', 'n', 'f'];
    if text.len() != 3 {
        return false;
    }
    let holds = lower(text[0]) == 'i' && lower(text[1]) == 'n' && lower(text[2]) == 'f';
    proof {
        if !holds {
            assert(lowered(text@[0]) != word[0] || lowered(text@[1]) != word[1] || lowered(
                text@[2],
            ) != word[2]);
        }
    }
    holds
}

/// Whether the text is `infinity` in any case.
fn is_word_infinity(text: &Vec<char>) -> (holds: bool)
    ensures
        holds == spells(text@, seq!['i', 'n', 'f', 'i', 'n', 'i', 't', 'y']),
{
    let ghost word = seq!['i', 'n', 'f', 'i', 'n', 'i', 't', 'y'];
    if text.len() != 8 {
        return false;
    }
    let holds = lower(text[0]) == 'i' && lower(text[1]) == 'n' && lower(text[2]) == 'f' && lower(
        text[3],
    ) == 'i' && lower(text[4]) == 'n' && lower(text[5]) == 'i' && lower(text[6]) == 't' && lower(
        text[7],
    ) == 'y';
    proof {
        if !holds {
            assert(lowered(text@[0]) != word[0] || lowered(text@[1]) != word[1] || lowered(
                text@[2],
            ) != word[2] || lowered(text@[3]) != word[3] || lowered(text@[4]) != word[4]
                || lowered(text@[5]) != word[5] || lowered(text@[6]) != word[6] || lowered(
                text@[7],
            ) != word[7]);
        }
    }
    holds
}

/// Whether the text is `nan` in any case.
fn is_word_nan(text: &Vec<char>) -> (holds: bool)
    ensures
        holds == spells(text@, seq!['n', 'a', 'n']),
{
    let ghost word = seq!['n', 'a', 'n'];
    if text.len() != 3 {
        return false;
    }
    let holds = lower(text[0]) == 'n' && lower(text[1]) == 'a' && lower(text[2]) == 'n';
    proof {
        if !holds {
            assert(lowered(text@[0]) != word[0] || lowered(text@[1]) != word[1] || lowered(
                text@[2],
            ) != word[2]);
        }
    }
    holds
}

/// Scans a run of digits from place `from` on and appends their values.
fn scan_digits(text: &Vec<char>, from: usize, values: &mut Vec<u8>) -> (end: usize)
    requires
        from <= text.len(),
    ensures
        from <= end <= text.len(),
        end - from == digit_run(text@, from as int),
        all_digits(text@.subrange(from as int, end as int)),
        final(values)@ == old(values)@ + digit_values(text@.subrange(from as int, end as int)),
{
    let mut end: usize = from;
    loop
        invariant
            from <= end <= text.len(),
            forall|j: int| from <= j < end ==> is_digit(#[trigger] text@[j]),
            values@ == old(values)@ + digit_values(text@.subrange(from as int, end as int)),
        ensures
            from <= end <= text.len(),
            forall|j: int| from <= j < end ==> is_digit(#[trigger] text@[j]),
            values@ == old(values)@ + digit_values(text@.subrange(from as int, end as int)),
            end == text.len() || !is_digit(text@[end as int]),
        decreases text.len() - end,
    {
        if end >= text.len() {
            break;
        }
        match digit(text[end]) {
            Some(value) => {
                values.push(value);
                end = end + 1;
                assert(values@ =~= old(values)@ + digit_values(
                    text@.subrange(from as int, end as int),
                ));
            },
            None => {
                break;
            },
        }
    }
    proof {
        lemma_digit_run(text@, from as int, (end - from) as nat);
        let run = text@.subrange(from as int, end as int);
        assert forall|i: int| 0 <= i < run.len() implies is_digit(#[trigger] run[i]) by {
            assert(run[i] == text@[from + i]);
        }
    }
    end
}

/// Adds up an exponent, keeping it at the cap once it gets there.
fn scan_power(text: &Vec<char>, from: usize) -> (power: Option<u128>)
    requires
        from < text.len(),
    ensures
        power is Some == all_digits(text@.subrange(from as int, text@.len() as int)),
        power matches Some(kept) ==> kept <= EXPONENT_CAP && (kept < EXPONENT_CAP ==> kept
            == decimal_value(text@.subrange(from as int, text@.len() as int))) && (kept
            == EXPONENT_CAP ==> decimal_value(text@.subrange(from as int, text@.len() as int))
            >= EXPONENT_CAP),
{
    let ghost digits = text@.subrange(from as int, text@.len() as int);
    let mut at: usize = from;
    let mut kept: u128 = 0;
    while at < text.len()
        invariant
            from <= at <= text.len(),
            digits == text@.subrange(from as int, text@.len() as int),
            all_digits(digits.take(at - from)),
            kept <= EXPONENT_CAP,
            kept < EXPONENT_CAP ==> kept == decimal_value(digits.take(at - from)),
            kept == EXPONENT_CAP ==> decimal_value(digits.take(at - from)) >= EXPONENT_CAP,
        decreases text.len() - at,
    {
        let ghost shorter = digits.take(at - from);
        let ghost longer = digits.take(at - from + 1);
        proof {
            assert(longer.drop_last() =~= shorter);
            assert(longer.last() == text@[at as int]);
        }
        match digit(text[at]) {
            Some(value) => {
                proof {
                    assert forall|i: int| 0 <= i < longer.len() implies is_digit(
                        #[trigger] longer[i],
                    ) by {
                        if i < shorter.len() {
                            assert(longer[i] == shorter[i]);
                        }
                    }
                }
                let next: u128 = 10 * kept + value as u128;
                kept = if next >= EXPONENT_CAP {
                    EXPONENT_CAP
                } else {
                    next
                };
                at = at + 1;
            },
            None => {
                proof {
                    assert(!is_digit(digits[at - from]));
                }
                return None;
            },
        }
    }
    proof {
        assert(digits.take(digits.len() as int) =~= digits);
    }
    Some(kept)
}

/// Scans a decimal number: its digits, the lowest first, and its power of
/// ten, kept within bounds.
pub(crate) fn scan_number(text: &Vec<char>) -> (number: Option<(Vec<u8>, i128)>)
    ensures
        number is Some == number_of(text@) is Some,
        number matches Some((digits, exponent)) ==> {
            &&& all_below_ten(digits@)
            &&& value_of(digits@) == decimal_value(mantissa_of(text@))
            &&& stands_for(exponent, exponent_of(text@))
            &&& -0x1_0000_0000_0000_0000_0000_0000 <= exponent
                <= 0x1_0000_0000_0000_0000_0000_0000
        },
{
    let mut values: Vec<u8> = Vec::new();
    let whole: usize = scan_digits(text, 0, &mut values);
    let pointed: bool = whole < text.len() && text[whole] == '.';
    let end: usize = if pointed {
        scan_digits(text, whole + 1, &mut values)
    } else {
        whole
    };
    let fraction: usize = if pointed {
        end - whole - 1
    } else {
        0
    };
    let ghost digits = number_digits(text@);
    proof {
        assert(values@ =~= digit_values(digits));
        assert forall|i: int| 0 <= i < digits.len() implies is_digit(#[trigger] digits[i]) by {
            if i < whole {
                assert(digits[i] == text@.subrange(0, whole as int)[i]);
            } else {
                assert(digits[i] == text@.subrange(whole + 1, end as int)[i - whole]);
            }
        }
        lemma_digits_turned(digits);
    }
    if whole + fraction == 0 {
        return None;
    }
    let power: i128 = if end == text.len() {
        0
    } else if lower(text[end]) != 'e' {
        return None;
    } else {
        let signed: bool = end + 1 < text.len() && (text[end + 1] == '+' || text[end + 1] == '-');
        let start: usize = if signed {
            end + 2
        } else {
            end + 1
        };
        if start >= text.len() {
            assert(text@.subrange(start as int, text@.len() as int).len() == 0);
            return None;
        }
        match scan_power(text, start) {
            Some(size) => if signed && text[end + 1] == '-' {
                -(size as i128)
            } else {
                size as i128
            },
            None => {
                return None;
            },
        }
    };
    let turned = turned_round(&values);
    Some((turned, power - fraction as i128))
}

/// A copy of the digits in the opposite order.
fn turned_round(digits: &Vec<u8>) -> (turned: Vec<u8>)
    ensures
        turned@ == digits@.reverse(),
{
    let mut turned: Vec<u8> = Vec::new();
    let mut left: usize = digits.len();
    while left > 0
        invariant
            left <= digits.len(),
            turned@ == digits@.reverse().take(digits.len() - left),
        decreases left,
    {
        left = left - 1;
        turned.push(digits[left]);
        assert(turned@ =~= digits@.reverse().take(digits.len() - left));
    }
    assert(digits@.reverse().take(digits.len() as int) =~= digits@.reverse());
    turned
}

/// The digits without zeros at the high end.
pub(crate) fn numeral_from(digits: &Vec<u8>) -> (numeral: Vec<u8>)
    requires
        all_below_ten(digits@),
    ensures
        all_below_ten(numeral@),
        value_of(numeral@) == value_of(digits@),
        numeral@.len() <= digits@.len(),
        numeral@.len() == 0 || numeral@.last() != 0,
{
    let mut numeral = copy_of(digits);
    while numeral.len() > 0 && numeral[numeral.len() - 1] == 0
        invariant
            all_below_ten(numeral@),
            value_of(numeral@) == value_of(digits@),
            numeral@.len() <= digits@.len(),
        decreases numeral.len(),
    {
        let ghost before = numeral@;
        numeral.pop();
        proof {
            assert(before =~= numeral@.push(0));
            lemma_leading_zero(numeral@);
        }
    }
    numeral
}

/// The power of ten with the given exponent, in digits.
pub(crate) fn power_of_ten(exponent: i128) -> (digits: Vec<u8>)
    requires
        0 <= exponent <= usize::MAX + 1000,
    ensures
        all_below_ten(digits@),
        value_of(digits@) == pow10(exponent as nat),
{
    let mut one: Vec<u8> = Vec::new();
    one.push(1);
    proof {
        assert(one@.drop_first() =~= Seq::<u8>::empty());
        assert(value_of(one@.drop_first()) == 0);
        assert(value_of(one@) == 1);
    }
    if exponent <= usize::MAX as i128 {
        let digits = shift_up(&one, exponent as usize);
        assert(1 * pow10(exponent as nat) == pow10(exponent as nat));
        digits
    } else {
        let first = shift_up(&one, usize::MAX);
        let rest: usize = (exponent - usize::MAX as i128) as usize;
        let digits = shift_up(&first, rest);
        proof {
            lemma_pow10_adds(usize::MAX as nat, rest as nat);
            assert(1 * pow10(usize::MAX as nat) == pow10(usize::MAX as nat));
        }
        digits
    }
}

/// The binary64 value nearest to the number that the digits stand for,
/// times a power of ten.
pub(crate) fn decimal_to_binary(digits: &Vec<u8>, exponent: i128, Ghost(exact): Ghost<int>) -> (x:
    Binary64)
    requires
        all_below_ten(digits@),
        stands_for(exponent, exact),
        -0x1_0000_0000_0000_0000_0000_0000 <= exponent <= 0x1_0000_0000_0000_0000_0000_0000,
    ensures
        x == of_decimal(value_of(digits@), exact),
{
    let numeral = numeral_from(digits);
    if numeral.len() == 0 {
        proof {
            assert(value_of(numeral@) == 0);
            assert(0 * pow10(exact as nat) == 0);
        }
        return Binary64 { bits: 0 };
    }
    let length: i128 = numeral.len() as i128;
    proof {
        lemma_numeral_at_least(numeral@);
        lemma_value_below(numeral@);
    }
    if length + exponent > 309 {
        proof {
            lemma_decimal_overflows(value_of(numeral@), numeral@.len(), exact);
        }
        Binary64 { bits: INFINITY_BITS }
    } else if length + exponent <= -324 {
        proof {
            lemma_decimal_underflows(value_of(numeral@), numeral@.len(), exact);
        }
        Binary64 { bits: 0 }
    } else if exponent >= 0 {
        let scaled = shift_up(&numeral, exponent as usize);
        let one = power_of_ten(0);
        proof {
            lemma_pow10_grows(0, exponent as nat);
            assert(pow10(0) == 1);
            assert(value_of(numeral@) * pow10(exponent as nat) > 0) by (nonlinear_arith)
                requires
                    value_of(numeral@) >= 1,
                    pow10(exponent as nat) >= 1,
            ;
        }
        convert(&scaled, &one)
    } else {
        let divisor = power_of_ten(-exponent);
        proof {
            lemma_pow10_grows(0, (-exponent) as nat);
        }
        convert(&numeral, &divisor)
    }
}

/// Where a ratio lies among the powers of two.
pub(crate) enum Bracket {
    /// At or above `2^1024`.
    Above,
    /// At or below `2^-1075`.
    Below,
    /// Between `2^(top-1)` and `2^top`: the ratio is `rest / divisor` times
    /// `2^top`, with `rest / divisor` from one half up to one.
    Within { top: i64, rest: Vec<u8>, divisor: Vec<u8> },
}

/// A copy of the digits.
fn copy_of(digits: &Vec<u8>) -> (copy: Vec<u8>)
    ensures
        copy@ == digits@,
{
    let mut copy: Vec<u8> = Vec::new();
    let mut at: usize = 0;
    while at < digits.len()
        invariant
            at <= digits.len(),
            copy@ == digits@.take(at as int),
        decreases digits.len() - at,
    {
        copy.push(digits[at]);
        at = at + 1;
        assert(copy@ =~= digits@.take(at as int));
    }
    assert(digits@.take(digits.len() as int) =~= digits@);
    copy
}

/// Finds the powers of two between which the ratio of two numbers lies.
pub(crate) fn bracket(n: &Vec<u8>, d: &Vec<u8>) -> (found: Bracket)
    requires
        all_below_ten(n@),
        all_below_ten(d@),
        value_of(n@) > 0,
        value_of(d@) > 0,
    ensures
        match found {
            Bracket::Above => value_of(n@) >= value_of(d@) * pow2(1024),
            Bracket::Below => value_of(n@) * pow2(1075) <= value_of(d@),
            Bracket::Within { top, rest, divisor } => {
                &&& -1074 <= top <= 1024
                &&& top == ratio_top(value_of(n@), value_of(d@))
                &&& all_below_ten(rest@)
                &&& all_below_ten(divisor@)
                &&& value_of(rest@) < value_of(divisor@) <= 2 * value_of(rest@)
                &&& top >= 1 ==> value_of(rest@) == value_of(n@) && value_of(divisor@) == value_of(
                    d@,
                ) * pow2(top as nat)
                &&& top <= 0 ==> value_of(rest@) == value_of(n@) * pow2((-top) as nat) && value_of(
                    divisor@,
                ) == value_of(d@)
            },
        },
{
    proof {
        lemma2_to64();
    }
    if at_least(n, d) {
        let mut divisor = copy_of(d);
        let mut top: i64 = 0;
        assert(value_of(d@) * pow2(0) == value_of(d@));
        while at_least(n, &divisor)
            invariant
                0 <= top <= 1024,
                all_below_ten(n@),
                all_below_ten(divisor@),
                value_of(divisor@) == value_of(d@) * pow2(top as nat),
                top == 0 ==> value_of(n@) >= value_of(d@),
                top >= 1 ==> value_of(n@) >= value_of(d@) * pow2((top - 1) as nat),
            decreases 1024 - top,
        {
            if top == 1024 {
                return Bracket::Above;
            }
            proof {
                lemma2_to64();
                lemma_pow2_adds(1, top as nat);
                assert(2 * (value_of(d@) * pow2(top as nat)) == value_of(d@) * (2 * pow2(
                    top as nat,
                ))) by (nonlinear_arith);
            }
            divisor = double(&divisor);
            top = top + 1;
        }
        proof {
            assert(value_of(d@) * pow2((top - 1) as nat) * 2 == value_of(d@) * pow2(top as nat))
                by {
                lemma_pow2_adds(1, (top - 1) as nat);
                assert(value_of(d@) * pow2((top - 1) as nat) * 2 == value_of(d@) * (2 * pow2(
                    (top - 1) as nat,
                ))) by (nonlinear_arith);
            }
            lemma_ratio_top_is(value_of(n@), value_of(d@), top as int);
        }
        Bracket::Within { top, rest: copy_of(n), divisor }
    } else {
        let mut rest = copy_of(n);
        let mut down: i64 = 0;
        let mut twice = double(&rest);
        assert(value_of(n@) * pow2(0) == value_of(n@));
        while !at_least(&twice, d)
            invariant
                0 <= down <= 1074,
                all_below_ten(d@),
                all_below_ten(rest@),
                all_below_ten(twice@),
                value_of(rest@) == value_of(n@) * pow2(down as nat),
                value_of(twice@) == 2 * value_of(rest@),
                value_of(rest@) < value_of(d@),
            decreases 1075 - down,
        {
            proof {
                lemma2_to64();
                lemma_pow2_adds(1, down as nat);
                assert(2 * (value_of(n@) * pow2(down as nat)) == value_of(n@) * (2 * pow2(
                    down as nat,
                ))) by (nonlinear_arith);
            }
            if down == 1074 {
                return Bracket::Below;
            }
            rest = twice;
            down = down + 1;
            twice = double(&rest);
        }
        proof {
            lemma_pow2_adds(1, down as nat);
            assert(2 * (value_of(n@) * pow2(down as nat)) == value_of(n@) * (2 * pow2(
                down as nat,
            ))) by (nonlinear_arith);
            lemma_ratio_top_is(value_of(n@), value_of(d@), -down as int);
        }
        Bracket::Within { top: -down, rest, divisor: copy_of(d) }
    }
}

/// Divides `rest * 2^wanted` by `divisor`, bit by bit.
pub(crate) fn divide(rest: &Vec<u8>, divisor: &Vec<u8>, wanted: u64) -> (found: (u64, Vec<u8>))
    requires
        all_below_ten(rest@),
        all_below_ten(divisor@),
        value_of(rest@) < value_of(divisor@),
        wanted <= 53,
    ensures
        found.0 == (value_of(rest@) * pow2(wanted as nat)) / value_of(divisor@),
        value_of(found.1@) == (value_of(rest@) * pow2(wanted as nat)) % value_of(divisor@),
        all_below_ten(found.1@),
        found.0 < pow2(wanted as nat),
        pow2(wanted as nat) <= 0x0020_0000_0000_0000,
{
    let mut quotient: u64 = 0;
    let mut last = copy_of(rest);
    let mut done: u64 = 0;
    proof {
        lemma2_to64();
        assert(value_of(rest@) * pow2(0) == value_of(rest@));
        assert(0 * value_of(divisor@) == 0);
    }
    while done < wanted
        invariant
            done <= wanted <= 53,
            all_below_ten(divisor@),
            all_below_ten(last@),
            value_of(last@) < value_of(divisor@),
            quotient < pow2(done as nat),
            value_of(rest@) * pow2(done as nat) == quotient * value_of(divisor@) + value_of(last@),
        decreases wanted - done,
    {
        let twice = double(&last);
        proof {
            lemma_pow2_adds(1, done as nat);
            lemma2_to64();
            lemma2_to64_rest();
            lemma_pow2_grows((done + 1) as nat, 53);
            lemma_division_step(
                value_of(rest@),
                pow2(done as nat),
                quotient as nat,
                value_of(divisor@),
                value_of(last@),
            );
        }
        if at_least(&twice, divisor) {
            last = subtract(&twice, divisor);
            quotient = 2 * quotient + 1;
        } else {
            last = twice;
            quotient = 2 * quotient;
        }
        done = done + 1;
    }
    proof {
        lemma2_to64();
        lemma2_to64_rest();
        lemma_pow2_grows(wanted as nat, 53);
        lemma_fundamental_div_mod_converse(
            (value_of(rest@) * pow2(wanted as nat)) as int,
            value_of(divisor@) as int,
            quotient as int,
            value_of(last@) as int,
        );
    }
    (quotient, last)
}

/// The binary64 value nearest to the ratio of two numbers.
pub(crate) fn convert(n: &Vec<u8>, d: &Vec<u8>) -> (x: Binary64)
    requires
        all_below_ten(n@),
        all_below_ten(d@),
        value_of(n@) > 0,
        value_of(d@) > 0,
    ensures
        x == of_ratio(value_of(n@), value_of(d@), 0),
{
    match bracket(n, d) {
        Bracket::Above => {
            proof {
                lemma_ratio_overflows(value_of(n@), value_of(d@));
            }
            Binary64 { bits: INFINITY_BITS }
        },
        Bracket::Below => {
            proof {
                lemma_ratio_underflows(value_of(n@), value_of(d@));
            }
            Binary64 { bits: 0 }
        },
        Bracket::Within { top, rest, divisor } => {
            let wanted: i64 = if top + 1074 < 53 {
                top + 1074
            } else {
                53
            };
            let (quotient, last) = divide(&rest, &divisor, wanted as u64);
            let twice = double(&last);
            let up: bool = if at_least(&twice, &divisor) {
                if at_least(&divisor, &twice) {
                    quotient % 2 == 1
                } else {
                    true
                }
            } else {
                false
            };
            let significand: u64 = if up {
                quotient + 1
            } else {
                quotient
            };
            let unit: i64 = top - wanted;
            proof {
                lemma2_to64();
                let scaled = value_of(rest@) * pow2(wanted as nat);
                assert(significand == round_ratio(scaled, value_of(divisor@)));
                lemma_significand_is_scaled(
                    value_of(n@),
                    value_of(d@),
                    top as int,
                    wanted as nat,
                    value_of(rest@),
                    value_of(divisor@),
                );
            }
            assert((unit - LEAST_SCALE) * HIDDEN_BIT <= 2045 * HIDDEN_BIT) by (nonlinear_arith)
                requires
                    0 <= unit - LEAST_SCALE <= 2045,
            ;
            let bits: u64 = (unit - LEAST_SCALE) as u64 * HIDDEN_BIT + significand;
            if bits >= INFINITY_BITS {
                Binary64 { bits: INFINITY_BITS }
            } else {
                Binary64 { bits }
            }
        },
    }
}

/// A run of `count` digits from place `from` on, which ends with the text
/// or before another character, is the run of digits there.
pub proof fn lemma_digit_run(s: Seq<char>, from: int, count: nat)
    requires
        0 <= from,
        from + count <= s.len(),
        forall|j: int| from <= j < from + count ==> is_digit(#[trigger] s[j]),
        from + count == s.len() || !is_digit(s[from + count]),
    ensures
        digit_run(s, from) == count,
    decreases count,
{
    if count > 0 {
        assert(is_digit(s[from]));
        lemma_digit_run(s, from + 1, (count - 1) as nat);
    }
}

/// The values of the digits of a text, turned round, are the numeral of the
/// number that the text writes.
pub proof fn lemma_digits_turned(s: Seq<char>)
    requires
        all_digits(s),
    ensures
        all_below_ten(digit_values(s).reverse()),
        value_of(digit_values(s).reverse()) == decimal_value(s),
    decreases s.len(),
{
    let turned = digit_values(s).reverse();
    assert forall|i: int| 0 <= i < turned.len() implies #[trigger] turned[i] < 10 by {
        assert(is_digit(s[s.len() - 1 - i]));
    }
    if s.len() > 0 {
        let front = s.drop_last();
        assert forall|i: int| 0 <= i < front.len() implies is_digit(#[trigger] front[i]) by {
            assert(front[i] == s[i]);
        }
        lemma_digits_turned(front);
        assert(turned.drop_first() =~= digit_values(front).reverse());
        assert(is_digit(s.last()));
    }
}

/// Powers of ten multiply as their exponents add.
pub proof fn lemma_pow10_adds(a: nat, b: nat)
    ensures
        pow10(a + b) == pow10(a) * pow10(b),
        pow10(a) >= 1,
    decreases a,
{
    if a == 0 {
        assert(pow10(0) * pow10(b) == pow10(b)) by (nonlinear_arith)
            requires
                pow10(0) == 1,
        ;
    } else {
        lemma_pow10_adds((a - 1) as nat, b);
        assert(10 * (pow10((a - 1) as nat) * pow10(b)) == (10 * pow10((a - 1) as nat)) * pow10(b))
            by (nonlinear_arith);
    }
}

/// Powers of ten grow with the exponent.
pub proof fn lemma_pow10_grows(a: nat, b: nat)
    requires
        a <= b,
    ensures
        1 <= pow10(a) <= pow10(b),
{
    lemma_pow10_adds(a, (b - a) as nat);
    lemma_pow10_adds((b - a) as nat, 0);
    assert(pow10(a) <= pow10(a) * pow10((b - a) as nat)) by (nonlinear_arith)
        requires
            pow10((b - a) as nat) >= 1,
            pow10(a) >= 1,
    ;
}

/// `10^28` lies just above `2^93`, and so do their powers.
pub proof fn lemma_ten_above_two(k: nat)
    ensures
        pow10(28 * k) >= pow2(93 * k),
    decreases k,
{
    lemma2_to64();
    if k > 0 {
        lemma_ten_above_two((k - 1) as nat);
        lemma_pow10_adds(28, (28 * (k - 1)) as nat);
        lemma_pow2_adds(93, (93 * (k - 1)) as nat);
        lemma_pow2_adds(64, 29);
        assert(pow10(28) == 10000000000000000000000000000) by {
            reveal_with_fuel(pow10, 29);
        }
        assert(pow2(93) == 9903520314283042199192993792);
        lemma_pow2_pos((93 * (k - 1)) as nat);
        assert(pow10(28) * pow10((28 * (k - 1)) as nat) >= pow2(93) * pow2((93 * (k - 1)) as nat))
            by (nonlinear_arith)
            requires
                pow10(28) >= pow2(93),
                pow10((28 * (k - 1)) as nat) >= pow2((93 * (k - 1)) as nat),
                pow2(93) > 0,
                pow2((93 * (k - 1)) as nat) > 0,
        ;
        assert(28 + 28 * (k - 1) == 28 * k);
        assert(93 + 93 * (k - 1) == 93 * k);
    }
}

/// The bounds of binary64 in powers of ten: `10^309` is beyond the largest
/// value, and `10^-324` is less than half the least.
pub proof fn lemma_decimal_bounds()
    ensures
        pow10(309) >= pow2(1024),
        pow2(1075) <= pow10(324),
{
    lemma2_to64();
    lemma2_to64_rest();
    lemma_ten_above_two(11);
    lemma_pow10_adds(308, 1);
    lemma_pow10_adds(308, 16);
    lemma_pow2_adds(1023, 1);
    lemma_pow2_adds(1023, 52);
    assert(pow10(1) == 10) by {
        reveal_with_fuel(pow10, 2);
    }
    assert(pow10(16) == 10000000000000000) by {
        reveal_with_fuel(pow10, 17);
    }
    lemma_pow2_pos(1023);
    assert(pow10(308) * 10 >= pow2(1023) * 2) by (nonlinear_arith)
        requires
            pow10(308) >= pow2(1023),
            pow2(1023) > 0,
    ;
    assert(pow2(1023) * pow2(52) <= pow10(308) * pow10(16)) by (nonlinear_arith)
        requires
            pow2(1023) <= pow10(308),
            pow2(52) <= pow10(16),
            pow2(1023) > 0,
            pow2(52) > 0,
    ;
}

/// A numeral of so many digits stands for at least the power of ten with
/// one zero fewer.
pub proof fn lemma_numeral_at_least(digits: Seq<u8>)
    requires
        digits.len() >= 1,
        all_below_ten(digits),
        digits.last() != 0,
    ensures
        value_of(digits) >= pow10((digits.len() - 1) as nat),
    decreases digits.len(),
{
    if digits.len() == 1 {
        assert(digits.drop_first() =~= Seq::<u8>::empty());
        assert(value_of(digits.drop_first()) == 0);
    } else {
        let upper = digits.drop_first();
        assert(upper.last() == digits.last());
        assert forall|i: int| 0 <= i < upper.len() implies #[trigger] upper[i] < 10 by {
            assert(upper[i] == digits[i + 1]);
        }
        lemma_numeral_at_least(upper);
    }
}

/// A number with its leading digit at or beyond `10^309` is beyond the
/// largest value.
pub proof fn lemma_decimal_overflows(n: nat, length: nat, exponent: int)
    requires
        length >= 1,
        n >= pow10((length - 1) as nat),
        length + exponent > 309,
    ensures
        of_decimal(n, exponent).bits == INFINITY_BITS,
{
    lemma_decimal_bounds();
    if exponent >= 0 {
        let shift = exponent as nat;
        lemma_pow10_adds((length - 1) as nat, shift);
        lemma_pow10_grows(309, (length - 1 + shift) as nat);
        lemma_pow10_grows(0, shift);
        assert(n * pow10(shift) >= pow10((length - 1) as nat) * pow10(shift)) by (nonlinear_arith)
            requires
                n >= pow10((length - 1) as nat),
                pow10(shift) >= 1,
        ;
        assert(1 * pow2(1024) == pow2(1024));
        lemma_ratio_overflows(n * pow10(shift), 1);
    } else {
        let shift = (-exponent) as nat;
        lemma_pow10_adds(309, shift);
        lemma_pow10_grows(309 + shift, (length - 1) as nat);
        lemma_pow10_grows(0, shift);
        assert(pow10(shift) * pow2(1024) <= pow10(shift) * pow10(309)) by (nonlinear_arith)
            requires
                pow2(1024) <= pow10(309),
                pow10(shift) >= 1,
        ;
        assert(pow10(309) * pow10(shift) == pow10(shift) * pow10(309)) by (nonlinear_arith);
        lemma_ratio_overflows(n, pow10(shift));
    }
}

/// A number that lies wholly below `10^-324` is less than half the least
/// value.
pub proof fn lemma_decimal_underflows(n: nat, length: nat, exponent: int)
    requires
        n < pow10(length),
        length + exponent <= -324,
    ensures
        of_decimal(n, exponent).bits == 0,
{
    lemma_decimal_bounds();
    let shift = (-exponent) as nat;
    lemma_pow10_adds(length, 324);
    lemma_pow10_grows(length + 324, shift);
    lemma_pow2_pos(1075);
    assert(n * pow2(1075) <= pow10(length) * pow10(324)) by (nonlinear_arith)
        requires
            n < pow10(length),
            0 < pow2(1075) <= pow10(324),
    ;
    lemma_pow10_grows(0, shift);
    lemma_ratio_underflows(n, pow10(shift));
}

/// One step of a division bit by bit: both the number divided and the
/// quotient double.
pub proof fn lemma_division_step(rest: nat, power: nat, quotient: nat, divisor: nat, last: nat)
    requires
        rest * power == quotient * divisor + last,
    ensures
        rest * (2 * power) == (2 * quotient) * divisor + 2 * last,
        rest * (2 * power) == (2 * quotient + 1) * divisor + (2 * last - divisor),
{
    assert(rest * (2 * power) == 2 * (rest * power)) by (nonlinear_arith);
    assert((2 * quotient) * divisor == 2 * (quotient * divisor)) by (nonlinear_arith);
    assert((2 * quotient + 1) * divisor == 2 * (quotient * divisor) + divisor)
        by (nonlinear_arith);
}

/// The significand of a bracketed ratio is the significand that the
/// rounding of the ratio asks for.
pub proof fn lemma_significand_is_scaled(
    n: nat,
    d: nat,
    top: int,
    wanted: nat,
    rest: nat,
    divisor: nat,
)
    requires
        n > 0,
        d > 0,
        wanted == if top + 1074 < 53 {
            top + 1074
        } else {
            53
        },
        top >= 1 ==> rest == n && divisor == d * pow2(top as nat),
        top <= 0 ==> rest == n * pow2((-top) as nat) && divisor == d,
    ensures
        top - wanted == if top - 53 > LEAST_SCALE {
            top - 53
        } else {
            LEAST_SCALE as int
        },
        top - wanted <= 0 ==> round_ratio(rest * pow2(wanted), divisor) == round_ratio(
            n * pow2((wanted - top) as nat),
            d,
        ),
        top - wanted > 0 ==> round_ratio(rest * pow2(wanted), divisor) == round_ratio(
            n,
            d * pow2((top - wanted) as nat),
        ),
{
    lemma2_to64();
    let unit = top - wanted;
    if top >= 1 {
        lemma_pow2_pos(top as nat);
        if unit <= 0 {
            let up = (wanted - top) as nat;
            lemma_pow2_adds(up, top as nat);
            assert(n * pow2(wanted) == (n * pow2(up)) * pow2(top as nat)) by (nonlinear_arith)
                requires
                    pow2(wanted) == pow2(up) * pow2(top as nat),
            ;
            lemma_round_ratio_scales(n * pow2(up), d, pow2(top as nat));
        } else {
            lemma_pow2_adds(unit as nat, 53);
            lemma_pow2_pos(53);
            lemma_pow2_pos(unit as nat);
            assert(d * pow2(top as nat) == (d * pow2(unit as nat)) * pow2(53)) by (nonlinear_arith)
                requires
                    pow2(top as nat) == pow2(unit as nat) * pow2(53),
            ;
            assert(d * pow2(unit as nat) > 0) by (nonlinear_arith)
                requires
                    d > 0,
                    pow2(unit as nat) > 0,
            ;
            lemma_round_ratio_scales(n, d * pow2(unit as nat), pow2(53));
        }
    } else {
        lemma_pow2_adds((-top) as nat, wanted);
        assert((n * pow2((-top) as nat)) * pow2(wanted) == n * pow2((wanted - top) as nat))
            by (nonlinear_arith)
            requires
                pow2((wanted - top) as nat) == pow2((-top) as nat) * pow2(wanted),
        ;
    }
}

} // verus!
