//! Natural numbers as strings of decimal digits.
//!
//! A number is written with its highest digit first. To compute with a
//! number of any size it is held as a numeral: the vector of its digits, the
//! lowest first.

use crate::chars::push_char;
use vstd::prelude::*;

verus! {

/// The ASCII digit for a number below ten.
pub open spec fn digit_char(d: nat) -> char
    recommends
        d < 10,
{
    (0x30 + d) as char
}

/// The digits of a natural number in base ten, the highest first, without
/// leading zeros.
pub open spec fn digits_of(n: nat) -> Seq<char>
    decreases n,
{
    if n < 10 {
        seq![digit_char(n)]
    } else {
        digits_of(n / 10).push(digit_char(n % 10))
    }
}

/// The lowest `width` digits of a natural number, the highest first, with
/// zeros where the number has fewer.
pub open spec fn padded(n: nat, width: nat) -> Seq<char>
    decreases width,
{
    if width == 0 {
        Seq::empty()
    } else {
        padded(n / 10, (width - 1) as nat).push(digit_char(n % 10))
    }
}

/// The power of ten with the given exponent.
pub open spec fn pow10(exponent: nat) -> nat
    decreases exponent,
{
    if exponent == 0 {
        1
    } else {
        10 * pow10((exponent - 1) as nat)
    }
}

/// Whether every element of a sequence is a digit, that is, below ten.
pub open spec fn all_below_ten(digits: Seq<u8>) -> bool {
    forall|i: int| 0 <= i < digits.len() ==> #[trigger] digits[i] < 10
}

/// The number that a sequence of digits, the lowest first, stands for.
pub open spec fn value_of(digits: Seq<u8>) -> nat
    decreases digits.len(),
{
    if digits.len() == 0 {
        0
    } else {
        digits[0] as nat + 10 * value_of(digits.drop_first())
    }
}

/// Whether a sequence is the numeral of a number: one or more digits below
/// ten, the highest not zero unless it is the only one.
pub open spec fn is_numeral(digits: Seq<u8>) -> bool {
    &&& digits.len() >= 1
    &&& forall|i: int| 0 <= i < digits.len() ==> #[trigger] digits[i] < 10
    &&& digits.len() == 1 || digits.last() != 0
}

/// The numeral of a natural number: its digits, the lowest first.
pub open spec fn numeral_of(n: nat) -> Seq<u8>
    decreases n,
{
    if n < 10 {
        seq![n as u8]
    } else {
        seq![(n % 10) as u8] + numeral_of(n / 10)
    }
}

/// A sequence of digits that is written out: the highest digit, which is
/// the last of the sequence, comes first.
pub open spec fn written(digits: Seq<u8>) -> Seq<char> {
    Seq::new(digits.len(), |i: int| digit_char(digits[digits.len() - 1 - i] as nat))
}

/// The number that the digits from place `from` on stand for, as if they
/// were all: the number without its lowest `from` digits.
pub open spec fn upper_value(digits: Seq<u8>, from: int) -> nat {
    if 0 <= from < digits.len() {
        value_of(digits.skip(from))
    } else {
        0
    }
}

/// The digit at a place, zero beyond the last.
pub open spec fn digit_at(digits: Seq<u8>, place: int) -> nat {
    if 0 <= place < digits.len() {
        digits[place] as nat
    } else {
        0
    }
}

/// The digits of twice a number plus a carry, from the digits of the number.
pub open spec fn doubled(digits: Seq<u8>, carry: nat) -> Seq<u8>
    decreases digits.len(),
{
    if digits.len() == 0 {
        if carry == 0 {
            Seq::empty()
        } else {
            seq![carry as u8]
        }
    } else {
        let sum = 2 * digits[0] + carry;
        seq![(sum % 10) as u8] + doubled(digits.drop_first(), (sum / 10) as nat)
    }
}

/// The digits of `a - b - borrow`, digit by digit, for two sequences of one
/// length; the borrow out of the highest digit is dropped.
pub open spec fn lessened(a: Seq<u8>, b: Seq<u8>, borrow: int) -> Seq<u8>
    recommends
        a.len() == b.len(),
    decreases a.len(),
{
    if a.len() == 0 || b.len() == 0 {
        Seq::empty()
    } else {
        let low = a[0] - b[0] - borrow;
        if low < 0 {
            seq![(low + 10) as u8] + lessened(a.drop_first(), b.drop_first(), 1)
        } else {
            seq![low as u8] + lessened(a.drop_first(), b.drop_first(), 0)
        }
    }
}

/// The borrow out of the highest digit of `a - b - borrow`.
pub open spec fn borrowed(a: Seq<u8>, b: Seq<u8>, borrow: int) -> int
    recommends
        a.len() == b.len(),
    decreases a.len(),
{
    if a.len() == 0 || b.len() == 0 {
        borrow
    } else {
        let low = a[0] - b[0] - borrow;
        borrowed(
            a.drop_first(),
            b.drop_first(),
            if low < 0 {
                1
            } else {
                0
            },
        )
    }
}

/// The numeral of a number.
pub(crate) fn numeral(n: u64) -> (digits: Vec<u8>)
    ensures
        digits@ == numeral_of(n as nat),
{
    let mut digits: Vec<u8> = Vec::new();
    let mut rest: u64 = n;
    while rest >= 10
        invariant
            numeral_of(n as nat) == digits@ + numeral_of(rest as nat),
        decreases rest,
    {
        let ghost before = digits@;
        digits.push((rest % 10) as u8);
        assert(before + numeral_of(rest as nat) =~= digits@ + numeral_of((rest / 10) as nat));
        rest = rest / 10;
    }
    let ghost before = digits@;
    digits.push(rest as u8);
    assert(before + numeral_of(rest as nat) =~= digits@);
    digits
}

/// Appends a sequence of digits to a text, the last of them first.
pub(crate) fn write_digits(text: &mut String, digits: &Vec<u8>)
    requires
        forall|i: int| 0 <= i < digits.len() ==> #[trigger] digits@[i] < 10,
    ensures
        final(text)@ == old(text)@ + written(digits@),
{
    let mut left: usize = digits.len();
    while left > 0
        invariant
            left <= digits.len(),
            forall|i: int| 0 <= i < digits.len() ==> #[trigger] digits@[i] < 10,
            text@ == old(text)@ + written(digits@).take(digits.len() - left),
        decreases left,
    {
        left = left - 1;
        let digit: u8 = digits[left];
        push_char(text, (0x30 + digit) as char);
        assert(text@ =~= old(text)@ + written(digits@).take(digits.len() - left));
    }
    assert(written(digits@).take(digits.len() as int) =~= written(digits@));
}

/// Appends the lowest `width` digits of a number to a text, the highest of
/// them first.
pub(crate) fn write_padded(text: &mut String, n: u64, width: usize)
    ensures
        final(text)@ == old(text)@ + padded(n as nat, width as nat),
{
    let mut low: Vec<u8> = Vec::new();
    let mut rest: u64 = n;
    let mut done: usize = 0;
    while done < width
        invariant
            done <= width,
            low@.len() == done,
            forall|i: int| 0 <= i < low@.len() ==> #[trigger] low@[i] < 10,
            padded(n as nat, width as nat) == padded(rest as nat, (width - done) as nat) + written(
                low@,
            ),
        decreases width - done,
    {
        let ghost before = low@;
        low.push((rest % 10) as u8);
        assert(written(low@) =~= seq![digit_char((rest % 10) as nat)] + written(before));
        assert(padded(rest as nat, (width - done) as nat) + written(before) =~= padded(
            (rest / 10) as nat,
            (width - done - 1) as nat,
        ) + written(low@));
        rest = rest / 10;
        done = done + 1;
    }
    assert(padded(n as nat, width as nat) =~= written(low@));
    write_digits(text, &low);
}

/// The digits of twice a number.
pub(crate) fn double(digits: &Vec<u8>) -> (twice: Vec<u8>)
    requires
        all_below_ten(digits@),
    ensures
        all_below_ten(twice@),
        value_of(twice@) == 2 * value_of(digits@),
        is_numeral(digits@) ==> is_numeral(twice@),
{
    let mut twice: Vec<u8> = Vec::new();
    let mut carry: u8 = 0;
    let mut at: usize = 0;
    assert(digits@.skip(0) =~= digits@);
    while at < digits.len()
        invariant
            at <= digits.len(),
            carry <= 1,
            all_below_ten(digits@),
            doubled(digits@, 0) == twice@ + doubled(digits@.skip(at as int), carry as nat),
        decreases digits.len() - at,
    {
        let ghost before = twice@;
        let ghost upper = digits@.skip(at as int);
        assert(upper[0] == digits@[at as int]);
        assert(upper.drop_first() =~= digits@.skip(at + 1));
        let sum: u8 = 2 * digits[at] + carry;
        twice.push(sum % 10);
        carry = sum / 10;
        at = at + 1;
        assert(before + doubled(upper, (sum - 2 * upper[0]) as nat) =~= twice@ + doubled(
            digits@.skip(at as int),
            carry as nat,
        ));
    }
    let ghost before = twice@;
    if carry > 0 {
        twice.push(carry);
    }
    proof {
        assert(digits@.skip(digits.len() as int) =~= Seq::<u8>::empty());
        assert(twice@ =~= before + doubled(Seq::<u8>::empty(), carry as nat));
        lemma_doubled(digits@, 0);
    }
    twice
}

/// Whether the first number is at least the second.
pub(crate) fn at_least(a: &Vec<u8>, b: &Vec<u8>) -> (holds: bool)
    requires
        all_below_ten(a@),
        all_below_ten(b@),
    ensures
        holds == (value_of(a@) >= value_of(b@)),
{
    let mut at: usize = if a.len() >= b.len() {
        a.len()
    } else {
        b.len()
    };
    let mut above: bool = false;
    let mut below: bool = false;
    while at > 0
        invariant
            all_below_ten(a@),
            all_below_ten(b@),
            above == (upper_value(a@, at as int) > upper_value(b@, at as int)),
            below == (upper_value(a@, at as int) < upper_value(b@, at as int)),
        decreases at,
    {
        at = at - 1;
        let x: u8 = if at < a.len() {
            a[at]
        } else {
            0
        };
        let y: u8 = if at < b.len() {
            b[at]
        } else {
            0
        };
        proof {
            lemma_upper_value(a@, at as int);
            lemma_upper_value(b@, at as int);
        }
        if !above && !below {
            above = x > y;
            below = x < y;
        }
    }
    proof {
        lemma_upper_value(a@, 0);
        lemma_upper_value(b@, 0);
    }
    !below
}

/// The digits with zeros at the high end up to the given length.
pub(crate) fn pad(digits: &Vec<u8>, length: usize) -> (padded: Vec<u8>)
    requires
        all_below_ten(digits@),
    ensures
        all_below_ten(padded@),
        value_of(padded@) == value_of(digits@),
        padded@.len() == if digits@.len() >= length {
            digits@.len()
        } else {
            length as nat
        },
{
    let mut padded: Vec<u8> = Vec::new();
    let mut at: usize = 0;
    while at < digits.len()
        invariant
            at <= digits.len(),
            padded@ == digits@.take(at as int),
        decreases digits.len() - at,
    {
        padded.push(digits[at]);
        at = at + 1;
        assert(padded@ =~= digits@.take(at as int));
    }
    assert(digits@.take(digits.len() as int) =~= digits@);
    while padded.len() < length
        invariant
            all_below_ten(padded@),
            all_below_ten(digits@),
            value_of(padded@) == value_of(digits@),
            padded@.len() >= digits@.len(),
            padded@.len() == digits@.len() || padded@.len() <= length,
        decreases length - padded.len(),
    {
        proof {
            lemma_leading_zero(padded@);
        }
        padded.push(0);
    }
    padded
}

/// The digits of the difference of two numbers, the first of which is at
/// least the second.
pub(crate) fn subtract(a: &Vec<u8>, b: &Vec<u8>) -> (rest: Vec<u8>)
    requires
        all_below_ten(a@),
        all_below_ten(b@),
        value_of(a@) >= value_of(b@),
    ensures
        all_below_ten(rest@),
        value_of(rest@) == value_of(a@) - value_of(b@),
{
    let wide_a = pad(a, b.len());
    let wide_b = pad(b, a.len());
    let mut rest: Vec<u8> = Vec::new();
    let mut borrow: u8 = 0;
    let mut at: usize = 0;
    assert(wide_a@.skip(0) =~= wide_a@);
    assert(wide_b@.skip(0) =~= wide_b@);
    while at < wide_a.len()
        invariant
            at <= wide_a.len(),
            wide_a@.len() == wide_b@.len(),
            all_below_ten(wide_a@),
            all_below_ten(wide_b@),
            borrow <= 1,
            lessened(wide_a@, wide_b@, 0) == rest@ + lessened(
                wide_a@.skip(at as int),
                wide_b@.skip(at as int),
                borrow as int,
            ),
            borrowed(wide_a@, wide_b@, 0) == borrowed(
                wide_a@.skip(at as int),
                wide_b@.skip(at as int),
                borrow as int,
            ),
        decreases wide_a.len() - at,
    {
        let ghost before = rest@;
        let ghost upper_a = wide_a@.skip(at as int);
        let ghost upper_b = wide_b@.skip(at as int);
        assert(upper_a[0] == wide_a@[at as int]);
        assert(upper_b[0] == wide_b@[at as int]);
        assert(upper_a.drop_first() =~= wide_a@.skip(at + 1));
        assert(upper_b.drop_first() =~= wide_b@.skip(at + 1));
        let x: u8 = wide_a[at];
        let y: u8 = wide_b[at] + borrow;
        if x < y {
            rest.push(x + 10 - y);
            borrow = 1;
        } else {
            rest.push(x - y);
            borrow = 0;
        }
        at = at + 1;
        assert(before + lessened(upper_a, upper_b, (y - upper_b[0]) as int) =~= rest@ + lessened(
            wide_a@.skip(at as int),
            wide_b@.skip(at as int),
            borrow as int,
        ));
    }
    proof {
        assert(wide_a@.skip(wide_a.len() as int) =~= Seq::<u8>::empty());
        assert(rest@ =~= lessened(wide_a@, wide_b@, 0));
        lemma_lessened(wide_a@, wide_b@, 0);
        lemma_value_below(rest@);
        let out = borrowed(wide_a@, wide_b@, 0);
        if out == 1 {
            assert(out * pow10(wide_a@.len()) == pow10(wide_a@.len())) by (nonlinear_arith)
                requires
                    out == 1,
            ;
        } else {
            assert(out * pow10(wide_a@.len()) == 0) by (nonlinear_arith)
                requires
                    out == 0,
            ;
        }
    }
    rest
}

/// The digits of a number times a power of ten.
pub(crate) fn shift_up(digits: &Vec<u8>, places: usize) -> (shifted: Vec<u8>)
    requires
        all_below_ten(digits@),
    ensures
        all_below_ten(shifted@),
        value_of(shifted@) == value_of(digits@) * pow10(places as nat),
{
    let mut shifted: Vec<u8> = Vec::new();
    let mut zeros: usize = 0;
    while zeros < places
        invariant
            zeros <= places,
            shifted@ == Seq::new(zeros as nat, |i: int| 0u8),
        decreases places - zeros,
    {
        shifted.push(0);
        zeros = zeros + 1;
        assert(shifted@ =~= Seq::new(zeros as nat, |i: int| 0u8));
    }
    let mut at: usize = 0;
    while at < digits.len()
        invariant
            at <= digits.len(),
            shifted@ == Seq::new(places as nat, |i: int| 0u8) + digits@.take(at as int),
        decreases digits.len() - at,
    {
        shifted.push(digits[at]);
        at = at + 1;
        assert(shifted@ =~= Seq::new(places as nat, |i: int| 0u8) + digits@.take(at as int));
    }
    proof {
        assert(digits@.take(digits.len() as int) =~= digits@);
        lemma_shifted(digits@, places as nat);
    }
    shifted
}

/// The numeral of a number is a numeral and stands for the number, and it
/// is written as the digits of the number.
pub proof fn lemma_numeral_of(n: nat)
    ensures
        is_numeral(numeral_of(n)),
        value_of(numeral_of(n)) == n,
        written(numeral_of(n)) == digits_of(n),
    decreases n,
{
    let digits = numeral_of(n);
    if n < 10 {
        assert(digits.drop_first() =~= Seq::<u8>::empty());
        assert(value_of(digits.drop_first()) == 0);
        assert(digits[0] < 10);
        assert(written(digits) =~= digits_of(n));
    } else {
        let upper = numeral_of(n / 10);
        lemma_numeral_of(n / 10);
        assert(digits.drop_first() =~= upper);
        assert(digits.last() == upper.last());
        assert forall|i: int| 0 <= i < digits.len() implies #[trigger] digits[i] < 10 by {
            if i > 0 {
                assert(digits[i] == upper[i - 1]);
            }
        }
        if upper.len() == 1 {
            assert(upper.drop_first() =~= Seq::<u8>::empty());
            assert(value_of(upper.drop_first()) == 0);
            assert(upper.last() == upper[0]);
        }
        assert(written(digits) =~= written(upper).push(digit_char(n % 10)));
    }
}

/// A numeral stands for zero only if it is the single digit zero.
pub proof fn lemma_numeral_is_positive(digits: Seq<u8>)
    requires
        is_numeral(digits),
        digits.last() != 0,
    ensures
        value_of(digits) >= 1,
    decreases digits.len(),
{
    if digits.len() > 1 {
        let upper = digits.drop_first();
        assert(upper.last() == digits.last());
        assert forall|i: int| 0 <= i < upper.len() implies #[trigger] upper[i] < 10 by {
            assert(upper[i] == digits[i + 1]);
        }
        lemma_numeral_is_positive(upper);
    } else {
        assert(digits.drop_first() =~= Seq::<u8>::empty());
    }
}

/// Every number has one numeral only: a numeral is the numeral of the
/// number it stands for.
pub proof fn lemma_numeral_is_unique(digits: Seq<u8>)
    requires
        is_numeral(digits),
    ensures
        digits == numeral_of(value_of(digits)),
    decreases digits.len(),
{
    let upper = digits.drop_first();
    if digits.len() == 1 {
        assert(upper =~= Seq::<u8>::empty());
        assert(value_of(upper) == 0);
        assert(digits =~= numeral_of(value_of(digits)));
    } else {
        assert(upper.last() == digits.last());
        assert forall|i: int| 0 <= i < upper.len() implies #[trigger] upper[i] < 10 by {
            assert(upper[i] == digits[i + 1]);
        }
        lemma_numeral_is_unique(upper);
        lemma_numeral_is_positive(upper);
        assert(digits[0] < 10);
        assert(digits =~= seq![digits[0]] + upper);
    }
}

/// A numeral is written as the digits of the number it stands for.
pub proof fn lemma_numeral_is_written(digits: Seq<u8>)
    requires
        is_numeral(digits),
    ensures
        written(digits) == digits_of(value_of(digits)),
{
    lemma_numeral_is_unique(digits);
    lemma_numeral_of(value_of(digits));
}

/// A number of so many digits lies below the power of ten with so many
/// zeros.
pub proof fn lemma_value_below(digits: Seq<u8>)
    requires
        all_below_ten(digits),
    ensures
        value_of(digits) < pow10(digits.len()),
    decreases digits.len(),
{
    if digits.len() > 0 {
        let upper = digits.drop_first();
        assert forall|i: int| 0 <= i < upper.len() implies #[trigger] upper[i] < 10 by {
            assert(upper[i] == digits[i + 1]);
        }
        lemma_value_below(upper);
        assert(digits[0] < 10);
    }
}

/// A zero at the high end changes nothing.
pub proof fn lemma_leading_zero(digits: Seq<u8>)
    ensures
        value_of(digits.push(0)) == value_of(digits),
    decreases digits.len(),
{
    let longer = digits.push(0);
    if digits.len() == 0 {
        assert(longer.drop_first() =~= Seq::<u8>::empty());
        assert(value_of(longer.drop_first()) == 0);
    } else {
        lemma_leading_zero(digits.drop_first());
        assert(longer.drop_first() =~= digits.drop_first().push(0));
    }
}

/// Zeros at the low end multiply by a power of ten.
pub proof fn lemma_shifted(digits: Seq<u8>, places: nat)
    requires
        all_below_ten(digits),
    ensures
        all_below_ten(Seq::new(places, |i: int| 0u8) + digits),
        value_of(Seq::new(places, |i: int| 0u8) + digits) == value_of(digits) * pow10(places),
    decreases places,
{
    let shifted = Seq::new(places, |i: int| 0u8) + digits;
    assert forall|i: int| 0 <= i < shifted.len() implies #[trigger] shifted[i] < 10 by {
        if i >= places {
            assert(shifted[i] == digits[i - places]);
        }
    }
    if places == 0 {
        assert(shifted =~= digits);
        assert(value_of(digits) * pow10(0) == value_of(digits)) by (nonlinear_arith)
            requires
                pow10(0) == 1,
        ;
    } else {
        let less = Seq::new((places - 1) as nat, |i: int| 0u8) + digits;
        lemma_shifted(digits, (places - 1) as nat);
        assert(shifted =~= seq![0u8] + less);
        lemma_trailing_zero(less);
        assert(10 * (value_of(digits) * pow10((places - 1) as nat)) == value_of(digits) * (10
            * pow10((places - 1) as nat))) by (nonlinear_arith);
    }
}

/// A zero at the low end multiplies by ten.
pub proof fn lemma_trailing_zero(digits: Seq<u8>)
    ensures
        value_of(seq![0u8] + digits) == 10 * value_of(digits),
{
    let longer = seq![0u8] + digits;
    assert(longer.drop_first() =~= digits);
}

/// The digits above a place stand for the number without its lower
/// digits: each place counts ten times the places above it.
pub proof fn lemma_upper_value(digits: Seq<u8>, place: int)
    requires
        0 <= place,
    ensures
        upper_value(digits, place) == digit_at(digits, place) + 10 * upper_value(
            digits,
            place + 1,
        ),
        upper_value(digits, 0) == value_of(digits),
{
    if place < digits.len() {
        let upper = digits.skip(place);
        assert(upper[0] == digits[place]);
        assert(upper.drop_first() =~= digits.skip(place + 1));
        if place + 1 == digits.len() {
            assert(value_of(digits.skip(place + 1)) == 0);
        }
    }
    if digits.len() > 0 {
        assert(digits.skip(0) =~= digits);
    }
}

/// Doubling digit by digit doubles the number, and keeps digits digits.
pub proof fn lemma_doubled(digits: Seq<u8>, carry: nat)
    requires
        all_below_ten(digits),
        carry <= 1,
    ensures
        value_of(doubled(digits, carry)) == 2 * value_of(digits) + carry,
        all_below_ten(doubled(digits, carry)),
        digits.len() <= doubled(digits, carry).len(),
        digits.len() >= 1 && digits.last() != 0 ==> doubled(digits, carry).last() != 0,
    decreases digits.len(),
{
    let out = doubled(digits, carry);
    if digits.len() == 0 {
        if carry != 0 {
            assert(out.drop_first() =~= Seq::<u8>::empty());
            assert(value_of(out.drop_first()) == 0);
        }
    } else {
        let upper = digits.drop_first();
        assert(digits[0] < 10);
        let sum = 2 * digits[0] + carry;
        assert forall|i: int| 0 <= i < upper.len() implies #[trigger] upper[i] < 10 by {
            assert(upper[i] == digits[i + 1]);
        }
        lemma_doubled(upper, (sum / 10) as nat);
        let rest = doubled(upper, (sum / 10) as nat);
        assert(out.drop_first() =~= rest);
        assert forall|i: int| 0 <= i < out.len() implies #[trigger] out[i] < 10 by {
            if i > 0 {
                assert(out[i] == rest[i - 1]);
            }
        }
        if digits.last() != 0 {
            if upper.len() >= 1 {
                assert(upper.last() == digits.last());
                assert(out.last() == rest.last());
            } else {
                if sum / 10 != 0 {
                    assert(rest =~= seq![(sum / 10) as u8]);
                    assert(out.last() == rest.last());
                } else {
                    assert(rest =~= Seq::<u8>::empty());
                    assert(out =~= seq![(sum % 10) as u8]);
                }
            }
        }
    }
}

/// Subtracting digit by digit subtracts the numbers, up to the borrow out of
/// the highest digit.
pub proof fn lemma_lessened(a: Seq<u8>, b: Seq<u8>, borrow: int)
    requires
        a.len() == b.len(),
        all_below_ten(a),
        all_below_ten(b),
        0 <= borrow <= 1,
    ensures
        lessened(a, b, borrow).len() == a.len(),
        all_below_ten(lessened(a, b, borrow)),
        0 <= borrowed(a, b, borrow) <= 1,
        value_of(lessened(a, b, borrow)) == value_of(a) - value_of(b) - borrow + borrowed(
            a,
            b,
            borrow,
        ) * pow10(a.len()),
    decreases a.len(),
{
    if a.len() > 0 {
        let upper_a = a.drop_first();
        let upper_b = b.drop_first();
        assert(a[0] < 10 && b[0] < 10);
        assert forall|i: int| 0 <= i < upper_a.len() implies #[trigger] upper_a[i] < 10 by {
            assert(upper_a[i] == a[i + 1]);
        }
        assert forall|i: int| 0 <= i < upper_b.len() implies #[trigger] upper_b[i] < 10 by {
            assert(upper_b[i] == b[i + 1]);
        }
        let low = a[0] - b[0] - borrow;
        let next: int = if low < 0 {
            1
        } else {
            0
        };
        lemma_lessened(upper_a, upper_b, next);
        let out = lessened(a, b, borrow);
        let rest = lessened(upper_a, upper_b, next);
        let digit: int = if low < 0 {
            low + 10
        } else {
            low
        };
        assert(out =~= seq![digit as u8] + rest);
        assert(out.drop_first() =~= rest);
        assert forall|i: int| 0 <= i < out.len() implies #[trigger] out[i] < 10 by {
            if i > 0 {
                assert(out[i] == rest[i - 1]);
            }
        }
        assert(value_of(out) == out[0] + 10 * value_of(rest));
        assert(10 * (borrowed(upper_a, upper_b, next) * pow10(upper_a.len())) == borrowed(
            a,
            b,
            borrow,
        ) * pow10(a.len())) by (nonlinear_arith)
            requires
                borrowed(upper_a, upper_b, next) == borrowed(a, b, borrow),
                pow10(a.len()) == 10 * pow10(upper_a.len()),
        ;
        assert(value_of(a) == a[0] + 10 * value_of(upper_a));
        assert(value_of(b) == b[0] + 10 * value_of(upper_b));
    } else {
        assert(borrow * pow10(0) == borrow) by (nonlinear_arith)
            requires
                pow10(0) == 1,
        ;
    }
}

} // verus!
