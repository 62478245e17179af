//! The text that an item is written as: an integer in plain decimal, a
//! floating value in decimal with exactly six digits after the point, a code
//! unit as the character it decodes to.

use crate::binary64::{Binary64, HIDDEN_BIT, INFINITY_BITS, SIGN_BIT};
use crate::chars::{char_of, push_char};
use crate::decimal::{
    digits_of, double, is_numeral, lemma_numeral_is_written, lemma_numeral_of, numeral, padded,
    value_of, write_digits, write_padded,
};
use crate::rounding::round_ratio;
use crate::value::Item;
use vstd::arithmetic::div_mod::{lemma_basic_div, lemma_small_mod};
use vstd::arithmetic::power2::{
    lemma2_to64, lemma_pow2_adds, lemma_pow2_pos, lemma_pow2_strictly_increases, pow2,
};
use vstd::prelude::*;

verus! {

/// The text of the fraction of a floating value counts millionths.
pub const MILLION: u64 = 1_000_000;

/// An integer in plain decimal: a minus sign if it is negative, then its
/// digits.
pub open spec fn decimal_of(n: int) -> Seq<char> {
    if n < 0 {
        seq!['-'] + digits_of((-n) as nat)
    } else {
        digits_of(n as nat)
    }
}

/// The character that a single code unit decodes to: the replacement
/// character for a surrogate, which alone is no character, and the
/// character with that number otherwise.
pub open spec fn unit_char(unit: u16) -> char {
    if 0xD800 <= unit <= 0xDFFF {
        '\u{FFFD}'
    } else {
        unit as char
    }
}

/// The size of a floating value in millionths, rounded to the nearest whole
/// number of them, a tie going to the even one. The value is neither
/// infinite nor a NaN.
pub open spec fn millionths(x: Binary64) -> nat {
    if x.scale() >= 0 {
        x.significand() * pow2(x.scale() as nat) * MILLION as nat
    } else {
        round_ratio(x.significand() * MILLION as nat, pow2((-x.scale()) as nat))
    }
}

/// A floating value in decimal with exactly six digits after the point:
/// `NaN` for a NaN; else a minus sign if the sign bit is set, then `inf` for
/// an infinity, and for any other value its size rounded to millionths,
/// written as the whole part, a point, and six digits.
pub open spec fn fixed_of(x: Binary64) -> Seq<char> {
    if x.is_nan() {
        seq!['N', 'a', 'N']
    } else {
        let sign = if x.negative() {
            seq!['-']
        } else {
            Seq::<char>::empty()
        };
        if x.is_infinite() {
            sign + seq!['i', 'n', 'f']
        } else {
            sign + digits_of(millionths(x) / MILLION as nat) + seq!['.'] + padded(
                millionths(x) % MILLION as nat,
                6,
            )
        }
    }
}

impl Item {
    /// What the item is written as.
    pub open spec fn rendered(self) -> Seq<char> {
        match self {
            Item::Int(n) => decimal_of(n as int),
            Item::Float(x) => fixed_of(x),
            Item::Char(unit) => seq![unit_char(unit)],
        }
    }

    /// Writes the item out.
    pub fn render(&self) -> (text: String)
        ensures
            text@ == self.rendered(),
    {
        match self {
            Item::Int(n) => render_integer(*n),
            Item::Float(x) => render_fixed(*x),
            Item::Char(unit) => {
                let mut text = String::new();
                push_char(&mut text, decode_unit(*unit));
                assert(text@ =~= seq![unit_char(*unit)]);
                text
            },
        }
    }
}

/// Writes an integer in plain decimal.
pub fn render_integer(n: i32) -> (text: String)
    ensures
        text@ == decimal_of(n as int),
{
    let mut text = String::new();
    let size: u64 = if n < 0 {
        push_char(&mut text, '-');
        (-(n as i64)) as u64
    } else {
        n as u64
    };
    let digits = numeral(size);
    proof {
        lemma_numeral_of(size as nat);
    }
    write_digits(&mut text, &digits);
    assert(text@ =~= decimal_of(n as int));
    text
}

/// Writes a floating value in decimal with six digits after the point.
pub fn render_fixed(x: Binary64) -> (text: String)
    ensures
        text@ == fixed_of(x),
{
    let magnitude: u64 = x.bits % SIGN_BIT;
    let mut text = String::new();
    if magnitude > INFINITY_BITS {
        push_char(&mut text, 'N');
        push_char(&mut text, 'a');
        push_char(&mut text, 'N');
        assert(text@ =~= fixed_of(x));
        return text;
    }
    if x.bits >= SIGN_BIT {
        push_char(&mut text, '-');
    }
    let ghost sign = text@;
    if magnitude == INFINITY_BITS {
        push_char(&mut text, 'i');
        push_char(&mut text, 'n');
        push_char(&mut text, 'f');
        assert(text@ =~= fixed_of(x));
        return text;
    }
    let exponent: u64 = magnitude / HIDDEN_BIT;
    let fraction: u64 = magnitude % HIDDEN_BIT;
    let significand: u64 = if exponent == 0 {
        fraction
    } else {
        HIDDEN_BIT + fraction
    };
    assert(significand == x.significand());
    let (digits, part) = if exponent >= 1075 {
        let shift: u64 = exponent - 1075;
        let mut digits = numeral(significand);
        let mut done: u64 = 0;
        proof {
            lemma_numeral_of(significand as nat);
            lemma2_to64();
        }
        while done < shift
            invariant
                done <= shift,
                is_numeral(digits@),
                value_of(digits@) == significand * pow2(done as nat),
            decreases shift - done,
        {
            proof {
                lemma_pow2_adds(1, done as nat);
                lemma2_to64();
                assert(2 * (significand * pow2(done as nat)) == significand * (2 * pow2(
                    done as nat,
                ))) by (nonlinear_arith);
            }
            digits = double(&digits);
            done = done + 1;
        }
        proof {
            let whole = significand as nat * pow2(shift as nat);
            assert(millionths(x) == whole * MILLION as nat);
            assert((whole * MILLION as nat) / MILLION as nat == whole);
            assert((whole * MILLION as nat) % MILLION as nat == 0);
        }
        (digits, 0u64)
    } else {
        let shift: u64 = if exponent == 0 {
            1074
        } else {
            1075 - exponent
        };
        assert(significand * MILLION < 0x200_0000_0000_0000_0000) by (nonlinear_arith)
            requires
                significand < 0x0020_0000_0000_0000,
                MILLION == 1_000_000,
        ;
        let total: u128 = round_shifted(significand as u128 * MILLION as u128, shift);
        assert(total == millionths(x));
        let whole: u64 = (total / MILLION as u128) as u64;
        proof {
            lemma_numeral_of(whole as nat);
        }
        (numeral(whole), (total % MILLION as u128) as u64)
    };
    proof {
        lemma_numeral_is_written(digits@);
    }
    write_digits(&mut text, &digits);
    push_char(&mut text, '.');
    write_padded(&mut text, part, 6);
    assert(text@ =~= fixed_of(x));
    text
}

/// Decodes a single code unit.
pub fn decode_unit(unit: u16) -> (c: char)
    ensures
        c == unit_char(unit),
{
    match char_of(unit as u32) {
        Some(c) => c,
        None => '\u{FFFD}',
    }
}

/// Rounds `scaled / 2^shift` to the nearest whole number, a tie going to the
/// even one.
fn round_shifted(scaled: u128, shift: u64) -> (total: u128)
    requires
        scaled < 0x200_0000_0000_0000_0000,
        shift >= 1,
    ensures
        total == round_ratio(scaled as nat, pow2(shift as nat)),
        2 * total <= scaled + 2,
{
    proof {
        lemma2_to64();
        lemma_pow2_adds(64, 11);
    }
    if shift >= 75 {
        proof {
            if shift > 75 {
                lemma_pow2_strictly_increases(75, shift as nat);
            }
            lemma_basic_div(scaled as int, pow2(shift as nat) as int);
            lemma_small_mod(scaled as nat, pow2(shift as nat));
        }
        return 0;
    }
    let mut unit: u128 = 1;
    let mut done: u64 = 0;
    while done < shift
        invariant
            done <= shift < 75,
            unit == pow2(done as nat),
            pow2(75) == 0x800_0000_0000_0000_0000,
        decreases shift - done,
    {
        proof {
            lemma2_to64();
            lemma_pow2_adds(1, done as nat);
            lemma_pow2_strictly_increases(done as nat, 75);
        }
        unit = unit * 2;
        done = done + 1;
    }
    proof {
        lemma_pow2_adds(1, (shift - 1) as nat);
        lemma_pow2_pos((shift - 1) as nat);
    }
    let quotient: u128 = scaled / unit;
    let rest: u128 = scaled % unit;
    let half: u128 = unit / 2;
    assert(2 * quotient <= scaled) by (nonlinear_arith)
        requires
            quotient == scaled / unit,
            unit >= 2,
    ;
    if rest > half || (rest == half && quotient % 2 == 1) {
        quotient + 1
    } else {
        quotient
    }
}

} // verus!
