//! IEEE 754 arithmetic on binary64 values, in integers.
//!
//! A value that is neither infinite nor a NaN is a whole number of units: a
//! significand below `2^53` times a power of two. The exact sum, difference
//! and product of two such values are again whole numbers of some unit, and
//! their exact quotient is a ratio of two; the result of an operation is that
//! exact number rounded to the nearest value that binary64 holds, a tie
//! going to the even significand. A result beyond the largest value is an
//! infinity; a result that has no value is the NaN [`NAN_BITS`], whatever NaN
//! went in.

use crate::binary64::{
    bit_length, law_encoding_is_rounding, lemma_bit_length_below, lemma_bit_length_bounds,
    lemma_encoding_is_finite, lemma_exact_encoding, Binary64, HIDDEN_BIT, INFINITY_BITS, SIGN_BIT,
};
use crate::rounding::{
    encode, lemma_bit_length_from_bounds, lemma_pow2_grows, lemma_ratio_top_of_whole,
    lemma_rounding_shifts, lemma_rounding_shifts_down, of_ratio, power_of_two, round_ratio,
    LEAST_SCALE,
};
use vstd::arithmetic::div_mod::lemma_fundamental_div_mod_converse;
use vstd::arithmetic::power2::{
    lemma2_to64, lemma2_to64_rest, lemma_pow2_adds, lemma_pow2_pos, pow2,
};
use vstd::prelude::*;

verus! {

/// The NaN that operations give.
pub const NAN_BITS: u64 = 0x7FF8_0000_0000_0000;

impl Binary64 {
    /// The value with the sign bit set or cleared.
    pub open spec fn with_sign(self, negative: bool) -> Binary64 {
        if negative {
            Binary64 { bits: (SIGN_BIT + self.magnitude()) as u64 }
        } else {
            Binary64 { bits: self.magnitude() as u64 }
        }
    }

    /// The value with the other sign.
    pub open spec fn negated(self) -> Binary64 {
        self.with_sign(!self.negative())
    }

    /// Whether the value is a zero.
    pub open spec fn is_zero(self) -> bool {
        self.magnitude() == 0
    }

    /// The value as a whole number, positive or negative, of units of
    /// `2^scale`, where `scale` is at most the scale of the value.
    pub open spec fn units(self, scale: int) -> int
        recommends
            scale <= self.scale(),
    {
        let size = self.significand() * pow2((self.scale() - scale) as nat);
        if self.negative() {
            -size
        } else {
            size as int
        }
    }

    /// The IEEE product of two values.
    pub open spec fn product(self, other: Binary64) -> Binary64 {
        let negative = self.negative() != other.negative();
        if self.is_nan() || other.is_nan() {
            Binary64 { bits: NAN_BITS }
        } else if self.is_infinite() || other.is_infinite() {
            if self.is_zero() || other.is_zero() {
                Binary64 { bits: NAN_BITS }
            } else {
                Binary64 { bits: INFINITY_BITS }.with_sign(negative)
            }
        } else {
            of_ratio(
                self.significand() * other.significand(),
                1,
                self.scale() + other.scale(),
            ).with_sign(negative)
        }
    }

    /// The IEEE sum of two values. A sum that is exactly zero is positive
    /// zero, unless both values are negative zeros.
    pub open spec fn sum(self, other: Binary64) -> Binary64 {
        if self.is_nan() || other.is_nan() {
            Binary64 { bits: NAN_BITS }
        } else if self.is_infinite() {
            if other.is_infinite() && self.negative() != other.negative() {
                Binary64 { bits: NAN_BITS }
            } else {
                self
            }
        } else if other.is_infinite() {
            other
        } else {
            self.exact_sum(other)
        }
    }

    /// The sum of two values that are neither infinite nor NaNs: their
    /// exact sum, counted in units of the smaller scale, and rounded.
    pub open spec fn exact_sum(self, other: Binary64) -> Binary64 {
        let scale = if self.scale() <= other.scale() {
            self.scale()
        } else {
            other.scale()
        };
        let total = self.units(scale) + other.units(scale);
        if total == 0 {
            Binary64 { bits: 0 }.with_sign(self.negative() && other.negative())
        } else if total < 0 {
            of_ratio((-total) as nat, 1, scale).with_sign(true)
        } else {
            of_ratio(total as nat, 1, scale)
        }
    }

    /// The IEEE difference of two values: the sum of the first and the
    /// second negated.
    pub open spec fn difference(self, other: Binary64) -> Binary64 {
        self.sum(other.negated())
    }

    /// The IEEE quotient of two values. A value that is not zero, divided
    /// by zero, gives an infinity; zero by zero and infinity by infinity
    /// give the NaN.
    pub open spec fn quotient(self, other: Binary64) -> Binary64 {
        let negative = self.negative() != other.negative();
        if self.is_nan() || other.is_nan() {
            Binary64 { bits: NAN_BITS }
        } else if self.is_infinite() {
            if other.is_infinite() {
                Binary64 { bits: NAN_BITS }
            } else {
                Binary64 { bits: INFINITY_BITS }.with_sign(negative)
            }
        } else if other.is_infinite() {
            Binary64 { bits: 0 }.with_sign(negative)
        } else if other.is_zero() {
            if self.is_zero() {
                Binary64 { bits: NAN_BITS }
            } else {
                Binary64 { bits: INFINITY_BITS }.with_sign(negative)
            }
        } else {
            of_ratio(
                self.significand(),
                other.significand(),
                self.scale() - other.scale(),
            ).with_sign(negative)
        }
    }
}

/// The size of an integer.
pub open spec fn size_of(a: int) -> nat {
    if a < 0 {
        (-a) as nat
    } else {
        a as nat
    }
}

/// The rounded sum of two whole numbers of one unit, each with its sign.
pub open spec fn sum_of_sizes(
    negative: bool,
    size: nat,
    other_negative: bool,
    other_size: nat,
    scale: int,
) -> Binary64 {
    let total = (if negative {
        -(size as int)
    } else {
        size as int
    }) + (if other_negative {
        -(other_size as int)
    } else {
        other_size as int
    });
    if total == 0 {
        Binary64 { bits: 0 }.with_sign(negative && other_negative)
    } else if total < 0 {
        of_ratio((-total) as nat, 1, scale).with_sign(true)
    } else {
        of_ratio(total as nat, 1, scale)
    }
}

impl Binary64 {
    /// Whether the sign bit is set.
    pub fn is_negative(self) -> (negative: bool)
        ensures
            negative == self.negative(),
    {
        self.bits >= SIGN_BIT
    }

    /// The kind of the value: a NaN, an infinity, a zero, or none of them.
    pub fn classify(self) -> (kind: (bool, bool, bool))
        ensures
            kind.0 == self.is_nan(),
            kind.1 == self.is_infinite(),
            kind.2 == self.is_zero(),
    {
        let magnitude: u64 = self.bits % SIGN_BIT;
        (magnitude > INFINITY_BITS, magnitude == INFINITY_BITS, magnitude == 0)
    }

    /// The significand and the scale of the value.
    pub fn parts(self) -> (parts: (u64, i64))
        ensures
            parts.0 == self.significand(),
            parts.1 == self.scale(),
    {
        let magnitude: u64 = self.bits % SIGN_BIT;
        let exponent: u64 = magnitude / HIDDEN_BIT;
        let fraction: u64 = magnitude % HIDDEN_BIT;
        if exponent == 0 {
            (fraction, LEAST_SCALE)
        } else {
            (HIDDEN_BIT + fraction, exponent as i64 - 1075)
        }
    }

    /// Sets or clears the sign bit.
    pub fn signed(self, negative: bool) -> (x: Binary64)
        ensures
            x == self.with_sign(negative),
    {
        let magnitude: u64 = self.bits % SIGN_BIT;
        if negative {
            Binary64 { bits: SIGN_BIT + magnitude }
        } else {
            Binary64 { bits: magnitude }
        }
    }

    /// Multiplies two values.
    pub fn mul(self, other: Binary64) -> (x: Binary64)
        ensures
            x == self.product(other),
    {
        let negative = self.is_negative() != other.is_negative();
        let (nan, infinite, zero) = self.classify();
        let (other_nan, other_infinite, other_zero) = other.classify();
        if nan || other_nan {
            Binary64 { bits: NAN_BITS }
        } else if infinite || other_infinite {
            if zero || other_zero {
                Binary64 { bits: NAN_BITS }
            } else {
                Binary64 { bits: INFINITY_BITS }.signed(negative)
            }
        } else {
            let (m, scale) = self.parts();
            let (other_m, other_scale) = other.parts();
            proof {
                lemma_parts_encode_the_value(self);
                lemma_parts_encode_the_value(other);
                assert(m * other_m < 0x400_0000_0000_0000_0000_0000_0000) by (nonlinear_arith)
                    requires
                        m < 0x0020_0000_0000_0000,
                        other_m < 0x0020_0000_0000_0000,
                ;
            }
            encode(m as u128 * other_m as u128, 1, scale + other_scale).signed(negative)
        }
    }

    /// Divides one value by another.
    pub fn div(self, other: Binary64) -> (x: Binary64)
        ensures
            x == self.quotient(other),
    {
        let negative = self.is_negative() != other.is_negative();
        let (nan, infinite, zero) = self.classify();
        let (other_nan, other_infinite, other_zero) = other.classify();
        if nan || other_nan {
            Binary64 { bits: NAN_BITS }
        } else if infinite {
            if other_infinite {
                Binary64 { bits: NAN_BITS }
            } else {
                Binary64 { bits: INFINITY_BITS }.signed(negative)
            }
        } else if other_infinite {
            Binary64 { bits: 0 }.signed(negative)
        } else if other_zero {
            if zero {
                Binary64 { bits: NAN_BITS }
            } else {
                Binary64 { bits: INFINITY_BITS }.signed(negative)
            }
        } else {
            let (m, scale) = self.parts();
            let (other_m, other_scale) = other.parts();
            proof {
                lemma_parts_encode_the_value(self);
                lemma_parts_encode_the_value(other);
            }
            encode(m as u128, other_m as u128, scale - other_scale).signed(negative)
        }
    }

    /// Adds two values.
    pub fn add(self, other: Binary64) -> (x: Binary64)
        ensures
            x == self.sum(other),
    {
        let (nan, infinite, _) = self.classify();
        let (other_nan, other_infinite, _) = other.classify();
        if nan || other_nan {
            Binary64 { bits: NAN_BITS }
        } else if infinite {
            if other_infinite && self.is_negative() != other.is_negative() {
                Binary64 { bits: NAN_BITS }
            } else {
                self
            }
        } else if other_infinite {
            other
        } else {
            self.add_finite(other)
        }
    }

    /// Adds two values that are neither infinite nor NaNs.
    fn add_finite(self, other: Binary64) -> (x: Binary64)
        requires
            !self.is_nan(),
            !self.is_infinite(),
            !other.is_nan(),
            !other.is_infinite(),
        ensures
            x == self.exact_sum(other),
    {
        let (m, scale) = self.parts();
        let (other_m, other_scale) = other.parts();
        proof {
            lemma_parts_encode_the_value(self);
            lemma_parts_encode_the_value(other);
        }
        if scale > other_scale + 64 {
            proof {
                lemma_far_sum(self, other);
            }
            self
        } else if other_scale > scale + 64 {
            proof {
                lemma_far_sum(other, self);
                lemma_exact_sum_commutes(self, other);
            }
            other
        } else {
            let least: i64 = if scale <= other_scale {
                scale
            } else {
                other_scale
            };
            proof {
                lemma_scaled_below(m as nat, (scale - least) as nat);
                lemma_scaled_below(other_m as nat, (other_scale - least) as nat);
            }
            let size: u128 = m as u128 * power_of_two((scale - least) as u64);
            let other_size: u128 = other_m as u128 * power_of_two((other_scale - least) as u64);
            add_sizes(self.is_negative(), size, other.is_negative(), other_size, least)
        }
    }

    /// The value with the other sign.
    pub fn negate(self) -> (x: Binary64)
        ensures
            x == self.negated(),
    {
        self.signed(!self.is_negative())
    }

    /// Subtracts one value from another.
    pub fn sub(self, other: Binary64) -> (x: Binary64)
        ensures
            x == self.difference(other),
    {
        self.add(other.negate())
    }
}

/// Adds two whole numbers of one unit, each with its sign, and rounds.
fn add_sizes(negative: bool, size: u128, other_negative: bool, other_size: u128, scale: i64) -> (x:
    Binary64)
    requires
        size < 0x20_0000_0000_0000_0000_0000_0000_0000,
        other_size < 0x20_0000_0000_0000_0000_0000_0000_0000,
        -4000 <= scale <= 4000,
    ensures
        x == sum_of_sizes(negative, size as nat, other_negative, other_size as nat, scale as int),
{
    if negative == other_negative {
        if size + other_size == 0 {
            Binary64 { bits: 0 }.signed(negative)
        } else {
            let rounded = encode(size + other_size, 1, scale);
            proof {
                lemma_rounding_has_no_sign(size as nat + other_size as nat, 1, scale as int);
            }
            rounded.signed(negative)
        }
    } else if size == other_size {
        Binary64 { bits: 0 }
    } else if size > other_size {
        let rounded = encode(size - other_size, 1, scale);
        proof {
            lemma_rounding_has_no_sign((size - other_size) as nat, 1, scale as int);
        }
        rounded.signed(negative)
    } else {
        let rounded = encode(other_size - size, 1, scale);
        proof {
            lemma_rounding_has_no_sign((other_size - size) as nat, 1, scale as int);
        }
        rounded.signed(other_negative)
    }
}

/// A value that is neither infinite nor a NaN is the rounding of its own
/// significand at its own scale.
pub proof fn lemma_parts_encode_the_value(x: Binary64)
    requires
        !x.is_nan(),
        !x.is_infinite(),
    ensures
        of_ratio(x.significand(), 1, x.scale()).bits == x.magnitude(),
        x.significand() < 2 * HIDDEN_BIT,
        x.exponent() >= 1 ==> x.significand() >= HIDDEN_BIT,
        x.is_zero() <==> x.significand() == 0,
        LEAST_SCALE <= x.scale() <= 971,
{
    let m = x.significand();
    if m > 0 {
        lemma2_to64();
        lemma2_to64_rest();
        lemma_ratio_top_of_whole(m);
        lemma_bit_length_bounds(m);
        if x.exponent() >= 1 {
            lemma_bit_length_from_bounds(m, 53);
        } else {
            lemma_bit_length_below(m, 52);
            let up = (53 - bit_length(m)) as nat;
            let top = bit_length(m) + x.scale();
            assert(top - 53 <= LEAST_SCALE);
        }
        assert(m * pow2(0) == m);
        assert(m / 1 == m);
        assert(m % 1 == 0);
    }
}

/// Negating a value changes its sign and nothing else.
pub proof fn lemma_negated(x: Binary64, scale: int)
    ensures
        x.negated().is_nan() == x.is_nan(),
        x.negated().is_infinite() == x.is_infinite(),
        x.negated().negative() == !x.negative(),
        x.negated().scale() == x.scale(),
        x.negated().significand() == x.significand(),
        x.negated().units(scale) == -x.units(scale),
{
    let z = x.negated();
    assert(z.magnitude() == x.magnitude());
}

/// A rounded ratio is not negative and no NaN: setting its sign changes
/// nothing else.
pub proof fn lemma_rounding_has_no_sign(n: nat, d: nat, scale: int)
    ensures
        of_ratio(n, d, scale).bits <= INFINITY_BITS,
        of_ratio(n, d, scale).with_sign(false) == of_ratio(n, d, scale),
{
}

/// A significand scaled up by at most sixty-four places stays below
/// `2^117`.
pub proof fn lemma_scaled_below(m: nat, k: nat)
    requires
        m < 2 * HIDDEN_BIT,
        k <= 64,
    ensures
        m * pow2(k) < 0x20_0000_0000_0000_0000_0000_0000_0000,
        k <= 127,
{
    lemma2_to64();
    lemma2_to64_rest();
    lemma_pow2_adds(64, 53);
    lemma_pow2_adds(53, k);
    lemma_pow2_grows(53 + k, 117);
    lemma_pow2_pos(k);
    assert(m * pow2(k) < pow2(53) * pow2(k)) by (nonlinear_arith)
        requires
            m < pow2(53),
            pow2(k) > 0,
    ;
}

/// A number far below the unit in the last place of another does not
/// count: added to it or taken from it, the rounded result is the other
/// number. `big` has fifty-three binary digits and stands `gap` places
/// above `small`.
pub proof fn lemma_small_operand_vanishes(big: nat, small: nat, gap: nat, scale: int, add: bool)
    requires
        HIDDEN_BIT <= big < 2 * HIDDEN_BIT,
        small < 2 * HIDDEN_BIT,
        gap >= 55,
        scale >= LEAST_SCALE,
    ensures
        big * pow2(gap) > small,
        of_ratio(
            if add {
                big * pow2(gap) + small
            } else {
                (big * pow2(gap) - small) as nat
            },
            1,
            scale,
        ) == of_ratio(big, 1, scale + gap),
{
    lemma2_to64();
    lemma2_to64_rest();
    let unit = pow2(gap);
    let half = pow2((gap - 1) as nat);
    let quarter = pow2((gap - 2) as nat);
    lemma_pow2_adds(1, (gap - 1) as nat);
    lemma_pow2_adds(1, (gap - 2) as nat);
    lemma_pow2_grows(53, (gap - 2) as nat);
    lemma_pow2_adds(52, gap);
    lemma_pow2_adds(53, gap);
    lemma_pow2_adds(51, gap);
    assert(small < quarter);
    assert(unit == 4 * quarter);
    assert(big * unit >= pow2(52) * unit) by (nonlinear_arith)
        requires
            big >= pow2(52),
            unit > 0,
    ;
    assert(big * unit + unit <= pow2(53) * unit) by (nonlinear_arith)
        requires
            big + 1 <= pow2(53),
            unit > 0,
    ;
    let shifted = big * unit;
    let n: nat = if add {
        shifted + small
    } else {
        (shifted - small) as nat
    };
    // the right-hand side
    lemma_ratio_top_of_whole(big);
    lemma_bit_length_from_bounds(big, 53);
    assert(big * pow2(0) == big);
    assert(big / 1 == big && big % 1 == 0);
    let goal = of_ratio(big, 1, scale + gap);
    assert(goal.bits == if (scale + gap - LEAST_SCALE) * HIDDEN_BIT + big >= INFINITY_BITS {
        INFINITY_BITS as int
    } else {
        (scale + gap - LEAST_SCALE) * HIDDEN_BIT + big
    });
    // the left-hand side
    lemma_ratio_top_of_whole(n);
    if !add && big == HIDDEN_BIT && small > 0 {
        assert(shifted == pow2(52 + gap));
        assert(pow2(52 + gap) == 2 * pow2(51 + gap));
        assert(pow2(51 + gap) == pow2(53) * quarter) by {
            lemma_pow2_adds(53, (gap - 2) as nat);
        }
        assert(pow2((51 + gap) as nat) <= n < pow2(52 + gap));
        lemma_bit_length_from_bounds(n, 52 + gap);
        let divisor = 1 * half;
        assert(n == (2 * HIDDEN_BIT - 1) * half + (half - small)) by (nonlinear_arith)
            requires
                n == big * unit - small,
                big == HIDDEN_BIT,
                unit == 2 * half,
        ;
        lemma_fundamental_div_mod_converse(
            n as int,
            half as int,
            2 * HIDDEN_BIT - 1,
            half - small,
        );
        assert(round_ratio(n, divisor) == 2 * HIDDEN_BIT);
    } else {
        if !add && small > 0 {
            assert(shifted >= pow2(52) * unit + unit) by (nonlinear_arith)
                requires
                    shifted == big * unit,
                    big >= pow2(52) + 1,
                    unit > 0,
            ;
        }
        assert(pow2((52 + gap) as nat) <= n < pow2(53 + gap));
        lemma_bit_length_from_bounds(n, 53 + gap);
        let divisor = 1 * unit;
        if add || small == 0 {
            lemma_fundamental_div_mod_converse(
                n as int,
                unit as int,
                big as int,
                small as int,
            );
        } else {
            assert(n == (big - 1) * unit + (unit - small)) by (nonlinear_arith)
                requires
                    n == big * unit - small,
            ;
            lemma_fundamental_div_mod_converse(
                n as int,
                unit as int,
                big - 1,
                unit - small,
            );
        }
        assert(round_ratio(n, divisor) == big);
    }
}

/// The exact sum does not depend on the order of the operands.
pub proof fn lemma_exact_sum_commutes(a: Binary64, b: Binary64)
    ensures
        a.exact_sum(b) == b.exact_sum(a),
{
}

/// Where one operand stands more than sixty-four places above the other,
/// the sum is that operand.
pub proof fn lemma_far_sum(a: Binary64, b: Binary64)
    requires
        !a.is_nan(),
        !a.is_infinite(),
        !b.is_nan(),
        !b.is_infinite(),
        a.scale() > b.scale() + 64,
    ensures
        a.exact_sum(b) == a,
{
    lemma_parts_encode_the_value(a);
    lemma_parts_encode_the_value(b);
    let gap = (a.scale() - b.scale()) as nat;
    let same = a.negative() == b.negative();
    lemma_small_operand_vanishes(a.significand(), b.significand(), gap, b.scale(), same);
    assert(b.significand() * pow2(0) == b.significand()) by {
        lemma2_to64();
    }
    let size = a.significand() * pow2(gap);
    let total = a.units(b.scale()) + b.units(b.scale());
    assert(a.units(b.scale()) == if a.negative() {
        -(size as int)
    } else {
        size as int
    });
    assert(b.units(b.scale()) == if b.negative() {
        -(b.significand() as int)
    } else {
        b.significand() as int
    });
    let rounded = of_ratio(a.significand(), 1, a.scale());
    assert(rounded.bits == a.magnitude());
    if a.negative() {
        assert(total < 0);
        assert(rounded.with_sign(true) == a);
    } else {
        assert(total > 0);
        assert(rounded == a);
    }
}

/// The parts of the encoding of an integer of size below `2^53`: it is
/// neither infinite nor a NaN, its scale is not above zero, and in units of
/// any scale not above its own it counts the integer times a power of two.
pub proof fn lemma_parts_of_integer(a: int, scale: int)
    requires
        -2 * HIDDEN_BIT < a < 2 * HIDDEN_BIT,
        scale <= Binary64::of_int(a).scale(),
    ensures
        !Binary64::of_int(a).is_nan(),
        !Binary64::of_int(a).is_infinite(),
        Binary64::of_int(a).negative() == (a < 0),
        Binary64::of_int(a).is_zero() == (a == 0),
        LEAST_SCALE <= Binary64::of_int(a).scale() <= 0,
        ({
            let x = Binary64::of_int(a);
            x.significand() * pow2((x.scale() - scale) as nat) == size_of(a) * pow2(
                (-scale) as nat,
            )
        }),
        Binary64::of_int(a).units(scale) == a * pow2((-scale) as nat),
        Binary64::of_int(a).significand() == size_of(a) * pow2(
            (-Binary64::of_int(a).scale()) as nat,
        ),
{
    lemma2_to64();
    let x = Binary64::of_int(a);
    let n = size_of(a);
    if a == 0 {
        assert(x.bits == 0);
        assert(0 * pow2((x.scale() - scale) as nat) == 0);
        assert(0 * pow2((-scale) as nat) == 0);
        assert(0 * pow2((-x.scale()) as nat) == 0);
    } else {
        lemma_exact_encoding(n);
        let plain = Binary64::of_nat(n);
        assert(x.magnitude() == plain.bits);
        assert(x.exponent() == plain.exponent());
        assert(x.fraction() == plain.fraction());
        let length = bit_length(n);
        let up = (53 - length) as nat;
        let more = (x.scale() - scale) as nat;
        lemma_pow2_adds(up, more);
        assert((n * pow2(up)) * pow2(more) == n * pow2((-scale) as nat)) by (nonlinear_arith)
            requires
                pow2((-scale) as nat) == pow2(up) * pow2(more),
        ;
        assert(-(n * pow2((-scale) as nat)) == (-n) * pow2((-scale) as nat)) by (nonlinear_arith);
    }
}

/// The encoding of an integer from the rounding of its size.
pub proof fn lemma_integer_from_rounding(total: int)
    requires
        -0x1_0000_0000_0000_0000 < total < 0x1_0000_0000_0000_0000,
        total != 0,
    ensures
        of_ratio(size_of(total), 1, 0).with_sign(total < 0) == Binary64::of_int(total),
{
    let n = size_of(total);
    law_encoding_is_rounding(n);
    lemma_encoding_is_finite(n);
}

/// The rounding of a whole number of units that is an integer is the
/// encoding of the integer.
pub proof fn lemma_sum_from_units(total: int, scale: int, both_negative: bool)
    requires
        -4 * HIDDEN_BIT < total < 4 * HIDDEN_BIT,
        scale <= 0,
        total == 0 ==> !both_negative,
    ensures
        ({
            let units = total * pow2((-scale) as nat);
            let x = if units == 0 {
                Binary64 { bits: 0 }.with_sign(both_negative)
            } else if units < 0 {
                of_ratio((-units) as nat, 1, scale).with_sign(true)
            } else {
                of_ratio(units as nat, 1, scale)
            };
            x == Binary64::of_int(total)
        }),
{
    let power = pow2((-scale) as nat);
    lemma_pow2_pos((-scale) as nat);
    let units = total * power;
    if total == 0 {
        assert(0 * power == 0);
    } else {
        let n = size_of(total);
        assert(units != 0 && (units < 0) == (total < 0) && size_of(units) == n * power)
            by (nonlinear_arith)
            requires
                units == total * power,
                power > 0,
                total != 0,
                n == if total < 0 {
                    -total
                } else {
                    total
                },
        ;
        lemma_rounding_shifts(n, 1, (-scale) as nat, scale);
        lemma_integer_from_rounding(total);
        lemma_rounding_has_no_sign(n, 1, 0);
    }
}

/// The sum of two values that count whole numbers of one unit.
pub proof fn lemma_sum_of_units(x: Binary64, y: Binary64, a: int, b: int)
    requires
        !x.is_nan(),
        !x.is_infinite(),
        !y.is_nan(),
        !y.is_infinite(),
        x.scale() <= 0,
        y.scale() <= 0,
        -2 * HIDDEN_BIT < a < 2 * HIDDEN_BIT,
        -2 * HIDDEN_BIT < b < 2 * HIDDEN_BIT,
        a + b == 0 ==> !(x.negative() && y.negative()),
        ({
            let scale = if x.scale() <= y.scale() {
                x.scale()
            } else {
                y.scale()
            };
            x.units(scale) == a * pow2((-scale) as nat) && y.units(scale) == b * pow2(
                (-scale) as nat,
            )
        }),
    ensures
        x.sum(y) == Binary64::of_int(a + b),
{
    let scale = if x.scale() <= y.scale() {
        x.scale()
    } else {
        y.scale()
    };
    let power = pow2((-scale) as nat);
    assert(a * power + b * power == (a + b) * power) by (nonlinear_arith);
    lemma_sum_from_units(a + b, scale, x.negative() && y.negative());
}

/// Addition does not depend on the order of its operands.
pub proof fn law_sum_commutes(a: Binary64, b: Binary64)
    ensures
        a.sum(b) == b.sum(a),
{
    lemma_exact_sum_commutes(a, b);
    if a.is_infinite() && b.is_infinite() && a.negative() == b.negative() {
        assert(a.bits == b.bits);
    }
}

/// Multiplication does not depend on the order of its operands.
pub proof fn law_product_commutes(a: Binary64, b: Binary64)
    ensures
        a.product(b) == b.product(a),
{
    assert(a.significand() * b.significand() == b.significand() * a.significand())
        by (nonlinear_arith);
}

/// Subtracting a value from itself gives positive zero, unless the value
/// is infinite or a NaN, when it gives the NaN.
pub proof fn law_difference_with_itself(a: Binary64)
    ensures
        a.difference(a).bits == if a.is_nan() || a.is_infinite() {
            NAN_BITS
        } else {
            0
        },
{
    let b = a.negated();
    assert(b.magnitude() == a.magnitude());
    assert(b.negative() == !a.negative());
    if !a.is_nan() && !a.is_infinite() {
        assert(b.significand() == a.significand());
        assert(b.scale() == a.scale());
        assert(a.units(a.scale()) + b.units(a.scale()) == 0);
    }
}

/// Floating addition is exact on integers: the sum of the encodings of two
/// integers of size below `2^53` is the encoding of their sum, rounded only
/// if that has more than fifty-three bits.
pub proof fn law_integer_sum(a: int, b: int)
    requires
        -2 * HIDDEN_BIT < a < 2 * HIDDEN_BIT,
        -2 * HIDDEN_BIT < b < 2 * HIDDEN_BIT,
    ensures
        Binary64::of_int(a).sum(Binary64::of_int(b)) == Binary64::of_int(a + b),
{
    let x = Binary64::of_int(a);
    let y = Binary64::of_int(b);
    lemma_parts_of_integer(a, x.scale());
    lemma_parts_of_integer(b, y.scale());
    let scale = if x.scale() <= y.scale() {
        x.scale()
    } else {
        y.scale()
    };
    lemma_parts_of_integer(a, scale);
    lemma_parts_of_integer(b, scale);
    lemma_sum_of_units(x, y, a, b);
}

/// Floating subtraction is exact on integers: the difference of the
/// encodings of two integers of size below `2^53` is the encoding of their
/// difference, rounded only if that has more than fifty-three bits.
pub proof fn law_integer_difference(a: int, b: int)
    requires
        -2 * HIDDEN_BIT < a < 2 * HIDDEN_BIT,
        -2 * HIDDEN_BIT < b < 2 * HIDDEN_BIT,
    ensures
        Binary64::of_int(a).difference(Binary64::of_int(b)) == Binary64::of_int(a - b),
{
    let x = Binary64::of_int(a);
    let y = Binary64::of_int(b);
    let z = y.negated();
    lemma_parts_of_integer(a, x.scale());
    lemma_parts_of_integer(b, y.scale());
    let scale = if x.scale() <= y.scale() {
        x.scale()
    } else {
        y.scale()
    };
    lemma_parts_of_integer(a, scale);
    lemma_parts_of_integer(b, scale);
    lemma_negated(y, scale);
    assert(-(b * pow2((-scale) as nat)) == (-b) * pow2((-scale) as nat)) by (nonlinear_arith);
    lemma_sum_of_units(x, z, a, -b);
}

/// Floating multiplication is exact on integers: the product of the
/// encodings of two integers is the encoding of their product, rounded only
/// if that has more than fifty-three bits. A product that is zero has the
/// sign that the signs of the two give.
pub proof fn law_integer_product(a: int, b: int)
    requires
        -0x1_0000_0000 < a < 0x1_0000_0000,
        -0x1_0000_0000 < b < 0x1_0000_0000,
        a * b != 0 || (a >= 0 && b >= 0),
    ensures
        Binary64::of_int(a).product(Binary64::of_int(b)) == Binary64::of_int(a * b),
{
    let x = Binary64::of_int(a);
    let y = Binary64::of_int(b);
    lemma_parts_of_integer(a, x.scale());
    lemma_parts_of_integer(b, y.scale());
    lemma2_to64();
    let n = size_of(a);
    let m = size_of(b);
    let up = (-x.scale()) as nat;
    let more = (-y.scale()) as nat;
    lemma_pow2_adds(up, more);
    assert((n * pow2(up)) * (m * pow2(more)) == (n * m) * pow2(up + more)) by (nonlinear_arith)
        requires
            pow2(up + more) == pow2(up) * pow2(more),
    ;
    lemma_rounding_shifts(n * m, 1, up + more, x.scale() + y.scale());
    assert(n * m == size_of(a * b) && n * m < 0x1_0000_0000_0000_0000 && ((a * b < 0) == ((a < 0)
        != (b < 0)) || a * b == 0)) by (nonlinear_arith)
        requires
            n == size_of(a),
            m == size_of(b),
            n < 0x1_0000_0000,
            m < 0x1_0000_0000,
    ;
    if a * b != 0 {
        lemma_integer_from_rounding(a * b);
    } else {
        assert(n * m == 0);
    }
}

/// Floating division rounds the ratio: the quotient of the encodings of
/// two integers of size below `2^53`, the second not zero, is the value
/// nearest to their ratio.
pub proof fn law_integer_quotient(a: int, b: int)
    requires
        -2 * HIDDEN_BIT < a < 2 * HIDDEN_BIT,
        -2 * HIDDEN_BIT < b < 2 * HIDDEN_BIT,
        b != 0,
    ensures
        Binary64::of_int(a).quotient(Binary64::of_int(b)) == of_ratio(
            size_of(a),
            size_of(b),
            0,
        ).with_sign((a < 0) != (b < 0)),
{
    let x = Binary64::of_int(a);
    let y = Binary64::of_int(b);
    lemma_parts_of_integer(a, x.scale());
    lemma_parts_of_integer(b, y.scale());
    lemma2_to64();
    let n = size_of(a);
    let m = size_of(b);
    let up = (-x.scale()) as nat;
    let more = (-y.scale()) as nat;
    lemma_rounding_shifts_down(n * pow2(up), m, more, x.scale() - y.scale());
    lemma_rounding_shifts(n, m, up, x.scale());
}

} // verus!
