//! Floating values as IEEE 754 binary64 bit patterns.
//!
//! A floating value is held as the 64 bits of its binary64 encoding: one
//! sign bit, eleven bits of biased exponent, fifty-two bits of fraction. With
//! an exponent `e` from 1 to 2046 and a fraction `f`, the bits stand for the
//! number `(2^52 + f) * 2^(e - 1075)`, negated if the sign bit is set;
//! exponent 0 holds the zeros and the subnormal numbers, exponent 2047 the
//! infinities and the NaNs.
//!
//! Everything is computed over those bits, in integers: here the order of
//! two values, the truncation of a value to a 32-bit integer, and the
//! encoding of an integer.

use crate::rounding::{lemma_ratio_top_of_whole, of_ratio, round_ratio};
use vstd::arithmetic::power2::{
    lemma2_to64, lemma2_to64_rest, lemma_pow2_adds, lemma_pow2_pos, lemma_pow2_strictly_increases,
    pow2,
};
use vstd::bits::{lemma_u64_shl_is_mul, lemma_u64_shr_is_div};
use vstd::prelude::*;

verus! {

/// The sign bit of an encoding, `2^63`.
pub const SIGN_BIT: u64 = 0x8000_0000_0000_0000;

/// The weight of the lowest exponent bit, `2^52`; also the implicit leading
/// bit of a normal significand.
pub const HIDDEN_BIT: u64 = 0x0010_0000_0000_0000;

/// The encoding of positive infinity. Magnitudes above it are NaNs.
pub const INFINITY_BITS: u64 = 0x7FF0_0000_0000_0000;

/// The biased exponent of the number one.
pub const EXPONENT_OF_ONE: u64 = 1023;

/// A binary64 value, held as its bit pattern.
///
/// Equality of two `Binary64` is equality of bit patterns: the two zeros
/// differ, and a NaN equals itself. The numeric order is [`Binary64::lt`].
#[derive(Clone, Copy, Debug, PartialEq, Eq, Structural)]
pub struct Binary64 {
    pub bits: u64,
}

/// The number of binary digits of `n`: 0 for 0, else one more than the
/// position of the highest set bit.
pub open spec fn bit_length(n: nat) -> nat
    decreases n,
{
    if n == 0 {
        0
    } else {
        1 + bit_length(n / 2)
    }
}

/// A positive number brought to fifty-three binary digits: shifted up if it
/// has fewer, rounded to the nearest if it has more. After a round up out of
/// all ones it is `2^53`.
pub open spec fn significand_of(n: nat) -> nat {
    let length = bit_length(n);
    if length <= 53 {
        n * pow2((53 - length) as nat)
    } else {
        round_ratio(n, pow2((length - 53) as nat))
    }
}

impl Binary64 {
    /// Whether the sign bit is set.
    pub open spec fn negative(self) -> bool {
        self.bits >= SIGN_BIT
    }

    /// The encoding without its sign bit. Among values that are not NaN, a
    /// larger magnitude encodes a larger absolute value.
    pub open spec fn magnitude(self) -> int {
        self.bits as int % SIGN_BIT as int
    }

    /// The biased exponent, from 0 to 2047.
    pub open spec fn exponent(self) -> int {
        self.magnitude() / HIDDEN_BIT as int
    }

    /// The fifty-two fraction bits.
    pub open spec fn fraction(self) -> int {
        self.bits as int % HIDDEN_BIT as int
    }

    /// Whether the value is a NaN.
    pub open spec fn is_nan(self) -> bool {
        self.magnitude() > INFINITY_BITS
    }

    /// Whether the value is one of the two infinities.
    pub open spec fn is_infinite(self) -> bool {
        self.magnitude() == INFINITY_BITS
    }

    /// The significand of a value that is neither infinite nor a NaN: the
    /// fraction, with the implicit leading bit unless the exponent is 0.
    pub open spec fn significand(self) -> nat {
        if self.exponent() == 0 {
            self.fraction() as nat
        } else {
            (HIDDEN_BIT + self.fraction()) as nat
        }
    }

    /// The power of two by which the significand is scaled: the size of the
    /// value is `significand * 2^scale`.
    pub open spec fn scale(self) -> int {
        if self.exponent() == 0 {
            -1074
        } else {
            self.exponent() - 1075
        }
    }

    /// An integer that orders as the value does, for values that are not
    /// NaN. Both zeros have key 0.
    pub open spec fn key(self) -> int {
        if self.negative() {
            -self.magnitude()
        } else {
            self.magnitude()
        }
    }

    /// The numeric order of binary64: strict, false whenever either side is
    /// a NaN, and blind to the sign of zero.
    pub open spec fn lt(self, other: Binary64) -> bool {
        !self.is_nan() && !other.is_nan() && self.key() < other.key()
    }

    /// The value cut to a 32-bit integer: rounded toward zero, held to the
    /// nearest bound when it lies outside the 32-bit range, 0 for a NaN.
    ///
    /// Below exponent 1023 the value is less than one; from exponent 1054 on
    /// it is at least `2^31`. In between, the whole part is the significand
    /// without its lowest `1075 - exponent` bits.
    pub open spec fn truncated(self) -> int {
        if self.is_nan() || self.exponent() < EXPONENT_OF_ONE {
            0
        } else if self.exponent() >= EXPONENT_OF_ONE + 31 {
            if self.negative() {
                i32::MIN as int
            } else {
                i32::MAX as int
            }
        } else {
            let whole = (HIDDEN_BIT + self.fraction()) / (pow2(
                (EXPONENT_OF_ONE + 52 - self.exponent()) as nat,
            ) as int);
            if self.negative() {
                -whole
            } else {
                whole
            }
        }
    }

    /// The binary64 value nearest to the natural number `n`, a tie going to
    /// the even significand. Exact for every `n` up to `2^53`.
    ///
    /// A number of `length` binary digits has its leading bit at weight
    /// `2^(length - 1)`, hence the exponent `1022 + length`. The leading bit
    /// of the significand is not stored; a significand of `2^53` carries
    /// into the exponent.
    pub open spec fn of_nat(n: nat) -> Binary64 {
        if n == 0 {
            Binary64 { bits: 0 }
        } else {
            Binary64 {
                bits: ((EXPONENT_OF_ONE - 1 + bit_length(n)) * HIDDEN_BIT + (significand_of(n)
                    - HIDDEN_BIT)) as u64,
            }
        }
    }

    /// The binary64 value nearest to the integer `n`; zero is positive zero.
    pub open spec fn of_int(n: int) -> Binary64 {
        if n < 0 {
            Binary64 { bits: (SIGN_BIT + Self::of_nat((-n) as nat).bits) as u64 }
        } else {
            Self::of_nat(n as nat)
        }
    }

    /// Decides the numeric order of two values from their bits.
    pub fn less_than(self, other: Binary64) -> (less: bool)
        ensures
            less == self.lt(other),
    {
        let left: u64 = self.bits % SIGN_BIT;
        let right: u64 = other.bits % SIGN_BIT;
        if left > INFINITY_BITS || right > INFINITY_BITS {
            false
        } else if self.bits >= SIGN_BIT {
            if other.bits >= SIGN_BIT {
                right < left
            } else {
                left != 0 || right != 0
            }
        } else {
            other.bits < SIGN_BIT && left < right
        }
    }

    /// Cuts the value to a 32-bit integer.
    pub fn to_i32(self) -> (n: i32)
        ensures
            n == self.truncated(),
    {
        let magnitude: u64 = self.bits % SIGN_BIT;
        let exponent: u64 = magnitude / HIDDEN_BIT;
        if magnitude > INFINITY_BITS || exponent < EXPONENT_OF_ONE {
            0
        } else if exponent >= EXPONENT_OF_ONE + 31 {
            if self.bits >= SIGN_BIT {
                i32::MIN
            } else {
                i32::MAX
            }
        } else {
            let significand: u64 = HIDDEN_BIT + self.bits % HIDDEN_BIT;
            let shift: u64 = EXPONENT_OF_ONE + 52 - exponent;
            let whole: u64 = significand >> shift;
            proof {
                lemma_u64_shr_is_div(significand, shift);
                lemma2_to64();
                if shift > 22 {
                    lemma_pow2_strictly_increases(22, shift as nat);
                }
                assert(whole < 0x8000_0000) by (nonlinear_arith)
                    requires
                        whole == significand as nat / pow2(shift as nat),
                        significand < 0x0020_0000_0000_0000,
                        pow2(shift as nat) >= 0x40_0000,
                ;
            }
            if self.bits >= SIGN_BIT {
                -(whole as i32)
            } else {
                whole as i32
            }
        }
    }

    /// Encodes an unsigned integer, rounding to nearest where it has more
    /// than fifty-three significant bits.
    pub fn from_u64(n: u64) -> (x: Binary64)
        ensures
            x == Self::of_nat(n as nat),
    {
        if n == 0 {
            return Binary64 { bits: 0 };
        }
        let length: u64 = count_bits(n as u128);
        proof {
            lemma2_to64();
            lemma2_to64_rest();
            lemma_bit_length_bounds(n as nat);
            lemma_bit_length_below(n as nat, 64);
            lemma_significand_bounds(n as nat);
        }
        let significand: u64 = if length <= 53 {
            let shift: u64 = 53 - length;
            proof {
                lemma_u64_shl_is_mul(n, shift);
            }
            n << shift
        } else {
            let shift: u64 = length - 53;
            proof {
                lemma_u64_shl_is_mul(1, shift);
                lemma_pow2_strictly_increases(shift as nat, 12);
                lemma_pow2_adds(1, (shift - 1) as nat);
            }
            let unit: u64 = 1u64 << shift;
            let quotient: u64 = n / unit;
            let rest: u64 = n % unit;
            let half: u64 = unit / 2;
            if rest > half || (rest == half && quotient % 2 == 1) {
                quotient + 1
            } else {
                quotient
            }
        };
        Binary64 { bits: (EXPONENT_OF_ONE - 1 + length) * HIDDEN_BIT + (significand - HIDDEN_BIT) }
    }

    /// Encodes a 32-bit integer, exactly.
    pub fn from_i32(n: i32) -> (x: Binary64)
        ensures
            x == Self::of_int(n as int),
    {
        if n < 0 {
            let size: u64 = (-(n as i64)) as u64;
            let plain = Self::from_u64(size);
            proof {
                lemma_encoding_is_finite(size as nat);
            }
            Binary64 { bits: SIGN_BIT + plain.bits }
        } else {
            Self::from_u64(n as u64)
        }
    }

    /// Encodes a 16-bit code unit, exactly.
    pub fn from_u16(n: u16) -> (x: Binary64)
        ensures
            x == Self::of_int(n as int),
    {
        Self::from_u64(n as u64)
    }
}

/// Counts the binary digits of a number.
pub fn count_bits(n: u128) -> (length: u64)
    ensures
        length == bit_length(n as nat),
        length <= 128,
{
    let mut length: u64 = 0;
    let mut rest: u128 = n;
    proof {
        lemma2_to64();
    }
    while rest > 0
        invariant
            bit_length(n as nat) == length + bit_length(rest as nat),
            length <= 128,
            rest as nat * pow2(length as nat) <= n,
        decreases rest,
    {
        proof {
            lemma_pow2_adds(1, length as nat);
            lemma2_to64();
            assert((rest / 2) as nat * pow2((length + 1) as nat) <= n) by (nonlinear_arith)
                requires
                    rest as nat * pow2(length as nat) <= n,
                    pow2((length + 1) as nat) == 2 * pow2(length as nat),
            ;
            if length == 128 {
                lemma_pow2_adds(64, 64);
                assert(rest as nat * pow2(128) >= pow2(128)) by (nonlinear_arith)
                    requires
                        rest >= 1,
                ;
            }
        }
        rest = rest / 2;
        length = length + 1;
    }
    length
}

/// A number with `length` binary digits lies between `2^(length-1)` and
/// `2^length`.
pub proof fn lemma_bit_length_bounds(n: nat)
    requires
        n > 0,
    ensures
        bit_length(n) >= 1,
        pow2((bit_length(n) - 1) as nat) <= n < pow2(bit_length(n)),
    decreases n,
{
    lemma2_to64();
    if n >= 2 {
        lemma_bit_length_bounds(n / 2);
        let shorter = bit_length(n / 2);
        lemma_pow2_adds(1, (shorter - 1) as nat);
        lemma_pow2_adds(1, shorter);
    } else {
        assert(bit_length(n / 2) == 0);
    }
}

/// A number below `2^k` has at most `k` binary digits.
pub proof fn lemma_bit_length_below(n: nat, k: nat)
    requires
        n < pow2(k),
    ensures
        bit_length(n) <= k,
{
    if n > 0 {
        lemma_bit_length_bounds(n);
        if bit_length(n) - 1 > k {
            lemma_pow2_strictly_increases(k, (bit_length(n) - 1) as nat);
        }
    }
}

/// A larger number has at least as many binary digits.
pub proof fn lemma_bit_length_grows(a: nat, b: nat)
    requires
        a <= b,
    ensures
        bit_length(a) <= bit_length(b),
{
    if a > 0 {
        lemma_bit_length_bounds(b);
        lemma_bit_length_below(a, bit_length(b));
    }
}

/// The significand of a positive number has fifty-three binary digits, or
/// is `2^53` after a round up.
pub proof fn lemma_significand_bounds(n: nat)
    requires
        n > 0,
    ensures
        HIDDEN_BIT <= significand_of(n) <= 2 * HIDDEN_BIT,
        bit_length(n) <= 53 ==> significand_of(n) < 2 * HIDDEN_BIT,
{
    let length = bit_length(n);
    lemma_bit_length_bounds(n);
    lemma2_to64();
    lemma2_to64_rest();
    if length <= 53 {
        let shift = (53 - length) as nat;
        lemma_pow2_adds(length, shift);
        lemma_pow2_adds((length - 1) as nat, shift);
        lemma_pow2_pos(shift);
        assert(n * pow2(shift) < pow2(53)) by (nonlinear_arith)
            requires
                n < pow2(length),
                pow2(length) * pow2(shift) == pow2(53),
                pow2(shift) > 0,
        ;
        assert(n * pow2(shift) >= pow2(52)) by (nonlinear_arith)
            requires
                n >= pow2((length - 1) as nat),
                pow2((length - 1) as nat) * pow2(shift) == pow2(52),
                pow2(shift) > 0,
        ;
    } else {
        let shift = (length - 53) as nat;
        lemma_pow2_adds(52, shift);
        lemma_pow2_adds(53, shift);
        lemma_pow2_pos(shift);
        let unit = pow2(shift);
        assert(pow2(52) <= n / unit < pow2(53)) by (nonlinear_arith)
            requires
                unit > 0,
                pow2(52) * unit <= n,
                n < pow2(53) * unit,
        ;
    }
}

/// The encoding of a natural number below `2^64` is a finite value that is
/// not negative: at most `2^64`, and at least one unless the number is 0.
pub proof fn lemma_encoding_is_finite(n: nat)
    requires
        n <= u64::MAX,
    ensures
        Binary64::of_nat(n).bits <= 0x43F0_0000_0000_0000,
        n > 0 ==> Binary64::of_nat(n).bits >= 0x3FF0_0000_0000_0000,
{
    if n > 0 {
        lemma2_to64();
        lemma2_to64_rest();
        lemma_bit_length_bounds(n);
        lemma_bit_length_below(n, 64);
        lemma_significand_bounds(n);
    }
}

/// The parts of the encoding of a positive number below `2^53`: it is not
/// negative and no NaN, its exponent is 1022 more than the number of binary
/// digits, and its significand is the number shifted up to fifty-three bits.
pub proof fn lemma_exact_encoding(n: nat)
    requires
        0 < n < 2 * HIDDEN_BIT,
    ensures
        1 <= bit_length(n) <= 53,
        !Binary64::of_nat(n).negative(),
        !Binary64::of_nat(n).is_nan(),
        Binary64::of_nat(n).magnitude() == Binary64::of_nat(n).bits,
        Binary64::of_nat(n).exponent() == EXPONENT_OF_ONE - 1 + bit_length(n),
        HIDDEN_BIT + Binary64::of_nat(n).fraction() == n * pow2((53 - bit_length(n)) as nat),
{
    lemma2_to64();
    lemma2_to64_rest();
    lemma_bit_length_bounds(n);
    lemma_bit_length_below(n, 53);
    lemma_significand_bounds(n);
}

/// Among natural numbers below `2^53`, a larger number has a larger
/// encoding.
pub proof fn lemma_encoding_grows(a: nat, b: nat)
    requires
        a < b < 2 * HIDDEN_BIT,
    ensures
        Binary64::of_nat(a).bits < Binary64::of_nat(b).bits,
{
    lemma_exact_encoding(b);
    lemma_encoding_is_finite(b);
    if a > 0 {
        lemma_exact_encoding(a);
        lemma_bit_length_grows(a, b);
        let length = bit_length(a);
        if length == bit_length(b) {
            let shift = (53 - length) as nat;
            lemma_pow2_pos(shift);
            assert(a * pow2(shift) < b * pow2(shift)) by (nonlinear_arith)
                requires
                    a < b,
                    pow2(shift) > 0,
            ;
        }
    }
}

/// The key of the encoding of an integer of size below `2^53` has the sign
/// of the integer and the bits of the encoding of its size, and the
/// encoding is no NaN.
pub proof fn lemma_key_of_encoding(n: int)
    requires
        -2 * HIDDEN_BIT < n < 2 * HIDDEN_BIT,
    ensures
        !Binary64::of_int(n).is_nan(),
        n >= 0 ==> Binary64::of_int(n).key() == Binary64::of_nat(n as nat).bits,
        n < 0 ==> Binary64::of_int(n).key() == -Binary64::of_nat((-n) as nat).bits,
        n > 0 ==> Binary64::of_int(n).key() > 0,
        n < 0 ==> Binary64::of_int(n).key() < 0,
{
    if n > 0 {
        lemma_exact_encoding(n as nat);
        lemma_encoding_is_finite(n as nat);
    } else if n < 0 {
        lemma_exact_encoding((-n) as nat);
        lemma_encoding_is_finite((-n) as nat);
    }
}

/// Encoding is exact on 32-bit integers: the encoding of a 32-bit integer
/// truncates back to the integer.
pub proof fn law_truncation_undoes_encoding(n: int)
    requires
        i32::MIN <= n <= i32::MAX,
    ensures
        Binary64::of_int(n).truncated() == n,
{
    if n != 0 {
        let size: nat = if n < 0 {
            (-n) as nat
        } else {
            n as nat
        };
        let plain = Binary64::of_nat(size);
        let length = bit_length(size);
        lemma2_to64();
        lemma2_to64_rest();
        lemma_exact_encoding(size);
        lemma_bit_length_bounds(size);
        lemma_bit_length_below(size, 32);
        let x = Binary64::of_int(n);
        assert(x.magnitude() == plain.bits);
        assert(x.exponent() == plain.exponent());
        assert(x.fraction() == plain.fraction());
        assert(x.negative() == (n < 0));
        if length == 32 {
            assert(size == 0x8000_0000);
        } else {
            let shift = (53 - length) as nat;
            lemma_pow2_pos(shift);
            assert((size as int * pow2(shift) as int) / (pow2(shift) as int) == size as int)
                by (nonlinear_arith)
                requires
                    pow2(shift) > 0,
            ;
        }
    }
}

/// Encoding keeps the order: between integers that binary64 holds exactly,
/// the encodings compare as the integers do.
pub proof fn law_encoding_keeps_order(a: int, b: int)
    requires
        -2 * HIDDEN_BIT < a < 2 * HIDDEN_BIT,
        -2 * HIDDEN_BIT < b < 2 * HIDDEN_BIT,
    ensures
        Binary64::of_int(a).lt(Binary64::of_int(b)) <==> a < b,
{
    lemma_key_of_encoding(a);
    lemma_key_of_encoding(b);
    if a < b {
        if a < 0 && b < 0 {
            lemma_encoding_grows((-b) as nat, (-a) as nat);
        } else if a >= 0 {
            lemma_encoding_grows(a as nat, b as nat);
        }
    } else if b < a {
        if a < 0 && b < 0 {
            lemma_encoding_grows((-a) as nat, (-b) as nat);
        } else if b >= 0 {
            lemma_encoding_grows(b as nat, a as nat);
        }
    }
}

/// Encoding a natural number is rounding it: the encoding is the value
/// nearest to the number.
pub proof fn law_encoding_is_rounding(n: nat)
    requires
        n <= u64::MAX,
    ensures
        Binary64::of_nat(n) == of_ratio(n, 1, 0),
{
    if n > 0 {
        lemma2_to64();
        lemma2_to64_rest();
        lemma_ratio_top_of_whole(n);
        lemma_bit_length_bounds(n);
        lemma_bit_length_below(n, 64);
        lemma_significand_bounds(n);
        let length = bit_length(n);
        if length <= 53 {
            let scaled = n * pow2((53 - length) as nat);
            assert(scaled / 1 == scaled && scaled % 1 == 0);
        } else {
            assert(1 * pow2((length - 53) as nat) == pow2((length - 53) as nat));
        }
    }
}

} // verus!
