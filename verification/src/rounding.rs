//! Rounding to binary64.
//!
//! Every number that arithmetic or reading comes to is a ratio of two
//! natural numbers times a power of two. This module says which binary64
//! value is nearest to such a number, a tie going to the even significand,
//! and computes it for numbers of up to 126 bits.

use crate::binary64::{
    bit_length, count_bits, lemma_bit_length_below, lemma_bit_length_bounds, Binary64, HIDDEN_BIT,
    INFINITY_BITS,
};
use vstd::arithmetic::div_mod::{
    lemma_basic_div, lemma_fundamental_div_mod, lemma_fundamental_div_mod_converse,
    lemma_small_mod,
};
use vstd::arithmetic::power2::{
    lemma2_to64, lemma2_to64_rest, lemma_pow2_adds, lemma_pow2_pos, lemma_pow2_strictly_increases,
    pow2,
};
use vstd::prelude::*;

verus! {

/// The scale of the smallest unit that binary64 has, `2^-1074`.
pub const LEAST_SCALE: i64 = -1074;

/// `n / d`, rounded to the nearest integer, a tie going to the even one.
pub open spec fn round_ratio(n: nat, d: nat) -> nat
    recommends
        d > 0,
{
    let quotient = n / d;
    let rest = n % d;
    if 2 * rest > d || (2 * rest == d && quotient % 2 == 1) {
        quotient + 1
    } else {
        quotient
    }
}

/// The exponent `top` with `2^(top-1) <= n / d < 2^top`, for positive `n`
/// and `d`.
pub open spec fn ratio_top(n: nat, d: nat) -> int
    recommends
        n > 0,
        d > 0,
{
    let longer = bit_length(n) - bit_length(d);
    if longer >= 0 {
        if n >= d * pow2(longer as nat) {
            longer + 1
        } else {
            longer
        }
    } else {
        if n * pow2((-longer) as nat) >= d {
            longer + 1
        } else {
            longer
        }
    }
}

/// The positive binary64 value nearest to `n / d * 2^scale`, a tie going to
/// the even significand: positive zero if `n` is zero or the number rounds
/// to nothing, positive infinity if it is too large.
///
/// The number lies between `2^(top-1)` and `2^top`. Its unit in the last
/// place is `2^(top-53)`, but never less than the least unit `2^-1074`. The
/// significand is the number in such units, rounded; one of `2^53` carries
/// into the exponent.
pub open spec fn of_ratio(n: nat, d: nat, scale: int) -> Binary64
    recommends
        d > 0,
{
    if n == 0 {
        Binary64 { bits: 0 }
    } else {
        let top = ratio_top(n, d) + scale;
        let unit = if top - 53 > LEAST_SCALE {
            top - 53
        } else {
            LEAST_SCALE as int
        };
        let significand = if scale >= unit {
            round_ratio(n * pow2((scale - unit) as nat), d)
        } else {
            round_ratio(n, d * pow2((unit - scale) as nat))
        };
        let bits = (unit - LEAST_SCALE) * HIDDEN_BIT + significand;
        if bits >= INFINITY_BITS {
            Binary64 { bits: INFINITY_BITS }
        } else {
            Binary64 { bits: bits as u64 }
        }
    }
}

/// The power of two with the given exponent.
pub(crate) fn power_of_two(exponent: u64) -> (power: u128)
    requires
        exponent <= 127,
    ensures
        power == pow2(exponent as nat),
        power >= 1,
{
    let mut power: u128 = 1;
    let mut done: u64 = 0;
    proof {
        lemma2_to64();
        lemma2_to64_rest();
        lemma_pow2_adds(64, 63);
    }
    while done < exponent
        invariant
            done <= exponent <= 127,
            power == pow2(done as nat),
            power >= 1,
            pow2(127) == 0x8000_0000_0000_0000_0000_0000_0000_0000,
        decreases exponent - done,
    {
        proof {
            lemma2_to64();
            lemma_pow2_adds(1, done as nat);
            if done + 1 < 127 {
                lemma_pow2_strictly_increases((done + 1) as nat, 127);
            }
        }
        power = power * 2;
        done = done + 1;
    }
    power
}

/// Divides and rounds to the nearest integer, a tie going to the even one.
pub(crate) fn round_quotient(n: u128, d: u128) -> (rounded: u128)
    requires
        0 < d < 0x8000_0000_0000_0000_0000_0000_0000_0000,
    ensures
        rounded == round_ratio(n as nat, d as nat),
{
    let quotient: u128 = n / d;
    let rest: u128 = n % d;
    if 2 * rest > d || (2 * rest == d && quotient % 2 == 1) {
        assert(quotient < n || n == 0) by (nonlinear_arith)
            requires
                quotient == n / d,
                rest == n % d,
                2 * rest >= d,
                d > 0,
                n >= 0,
        ;
        quotient + 1
    } else {
        quotient
    }
}

/// Rounds `n / d * 2^scale` to the nearest binary64 value.
pub(crate) fn encode(n: u128, d: u128, scale: i64) -> (x: Binary64)
    requires
        n < 0x4000_0000_0000_0000_0000_0000_0000_0000,
        0 < d < 0x8000_0000_0000_0000,
        -4000 <= scale <= 4000,
    ensures
        x == of_ratio(n as nat, d as nat, scale as int),
{
    if n == 0 {
        return Binary64 { bits: 0 };
    }
    let n_length: u64 = count_bits(n);
    let d_length: u64 = count_bits(d);
    proof {
        lemma2_to64();
        lemma2_to64_rest();
        lemma_pow2_127();
        lemma_bit_length_bounds(n as nat);
        lemma_bit_length_bounds(d as nat);
        lemma_pow2_adds(64, 62);
        lemma_bit_length_below(n as nat, 126);
        lemma_bit_length_below(d as nat, 63);
    }
    let longer: i64 = n_length as i64 - d_length as i64;
    let above: bool = if longer >= 0 {
        proof {
            lemma_scaled_bounds(d as nat, longer as nat);
            lemma_pow2_grows(n_length as nat, 126);
            lemma_pow2_adds(64, 62);
        }
        n >= d * power_of_two(longer as u64)
    } else {
        proof {
            lemma_scaled_bounds(n as nat, (-longer) as nat);
            lemma_pow2_grows(d_length as nat, 63);
        }
        n * power_of_two((-longer) as u64) >= d
    };
    let top: i64 = if above {
        longer + 1 + scale
    } else {
        longer + scale
    };
    assert(top == ratio_top(n as nat, d as nat) + scale);
    let unit: i64 = if top - 53 > LEAST_SCALE {
        top - 53
    } else {
        LEAST_SCALE
    };
    let significand: u128 = if scale >= unit {
        let up: u64 = (scale - unit) as u64;
        proof {
            lemma_scaled_bounds(n as nat, up as nat);
            lemma_pow2_grows(n_length as nat + up as nat, 116);
            lemma_pow2_adds(64, 52);
        }
        round_quotient(n * power_of_two(up), d)
    } else {
        let down: u64 = (unit - scale) as u64;
        if down + d_length > 127 {
            proof {
                lemma_scaled_bounds(d as nat, down as nat);
                lemma_pow2_grows(127, (d_length - 1 + down) as nat);
                let divisor = d as nat * pow2(down as nat);
                lemma_basic_div(n as int, divisor as int);
                lemma_small_mod(n as nat, divisor);
            }
            0
        } else {
            proof {
                lemma_scaled_bounds(d as nat, down as nat);
                lemma_pow2_grows((d_length + down) as nat, 127);
                lemma_pow2_pos((d_length - 1 + down) as nat);
            }
            round_quotient(n, d * power_of_two(down))
        }
    };
    proof {
        lemma_pow2_adds(64, 52);
        lemma_round_ratio_bound(n as nat, d as nat, scale as int, unit as int);
    }
    let steps: u128 = (unit - LEAST_SCALE) as u128;
    assert(steps * HIDDEN_BIT < 0x2_0000_0000_0000_0000) by (nonlinear_arith)
        requires
            steps < 8192,
            HIDDEN_BIT == 0x0010_0000_0000_0000,
    ;
    let bits: u128 = steps * HIDDEN_BIT as u128 + significand;
    if bits >= INFINITY_BITS as u128 {
        Binary64 { bits: INFINITY_BITS }
    } else {
        Binary64 { bits: bits as u64 }
    }
}

/// Powers of two grow with the exponent.
pub proof fn lemma_pow2_grows(a: nat, b: nat)
    requires
        a <= b,
    ensures
        pow2(a) <= pow2(b),
{
    if a < b {
        lemma_pow2_strictly_increases(a, b);
    }
}

/// The value of `2^127`.
pub proof fn lemma_pow2_127()
    ensures
        pow2(127) == 0x8000_0000_0000_0000_0000_0000_0000_0000,
{
    lemma2_to64();
    lemma2_to64_rest();
    lemma_pow2_adds(64, 63);
}

/// A product with a larger power of two is larger.
pub proof fn lemma_scaling_grows(n: nat, a: nat, b: nat)
    requires
        a <= b,
    ensures
        n * pow2(a) <= n * pow2(b),
        n > 0 && a < b ==> n * pow2(a) < n * pow2(b),
{
    lemma_pow2_grows(a, b);
    assert(n * pow2(a) <= n * pow2(b)) by (nonlinear_arith)
        requires
            pow2(a) <= pow2(b),
    ;
    if n > 0 && a < b {
        lemma_pow2_strictly_increases(a, b);
        assert(n * pow2(a) < n * pow2(b)) by (nonlinear_arith)
            requires
                pow2(a) < pow2(b),
                n > 0,
        ;
    }
}

/// Scaling by a power of two moves the bounds that the number of binary
/// digits gives.
pub proof fn lemma_scaled_bounds(n: nat, k: nat)
    requires
        n > 0,
    ensures
        pow2((bit_length(n) - 1 + k) as nat) <= n * pow2(k) < pow2(bit_length(n) + k),
{
    lemma_bit_length_bounds(n);
    let length = bit_length(n);
    lemma_pow2_adds(length, k);
    lemma_pow2_adds((length - 1) as nat, k);
    lemma_pow2_pos(k);
    assert(n * pow2(k) < pow2(length) * pow2(k)) by (nonlinear_arith)
        requires
            n < pow2(length),
            pow2(k) > 0,
    ;
    assert(pow2((length - 1) as nat) * pow2(k) <= n * pow2(k)) by (nonlinear_arith)
        requires
            pow2((length - 1) as nat) <= n,
            pow2(k) > 0,
    ;
}

/// A number between `2^(k-1)` and `2^k` has `k` binary digits.
pub proof fn lemma_bit_length_from_bounds(n: nat, k: nat)
    requires
        k >= 1,
        pow2((k - 1) as nat) <= n < pow2(k),
    ensures
        bit_length(n) == k,
{
    lemma_pow2_pos((k - 1) as nat);
    lemma_bit_length_below(n, k);
    lemma_bit_length_bounds(n);
    if bit_length(n) < k {
        lemma_pow2_grows(bit_length(n), (k - 1) as nat);
    }
}

/// A rounded quotient is at most one more than the number divided.
pub proof fn lemma_round_ratio_bound(n: nat, d: nat, scale: int, unit: int)
    requires
        d > 0,
    ensures
        scale >= unit ==> round_ratio(n * pow2((scale - unit) as nat), d) <= n * pow2(
            (scale - unit) as nat,
        ) + 1,
        scale < unit ==> round_ratio(n, d * pow2((unit - scale) as nat)) <= n + 1,
{
    if scale >= unit {
        let scaled = n * pow2((scale - unit) as nat);
        assert(scaled / d <= scaled) by (nonlinear_arith)
            requires
                d > 0,
                scaled >= 0,
        ;
    } else {
        lemma_pow2_pos((unit - scale) as nat);
        let divisor = d * pow2((unit - scale) as nat);
        assert(divisor > 0) by (nonlinear_arith)
            requires
                d > 0,
                pow2((unit - scale) as nat) > 0,
                divisor == d * pow2((unit - scale) as nat),
        ;
        assert(n / divisor <= n) by (nonlinear_arith)
            requires
                divisor > 0,
                n >= 0,
        ;
    }
}

/// A ratio rounds the same whatever it is expanded by.
pub proof fn lemma_round_ratio_scales(n: nat, d: nat, c: nat)
    requires
        d > 0,
        c > 0,
    ensures
        round_ratio(n * c, d * c) == round_ratio(n, d),
{
    let quotient = n / d;
    let rest = n % d;
    lemma_fundamental_div_mod(n as int, d as int);
    assert(n * c == quotient * (d * c) + rest * c) by (nonlinear_arith)
        requires
            n == d * quotient + rest,
    ;
    assert(0 <= rest * c < d * c) by (nonlinear_arith)
        requires
            0 <= rest < d,
            c > 0,
    ;
    lemma_fundamental_div_mod_converse(
        (n * c) as int,
        (d * c) as int,
        quotient as int,
        (rest * c) as int,
    );
    assert((2 * (rest * c) > d * c) == (2 * rest > d)) by (nonlinear_arith)
        requires
            c > 0,
    ;
    assert((2 * (rest * c) == d * c) == (2 * rest == d)) by (nonlinear_arith)
        requires
            c > 0,
    ;
}

/// Over the divisor one, the exponent above a number is its number of
/// binary digits.
pub proof fn lemma_ratio_top_of_whole(n: nat)
    requires
        n > 0,
    ensures
        ratio_top(n, 1) == bit_length(n),
{
    lemma2_to64();
    lemma_bit_length_bounds(n);
    assert(bit_length(1) == 1) by {
        assert(bit_length(0) == 0);
        assert(1nat / 2 == 0);
    }
}

/// What the exponent above a ratio says: the ratio lies between the power
/// of two below it and the power of two with it.
pub proof fn lemma_ratio_top_bounds(n: nat, d: nat)
    requires
        n > 0,
        d > 0,
    ensures
        ratio_top(n, d) >= 1 ==> d * pow2((ratio_top(n, d) - 1) as nat) <= n < d * pow2(
            ratio_top(n, d) as nat,
        ),
        ratio_top(n, d) <= 0 ==> d <= n * pow2((1 - ratio_top(n, d)) as nat) && n * pow2(
            (-ratio_top(n, d)) as nat,
        ) < d,
{
    lemma2_to64();
    lemma_bit_length_bounds(n);
    lemma_bit_length_bounds(d);
    let n_length = bit_length(n);
    let d_length = bit_length(d);
    let longer = n_length - d_length;
    if longer >= 0 {
        let t = longer as nat;
        lemma_scaled_bounds(d, t);
        lemma_scaled_bounds(d, t + 1);
        if n >= d * pow2(t) {
        } else if t >= 1 {
            lemma_scaled_bounds(d, (t - 1) as nat);
        } else {
            assert(d * pow2(0) == d);
            assert(n * pow2(0) == n);
            assert(n * pow2(1) == 2 * n);
            lemma_pow2_adds(1, (n_length - 1) as nat);
        }
    } else {
        let t = (-longer) as nat;
        lemma_scaled_bounds(n, t);
        if n * pow2(t) >= d {
            lemma_scaled_bounds(n, (t - 1) as nat);
        } else {
            lemma_scaled_bounds(n, t + 1);
        }
    }
}

/// The exponent above a ratio is the only one between whose powers of two
/// the ratio lies.
pub proof fn lemma_ratio_top_is(n: nat, d: nat, top: int)
    requires
        n > 0,
        d > 0,
        top >= 1 ==> d * pow2((top - 1) as nat) <= n < d * pow2(top as nat),
        top <= 0 ==> d <= n * pow2((1 - top) as nat) && n * pow2((-top) as nat) < d,
    ensures
        ratio_top(n, d) == top,
{
    lemma2_to64();
    let found = ratio_top(n, d);
    lemma_ratio_top_bounds(n, d);
    if found >= 1 && top >= 1 {
        if found < top {
            lemma_scaling_grows(d, found as nat, (top - 1) as nat);
        } else if top < found {
            lemma_scaling_grows(d, top as nat, (found - 1) as nat);
        }
    } else if found >= 1 {
        lemma_scaling_grows(d, 0, (found - 1) as nat);
        lemma_scaling_grows(n, 0, (-top) as nat);
        assert(d * pow2(0) == d);
        assert(n * pow2(0) == n);
    } else if top >= 1 {
        lemma_scaling_grows(d, 0, (top - 1) as nat);
        lemma_scaling_grows(n, 0, (-found) as nat);
        assert(d * pow2(0) == d);
        assert(n * pow2(0) == n);
    } else {
        if found < top {
            lemma_scaling_grows(n, (1 - top) as nat, (-found) as nat);
        } else if top < found {
            lemma_scaling_grows(n, (1 - found) as nat, (-top) as nat);
        }
    }
}

/// The exponent above a ratio moves with the powers of two that the number
/// divided is multiplied by.
pub proof fn lemma_ratio_top_shifts(n: nat, d: nat, k: nat)
    requires
        n > 0,
        d > 0,
    ensures
        n * pow2(k) > 0,
        ratio_top(n * pow2(k), d) == ratio_top(n, d) + k,
{
    lemma2_to64();
    lemma_pow2_pos(k);
    assert(n * pow2(k) > 0) by (nonlinear_arith)
        requires
            n > 0,
            pow2(k) > 0,
    ;
    let top = ratio_top(n, d);
    lemma_ratio_top_bounds(n, d);
    let moved = top + k;
    if top >= 1 {
        lemma_pow2_adds((top - 1) as nat, k);
        lemma_pow2_adds(top as nat, k);
        assert(d * pow2((moved - 1) as nat) <= n * pow2(k)) by (nonlinear_arith)
            requires
                d * pow2((top - 1) as nat) <= n,
                pow2((moved - 1) as nat) == pow2((top - 1) as nat) * pow2(k),
                pow2(k) > 0,
        ;
        assert(n * pow2(k) < d * pow2(moved as nat)) by (nonlinear_arith)
            requires
                n < d * pow2(top as nat),
                pow2(moved as nat) == pow2(top as nat) * pow2(k),
                pow2(k) > 0,
        ;
    } else if moved >= 1 {
        let up = (moved - 1) as nat;
        lemma_pow2_adds((1 - top) as nat, up);
        lemma_pow2_adds((-top) as nat, moved as nat);
        lemma_pow2_pos(up);
        lemma_pow2_pos(moved as nat);
        assert(d * pow2(up) <= n * pow2(k)) by (nonlinear_arith)
            requires
                d <= n * pow2((1 - top) as nat),
                pow2(k) == pow2((1 - top) as nat) * pow2(up),
                pow2(up) > 0,
        ;
        assert(n * pow2(k) < d * pow2(moved as nat)) by (nonlinear_arith)
            requires
                n * pow2((-top) as nat) < d,
                pow2(k) == pow2((-top) as nat) * pow2(moved as nat),
                pow2(moved as nat) > 0,
        ;
    } else {
        lemma_pow2_adds(k, (1 - moved) as nat);
        lemma_pow2_adds(k, (-moved) as nat);
        assert((n * pow2(k)) * pow2((1 - moved) as nat) == n * pow2((1 - top) as nat))
            by (nonlinear_arith)
            requires
                pow2((1 - top) as nat) == pow2(k) * pow2((1 - moved) as nat),
        ;
        assert((n * pow2(k)) * pow2((-moved) as nat) == n * pow2((-top) as nat))
            by (nonlinear_arith)
            requires
                pow2((-top) as nat) == pow2(k) * pow2((-moved) as nat),
        ;
    }
    lemma_ratio_top_is(n * pow2(k), d, moved);
}

/// A ratio of at least `2^1024` rounds to infinity.
pub proof fn lemma_ratio_overflows(n: nat, d: nat)
    requires
        d > 0,
        n >= d * pow2(1024),
    ensures
        of_ratio(n, d, 0).bits == INFINITY_BITS,
{
    lemma2_to64();
    lemma2_to64_rest();
    lemma_pow2_pos(1024);
    assert(n > 0) by (nonlinear_arith)
        requires
            n >= d * pow2(1024),
            d > 0,
            pow2(1024) > 0,
    ;
    let top = ratio_top(n, d);
    lemma_ratio_top_bounds(n, d);
    if top <= 1024 {
        if top >= 1 {
            lemma_scaling_grows(d, top as nat, 1024);
        } else {
            lemma_scaling_grows(d, 0, 1024);
            lemma_scaling_grows(n, 0, (-top) as nat);
            assert(d * pow2(0) == d);
            assert(n * pow2(0) == n);
        }
    }
    assert(top >= 1025);
    let unit = top - 53;
    let divisor = d * pow2(unit as nat);
    lemma_pow2_adds(unit as nat, 52);
    lemma_pow2_pos(unit as nat);
    assert(divisor * pow2(52) == d * pow2((top - 1) as nat)) by (nonlinear_arith)
        requires
            divisor == d * pow2(unit as nat),
            pow2(unit as nat) * pow2(52) == pow2((top - 1) as nat),
    ;
    assert(divisor > 0) by (nonlinear_arith)
        requires
            divisor == d * pow2(unit as nat),
            d > 0,
            pow2(unit as nat) > 0,
    ;
    assert(n / divisor >= pow2(52)) by (nonlinear_arith)
        requires
            divisor > 0,
            n >= divisor * pow2(52),
    ;
    assert((unit - LEAST_SCALE) * HIDDEN_BIT >= 2046 * HIDDEN_BIT) by (nonlinear_arith)
        requires
            unit - LEAST_SCALE >= 2046,
    ;
}

/// A ratio of at most `2^-1075` rounds to zero.
pub proof fn lemma_ratio_underflows(n: nat, d: nat)
    requires
        d > 0,
        n * pow2(1075) <= d,
    ensures
        of_ratio(n, d, 0).bits == 0,
{
    if n > 0 {
        lemma2_to64();
        let top = ratio_top(n, d);
        lemma_ratio_top_bounds(n, d);
        lemma_pow2_adds(1, 1074);
        if top >= 1 {
            lemma_scaling_grows(d, 0, (top - 1) as nat);
            lemma_scaling_grows(n, 0, 1075);
            assert(d * pow2(0) == d);
            assert(n * pow2(0) == n);
            lemma_pow2_strictly_increases(0, 1075);
            assert(n * pow2(1075) > n) by (nonlinear_arith)
                requires
                    pow2(1075) > 1,
                    n > 0,
            ;
        } else if top > -1074 {
            lemma_scaling_grows(n, (1 - top) as nat, 1074);
            lemma_scaling_grows(n, 1074, 1075);
        }
        assert(top <= -1074);
        let scaled = n * pow2(1074);
        assert(2 * scaled == n * pow2(1075)) by (nonlinear_arith)
            requires
                scaled == n * pow2(1074),
                pow2(1075) == 2 * pow2(1074),
        ;
        lemma_basic_div(scaled as int, d as int);
        lemma_small_mod(scaled, d);
    }
}

/// The rounding of a number does not depend on how the number is split
/// between the number divided and the power of two.
pub proof fn lemma_rounding_shifts(n: nat, d: nat, k: nat, scale: int)
    requires
        d > 0,
    ensures
        of_ratio(n * pow2(k), d, scale) == of_ratio(n, d, scale + k),
{
    lemma2_to64();
    lemma_pow2_pos(k);
    if n == 0 {
        assert(0 * pow2(k) == 0);
    } else {
        lemma_ratio_top_shifts(n, d, k);
        let top = ratio_top(n, d) + k + scale;
        let unit = if top - 53 > LEAST_SCALE {
            top - 53
        } else {
            LEAST_SCALE as int
        };
        let moved = n * pow2(k);
        if scale >= unit {
            let up = (scale - unit) as nat;
            lemma_pow2_adds(k, up);
            assert(moved * pow2(up) == n * pow2(k + up)) by (nonlinear_arith)
                requires
                    moved == n * pow2(k),
                    pow2(k + up) == pow2(k) * pow2(up),
            ;
        } else if scale + k >= unit {
            let down = (unit - scale) as nat;
            let up = (scale + k - unit) as nat;
            lemma_pow2_adds(up, down);
            lemma_pow2_pos(down);
            assert(moved == (n * pow2(up)) * pow2(down)) by (nonlinear_arith)
                requires
                    moved == n * pow2(k),
                    pow2(k) == pow2(up) * pow2(down),
            ;
            lemma_round_ratio_scales(n * pow2(up), d, pow2(down));
        } else {
            let down = (unit - scale) as nat;
            let less = (unit - scale - k) as nat;
            lemma_pow2_adds(less, k);
            lemma_pow2_pos(less);
            assert(d * pow2(down) == (d * pow2(less)) * pow2(k)) by (nonlinear_arith)
                requires
                    pow2(down) == pow2(less) * pow2(k),
            ;
            assert(d * pow2(less) > 0) by (nonlinear_arith)
                requires
                    d > 0,
                    pow2(less) > 0,
            ;
            lemma_round_ratio_scales(n, d * pow2(less), pow2(k));
        }
    }
}

/// The rounding of a ratio does not depend on what the ratio is expanded
/// by.
pub proof fn lemma_rounding_cancels(n: nat, d: nat, c: nat, scale: int)
    requires
        d > 0,
        c > 0,
    ensures
        d * c > 0,
        of_ratio(n * c, d * c, scale) == of_ratio(n, d, scale),
{
    assert(d * c > 0) by (nonlinear_arith)
        requires
            d > 0,
            c > 0,
    ;
    if n == 0 {
        assert(0 * c == 0);
    } else {
        assert(n * c > 0) by (nonlinear_arith)
            requires
                n > 0,
                c > 0,
        ;
        let top = ratio_top(n, d);
        lemma_ratio_top_bounds(n, d);
        if top >= 1 {
            let low = pow2((top - 1) as nat);
            let high = pow2(top as nat);
            assert((d * c) * low <= n * c) by (nonlinear_arith)
                requires
                    d * low <= n,
                    c > 0,
            ;
            assert(n * c < (d * c) * high) by (nonlinear_arith)
                requires
                    n < d * high,
                    c > 0,
            ;
        } else {
            let low = pow2((1 - top) as nat);
            let high = pow2((-top) as nat);
            assert(d * c <= (n * c) * low) by (nonlinear_arith)
                requires
                    d <= n * low,
                    c > 0,
            ;
            assert((n * c) * high < d * c) by (nonlinear_arith)
                requires
                    n * high < d,
                    c > 0,
            ;
        }
        lemma_ratio_top_is(n * c, d * c, top);
        let total = top + scale;
        let unit = if total - 53 > LEAST_SCALE {
            total - 53
        } else {
            LEAST_SCALE as int
        };
        if scale >= unit {
            let power = pow2((scale - unit) as nat);
            assert((n * c) * power == (n * power) * c) by (nonlinear_arith);
            lemma_round_ratio_scales(n * power, d, c);
        } else {
            let power = pow2((unit - scale) as nat);
            lemma_pow2_pos((unit - scale) as nat);
            assert((d * c) * power == (d * power) * c) by (nonlinear_arith);
            assert(d * power > 0) by (nonlinear_arith)
                requires
                    d > 0,
                    power > 0,
            ;
            lemma_round_ratio_scales(n, d * power, c);
        }
    }
}

/// A power of two in the divisor counts as the same power taken off the
/// scale.
pub proof fn lemma_rounding_shifts_down(n: nat, d: nat, k: nat, scale: int)
    requires
        d > 0,
    ensures
        d * pow2(k) > 0,
        of_ratio(n, d * pow2(k), scale) == of_ratio(n, d, scale - k),
{
    lemma_pow2_pos(k);
    lemma_rounding_cancels(n, d, pow2(k), scale - k);
    lemma_rounding_shifts(n, d * pow2(k), k, scale - k);
}

} // verus!
