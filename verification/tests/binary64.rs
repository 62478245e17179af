use fourglyph::binary64::Binary64;

fn float(x: f64) -> Binary64 {
    Binary64 { bits: x.to_bits() }
}

/// A fixed sequence of well-mixed 64-bit patterns.
fn patterns(count: usize) -> Vec<u64> {
    let mut state: u64 = 0x9E37_79B9_7F4A_7C15;
    let mut out = Vec::new();
    for _ in 0..count {
        state ^= state << 13;
        state ^= state >> 7;
        state ^= state << 17;
        out.push(state);
    }
    out
}

fn specials() -> Vec<f64> {
    vec![
        0.0,
        -0.0,
        1.0,
        -1.0,
        0.5,
        -0.5,
        0.999_999_999_999,
        -0.999_999_999_999,
        1.5,
        2.0,
        -2.5,
        65535.0,
        65536.0,
        70000.9,
        2147483646.5,
        2147483647.0,
        2147483647.5,
        2147483648.0,
        -2147483648.0,
        -2147483648.5,
        -2147483649.0,
        4294967296.0,
        1e30,
        -1e30,
        f64::MIN_POSITIVE,
        f64::MIN_POSITIVE / 4.0,
        f64::MAX,
        f64::MIN,
        f64::INFINITY,
        f64::NEG_INFINITY,
        f64::NAN,
        -f64::NAN,
    ]
}

#[test]
fn from_u64_encodes_small_numbers_exactly() {
    assert_eq!(Binary64::from_u64(0).bits, 0);
    assert_eq!(Binary64::from_u64(1).bits, 0x3FF0_0000_0000_0000);
    assert_eq!(Binary64::from_u64(2).bits, 0x4000_0000_0000_0000);
    assert_eq!(Binary64::from_u64(3).bits, 0x4008_0000_0000_0000);
    for n in 0..5000u64 {
        assert_eq!(Binary64::from_u64(n).bits, (n as f64).to_bits());
    }
}

#[test]
fn from_u64_rounds_to_nearest_even() {
    let two53: u64 = 1 << 53;
    // 2^53 + 1 lies halfway: the even significand wins on both sides.
    assert_eq!(Binary64::from_u64(two53 + 1).bits, (two53 as f64).to_bits());
    assert_eq!(Binary64::from_u64(two53 + 2).bits, ((two53 + 2) as f64).to_bits());
    assert_eq!(Binary64::from_u64(two53 + 3).bits, ((two53 + 4) as f64).to_bits());
    assert_eq!(Binary64::from_u64(u64::MAX).bits, 0x43F0_0000_0000_0000);
    for shift in 0..64u32 {
        let power: u64 = 1 << shift;
        for delta in 0..40u64 {
            for n in [power.wrapping_add(delta), power.wrapping_sub(delta), (power - 1) ^ delta] {
                assert_eq!(Binary64::from_u64(n).bits, (n as f64).to_bits(), "{n}");
            }
        }
    }
}

#[test]
fn from_u64_agrees_with_hardware_conversion() {
    for n in patterns(20_000) {
        for shift in [0, 1, 5, 10, 11, 12, 20, 33, 50] {
            let n = n >> shift;
            assert_eq!(Binary64::from_u64(n).bits, (n as f64).to_bits(), "{n}");
        }
    }
}

#[test]
fn from_i32_is_exact() {
    assert_eq!(Binary64::from_i32(-1).bits, 0xBFF0_0000_0000_0000);
    assert_eq!(Binary64::from_i32(0).bits, 0);
    for n in [i32::MIN, i32::MIN + 1, -65536, -3, -1, 0, 1, 2, 7, 65535, i32::MAX - 1, i32::MAX] {
        assert_eq!(Binary64::from_i32(n).bits, (n as f64).to_bits());
    }
    for n in patterns(20_000) {
        let n = n as i32;
        assert_eq!(Binary64::from_i32(n).bits, (n as f64).to_bits());
    }
}

#[test]
fn from_u16_is_exact() {
    for n in 0..=u16::MAX {
        assert_eq!(Binary64::from_u16(n).bits, (n as f64).to_bits());
    }
}

#[test]
fn to_i32_truncates_toward_zero() {
    assert_eq!(float(2.9).to_i32(), 2);
    assert_eq!(float(-2.9).to_i32(), -2);
    assert_eq!(float(0.99).to_i32(), 0);
    assert_eq!(float(-0.99).to_i32(), 0);
    assert_eq!(float(-0.0).to_i32(), 0);
}

#[test]
fn to_i32_holds_to_the_bounds() {
    assert_eq!(float(2147483647.0).to_i32(), i32::MAX);
    assert_eq!(float(2147483648.0).to_i32(), i32::MAX);
    assert_eq!(float(1e300).to_i32(), i32::MAX);
    assert_eq!(float(f64::INFINITY).to_i32(), i32::MAX);
    assert_eq!(float(-2147483648.0).to_i32(), i32::MIN);
    assert_eq!(float(-2147483649.0).to_i32(), i32::MIN);
    assert_eq!(float(f64::NEG_INFINITY).to_i32(), i32::MIN);
}

#[test]
fn to_i32_of_nan_is_zero() {
    assert_eq!(float(f64::NAN).to_i32(), 0);
    assert_eq!(Binary64 { bits: 0xFFF0_0000_0000_0001 }.to_i32(), 0);
    assert_eq!(Binary64 { bits: 0x7FFF_FFFF_FFFF_FFFF }.to_i32(), 0);
}

#[test]
fn to_i32_agrees_with_hardware_conversion() {
    for x in specials() {
        assert_eq!(float(x).to_i32(), x as i32, "{x}");
    }
    for bits in patterns(50_000) {
        assert_eq!(Binary64 { bits }.to_i32(), f64::from_bits(bits) as i32);
    }
    for n in patterns(50_000) {
        // values around the 32-bit range, with a fraction
        let x = (n as i64 >> 30) as f64 / 4.0;
        assert_eq!(float(x).to_i32(), x as i32, "{x}");
    }
}

#[test]
fn to_i32_undoes_from_i32() {
    for n in [i32::MIN, -1, 0, 1, i32::MAX] {
        assert_eq!(Binary64::from_i32(n).to_i32(), n);
    }
    for n in patterns(20_000) {
        let n = (n >> 17) as i32;
        assert_eq!(Binary64::from_i32(n).to_i32(), n);
    }
}

#[test]
fn less_than_orders_as_the_numbers_do() {
    assert!(float(1.0).less_than(float(2.0)));
    assert!(!float(2.0).less_than(float(1.0)));
    assert!(float(-2.0).less_than(float(-1.0)));
    assert!(float(-1.0).less_than(float(1.0)));
    assert!(!float(1.0).less_than(float(1.0)));
    assert!(float(f64::NEG_INFINITY).less_than(float(f64::MIN)));
    assert!(float(f64::MAX).less_than(float(f64::INFINITY)));
}

#[test]
fn less_than_treats_the_zeros_as_equal() {
    assert!(!float(-0.0).less_than(float(0.0)));
    assert!(!float(0.0).less_than(float(-0.0)));
    assert!(float(-0.0).less_than(float(f64::MIN_POSITIVE / 4.0)));
}

#[test]
fn less_than_is_false_for_nan() {
    for x in specials() {
        assert!(!float(f64::NAN).less_than(float(x)));
        assert!(!float(x).less_than(float(f64::NAN)));
        assert!(!float(-f64::NAN).less_than(float(x)));
    }
}

#[test]
fn less_than_agrees_with_hardware_comparison() {
    for a in specials() {
        for b in specials() {
            assert_eq!(float(a).less_than(float(b)), a < b, "{a} < {b}");
        }
    }
    let bits = patterns(40_000);
    for pair in bits.chunks(2) {
        let (a, b) = (pair[0], pair[1]);
        assert_eq!(
            Binary64 { bits: a }.less_than(Binary64 { bits: b }),
            f64::from_bits(a) < f64::from_bits(b)
        );
        // neighbours in the encoding
        let c = a ^ (b & 3);
        assert_eq!(
            Binary64 { bits: a }.less_than(Binary64 { bits: c }),
            f64::from_bits(a) < f64::from_bits(c)
        );
    }
}
