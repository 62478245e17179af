use fourglyph::binary64::Binary64;
use fourglyph::value::{float_op, low_u16, Item, Mode, Operator, Undefined};

/// The same three variants with the order that the language prescribes,
/// written with hardware floats.
#[derive(PartialEq, PartialOrd)]
enum Plain {
    Int(i32),
    Float(f64),
    Char(u16),
}

fn float(x: f64) -> Item {
    Item::Float(Binary64 { bits: x.to_bits() })
}

fn plain(item: Item) -> Plain {
    match item {
        Item::Int(n) => Plain::Int(n),
        Item::Float(x) => Plain::Float(f64::from_bits(x.bits)),
        Item::Char(n) => Plain::Char(n),
    }
}

fn samples() -> Vec<Item> {
    let mut items = Vec::new();
    for n in [i32::MIN, -70000, -1, 0, 1, 5, 65535, 65536, i32::MAX] {
        items.push(Item::Int(n));
    }
    for x in [
        f64::NEG_INFINITY,
        -1e10,
        -2.5,
        -0.0,
        0.0,
        0.75,
        1.0,
        5.0,
        65535.5,
        70000.0,
        3e9,
        f64::INFINITY,
        f64::NAN,
    ] {
        items.push(float(x));
    }
    for n in [0, 1, 5, 0x41, 0xD800, u16::MAX] {
        items.push(Item::Char(n));
    }
    items
}

#[test]
fn mode_cycles_through_three() {
    assert_eq!(Mode::Int.next(), Mode::Float);
    assert_eq!(Mode::Float.next(), Mode::Char);
    assert_eq!(Mode::Char.next(), Mode::Int);
    for mode in [Mode::Int, Mode::Float, Mode::Char] {
        assert_eq!(mode.next().next().next(), mode);
    }
}

#[test]
fn integer_ranks_below_float_whatever_the_magnitude() {
    assert!(Item::Int(5).less_than(float(1.0)));
    assert!(!float(1.0).less_than(Item::Int(5)));
    assert!(Item::Int(i32::MAX).less_than(float(f64::NEG_INFINITY)));
    assert!(Item::Int(0).less_than(float(f64::NAN)));
    assert!(!float(0.0).less_than(Item::Int(0)));
}

#[test]
fn float_ranks_below_code_unit() {
    assert!(float(1e9).less_than(Item::Char(0)));
    assert!(!Item::Char(0).less_than(float(1e9)));
    assert!(Item::Int(9).less_than(Item::Char(1)));
    assert!(!Item::Char(1).less_than(Item::Int(9)));
}

#[test]
fn same_variant_compares_by_magnitude() {
    assert!(Item::Int(-3).less_than(Item::Int(2)));
    assert!(!Item::Int(2).less_than(Item::Int(2)));
    assert!(Item::Char(2).less_than(Item::Char(3)));
    assert!(!Item::Char(3).less_than(Item::Char(2)));
    assert!(float(-0.5).less_than(float(0.25)));
    assert!(!float(f64::NAN).less_than(float(f64::NAN)));
}

#[test]
fn less_than_agrees_with_the_derived_order() {
    for l in samples() {
        for r in samples() {
            assert_eq!(l.less_than(r), plain(l) < plain(r), "{l:?} < {r:?}");
        }
    }
}

#[test]
fn less_than_is_irreflexive() {
    for item in samples() {
        assert!(!item.less_than(item));
    }
}

#[test]
fn get_int_reads_every_variant() {
    assert_eq!(Item::Int(-9).get_int(), -9);
    assert_eq!(Item::Char(65535).get_int(), 65535);
    assert_eq!(float(-9.99).get_int(), -9);
    assert_eq!(float(1e12).get_int(), i32::MAX);
    assert_eq!(float(f64::NAN).get_int(), 0);
}

#[test]
fn into_integer_truncates_and_widens() {
    assert_eq!(Item::Int(7).into(Mode::Int), Item::Int(7));
    assert_eq!(float(7.9).into(Mode::Int), Item::Int(7));
    assert_eq!(float(-7.9).into(Mode::Int), Item::Int(-7));
    assert_eq!(Item::Char(65535).into(Mode::Int), Item::Int(65535));
}

#[test]
fn into_float_is_exact() {
    assert_eq!(Item::Int(-7).into(Mode::Float), float(-7.0));
    assert_eq!(Item::Int(i32::MIN).into(Mode::Float), float(-2147483648.0));
    assert_eq!(Item::Char(65535).into(Mode::Float), float(65535.0));
    assert_eq!(float(0.1).into(Mode::Float), float(0.1));
    assert_eq!(float(f64::NAN).into(Mode::Float), float(f64::NAN));
}

#[test]
fn into_code_unit_keeps_the_low_sixteen_bits() {
    assert_eq!(Item::Int(65).into(Mode::Char), Item::Char(65));
    assert_eq!(Item::Int(65536 + 65).into(Mode::Char), Item::Char(65));
    assert_eq!(Item::Int(-1).into(Mode::Char), Item::Char(65535));
    assert_eq!(Item::Int(i32::MIN).into(Mode::Char), Item::Char(0));
    assert_eq!(float(65.9).into(Mode::Char), Item::Char(65));
    assert_eq!(float(70000.0).into(Mode::Char), Item::Char(4464));
    assert_eq!(float(-1.0).into(Mode::Char), Item::Char(65535));
    assert_eq!(Item::Char(9).into(Mode::Char), Item::Char(9));
}

#[test]
fn into_gives_the_variant_of_the_mode() {
    for item in samples() {
        assert!(matches!(item.into(Mode::Int), Item::Int(_)));
        assert!(matches!(item.into(Mode::Float), Item::Float(_)));
        assert!(matches!(item.into(Mode::Char), Item::Char(_)));
        assert_eq!(item.into(Mode::Int), Item::Int(item.get_int()));
        assert_eq!(item.into(Mode::Char), Item::Char(item.get_int() as u16));
    }
}

#[test]
fn low_u16_keeps_the_low_bits() {
    for n in [i32::MIN, -65537, -65536, -1, 0, 1, 65535, 65536, 65537, i32::MAX] {
        assert_eq!(low_u16(n), n as u16);
    }
}

#[test]
fn literal_holds_the_run_length() {
    assert_eq!(Item::literal(2, Mode::Int), Item::Int(2));
    assert_eq!(Item::literal(2, Mode::Float), float(2.0));
    assert_eq!(Item::literal(2, Mode::Char), Item::Char(2));
    assert_eq!(Item::literal(i32::MAX as usize, Mode::Int), Item::Int(i32::MAX));
    assert_eq!(Item::literal(65535, Mode::Char), Item::Char(65535));
}

#[test]
fn literal_beyond_the_variant_keeps_the_low_bits() {
    assert_eq!(Item::literal(1 << 31, Mode::Int), Item::Int(i32::MIN));
    assert_eq!(Item::literal((1 << 32) + 5, Mode::Int), Item::Int(5));
    assert_eq!(Item::literal(65536, Mode::Char), Item::Char(0));
    assert_eq!(Item::literal(65536 + 66, Mode::Char), Item::Char(66));
    assert_eq!(Item::literal((1 << 53) + 1, Mode::Float), float(9007199254740992.0));
}

#[test]
fn integer_arithmetic_wraps() {
    assert_eq!(Item::Int(2).add(Item::Int(3)), Item::Int(5));
    assert_eq!(Item::Int(i32::MAX).add(Item::Int(1)), Item::Int(i32::MIN));
    assert_eq!(Item::Int(i32::MIN).sub(Item::Int(1)), Item::Int(i32::MAX));
    assert_eq!(Item::Int(65536).mul(Item::Int(65536)), Item::Int(0));
    assert_eq!(Item::Int(-7).mul(Item::Int(6)), Item::Int(-42));
    assert_eq!(Item::Int(-7).div(Item::Int(2)), Ok(Item::Int(-3)));
    assert_eq!(Item::Int(7).div(Item::Int(-2)), Ok(Item::Int(-3)));
    assert_eq!(Item::Int(-7).div(Item::Int(-2)), Ok(Item::Int(3)));
}

#[test]
fn integer_arithmetic_agrees_with_wrapping_operations() {
    let values = [i32::MIN, i32::MIN + 1, -65536, -7, -1, 0, 1, 2, 13, 65535, 46341, i32::MAX];
    for a in values {
        for b in values {
            let (l, r) = (Item::Int(a), Item::Int(b));
            assert_eq!(l.add(r), Item::Int(a.wrapping_add(b)));
            assert_eq!(l.sub(r), Item::Int(a.wrapping_sub(b)));
            assert_eq!(l.mul(r), Item::Int(a.wrapping_mul(b)));
            let quotient = match a.checked_div(b) {
                Some(q) => Ok(Item::Int(q)),
                None if b == 0 => Err(Undefined::DivisionByZero),
                None => Err(Undefined::DivisionOverflow),
            };
            assert_eq!(l.div(r), quotient);
        }
    }
}

#[test]
fn code_unit_arithmetic_wraps() {
    assert_eq!(Item::Char(65535).add(Item::Char(2)), Item::Char(1));
    assert_eq!(Item::Char(3).sub(Item::Char(5)), Item::Char(65534));
    assert_eq!(Item::Char(256).mul(Item::Char(256)), Item::Char(0));
    assert_eq!(Item::Char(7).div(Item::Char(2)), Ok(Item::Char(3)));
    let values = [0u16, 1, 2, 255, 256, 40000, u16::MAX];
    for a in values {
        for b in values {
            let (l, r) = (Item::Char(a), Item::Char(b));
            assert_eq!(l.add(r), Item::Char(a.wrapping_add(b)));
            assert_eq!(l.sub(r), Item::Char(a.wrapping_sub(b)));
            assert_eq!(l.mul(r), Item::Char(a.wrapping_mul(b)));
            if b != 0 {
                assert_eq!(l.div(r), Ok(Item::Char(a / b)));
            }
        }
    }
}

#[test]
fn integer_with_code_unit_gives_integer() {
    assert_eq!(Item::Int(-5).add(Item::Char(65535)), Item::Int(65530));
    assert_eq!(Item::Char(3).sub(Item::Int(5)), Item::Int(-2));
    assert_eq!(Item::Char(65535).mul(Item::Int(65537)), Item::Int(-1));
    assert_eq!(Item::Int(-7).div(Item::Char(2)), Ok(Item::Int(-3)));
    assert_eq!(Item::Char(7).div(Item::Int(-2)), Ok(Item::Int(-3)));
}

#[test]
fn division_by_zero_has_no_result() {
    assert_eq!(Item::Int(1).div(Item::Int(0)), Err(Undefined::DivisionByZero));
    assert_eq!(Item::Int(1).div(Item::Char(0)), Err(Undefined::DivisionByZero));
    assert_eq!(Item::Char(1).div(Item::Int(0)), Err(Undefined::DivisionByZero));
    assert_eq!(Item::Char(1).div(Item::Char(0)), Err(Undefined::DivisionByZero));
    assert_eq!(Item::Int(0).div(Item::Int(0)), Err(Undefined::DivisionByZero));
}

#[test]
fn division_overflow_has_no_result() {
    assert_eq!(Item::Int(i32::MIN).div(Item::Int(-1)), Err(Undefined::DivisionOverflow));
    assert_eq!(Item::Int(i32::MIN + 1).div(Item::Int(-1)), Ok(Item::Int(i32::MAX)));
    assert_eq!(Item::Int(i32::MIN).div(Item::Int(1)), Ok(Item::Int(i32::MIN)));
}

#[test]
fn floating_operand_makes_the_result_floating() {
    assert_eq!(Item::Int(3).add(float(0.5)), float(3.5));
    assert_eq!(float(0.5).sub(Item::Int(3)), float(-2.5));
    assert_eq!(Item::Char(3).mul(float(0.5)), float(1.5));
    assert_eq!(float(0.5).div(Item::Char(2)), Ok(float(0.25)));
    assert_eq!(float(0.1).add(float(0.2)), float(0.1 + 0.2));
    assert_eq!(Item::Int(1).div(float(3.0)), Ok(float(1.0 / 3.0)));
}

#[test]
fn floating_division_by_zero_follows_ieee() {
    assert_eq!(float(1.0).div(Item::Int(0)), Ok(float(f64::INFINITY)));
    assert_eq!(float(-1.0).div(Item::Char(0)), Ok(float(f64::NEG_INFINITY)));
    assert_eq!(Item::Int(1).div(float(-0.0)), Ok(float(f64::NEG_INFINITY)));
    match float(0.0).div(float(0.0)) {
        Ok(Item::Float(x)) => assert!(f64::from_bits(x.bits).is_nan()),
        other => panic!("unexpected {other:?}"),
    }
}

#[test]
fn floating_arithmetic_agrees_with_hardware() {
    let values = [0.0, -0.0, 1.0, -1.5, 0.1, 1e-310, 3e200, -7e-200, 12345.678, f64::INFINITY];
    for a in values {
        for b in values {
            for (op, expected) in [
                (Operator::Add, a + b),
                (Operator::Subtract, a - b),
                (Operator::Multiply, a * b),
                (Operator::Divide, a / b),
            ] {
                let found = float_op(op, Binary64 { bits: a.to_bits() }, Binary64 { bits: b.to_bits() });
                if expected.is_nan() {
                    assert!(f64::from_bits(found.bits).is_nan());
                } else {
                    assert_eq!(found.bits, expected.to_bits(), "{a:e} {op:?} {b:e}");
                }
                assert_eq!(float(a).combine(op, float(b)), Ok(Item::Float(found)));
            }
        }
    }
}

#[test]
fn widen_is_exact() {
    assert_eq!(Item::Int(-3).widen().bits, (-3.0f64).to_bits());
    assert_eq!(Item::Char(3).widen().bits, 3.0f64.to_bits());
    assert_eq!(float(0.1).widen().bits, 0.1f64.to_bits());
}
