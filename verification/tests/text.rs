use fourglyph::binary64::Binary64;
use fourglyph::glyph::{tokenize, Glyph};
use fourglyph::machine::render_all;
use fourglyph::render::{decode_unit, render_fixed, render_integer};
use fourglyph::text::{chars_of, encode_utf16, is_whitespace, parse_integer};
use fourglyph::value::Item;

fn float(x: f64) -> Binary64 {
    Binary64 { bits: x.to_bits() }
}

/// A fixed sequence of well-mixed 64-bit patterns.
fn patterns(count: usize) -> Vec<u64> {
    let mut state: u64 = 0x2545_F491_4F6C_DD1D;
    let mut out = Vec::new();
    for _ in 0..count {
        state ^= state << 13;
        state ^= state >> 7;
        state ^= state << 17;
        out.push(state);
    }
    out
}

#[test]
fn tokenize_keeps_only_the_four_glyphs() {
    assert_eq!(
        tokenize("木 野,ど\n松"),
        vec![Glyph::Tree, Glyph::Field, Glyph::Run, Glyph::Pine]
    );
    assert_eq!(tokenize(""), vec![]);
    assert_eq!(tokenize("plain text, 本 and 林 are no glyphs"), vec![]);
}

#[test]
fn tokenize_preserves_order_and_repeats() {
    assert_eq!(
        tokenize("どど野x野野y木ど"),
        vec![
            Glyph::Run,
            Glyph::Run,
            Glyph::Field,
            Glyph::Field,
            Glyph::Field,
            Glyph::Tree,
            Glyph::Run
        ]
    );
}

#[test]
fn classify_and_symbol_are_inverse() {
    for glyph in [Glyph::Tree, Glyph::Field, Glyph::Run, Glyph::Pine] {
        assert_eq!(Glyph::classify(glyph.symbol()), Some(glyph));
    }
    assert_eq!(Glyph::Tree.symbol(), '木');
    assert_eq!(Glyph::Field.symbol(), '野');
    assert_eq!(Glyph::Run.symbol(), 'ど');
    assert_eq!(Glyph::Pine.symbol(), '松');
    assert_eq!(Glyph::classify('と'), None);
    assert_eq!(Glyph::classify(' '), None);
}

#[test]
fn chars_of_lists_the_characters() {
    assert_eq!(chars_of("a木😀"), vec!['a', '木', '😀']);
    assert_eq!(chars_of(""), Vec::<char>::new());
}

#[test]
fn is_whitespace_agrees_with_unicode() {
    for n in 0..=0x10FFFFu32 {
        if let Some(c) = char::from_u32(n) {
            assert_eq!(is_whitespace(c), c.is_whitespace(), "U+{n:04X}");
        }
    }
}

#[test]
fn parse_integer_reads_signed_decimals() {
    assert_eq!(parse_integer("0"), Some(0));
    assert_eq!(parse_integer("42\n"), Some(42));
    assert_eq!(parse_integer("  -42\r\n"), Some(-42));
    assert_eq!(parse_integer("+7"), Some(7));
    assert_eq!(parse_integer("-0"), Some(0));
    assert_eq!(parse_integer("0000012"), Some(12));
    assert_eq!(parse_integer("\u{3000}5\u{2003}"), Some(5));
}

#[test]
fn parse_integer_knows_the_range() {
    assert_eq!(parse_integer("2147483647"), Some(i32::MAX));
    assert_eq!(parse_integer("-2147483648"), Some(i32::MIN));
    assert_eq!(parse_integer("2147483648"), None);
    assert_eq!(parse_integer("-2147483649"), None);
    assert_eq!(parse_integer("99999999999999999999999999"), None);
    assert_eq!(parse_integer("000000000000000000000000002147483647"), Some(i32::MAX));
}

#[test]
fn parse_integer_rejects_everything_else() {
    for line in ["", " ", "\n", "-", "+", "+-1", "--1", "1-", "1 2", "1.0", "1e3", "0x10", "１２", "ten", "- 1", "1_000"]
    {
        assert_eq!(parse_integer(line), None, "{line:?}");
    }
}

#[test]
fn parse_integer_agrees_with_the_standard_parser() {
    let bodies = [
        "", "0", "7", "-7", "+7", "12345", "-12345", "2147483647", "2147483648", "-2147483648",
        "-2147483649", "4294967296", "00", "-00", "+", "-", "1a", "a1", "1 1", "1\t", "٣", "1.5",
        "+-3", "９", "-+3", "0-", "99999999999", "-99999999999",
    ];
    let pads = ["", " ", "\n", "\r\n", "\t ", "\u{a0}", "\u{2028}", "x", "\u{200b}"];
    for body in bodies {
        for left in pads {
            for right in pads {
                let line = format!("{left}{body}{right}");
                assert_eq!(parse_integer(&line), line.trim().parse::<i32>().ok(), "{line:?}");
            }
        }
    }
}

#[test]
fn parse_integer_agrees_with_the_standard_parser_on_any_text() {
    let alphabet: Vec<char> = "0123456789012345+-+- \n\t.a".chars().collect();
    let mut text = String::new();
    for bits in patterns(60_000) {
        text.clear();
        let mut rest = bits;
        let length = rest % 13;
        rest /= 13;
        for _ in 0..length {
            text.push(alphabet[(rest % alphabet.len() as u64) as usize]);
            rest /= alphabet.len() as u64;
        }
        assert_eq!(parse_integer(&text), text.trim().parse::<i32>().ok(), "{text:?}");
    }
}

#[test]
fn parse_integer_undoes_render_integer() {
    for n in [i32::MIN, -1000, -1, 0, 1, 9, 10, 11, 99, 100, 123456789, i32::MAX] {
        assert_eq!(parse_integer(&render_integer(n)), Some(n));
    }
}

#[test]
fn encode_utf16_splits_characters_beyond_the_basic_plane() {
    assert_eq!(encode_utf16("a"), vec![0x61]);
    assert_eq!(encode_utf16("木"), vec![0x6728]);
    assert_eq!(encode_utf16("😀"), vec![0xD83D, 0xDE00]);
    assert_eq!(encode_utf16("\u{10000}\u{10FFFF}"), vec![0xD800, 0xDC00, 0xDBFF, 0xDFFF]);
    assert_eq!(encode_utf16("\u{FFFF}"), vec![0xFFFF]);
    assert!(encode_utf16("").is_empty());
}

#[test]
fn encode_utf16_agrees_with_the_standard_encoder() {
    let mut text = String::new();
    for n in (0..=0x10FFFFu32).step_by(97) {
        if let Some(c) = char::from_u32(n) {
            text.push(c);
        }
    }
    let expected: Vec<u16> = text.encode_utf16().collect();
    assert_eq!(encode_utf16(&text), expected);
}

#[test]
fn render_integer_writes_plain_decimal() {
    assert_eq!(render_integer(0), "0");
    assert_eq!(render_integer(7), "7");
    assert_eq!(render_integer(-7), "-7");
    assert_eq!(render_integer(10), "10");
    assert_eq!(render_integer(1002003), "1002003");
    assert_eq!(render_integer(i32::MAX), "2147483647");
    assert_eq!(render_integer(i32::MIN), "-2147483648");
}

#[test]
fn render_integer_agrees_with_the_standard_formatter() {
    let mut n: i32 = 1;
    for _ in 0..5000 {
        assert_eq!(render_integer(n), n.to_string());
        assert_eq!(render_integer(n.wrapping_neg()), n.wrapping_neg().to_string());
        n = n.wrapping_mul(48271).wrapping_add(11);
    }
}

#[test]
fn decode_unit_substitutes_surrogates() {
    assert_eq!(decode_unit(0x41), 'A');
    assert_eq!(decode_unit(0), '\0');
    assert_eq!(decode_unit(0x6728), '木');
    assert_eq!(decode_unit(0xD7FF), '\u{D7FF}');
    assert_eq!(decode_unit(0xD800), '\u{FFFD}');
    assert_eq!(decode_unit(0xDBFF), '\u{FFFD}');
    assert_eq!(decode_unit(0xDC00), '\u{FFFD}');
    assert_eq!(decode_unit(0xDFFF), '\u{FFFD}');
    assert_eq!(decode_unit(0xE000), '\u{E000}');
    assert_eq!(decode_unit(0xFFFF), '\u{FFFF}');
}

#[test]
fn decode_unit_agrees_with_the_standard_decoder() {
    for unit in 0..=u16::MAX {
        let expected: String = char::decode_utf16([unit])
            .map(|r| r.unwrap_or(char::REPLACEMENT_CHARACTER))
            .collect();
        assert_eq!(decode_unit(unit).to_string(), expected);
    }
}

#[test]
fn render_writes_every_variant() {
    assert_eq!(Item::Int(-120).render(), "-120");
    assert_eq!(Item::Char(0x41).render(), "A");
    assert_eq!(Item::Char(0xD83D).render(), "\u{FFFD}");
    assert_eq!(Item::Char(0x0A).render(), "\n");
    assert_eq!(Item::Float(float(2.0)).render(), "2.000000");
    assert_eq!(Item::Float(float(-0.5)).render(), "-0.500000");
}

#[test]
fn render_fixed_writes_six_fraction_digits() {
    assert_eq!(render_fixed(float(0.0)), "0.000000");
    assert_eq!(render_fixed(float(1.0)), "1.000000");
    assert_eq!(render_fixed(float(2.0)), "2.000000");
    assert_eq!(render_fixed(float(2.5)), "2.500000");
    assert_eq!(render_fixed(float(0.1)), "0.100000");
    assert_eq!(render_fixed(float(-123.456)), "-123.456000");
    assert_eq!(render_fixed(float(3.14159265358979)), "3.141593");
    assert_eq!(render_fixed(float(1e22)), "10000000000000000000000.000000");
    assert_eq!(render_fixed(float(1e23)), "99999999999999991611392.000000");
}

#[test]
fn render_fixed_rounds_to_nearest_with_ties_to_even() {
    assert_eq!(render_fixed(float(1.0 / 128.0)), "0.007812");
    assert_eq!(render_fixed(float(3.0 / 128.0)), "0.023438");
    assert_eq!(render_fixed(float(-5.0 / 128.0)), "-0.039062");
    assert_eq!(render_fixed(float(0.9999995)), "1.000000");
    assert_eq!(render_fixed(float(0.99999949999)), "0.999999");
    assert_eq!(render_fixed(float(9.9999999)), "10.000000");
    assert_eq!(render_fixed(float(1.5e-6)), "0.000002");
    assert_eq!(render_fixed(float(4e-7)), "0.000000");
}

#[test]
fn render_fixed_keeps_the_sign_of_what_rounds_to_zero() {
    assert_eq!(render_fixed(float(-0.0)), "-0.000000");
    assert_eq!(render_fixed(float(-1e-9)), "-0.000000");
    assert_eq!(render_fixed(float(-f64::MIN_POSITIVE)), "-0.000000");
    assert_eq!(render_fixed(float(5e-324)), "0.000000");
}

#[test]
fn render_fixed_names_what_is_no_number() {
    assert_eq!(render_fixed(float(f64::INFINITY)), "inf");
    assert_eq!(render_fixed(float(f64::NEG_INFINITY)), "-inf");
    assert_eq!(render_fixed(float(f64::NAN)), "NaN");
    assert_eq!(render_fixed(float(-f64::NAN)), "NaN");
    assert_eq!(render_fixed(Binary64 { bits: 0xFFF0_0000_0000_0001 }), "NaN");
}

#[test]
fn render_fixed_writes_the_largest_values_in_full() {
    let text = render_fixed(float(f64::MAX));
    assert_eq!(text.len(), 309 + 7);
    assert_eq!(text, format!("{:.6}", f64::MAX));
    assert_eq!(render_fixed(float(f64::MIN)), format!("{:.6}", f64::MIN));
}

#[test]
fn render_fixed_agrees_with_the_standard_formatter() {
    for bits in patterns(3000) {
        let x = f64::from_bits(bits);
        assert_eq!(render_fixed(Binary64 { bits }), format!("{:.6}", x), "{x:e}");
    }
    for bits in patterns(30_000) {
        // exponents around one, where the fraction digits matter
        let bits = (bits & 0x800F_FFFF_FFFF_FFFF) | ((1000 + (bits >> 52) % 80) << 52);
        let x = f64::from_bits(bits);
        assert_eq!(render_fixed(Binary64 { bits }), format!("{:.6}", x), "{x:e}");
    }
    for n in 0..40_000u64 {
        // every multiple of 1/128 and of 1/1024: exact ties at the sixth digit
        for x in [n as f64 / 128.0, n as f64 / 1024.0, n as f64 / 1e6, n as f64 * 1e-7] {
            assert_eq!(render_fixed(float(x)), format!("{:.6}", x), "{x:e}");
            assert_eq!(render_fixed(float(-x)), format!("{:.6}", -x), "{x:e}");
        }
    }
    for exponent in 0..2047u64 {
        for fraction in [0u64, 1, 0x8_0000_0000_0000, 0xF_FFFF_FFFF_FFFF, 0x5_5555_5555_5555] {
            let bits = exponent << 52 | fraction;
            assert_eq!(render_fixed(Binary64 { bits }), format!("{:.6}", f64::from_bits(bits)));
        }
    }
}

#[test]
fn render_all_joins_without_separators() {
    assert_eq!(render_all(&vec![]), "");
    assert_eq!(
        render_all(&vec![Item::Int(-1), Item::Float(float(0.5)), Item::Char(0x41), Item::Int(20)]),
        "-10.500000A20"
    );
}
