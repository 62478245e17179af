//! Lines of input: the decimal integer that a line holds, and the UTF-16
//! code units of a line.

use std::collections::VecDeque;
use vstd::prelude::*;

verus! {

/// Whether the character is white space, as Unicode's property
/// `White_Space` has it.
pub open spec fn is_space(c: char) -> bool {
    let n = c as u32;
    ||| 0x09 <= n <= 0x0D
    ||| n == 0x20
    ||| n == 0x85
    ||| n == 0xA0
    ||| n == 0x1680
    ||| 0x2000 <= n <= 0x200A
    ||| n == 0x2028
    ||| n == 0x2029
    ||| n == 0x202F
    ||| n == 0x205F
    ||| n == 0x3000
}

/// The text without its leading white space.
pub open spec fn trim_start(s: Seq<char>) -> Seq<char>
    decreases s.len(),
{
    if s.len() > 0 && is_space(s.first()) {
        trim_start(s.drop_first())
    } else {
        s
    }
}

/// The text without its trailing white space.
pub open spec fn trim_end(s: Seq<char>) -> Seq<char>
    decreases s.len(),
{
    if s.len() > 0 && is_space(s.last()) {
        trim_end(s.drop_last())
    } else {
        s
    }
}

/// The text without leading and trailing white space.
pub open spec fn trimmed(s: Seq<char>) -> Seq<char> {
    trim_end(trim_start(s))
}

/// Whether the character is one of the ten ASCII digits.
pub open spec fn is_digit(c: char) -> bool {
    '0' <= c <= '9'
}

/// The value of an ASCII digit.
pub open spec fn digit_value(c: char) -> nat {
    (c as u32 - '0' as u32) as nat
}

/// Whether the text consists of ASCII digits only.
pub open spec fn all_digits(s: Seq<char>) -> bool {
    forall|i: int| 0 <= i < s.len() ==> is_digit(#[trigger] s[i])
}

/// The number that a text of digits writes in base ten.
pub open spec fn decimal_value(s: Seq<char>) -> nat
    decreases s.len(),
{
    if s.len() == 0 {
        0
    } else {
        10 * decimal_value(s.drop_last()) + digit_value(s.last())
    }
}

/// The 32-bit integer that a text writes: an optional `+` or `-`, then one
/// or more digits, the whole within the 32-bit range. `None` for any other
/// text.
pub open spec fn integer_of(s: Seq<char>) -> Option<i32> {
    let signed = s.len() > 0 && (s[0] == '-' || s[0] == '+');
    let digits = if signed {
        s.drop_first()
    } else {
        s
    };
    let value = if signed && s[0] == '-' {
        -(decimal_value(digits) as int)
    } else {
        decimal_value(digits) as int
    };
    if digits.len() > 0 && all_digits(digits) && i32::MIN <= value <= i32::MAX {
        Some(value as i32)
    } else {
        None
    }
}

/// The UTF-16 code units of one character: itself below `U+10000`, a
/// surrogate pair above.
pub open spec fn units_of(c: char) -> Seq<u16> {
    let n = c as u32;
    if n < 0x1_0000 {
        seq![n as u16]
    } else {
        seq![
            (0xD800 + (n - 0x1_0000) / 0x400) as u16,
            (0xDC00 + (n - 0x1_0000) % 0x400) as u16,
        ]
    }
}

/// The UTF-16 encoding of a text.
pub open spec fn utf16_of(s: Seq<char>) -> Seq<u16>
    decreases s.len(),
{
    if s.len() == 0 {
        Seq::empty()
    } else {
        utf16_of(s.drop_last()) + units_of(s.last())
    }
}

/// Decides whether a character is white space.
pub fn is_whitespace(c: char) -> (space: bool)
    ensures
        space == is_space(c),
{
    let n: u32 = c as u32;
    (0x09 <= n && n <= 0x0D) || n == 0x20 || n == 0x85 || n == 0xA0 || n == 0x1680 || (0x2000 <= n
        && n <= 0x200A) || n == 0x2028 || n == 0x2029 || n == 0x202F || n == 0x205F || n == 0x3000
}

/// The characters of a text, in order.
pub fn chars_of(text: &str) -> (chars: Vec<char>)
    ensures
        chars@ == text@,
{
    let mut chars: Vec<char> = Vec::new();
    for c in it: text.chars()
        invariant
            it.seq() == text@,
            chars@ == text@.take(it.index() as int),
    {
        chars.push(c);
    }
    assert(text@.take(text@.len() as int) == text@);
    chars
}

/// The characters of a text without its leading and trailing white space.
pub fn trim(text: &str) -> (kept: Vec<char>)
    ensures
        kept@ == trimmed(text@),
{
    let chars = chars_of(text);
    let mut start: usize = 0;
    assert(chars@.skip(0) == chars@);
    while start < chars.len() && is_whitespace(chars[start])
        invariant
            start <= chars.len(),
            trim_start(chars@) == trim_start(chars@.skip(start as int)),
        decreases chars.len() - start,
    {
        proof {
            assert(chars@.skip(start as int).drop_first() == chars@.skip(start + 1));
        }
        start = start + 1;
    }
    assert(trim_start(chars@) == chars@.skip(start as int));
    let mut end: usize = chars.len();
    while end > start && is_whitespace(chars[end - 1])
        invariant
            start <= end <= chars.len(),
            trim_start(chars@) == chars@.skip(start as int),
            trimmed(chars@) == trim_end(chars@.subrange(start as int, end as int)),
        decreases end,
    {
        proof {
            assert(chars@.subrange(start as int, end as int).drop_last() == chars@.subrange(
                start as int,
                end - 1,
            ));
        }
        end = end - 1;
    }
    assert(trimmed(chars@) == chars@.subrange(start as int, end as int));
    let mut kept: Vec<char> = Vec::new();
    let mut at: usize = start;
    while at < end
        invariant
            start <= at <= end <= chars.len(),
            kept@ == chars@.subrange(start as int, at as int),
        decreases end - at,
    {
        kept.push(chars[at]);
        at = at + 1;
        assert(kept@ =~= chars@.subrange(start as int, at as int));
    }
    kept
}

/// Reads the 32-bit integer that a line holds between its leading and
/// trailing white space.
#[verifier::loop_isolation(false)]
pub fn parse_integer(line: &str) -> (parsed: Option<i32>)
    ensures
        parsed == integer_of(trimmed(line@)),
{
    let body = trim(line);
    let end: usize = body.len();
    let negative = 0 < end && body[0] == '-';
    let signed = 0 < end && (body[0] == '-' || body[0] == '+');
    let first: usize = if signed {
        1
    } else {
        0
    };
    let ghost digits = body@.subrange(first as int, end as int);
    assert(digits == if signed {
        body@.drop_first()
    } else {
        body@
    });
    if first == end {
        return None;
    }
    let mut at: usize = first;
    let mut total: i64 = 0;
    while at < end
        invariant
            first <= at <= end,
            all_digits(digits.take(at - first)),
            total == decimal_value(digits.take(at - first)),
            0 <= total <= 0x8000_0000,
        decreases end - at,
    {
        let c = body[at];
        proof {
            assert(digits.take(at - first + 1).drop_last() == digits.take(at - first));
            assert(digits.take(at - first + 1).last() == c);
            lemma_decimal_value_grows(digits, at - first + 1);
        }
        if !('0' <= c && c <= '9') {
            assert(!is_digit(digits[at - first]));
            return None;
        }
        let digit: i64 = (c as u32 - '0' as u32) as i64;
        total = 10 * total + digit;
        if total > 0x8000_0000 {
            return None;
        }
        at = at + 1;
        proof {
            let shorter = digits.take(at - first - 1);
            let longer = digits.take(at - first);
            assert forall|i: int| 0 <= i < longer.len() implies is_digit(#[trigger] longer[i]) by {
                if i < shorter.len() {
                    assert(longer[i] == shorter[i]);
                }
            }
        }
    }
    assert(digits.take(end - first) == digits);
    if negative {
        Some((-total) as i32)
    } else if total == 0x8000_0000 {
        None
    } else {
        Some(total as i32)
    }
}

/// Encodes a text as UTF-16, the first code unit at the front of the queue.
pub fn encode_utf16(text: &str) -> (units: VecDeque<u16>)
    ensures
        units@ == utf16_of(text@),
{
    let mut units: VecDeque<u16> = VecDeque::new();
    for c in it: text.chars()
        invariant
            it.seq() == text@,
            units@ == utf16_of(text@.take(it.index() as int)),
    {
        proof {
            let longer = text@.take(it.index() + 1);
            assert(longer.drop_last() == text@.take(it.index() as int));
            assert(longer.last() == c);
        }
        let n: u32 = c as u32;
        if n < 0x1_0000 {
            units.push_back(n as u16);
        } else {
            units.push_back((0xD800 + (n - 0x1_0000) / 0x400) as u16);
            units.push_back((0xDC00 + (n - 0x1_0000) % 0x400) as u16);
        }
    }
    assert(text@.take(text@.len() as int) == text@);
    units
}

/// The number written by a prefix of a text of digits is at most the number
/// written by the whole.
pub proof fn lemma_decimal_value_grows(s: Seq<char>, k: int)
    requires
        0 <= k <= s.len(),
    ensures
        decimal_value(s.take(k)) <= decimal_value(s),
    decreases s.len() - k,
{
    if k == s.len() {
        assert(s.take(k) == s);
    } else {
        lemma_decimal_value_grows(s, k + 1);
        assert(s.take(k + 1).drop_last() == s.take(k));
    }
}

} // verus!
