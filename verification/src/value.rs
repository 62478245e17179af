//! Tagged values, the interpretation mode, and arithmetic between variants.

use crate::binary64::Binary64;
use vstd::prelude::*;

verus! {

/// The active interpretation: the variant given to new literals and to the
/// result of every arithmetic or comparing instruction.
#[derive(Clone, Copy, Debug, PartialEq, Eq, Structural)]
pub enum Mode {
    Int,
    Float,
    Char,
}

/// A value on the data stack: a 32-bit integer, a binary64 floating value,
/// or a UTF-16 code unit.
#[derive(Clone, Copy, Debug, PartialEq, Eq, Structural)]
pub enum Item {
    Int(i32),
    Float(Binary64),
    Char(u16),
}

/// One of the four arithmetic operations of the widening table.
#[derive(Clone, Copy, Debug, PartialEq, Eq, Structural)]
pub enum Operator {
    Add,
    Subtract,
    Multiply,
    Divide,
}

/// Why a division of integers or code units has no result.
#[derive(Clone, Copy, Debug, PartialEq, Eq, Structural)]
pub enum Undefined {
    /// The divisor is zero.
    DivisionByZero,
    /// The quotient has no 32-bit representation: the least integer by
    /// minus one.
    DivisionOverflow,
}

/// The 32-bit two's complement integer with the low 32 bits of `n`.
pub open spec fn wrap_i32(n: int) -> i32 {
    let low = n % 0x1_0000_0000;
    if low >= 0x8000_0000 {
        (low - 0x1_0000_0000) as i32
    } else {
        low as i32
    }
}

/// The code unit with the low 16 bits of `n`.
pub open spec fn wrap_u16(n: int) -> u16 {
    (n % 0x1_0000) as u16
}

/// The quotient of `a` by a nonzero `b`, rounded toward zero.
pub open spec fn quotient_toward_zero(a: int, b: int) -> int {
    let size = (if a < 0 {
        -a
    } else {
        a
    }) / (if b < 0 {
        -b
    } else {
        b
    });
    if (a < 0) != (b < 0) {
        -size
    } else {
        size
    }
}

/// The variant that two operand variants widen to: floating if either is
/// floating, code unit if both are code units, integer otherwise.
pub open spec fn joined(left: Mode, right: Mode) -> Mode {
    if left == Mode::Float || right == Mode::Float {
        Mode::Float
    } else if left == Mode::Char && right == Mode::Char {
        Mode::Char
    } else {
        Mode::Int
    }
}

impl Mode {
    /// The next mode of the cycle integer, floating, code unit, integer.
    pub open spec fn next_spec(self) -> Mode {
        match self {
            Mode::Int => Mode::Float,
            Mode::Float => Mode::Char,
            Mode::Char => Mode::Int,
        }
    }

    /// Advances the mode by one place of its cycle.
    pub fn next(self) -> (mode: Mode)
        ensures
            mode == self.next_spec(),
    {
        match self {
            Mode::Int => Mode::Float,
            Mode::Float => Mode::Char,
            Mode::Char => Mode::Int,
        }
    }
}

impl Operator {
    /// The operation on mathematical integers. Division rounds toward zero.
    pub open spec fn apply(self, a: int, b: int) -> int {
        match self {
            Operator::Add => a + b,
            Operator::Subtract => a - b,
            Operator::Multiply => a * b,
            Operator::Divide => quotient_toward_zero(a, b),
        }
    }

    /// The operation on floating values, as IEEE 754 has it.
    pub open spec fn apply_float(self, a: Binary64, b: Binary64) -> Binary64 {
        match self {
            Operator::Add => a.sum(b),
            Operator::Subtract => a.difference(b),
            Operator::Multiply => a.product(b),
            Operator::Divide => a.quotient(b),
        }
    }
}

impl Item {
    /// The variant of the item, as a mode.
    pub open spec fn variant(self) -> Mode {
        match self {
            Item::Int(_) => Mode::Int,
            Item::Float(_) => Mode::Float,
            Item::Char(_) => Mode::Char,
        }
    }

    /// The place of the item's variant in the order of variants: integers
    /// first, floating values second, code units last.
    pub open spec fn rank(self) -> int {
        match self {
            Item::Int(_) => 0,
            Item::Float(_) => 1,
            Item::Char(_) => 2,
        }
    }

    /// The order used by the comparing instruction. Items of different
    /// variants are ordered by rank alone, whatever they hold; items of one
    /// variant by what they hold.
    pub open spec fn lt(self, other: Item) -> bool {
        match (self, other) {
            (Item::Int(a), Item::Int(b)) => a < b,
            (Item::Float(a), Item::Float(b)) => a.lt(b),
            (Item::Char(a), Item::Char(b)) => a < b,
            _ => self.rank() < other.rank(),
        }
    }

    /// The item read as an integer: an integer is itself, a code unit its
    /// number, a floating value its truncation.
    pub open spec fn int_value(self) -> int {
        match self {
            Item::Int(n) => n as int,
            Item::Float(x) => x.truncated(),
            Item::Char(n) => n as int,
        }
    }

    /// The item widened to binary64. Integers and code units widen exactly.
    pub open spec fn widened(self) -> Binary64 {
        match self {
            Item::Int(n) => Binary64::of_int(n as int),
            Item::Float(x) => x,
            Item::Char(n) => Binary64::of_int(n as int),
        }
    }

    /// The item reinterpreted in the given mode. To integer: a floating
    /// value is truncated toward zero, a code unit keeps its number. To
    /// floating: exact. To code unit: the low 16 bits of the integer reading.
    pub open spec fn coerced(self, mode: Mode) -> Item {
        match mode {
            Mode::Int => Item::Int(self.int_value() as i32),
            Mode::Float => Item::Float(self.widened()),
            Mode::Char => Item::Char(wrap_u16(self.int_value())),
        }
    }

    /// The literal that a run of `count` run markers pushes in the given
    /// mode. It holds `count` itself wherever the variant can: always below
    /// `2^16`, below `2^31` for an integer, below `2^53` for a floating
    /// value. Beyond, an integer or a code unit keeps the low bits and a
    /// floating value is the nearest one.
    pub open spec fn literal_spec(count: nat, mode: Mode) -> Item {
        match mode {
            Mode::Int => Item::Int(wrap_i32(count as int)),
            Mode::Float => Item::Float(Binary64::of_nat(count)),
            Mode::Char => Item::Char(wrap_u16(count as int)),
        }
    }

    /// The result of `self op rhs` by the widening table. Between integers
    /// and code units the result wraps, to 32 bits or to 16; division by
    /// zero has none, nor has the division that overflows. With a floating
    /// operand both operands are widened and the result is the IEEE one,
    /// which always exists.
    pub open spec fn combined(self, op: Operator, rhs: Item) -> Result<Item, Undefined> {
        let a = self.int_value();
        let b = rhs.int_value();
        match joined(self.variant(), rhs.variant()) {
            Mode::Float => Ok(Item::Float(op.apply_float(self.widened(), rhs.widened()))),
            Mode::Int => if op == Operator::Divide && b == 0 {
                Err(Undefined::DivisionByZero)
            } else if op == Operator::Divide && a == i32::MIN && b == -1 {
                Err(Undefined::DivisionOverflow)
            } else {
                Ok(Item::Int(wrap_i32(op.apply(a, b))))
            },
            Mode::Char => if op == Operator::Divide && b == 0 {
                Err(Undefined::DivisionByZero)
            } else {
                Ok(Item::Char(wrap_u16(op.apply(a, b))))
            },
        }
    }

    /// Why `self op rhs` has no result, if it has none.
    pub open spec fn undefined(self, op: Operator, rhs: Item) -> Option<Undefined> {
        match self.combined(op, rhs) {
            Ok(_) => None,
            Err(why) => Some(why),
        }
    }

    /// Whether the item is a floating value.
    pub fn is_float(self) -> (floating: bool)
        ensures
            floating == (self.variant() == Mode::Float),
    {
        match self {
            Item::Float(_) => true,
            _ => false,
        }
    }

    /// Decides whether `self op rhs` has a result.
    pub fn check(self, op: Operator, rhs: Item) -> (why: Option<Undefined>)
        ensures
            why == self.undefined(op, rhs),
    {
        match op {
            Operator::Divide => if self.is_float() || rhs.is_float() {
                None
            } else if rhs.get_int() == 0 {
                Some(Undefined::DivisionByZero)
            } else if self.get_int() == i32::MIN && rhs.get_int() == -1 {
                Some(Undefined::DivisionOverflow)
            } else {
                None
            },
            _ => None,
        }
    }

    /// Computes `self op rhs` where it has a result.
    fn compute(self, op: Operator, rhs: Item) -> (item: Item)
        requires
            self.combined(op, rhs) is Ok,
        ensures
            Ok::<Item, Undefined>(item) == self.combined(op, rhs),
    {
        match (self, rhs) {
            (Item::Float(_), _) => Item::Float(float_op(op, self.widen(), rhs.widen())),
            (_, Item::Float(_)) => Item::Float(float_op(op, self.widen(), rhs.widen())),
            (Item::Char(a), Item::Char(b)) => match op {
                Operator::Add => Item::Char(a.wrapping_add(b)),
                Operator::Subtract => Item::Char(a.wrapping_sub(b)),
                Operator::Multiply => Item::Char(a.wrapping_mul(b)),
                Operator::Divide => Item::Char(a / b),
            },
            _ => {
                let a: i32 = self.get_int();
                let b: i32 = rhs.get_int();
                match op {
                    Operator::Add => Item::Int(a.wrapping_add(b)),
                    Operator::Subtract => Item::Int(a.wrapping_sub(b)),
                    Operator::Multiply => Item::Int(a.wrapping_mul(b)),
                    Operator::Divide => Item::Int(divide_toward_zero(a, b)),
                }
            },
        }
    }

    /// Carries out `self op rhs`.
    pub fn combine(self, op: Operator, rhs: Item) -> (outcome: Result<Item, Undefined>)
        ensures
            outcome == self.combined(op, rhs),
    {
        match self.check(op, rhs) {
            Some(why) => Err(why),
            None => Ok(self.compute(op, rhs)),
        }
    }

    /// `self + rhs` by the widening table.
    pub fn add(self, rhs: Item) -> (item: Item)
        ensures
            Ok::<Item, Undefined>(item) == self.combined(Operator::Add, rhs),
    {
        self.compute(Operator::Add, rhs)
    }

    /// `self - rhs` by the widening table.
    pub fn sub(self, rhs: Item) -> (item: Item)
        ensures
            Ok::<Item, Undefined>(item) == self.combined(Operator::Subtract, rhs),
    {
        self.compute(Operator::Subtract, rhs)
    }

    /// `self * rhs` by the widening table.
    pub fn mul(self, rhs: Item) -> (item: Item)
        ensures
            Ok::<Item, Undefined>(item) == self.combined(Operator::Multiply, rhs),
    {
        self.compute(Operator::Multiply, rhs)
    }

    /// `self / rhs` by the widening table.
    pub fn div(self, rhs: Item) -> (outcome: Result<Item, Undefined>)
        ensures
            outcome == self.combined(Operator::Divide, rhs),
    {
        self.combine(Operator::Divide, rhs)
    }

    /// Reads the item as an integer.
    pub fn get_int(self) -> (n: i32)
        ensures
            n == self.int_value(),
    {
        match self {
            Item::Int(n) => n,
            Item::Float(x) => x.to_i32(),
            Item::Char(n) => n as i32,
        }
    }

    /// Widens the item to binary64.
    pub fn widen(self) -> (x: Binary64)
        ensures
            x == self.widened(),
    {
        match self {
            Item::Int(n) => Binary64::from_i32(n),
            Item::Float(x) => x,
            Item::Char(n) => Binary64::from_u16(n),
        }
    }

    /// Reinterprets the item in the given mode.
    pub fn into(self, mode: Mode) -> (item: Item)
        ensures
            item == self.coerced(mode),
            item.variant() == mode,
    {
        match mode {
            Mode::Int => Item::Int(self.get_int()),
            Mode::Float => Item::Float(self.widen()),
            Mode::Char => Item::Char(low_u16(self.get_int())),
        }
    }

    /// Decides the order used by the comparing instruction.
    pub fn less_than(self, other: Item) -> (less: bool)
        ensures
            less == self.lt(other),
    {
        match (self, other) {
            (Item::Int(a), Item::Int(b)) => a < b,
            (Item::Float(a), Item::Float(b)) => a.less_than(b),
            (Item::Char(a), Item::Char(b)) => a < b,
            (Item::Int(_), _) => true,
            (Item::Float(_), Item::Char(_)) => true,
            _ => false,
        }
    }

    /// The literal for a run of `count` run markers in the given mode.
    pub fn literal(count: usize, mode: Mode) -> (item: Item)
        ensures
            item == Self::literal_spec(count as nat, mode),
            item.variant() == mode,
    {
        match mode {
            Mode::Int => {
                let low: u64 = count as u64 % 0x1_0000_0000;
                if low >= 0x8000_0000 {
                    Item::Int((low as i64 - 0x1_0000_0000) as i32)
                } else {
                    Item::Int(low as i32)
                }
            },
            Mode::Float => Item::Float(Binary64::from_u64(count as u64)),
            Mode::Char => Item::Char((count as u64 % 0x1_0000) as u16),
        }
    }
}

/// Carries out an operation on two floating values.
pub fn float_op(op: Operator, a: Binary64, b: Binary64) -> (x: Binary64)
    ensures
        x == op.apply_float(a, b),
{
    match op {
        Operator::Add => a.add(b),
        Operator::Subtract => a.sub(b),
        Operator::Multiply => a.mul(b),
        Operator::Divide => a.div(b),
    }
}

/// Divides two 32-bit integers, rounding toward zero.
pub(crate) fn divide_toward_zero(a: i32, b: i32) -> (q: i32)
    requires
        b != 0,
        !(a == i32::MIN && b == -1),
    ensures
        q == quotient_toward_zero(a as int, b as int),
{
    let left: i64 = if a < 0 {
        -(a as i64)
    } else {
        a as i64
    };
    let right: i64 = if b < 0 {
        -(b as i64)
    } else {
        b as i64
    };
    let size: i64 = left / right;
    assert(size <= left) by (nonlinear_arith)
        requires
            size == left / right,
            left >= 0,
            right >= 1,
    ;
    assert(right >= 2 ==> 2 * size <= left) by (nonlinear_arith)
        requires
            size == left / right,
            left >= 0,
            right >= 1,
    ;
    if (a < 0) != (b < 0) {
        (-size) as i32
    } else {
        size as i32
    }
}

/// The low 16 bits of a 32-bit integer.
pub fn low_u16(n: i32) -> (unit: u16)
    ensures
        unit == wrap_u16(n as int),
{
    let lifted: i64 = n as i64 + 0x1_0000_0000;
    (lifted as u64 % 0x1_0000) as u16
}

} // verus!
