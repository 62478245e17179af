//! Laws of the language, proved of the model that the machine's contract is
//! stated over.

use crate::binary64::{
    law_encoding_is_rounding, law_encoding_keeps_order, law_truncation_undoes_encoding,
    lemma_encoding_is_finite, Binary64,
};
use crate::decimal::{digit_char, digits_of, pow10};
use crate::glyph::Glyph;
use crate::ieee::{law_integer_difference, law_integer_sum};
use crate::machine::{
    decoded, lemma_run_length, pair_opcode, rolled, rotated, single_opcode, top_window,
    with_window, Instruction, Opcode, Outcome, State,
};
use crate::parse::{digit_run, float_of, lemma_digit_run, lowered, number_digits, number_of};
use crate::render::decimal_of;
use crate::text::{all_digits, decimal_value, integer_of, is_digit, is_space, trimmed};
use crate::value::{wrap_u16, Item, Mode, Operator, Undefined};
use vstd::arithmetic::div_mod::{
    lemma_add_mod_noop, lemma_add_mod_noop_right, lemma_fundamental_div_mod_converse,
    lemma_mod_add_multiples_vanish, lemma_mod_bound, lemma_mod_twice, lemma_small_mod,
};
use vstd::prelude::*;
use vstd::seq_lib::lemma_multiset_commutative;

verus! {

/// No item is less than itself, a NaN included.
pub proof fn law_less_is_irreflexive(item: Item)
    ensures
        !item.lt(item),
{
}

/// Between items of different variants the rank alone decides: an integer
/// is less than every floating value and every code unit, a floating value
/// less than every code unit, and never the other way round, whatever the
/// items hold.
pub proof fn law_rank_decides_across_variants(left: Item, right: Item)
    requires
        left.variant() != right.variant(),
    ensures
        left.lt(right) == (left.rank() < right.rank()),
        left.lt(right) != right.lt(left),
{
}

/// An integer is less than a floating value and the floating value is not
/// less than the integer, whatever their magnitudes.
pub proof fn law_integer_below_float(n: i32, x: Binary64)
    ensures
        Item::Int(n).lt(Item::Float(x)),
        !Item::Float(x).lt(Item::Int(n)),
{
}

/// Duplicating the top and then comparing replaces the top by zero, typed
/// to the mode: an item is not less than its copy.
pub proof fn law_duplicate_then_less(
    state: State,
    first: Option<Seq<char>>,
    second: Option<Seq<char>>,
)
    requires
        state.stack.len() >= 1,
        decoded(state.tape, state.ip) == Some(Instruction::Operation(Opcode::Duplicate)),
        decoded(state.tape, state.ip + 2) == Some(Instruction::Operation(Opcode::Less)),
    ensures
        state.step(first).1 == Outcome::Done,
        state.step(first).0.step(second).1 == Outcome::Done,
        state.step(first).0.step(second).0 == (State {
            ip: state.ip + 4,
            stack: state.stack.drop_last().push(Item::Int(0).coerced(state.mode)),
            ..state
        }),
{
    let copied = state.step(first).0;
    assert(copied.stack == state.stack.push(state.stack.last()));
    law_less_is_irreflexive(state.stack.last());
    assert(copied.below_two() =~= state.stack.drop_last());
}

/// A run of `count` run markers at the pointer, which ends with the tape or
/// before another glyph, is one instruction: it pushes exactly one item,
/// typed to the mode, and moves the pointer past the whole run, however
/// long the run is. The item holds `count` wherever its variant can.
pub proof fn law_run_is_literal(state: State, count: nat, line: Option<Seq<char>>)
    requires
        count >= 1,
        state.ip + count <= state.tape.len(),
        forall|j: int| state.ip <= j < state.ip + count ==> state.tape[j] == Glyph::Run,
        state.ip + count == state.tape.len() || state.tape[state.ip as int + count] != Glyph::Run,
    ensures
        state.step(line) == (
            State {
                ip: state.ip + count,
                stack: state.stack.push(Item::literal_spec(count, state.mode)),
                ..state
            },
            Outcome::Done,
        ),
        Item::literal_spec(count, state.mode).variant() == state.mode,
        state.mode == Mode::Int && count <= i32::MAX ==> Item::literal_spec(count, state.mode)
            == Item::Int(count as i32),
        state.mode == Mode::Char && count <= u16::MAX ==> Item::literal_spec(count, state.mode)
            == Item::Char(count as u16),
        state.mode == Mode::Float ==> Item::literal_spec(count, state.mode) == Item::Float(
            Binary64::of_nat(count),
        ),
        count <= i32::MAX && (state.mode == Mode::Char ==> count <= u16::MAX)
            ==> Item::literal_spec(count, state.mode).int_value() == count,
{
    lemma_run_length(state.tape, state.ip as int, count);
    if count <= i32::MAX {
        law_truncation_undoes_encoding(count as int);
    }
}

/// Reinterpreting an item in a mode gives an item of that mode, and doing
/// it again changes nothing more.
pub proof fn law_coercion_settles(item: Item, mode: Mode)
    ensures
        item.coerced(mode).variant() == mode,
        item.coerced(mode).coerced(mode) == item.coerced(mode),
        item.coerced(item.variant()) == item,
{
    match item.coerced(mode) {
        Item::Int(n) => {},
        Item::Float(x) => {},
        Item::Char(unit) => {
            assert(wrap_u16(unit as int) == unit);
        },
    }
    match item {
        Item::Char(unit) => {
            assert(wrap_u16(unit as int) == unit);
        },
        _ => {},
    }
}

/// Widening to floating is exact: an integer or a code unit that is made
/// floating and then reinterpreted in its own variant is itself again, and
/// reads as the same integer while it is floating.
pub proof fn law_widening_is_exact(item: Item)
    requires
        item.variant() != Mode::Float,
    ensures
        item.coerced(Mode::Float).int_value() == item.int_value(),
        item.coerced(Mode::Float).coerced(item.variant()) == item,
{
    law_truncation_undoes_encoding(item.int_value());
    match item {
        Item::Char(unit) => {
            assert(wrap_u16(unit as int) == unit);
        },
        _ => {},
    }
}

/// Widening to floating keeps the order within a variant: two integers, or
/// two code units, compare after widening as they did before.
pub proof fn law_widening_keeps_order(left: Item, right: Item)
    requires
        left.variant() == right.variant(),
        left.variant() != Mode::Float,
    ensures
        left.coerced(Mode::Float).lt(right.coerced(Mode::Float)) == left.lt(right),
{
    law_encoding_keeps_order(left.int_value(), right.int_value());
}

/// With a floating operand, addition and subtraction are exact on integers
/// and code units: the result is the sum or the difference itself, made
/// floating, with no wrapping to 32 or 16 bits.
pub proof fn law_floating_arithmetic_is_exact(left: Item, right: Item)
    requires
        left.variant() != Mode::Float,
        right.variant() != Mode::Float,
    ensures
        left.coerced(Mode::Float).combined(Operator::Add, right) == Ok::<Item, Undefined>(
            Item::Float(Binary64::of_int(left.int_value() + right.int_value())),
        ),
        left.combined(Operator::Subtract, right.coerced(Mode::Float)) == Ok::<Item, Undefined>(
            Item::Float(Binary64::of_int(left.int_value() - right.int_value())),
        ),
{
    law_integer_sum(left.int_value(), right.int_value());
    law_integer_difference(left.int_value(), right.int_value());
}

/// Every instruction is selected by its own glyphs and by no others: two
/// glyphs select the instruction that they write, and so does one.
pub proof fn law_glyphs_select_their_instruction(opcode: Opcode)
    ensures
        opcode.glyphs_spec().len() == opcode.width(),
        opcode.width() == 2 ==> pair_opcode(opcode.glyphs_spec()[0], opcode.glyphs_spec()[1])
            == Some(opcode),
        opcode.width() == 1 ==> single_opcode(opcode.glyphs_spec()[0]) == Some(opcode),
        forall|first: Glyph, second: Glyph|
            pair_opcode(first, second) == Some(opcode) ==> opcode.glyphs_spec() == seq![
                first,
                second,
            ],
        forall|alone: Glyph|
            single_opcode(alone) == Some(opcode) ==> opcode.glyphs_spec() == seq![alone],
{
    assert forall|first: Glyph, second: Glyph|
        pair_opcode(first, second) == Some(opcode) implies opcode.glyphs_spec() == seq![
        first,
        second,
    ] by {
        assert(opcode.glyphs_spec() =~= seq![first, second]);
    }
    assert forall|alone: Glyph| single_opcode(alone) == Some(opcode) implies opcode.glyphs_spec()
        == seq![alone] by {
        assert(opcode.glyphs_spec() =~= seq![alone]);
    }
}

/// The mode cycle has length three.
pub proof fn law_mode_cycle(mode: Mode)
    ensures
        mode.next_spec().next_spec().next_spec() == mode,
        mode.next_spec() != mode,
        mode.next_spec().next_spec() != mode,
{
}

/// Three mode-cycle instructions in a row bring the mode back and change
/// nothing but the pointer.
pub proof fn law_cycle_thrice(
    state: State,
    a: Option<Seq<char>>,
    b: Option<Seq<char>>,
    c: Option<Seq<char>>,
)
    requires
        decoded(state.tape, state.ip) == Some(Instruction::Operation(Opcode::CycleMode)),
        decoded(state.tape, state.ip + 2) == Some(Instruction::Operation(Opcode::CycleMode)),
        decoded(state.tape, state.ip + 4) == Some(Instruction::Operation(Opcode::CycleMode)),
    ensures
        state.step(a).0.step(b).0.step(c).0 == (State { ip: state.ip + 6, ..state }),
{
}

/// The output instruction on an empty stack writes nothing, asks for one
/// diagnostic, leaves the stack empty and moves on to the next instruction.
pub proof fn law_output_underflow(state: State, line: Option<Seq<char>>)
    requires
        state.stack.len() == 0,
        decoded(state.tape, state.ip) == Some(Instruction::Operation(Opcode::Output)),
    ensures
        state.step(line) == (
            State { ip: state.ip + 2, ..state },
            Outcome::Underflow(Opcode::Output),
        ),
{
}

/// A stack underflow of any instruction leaves the stack, the mode and the
/// pending input as they were and moves the pointer past the instruction.
pub proof fn law_underflow_restores(state: State, line: Option<Seq<char>>, opcode: Opcode)
    requires
        state.step(line).1 == Outcome::Underflow(opcode),
    ensures
        decoded(state.tape, state.ip) == Some(Instruction::Operation(opcode)),
        state.step(line).0 == (State { ip: state.ip + 2, ..state }),
{
}

/// A step that ends with a need, a fault or the end of the program leaves
/// the state as it was.
pub proof fn law_blocked_step_changes_nothing(state: State, line: Option<Seq<char>>)
    requires
        state.step(line).1 is NeedLine || state.step(line).1 is Fault || state.step(line).1
            is Halt,
    ensures
        state.step(line).0 == state,
{
}

/// The program ends exactly when the pointer is past the tape, and no step
/// ever changes the tape.
pub proof fn law_halt_and_tape(state: State, line: Option<Seq<char>>)
    ensures
        state.step(line).1 is Halt <==> state.halted(),
        state.step(line).0.tape == state.tape,
{
}

/// Turning a window by `rot` and then by its length less `rot` restores
/// it. The second turn may as well be taken modulo the length.
pub proof fn law_rotation_round_trip(window: Seq<Item>, rot: int)
    requires
        window.len() >= 1,
    ensures
        rotated(rotated(window, rot), window.len() - rot) == window,
        rotated(rotated(window, rot), (window.len() - rot) % (window.len() as int)) == window,
{
    let d = window.len() as int;
    let once = rotated(window, rot);
    let back = rotated(once, d - rot);
    let back_mod = rotated(once, (d - rot) % d);
    assert forall|i: int| 0 <= i < d implies back[i] == window[i] && back_mod[i] == window[i] by {
        let j = (i + (d - rot)) % d;
        lemma_add_mod_noop_right(i, d - rot, d);
        assert(j == (i + (d - rot) % d) % d);
        lemma_add_mod_noop(i + (d - rot), rot, d);
        lemma_mod_twice(rot, d);
        lemma_add_mod_noop_right(j, rot, d);
        assert((j + rot) % d == (i + d) % d);
        lemma_mod_add_multiples_vanish(i, d);
        lemma_small_mod(i as nat, d as nat);
    }
    assert(back =~= window);
    assert(back_mod =~= window);
}

/// A rotation is cyclic: the window is cut at the place of `rot` modulo its
/// length, and the part from there on comes first. So it holds the same
/// items as before, each as often.
pub proof fn law_rotation_is_cyclic(window: Seq<Item>, rot: int)
    requires
        window.len() >= 1,
    ensures
        0 <= rot % (window.len() as int) < window.len(),
        rotated(window, rot) == window.skip(rot % (window.len() as int)) + window.take(
            rot % (window.len() as int),
        ),
        rotated(window, rot).to_multiset() == window.to_multiset(),
{
    let d = window.len() as int;
    let cut = rot % d;
    lemma_mod_bound(rot, d);
    let swapped = window.skip(cut) + window.take(cut);
    assert forall|i: int| 0 <= i < d implies rotated(window, rot)[i] == swapped[i] by {
        lemma_add_mod_noop_right(i, rot, d);
        if i + cut < d {
            lemma_small_mod((i + cut) as nat, d as nat);
        } else {
            lemma_fundamental_div_mod_converse(
                i + cut,
                d,
                1,
                i + cut - d,
            );
        }
    }
    assert(rotated(window, rot) =~= swapped);
    assert(window =~= window.take(cut) + window.skip(cut));
    lemma_multiset_commutative(window.take(cut), window.skip(cut));
    lemma_multiset_commutative(window.skip(cut), window.take(cut));
}

/// A turned window has the length of the window, and the stack that takes
/// it in place of its top has the length of the stack.
pub proof fn lemma_rolled_shape(stack: Seq<Item>, depth: nat, rot: int)
    requires
        1 <= depth <= stack.len(),
    ensures
        rotated(top_window(stack, depth), rot).len() == depth,
        rolled(stack, depth, rot).len() == stack.len(),
        rolled(stack, depth, rot).take(stack.len() - depth) == stack.take(stack.len() - depth),
        top_window(rolled(stack, depth, rot), depth) == rotated(top_window(stack, depth), rot),
{
    let turned = rotated(top_window(stack, depth), rot);
    let once = rolled(stack, depth, rot);
    let base = stack.len() - depth;
    assert(turned.len() == depth);
    assert(turned.reverse().len() == depth);
    assert(once.len() == stack.len());
    assert(once.take(base) =~= stack.take(base));
    assert forall|i: int| 0 <= i < depth implies top_window(once, depth)[i] == turned[i] by {
        assert(once[stack.len() - 1 - i] == turned.reverse()[depth - 1 - i]);
    }
    assert(top_window(once, depth) =~= turned);
}

/// A stack that takes its own top window in place of its top is itself.
pub proof fn lemma_window_in_place(stack: Seq<Item>, depth: nat)
    requires
        depth <= stack.len(),
    ensures
        with_window(stack, top_window(stack, depth)) == stack,
{
    let window = top_window(stack, depth);
    let base = stack.len() - depth;
    let again = with_window(stack, window);
    assert(window.len() == depth);
    assert(window.reverse().len() == depth);
    assert(again.len() == stack.len());
    assert forall|k: int| 0 <= k < stack.len() implies again[k] == stack[k] by {
        if k >= base {
            assert(again[k] == window.reverse()[k - base]);
            assert(window.reverse()[k - base] == window[depth - 1 - (k - base)]);
        }
    }
    assert(again =~= stack);
}

/// The rotate instruction is a permutation of the top of the stack that a
/// second rotation undoes: rolling the top `depth` items by `rot` and then
/// by `depth - rot` restores the stack.
pub proof fn law_roll_round_trip(stack: Seq<Item>, depth: nat, rot: int)
    requires
        1 <= depth <= stack.len(),
    ensures
        rolled(stack, depth, rot).len() == stack.len(),
        rolled(rolled(stack, depth, rot), depth, depth - rot) == stack,
{
    let window = top_window(stack, depth);
    let once = rolled(stack, depth, rot);
    let base = stack.len() - depth;
    lemma_rolled_shape(stack, depth, rot);
    law_rotation_round_trip(window, rot);
    lemma_window_in_place(stack, depth);
    assert(rotated(top_window(once, depth), depth - rot) == window);
    assert(rolled(once, depth, depth - rot) == once.take(base) + window.reverse());
}

/// The clear instruction on an empty stack leaves it empty: nothing but
/// the pointer changes.
pub proof fn law_clear_empty(state: State, line: Option<Seq<char>>)
    requires
        state.stack.len() == 0,
        decoded(state.tape, state.ip) == Some(Instruction::Operation(Opcode::Clear)),
    ensures
        state.step(line) == (State { ip: state.ip + 1, ..state }, Outcome::Done),
{
    assert(state.clear().0.stack =~= state.stack);
}

/// The reverse instruction on a stack of at most one item leaves it
/// unchanged: nothing but the pointer changes.
pub proof fn law_reverse_short(state: State, line: Option<Seq<char>>)
    requires
        state.stack.len() <= 1,
        decoded(state.tape, state.ip) == Some(Instruction::Operation(Opcode::Reverse)),
    ensures
        state.step(line) == (State { ip: state.ip + 1, ..state }, Outcome::Done),
{
    assert(state.reverse().0.stack =~= state.stack);
}

/// Reversing twice restores any stack.
pub proof fn law_reverse_twice(stack: Seq<Item>)
    ensures
        stack.reverse().reverse() == stack,
{
    assert(stack.reverse().reverse() =~= stack);
}

/// The digits of a natural number are one or more ASCII digits that write
/// the number.
pub proof fn lemma_digits_write_the_number(n: nat)
    ensures
        digits_of(n).len() >= 1,
        all_digits(digits_of(n)),
        decimal_value(digits_of(n)) == n,
    decreases n,
{
    let digits = digits_of(n);
    if n < 10 {
        assert(digits =~= seq![digit_char(n)]);
        assert(digits.drop_last() =~= Seq::<char>::empty());
        assert(decimal_value(digits.drop_last()) == 0);
    } else {
        let front = digits_of(n / 10);
        lemma_digits_write_the_number(n / 10);
        assert(digits.drop_last() =~= front);
        assert(digits.last() == digit_char(n % 10));
        assert forall|i: int| 0 <= i < digits.len() implies is_digit(#[trigger] digits[i]) by {
            if i < front.len() {
                assert(digits[i] == front[i]);
            }
        }
    }
}

/// What is written for an integer reads back as that integer: the text has
/// no white space at either end, and the integer it holds is the one that
/// was written.
pub proof fn law_written_integer_reads_back(n: i32)
    ensures
        trimmed(decimal_of(n as int)) == decimal_of(n as int),
        integer_of(decimal_of(n as int)) == Some(n),
{
    let text = decimal_of(n as int);
    let size: nat = if n < 0 {
        (-n) as nat
    } else {
        n as nat
    };
    let digits = digits_of(size);
    lemma_digits_write_the_number(size);
    assert(is_digit(digits[0]));
    assert(is_digit(digits[digits.len() - 1]));
    if n < 0 {
        assert(text == seq!['-'] + digits);
        assert(text.drop_first() =~= digits);
        assert(text.last() == digits.last());
        assert(!is_space(text.first()));
    } else {
        assert(text == digits);
    }
    assert(!is_space(text.first()));
    assert(!is_space(text.last()));
}

/// What is written for an integer reads as a floating value too, and as
/// the integer widened.
pub proof fn law_written_integer_reads_as_float(n: i32)
    ensures
        float_of(decimal_of(n as int)) == Some(Binary64::of_int(n as int)),
{
    let text = decimal_of(n as int);
    let size: nat = if n < 0 {
        (-n) as nat
    } else {
        n as nat
    };
    let digits = digits_of(size);
    lemma_digits_write_the_number(size);
    assert(is_digit(digits[0]));
    assert(lowered(digits[0]) == digits[0]);
    let body = if n < 0 {
        text.drop_first()
    } else {
        text
    };
    assert(body =~= digits);
    lemma_digit_run(digits, 0, digits.len());
    assert(number_digits(digits) =~= digits);
    assert(number_of(digits) == Some((digits, 0int)));
    assert(pow10(0) == 1);
    assert(size * pow10(0) == size);
    law_encoding_is_rounding(size);
    lemma_encoding_is_finite(size);
}

} // verus!
