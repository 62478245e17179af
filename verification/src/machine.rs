//! The execution engine: the tape, the instruction pointer, the data stack,
//! the mode and the queue of pending input, and the step that executes one
//! instruction.
//!
//! The engine does no input or output of its own: it consumes lines of text
//! and hands back the text that is to be written. [`Machine::step`] takes a line, if
//! the caller has one, and returns an [`Effect`]. Where an instruction cannot
//! proceed without a line of input, the effect is [`Effect::NeedLine`], the
//! machine is left as it was, and the caller repeats the step with the next
//! line. A caller that steps without a line and answers each need runs the
//! program.

use crate::chars::push_char;
use crate::glyph::{tape_of, tokenize, Glyph};
use crate::parse::{float_of, parse_float};
use crate::text::{encode_utf16, integer_of, parse_integer, trimmed, utf16_of};
use crate::value::{Item, Mode, Operator, Undefined};
use std::collections::VecDeque;
use vstd::string::StringExecFns;
use vstd::arithmetic::div_mod::{
    lemma_add_mod_noop_right, lemma_fundamental_div_mod, lemma_fundamental_div_mod_converse,
};
use vstd::prelude::*;

verus! {

/// The instructions that glyphs other than the run marker select: nine by a
/// pair of glyphs, three by a single glyph.
#[derive(Clone, Copy, Debug, PartialEq, Eq, Structural)]
pub enum Opcode {
    /// `木木`: rotate the top of the stack.
    Roll,
    /// `木野`: read a value.
    Input,
    /// `木松`: pop a value and write it.
    Output,
    /// `野木`: compare two values.
    Less,
    /// `野野`: push a copy of the top.
    Duplicate,
    /// `野松`: jump if a condition is not zero.
    Jump,
    /// `松木`: subtract.
    Subtract,
    /// `松野`: divide.
    Divide,
    /// `松松`: advance the mode.
    CycleMode,
    /// `木` alone: reverse the stack.
    Reverse,
    /// `野` alone: clear the stack.
    Clear,
    /// `松` alone: write the whole stack.
    PrintAll,
}

/// What stands at a place of the tape.
#[derive(Clone, Copy, Debug, PartialEq, Eq, Structural)]
pub enum Instruction {
    /// A run of that many run markers: a literal.
    Literal(usize),
    /// An instruction of one or two glyphs.
    Operation(Opcode),
}

/// A condition that ends the execution.
#[derive(Clone, Copy, Debug, PartialEq, Eq, Structural)]
pub enum Fault {
    /// Division of an integer or a code unit by zero.
    DivisionByZero,
    /// Division of the least integer by minus one.
    DivisionOverflow,
    /// The line read in integer mode does not hold a 32-bit integer.
    MalformedInteger,
    /// The line read in floating mode does not hold a floating value.
    MalformedFloat,
    /// The line read in code-unit mode is empty: the input has ended.
    EndOfInput,
    /// A copy of the top was asked of an empty stack.
    NothingToDuplicate,
}

/// What a step did, and what is left for the caller to do.
#[derive(Debug, PartialEq, Eq)]
pub enum Effect {
    /// The instruction ran; nothing is left to do.
    Done,
    /// The instruction ran; this text is to be written to the output.
    Write(String),
    /// The instruction found too few items on the stack. The stack is as it
    /// was, the pointer has moved past the instruction, and the caller logs
    /// one diagnostic that names the opcode.
    Underflow(Opcode),
    /// The instruction did not run for want of a line of input. The machine
    /// is unchanged, and the step is to be repeated with the next line, as
    /// it was read; at the end of the input the line is empty.
    NeedLine,
    /// The execution cannot go on. The machine is unchanged.
    Fault(Fault),
    /// The pointer is past the end of the tape: the program has ended.
    Halt,
}

/// An effect, as contracts see it.
#[verifier::ext_equal]
pub enum Outcome {
    Done,
    Write(Seq<char>),
    Underflow(Opcode),
    NeedLine,
    Fault(Fault),
    Halt,
}

impl View for Effect {
    type V = Outcome;

    open spec fn view(&self) -> Outcome {
        match self {
            Effect::Done => Outcome::Done,
            Effect::Write(text) => Outcome::Write(text@),
            Effect::Underflow(opcode) => Outcome::Underflow(*opcode),
            Effect::NeedLine => Outcome::NeedLine,
            Effect::Fault(fault) => Outcome::Fault(*fault),
            Effect::Halt => Outcome::Halt,
        }
    }
}

/// What a sequence of items is written as: each item rendered, the first
/// of them first, with nothing between them.
pub open spec fn rendered_all(items: Seq<Item>) -> Seq<char>
    decreases items.len(),
{
    if items.len() == 0 {
        Seq::empty()
    } else {
        rendered_all(items.drop_last()) + items.last().rendered()
    }
}

/// A line of input, as contracts see it.
pub open spec fn text_of(line: Option<&str>) -> Option<Seq<char>> {
    match line {
        Some(text) => Some(text@),
        None => None,
    }
}

/// The instruction that an ordered pair of glyphs selects. A pair that holds
/// the run marker selects none.
pub open spec fn pair_opcode(first: Glyph, second: Glyph) -> Option<Opcode> {
    match (first, second) {
        (Glyph::Tree, Glyph::Tree) => Some(Opcode::Roll),
        (Glyph::Tree, Glyph::Field) => Some(Opcode::Input),
        (Glyph::Tree, Glyph::Pine) => Some(Opcode::Output),
        (Glyph::Field, Glyph::Tree) => Some(Opcode::Less),
        (Glyph::Field, Glyph::Field) => Some(Opcode::Duplicate),
        (Glyph::Field, Glyph::Pine) => Some(Opcode::Jump),
        (Glyph::Pine, Glyph::Tree) => Some(Opcode::Subtract),
        (Glyph::Pine, Glyph::Field) => Some(Opcode::Divide),
        (Glyph::Pine, Glyph::Pine) => Some(Opcode::CycleMode),
        _ => None,
    }
}

/// The instruction that a glyph selects when it stands alone. The run
/// marker selects none: it starts a literal.
pub open spec fn single_opcode(glyph: Glyph) -> Option<Opcode> {
    match glyph {
        Glyph::Tree => Some(Opcode::Reverse),
        Glyph::Field => Some(Opcode::Clear),
        Glyph::Pine => Some(Opcode::PrintAll),
        Glyph::Run => None,
    }
}

/// The number of consecutive run markers on the tape from place `at` on.
pub open spec fn run_length(tape: Seq<Glyph>, at: int) -> nat
    decreases tape.len() - at,
{
    if 0 <= at < tape.len() && tape[at] == Glyph::Run {
        1 + run_length(tape, at + 1)
    } else {
        0
    }
}

/// The instruction at place `ip` of the tape, or `None` past its end. A run
/// marker starts a literal that takes the whole run. Any other glyph forms a
/// two-glyph instruction with the glyph after it, unless that is a run marker
/// or the tape ends there, in which case the glyph stands alone.
pub open spec fn decoded(tape: Seq<Glyph>, ip: nat) -> Option<Instruction> {
    if ip >= tape.len() {
        None
    } else {
        match single_opcode(tape[ip as int]) {
            None => Some(Instruction::Literal(run_length(tape, ip as int) as usize)),
            Some(alone) => {
                let both = if ip + 1 < tape.len() {
                    pair_opcode(tape[ip as int], tape[ip as int + 1])
                } else {
                    None
                };
                match both {
                    Some(opcode) => Some(Instruction::Operation(opcode)),
                    None => Some(Instruction::Operation(alone)),
                }
            },
        }
    }
}

/// The top `depth` items of a stack, the most recently pushed first.
pub open spec fn top_window(stack: Seq<Item>, depth: nat) -> Seq<Item>
    recommends
        depth <= stack.len(),
{
    Seq::new(depth, |i: int| stack[stack.len() - 1 - i])
}

/// The window turned by `rot` places: the item at offset `rot` modulo the
/// length comes first, and the cyclic order of the items is kept.
pub open spec fn rotated(window: Seq<Item>, rot: int) -> Seq<Item> {
    Seq::new(window.len(), |i: int| window[(i + rot) % (window.len() as int)])
}

/// The stack with its top items replaced by the window, whose first item
/// becomes the new top.
pub open spec fn with_window(stack: Seq<Item>, window: Seq<Item>) -> Seq<Item>
    recommends
        window.len() <= stack.len(),
{
    stack.take(stack.len() - window.len()) + window.reverse()
}

/// The stack after its top `depth` items were rotated by `rot`.
pub open spec fn rolled(stack: Seq<Item>, depth: nat, rot: int) -> Seq<Item>
    recommends
        depth <= stack.len(),
{
    with_window(stack, rotated(top_window(stack, depth), rot))
}

impl Opcode {
    /// The number of glyphs that write the instruction.
    pub open spec fn width(self) -> nat {
        match self {
            Opcode::Reverse | Opcode::Clear | Opcode::PrintAll => 1,
            _ => 2,
        }
    }

    /// The glyphs that write the instruction.
    pub open spec fn glyphs_spec(self) -> Seq<Glyph> {
        match self {
            Opcode::Roll => seq![Glyph::Tree, Glyph::Tree],
            Opcode::Input => seq![Glyph::Tree, Glyph::Field],
            Opcode::Output => seq![Glyph::Tree, Glyph::Pine],
            Opcode::Less => seq![Glyph::Field, Glyph::Tree],
            Opcode::Duplicate => seq![Glyph::Field, Glyph::Field],
            Opcode::Jump => seq![Glyph::Field, Glyph::Pine],
            Opcode::Subtract => seq![Glyph::Pine, Glyph::Tree],
            Opcode::Divide => seq![Glyph::Pine, Glyph::Field],
            Opcode::CycleMode => seq![Glyph::Pine, Glyph::Pine],
            Opcode::Reverse => seq![Glyph::Tree],
            Opcode::Clear => seq![Glyph::Field],
            Opcode::PrintAll => seq![Glyph::Pine],
        }
    }

    /// The instruction that an ordered pair of glyphs selects, if any.
    pub fn from_pair(first: Glyph, second: Glyph) -> (opcode: Option<Opcode>)
        ensures
            opcode == pair_opcode(first, second),
    {
        match (first, second) {
            (Glyph::Tree, Glyph::Tree) => Some(Opcode::Roll),
            (Glyph::Tree, Glyph::Field) => Some(Opcode::Input),
            (Glyph::Tree, Glyph::Pine) => Some(Opcode::Output),
            (Glyph::Field, Glyph::Tree) => Some(Opcode::Less),
            (Glyph::Field, Glyph::Field) => Some(Opcode::Duplicate),
            (Glyph::Field, Glyph::Pine) => Some(Opcode::Jump),
            (Glyph::Pine, Glyph::Tree) => Some(Opcode::Subtract),
            (Glyph::Pine, Glyph::Field) => Some(Opcode::Divide),
            (Glyph::Pine, Glyph::Pine) => Some(Opcode::CycleMode),
            _ => None,
        }
    }

    /// The instruction that a glyph selects when it stands alone, if any.
    pub fn from_single(glyph: Glyph) -> (opcode: Option<Opcode>)
        ensures
            opcode == single_opcode(glyph),
    {
        match glyph {
            Glyph::Tree => Some(Opcode::Reverse),
            Glyph::Field => Some(Opcode::Clear),
            Glyph::Pine => Some(Opcode::PrintAll),
            Glyph::Run => None,
        }
    }

    /// The name of the instruction: the characters of its glyphs. This is
    /// how a diagnostic names it.
    pub fn name(self) -> (name: String)
        ensures
            name@ == self.glyphs_spec().map_values(|glyph: Glyph| glyph.symbol_spec()),
    {
        let glyphs = self.glyphs();
        let mut name = String::new();
        let mut at: usize = 0;
        while at < glyphs.len()
            invariant
                at <= glyphs.len(),
                name@ == glyphs@.take(at as int).map_values(|glyph: Glyph| glyph.symbol_spec()),
            decreases glyphs.len() - at,
        {
            push_char(&mut name, glyphs[at].symbol());
            at = at + 1;
            assert(name@ =~= glyphs@.take(at as int).map_values(
                |glyph: Glyph| glyph.symbol_spec(),
            ));
        }
        assert(glyphs@.take(glyphs.len() as int) =~= glyphs@);
        name
    }

    /// The glyphs that write the instruction.
    pub fn glyphs(self) -> (glyphs: Vec<Glyph>)
        ensures
            glyphs@ == self.glyphs_spec(),
    {
        let (first, second) = match self {
            Opcode::Roll => (Glyph::Tree, Some(Glyph::Tree)),
            Opcode::Input => (Glyph::Tree, Some(Glyph::Field)),
            Opcode::Output => (Glyph::Tree, Some(Glyph::Pine)),
            Opcode::Less => (Glyph::Field, Some(Glyph::Tree)),
            Opcode::Duplicate => (Glyph::Field, Some(Glyph::Field)),
            Opcode::Jump => (Glyph::Field, Some(Glyph::Pine)),
            Opcode::Subtract => (Glyph::Pine, Some(Glyph::Tree)),
            Opcode::Divide => (Glyph::Pine, Some(Glyph::Field)),
            Opcode::CycleMode => (Glyph::Pine, Some(Glyph::Pine)),
            Opcode::Reverse => (Glyph::Tree, None),
            Opcode::Clear => (Glyph::Field, None),
            Opcode::PrintAll => (Glyph::Pine, None),
        };
        let mut glyphs: Vec<Glyph> = Vec::new();
        glyphs.push(first);
        match second {
            Some(glyph) => {
                glyphs.push(glyph);
            },
            None => {},
        }
        assert(glyphs@ =~= self.glyphs_spec());
        glyphs
    }
}

/// The whole of a machine, as contracts see it.
#[verifier::ext_equal]
pub struct State {
    /// The program: fixed for the whole execution.
    pub tape: Seq<Glyph>,
    /// The place of the next instruction. The program has ended when it is
    /// not a place of the tape.
    pub ip: nat,
    /// The data stack, the top last.
    pub stack: Seq<Item>,
    /// The active mode.
    pub mode: Mode,
    /// The code units read in code-unit mode and not yet pushed, the next
    /// one first.
    pub queue: Seq<u16>,
}

impl State {
    /// The state in which an execution starts.
    pub open spec fn initial(tape: Seq<Glyph>) -> State {
        State { tape, ip: 0, stack: Seq::empty(), mode: Mode::Int, queue: Seq::empty() }
    }

    /// Whether the program has ended.
    pub open spec fn halted(self) -> bool {
        self.ip >= self.tape.len()
    }

    /// The state with the pointer moved on by `width` places.
    pub open spec fn advanced(self, width: nat) -> State {
        State { ip: self.ip + width, ..self }
    }

    /// The state with another stack and the pointer moved on by `width`.
    pub open spec fn proceed(self, stack: Seq<Item>, width: nat) -> State {
        State { ip: self.ip + width, stack, ..self }
    }

    /// The stack without its top two items.
    pub open spec fn below_two(self) -> Seq<Item> {
        self.stack.take(self.stack.len() - 2)
    }

    /// A literal of run length `count`: one item, typed to the mode, is
    /// pushed, and the pointer moves past the whole run.
    pub open spec fn literal(self, count: nat) -> (State, Outcome) {
        (
            self.proceed(self.stack.push(Item::literal_spec(count, self.mode)), count),
            Outcome::Done,
        )
    }

    /// Output: the top is popped, rendered and written.
    pub open spec fn output(self) -> (State, Outcome) {
        if self.stack.len() < 1 {
            (self.advanced(2), Outcome::Underflow(Opcode::Output))
        } else {
            (self.proceed(self.stack.drop_last(), 2), Outcome::Write(self.stack.last().rendered()))
        }
    }

    /// Input. In integer mode and in floating mode a line is needed, and
    /// the integer or the floating value that it holds between its white
    /// space is pushed; a line that holds none is a fault. In code-unit mode
    /// the next pending code unit is pushed; if none is pending a line is
    /// needed, whose UTF-16 code units become the pending ones, and an
    /// empty line is a fault.
    pub open spec fn input(self, line: Option<Seq<char>>) -> (State, Outcome) {
        match self.mode {
            Mode::Int => match line {
                Some(text) => match integer_of(trimmed(text)) {
                    Some(n) => (self.proceed(self.stack.push(Item::Int(n)), 2), Outcome::Done),
                    None => (self, Outcome::Fault(Fault::MalformedInteger)),
                },
                None => (self, Outcome::NeedLine),
            },
            Mode::Float => match line {
                Some(text) => match float_of(trimmed(text)) {
                    Some(x) => (self.proceed(self.stack.push(Item::Float(x)), 2), Outcome::Done),
                    None => (self, Outcome::Fault(Fault::MalformedFloat)),
                },
                None => (self, Outcome::NeedLine),
            },
            Mode::Char => if self.queue.len() > 0 {
                (self.take_unit(self.queue), Outcome::Done)
            } else {
                match line {
                    Some(text) => if utf16_of(text).len() > 0 {
                        (self.take_unit(utf16_of(text)), Outcome::Done)
                    } else {
                        (self, Outcome::Fault(Fault::EndOfInput))
                    },
                    None => (self, Outcome::NeedLine),
                }
            },
        }
    }

    /// The state after the first of the given code units was pushed and the
    /// others were left pending.
    pub open spec fn take_unit(self, units: Seq<u16>) -> State
        recommends
            units.len() > 0,
    {
        State {
            ip: self.ip + 2,
            stack: self.stack.push(Item::Char(units.first())),
            queue: units.drop_first(),
            ..self
        }
    }

    /// Rotate: `rot` is popped, then `depth`, both read as integers. If
    /// `depth` is positive, the `depth` items then on top are rotated by
    /// `rot`, which may be any integer, negative too. If fewer items are
    /// there, it is an underflow like any other: everything is put back. If
    /// `depth` is zero or negative, the two items are consumed and nothing
    /// else changes.
    pub open spec fn roll(self) -> (State, Outcome) {
        if self.stack.len() < 2 {
            (self.advanced(2), Outcome::Underflow(Opcode::Roll))
        } else {
            let rot = self.stack.last().int_value();
            let depth = self.stack[self.stack.len() - 2].int_value();
            if depth > self.below_two().len() {
                (self.advanced(2), Outcome::Underflow(Opcode::Roll))
            } else if depth <= 0 {
                (self.proceed(self.below_two(), 2), Outcome::Done)
            } else {
                (self.proceed(rolled(self.below_two(), depth as nat, rot), 2), Outcome::Done)
            }
        }
    }

    /// Compare: `r` is popped, then `l`; one is pushed if `l` is less than
    /// `r` in the order of items, zero otherwise, typed to the mode.
    pub open spec fn less(self) -> (State, Outcome) {
        if self.stack.len() < 2 {
            (self.advanced(2), Outcome::Underflow(Opcode::Less))
        } else {
            let r = self.stack.last();
            let l = self.stack[self.stack.len() - 2];
            let verdict = Item::Int(
                if l.lt(r) {
                    1i32
                } else {
                    0i32
                },
            ).coerced(self.mode);
            (self.proceed(self.below_two().push(verdict), 2), Outcome::Done)
        }
    }

    /// Duplicate: a copy of the top is pushed. On an empty stack it is a
    /// fault.
    pub open spec fn duplicate(self) -> (State, Outcome) {
        if self.stack.len() < 1 {
            (self, Outcome::Fault(Fault::NothingToDuplicate))
        } else {
            (self.proceed(self.stack.push(self.stack.last()), 2), Outcome::Done)
        }
    }

    /// The place that a jump to `target` puts the pointer at. A negative
    /// target is no place of any tape: the pointer is put at the end.
    pub open spec fn landing(self, target: int) -> nat {
        if target >= 0 {
            target as nat
        } else {
            self.tape.len()
        }
    }

    /// Conditional jump: the condition is popped, then the target, both
    /// read as integers. If the condition is not zero the pointer is set to
    /// the target, whatever it is; otherwise it moves on.
    pub open spec fn jump(self) -> (State, Outcome) {
        if self.stack.len() < 2 {
            (self.advanced(2), Outcome::Underflow(Opcode::Jump))
        } else {
            let condition = self.stack.last().int_value();
            let target = self.stack[self.stack.len() - 2].int_value();
            let ip = if condition != 0 {
                self.landing(target)
            } else {
                self.ip + 2
            };
            (State { ip, stack: self.below_two(), ..self }, Outcome::Done)
        }
    }

    /// Subtract or divide: `r` is popped, then `l`, and `l op r`, coerced to
    /// the mode, is pushed. A division of integers or code units that has
    /// no result is a fault.
    pub open spec fn arithmetic(self, opcode: Opcode, op: Operator) -> (State, Outcome) {
        if self.stack.len() < 2 {
            (self.advanced(2), Outcome::Underflow(opcode))
        } else {
            let r = self.stack.last();
            let l = self.stack[self.stack.len() - 2];
            match l.combined(op, r) {
                Ok(item) => (
                    self.proceed(self.below_two().push(item.coerced(self.mode)), 2),
                    Outcome::Done,
                ),
                Err(Undefined::DivisionByZero) => (self, Outcome::Fault(Fault::DivisionByZero)),
                Err(Undefined::DivisionOverflow) => (
                    self,
                    Outcome::Fault(Fault::DivisionOverflow),
                ),
            }
        }
    }

    /// Cycle mode: the mode advances by one place; the stack is untouched.
    pub open spec fn cycle_mode(self) -> (State, Outcome) {
        (State { ip: self.ip + 2, mode: self.mode.next_spec(), ..self }, Outcome::Done)
    }

    /// Reverse: the whole stack is reversed in place.
    pub open spec fn reverse(self) -> (State, Outcome) {
        (self.proceed(self.stack.reverse(), 1), Outcome::Done)
    }

    /// Clear: the stack becomes empty.
    pub open spec fn clear(self) -> (State, Outcome) {
        (self.proceed(Seq::empty(), 1), Outcome::Done)
    }

    /// Print all: every item is rendered and written, from the bottom to the
    /// top, and none is removed.
    pub open spec fn print_all(self) -> (State, Outcome) {
        (self.advanced(1), Outcome::Write(rendered_all(self.stack)))
    }

    /// What one instruction does to the state.
    pub open spec fn execute(self, opcode: Opcode, line: Option<Seq<char>>) -> (State, Outcome) {
        match opcode {
            Opcode::Roll => self.roll(),
            Opcode::Input => self.input(line),
            Opcode::Output => self.output(),
            Opcode::Less => self.less(),
            Opcode::Duplicate => self.duplicate(),
            Opcode::Jump => self.jump(),
            Opcode::Subtract => self.arithmetic(opcode, Operator::Subtract),
            Opcode::Divide => self.arithmetic(opcode, Operator::Divide),
            Opcode::CycleMode => self.cycle_mode(),
            Opcode::Reverse => self.reverse(),
            Opcode::Clear => self.clear(),
            Opcode::PrintAll => self.print_all(),
        }
    }

    /// One step of the execution: the instruction at the pointer is
    /// decoded and executed. Past the end of the tape nothing changes.
    pub open spec fn step(self, line: Option<Seq<char>>) -> (State, Outcome) {
        match decoded(self.tape, self.ip) {
            None => (self, Outcome::Halt),
            Some(Instruction::Literal(_)) => self.literal(run_length(self.tape, self.ip as int)),
            Some(Instruction::Operation(opcode)) => self.execute(opcode, line),
        }
    }

    /// Up to `fuel` steps in a row: the first with the line, the others
    /// with none, up to and including the first step whose outcome is not
    /// [`Outcome::Done`]. That outcome is the outcome of the whole; it is
    /// `Done` if every step was.
    pub open spec fn run(self, line: Option<Seq<char>>, fuel: nat) -> (State, Outcome)
        decreases fuel,
    {
        if fuel == 0 {
            (self, Outcome::Done)
        } else {
            let (next, outcome) = self.step(line);
            if outcome is Done {
                next.run(None, (fuel - 1) as nat)
            } else {
                (next, outcome)
            }
        }
    }
}

/// The interpreter: a tape and the state of its execution.
#[derive(Debug)]
pub struct Machine {
    tape: Vec<Glyph>,
    ip: usize,
    stack: Vec<Item>,
    mode: Mode,
    queue: VecDeque<u16>,
}

impl View for Machine {
    type V = State;

    closed spec fn view(&self) -> State {
        State {
            tape: self.tape@,
            ip: self.ip as nat,
            stack: self.stack@,
            mode: self.mode,
            queue: self.queue@,
        }
    }
}

impl Machine {
    /// A machine at the start of the given tape: empty stack, integer mode,
    /// nothing pending.
    pub fn new(tape: Vec<Glyph>) -> (machine: Machine)
        ensures
            machine@ == State::initial(tape@),
    {
        Machine { tape, ip: 0, stack: Vec::new(), mode: Mode::Int, queue: VecDeque::new() }
    }

    /// A machine at the start of the program that the source text holds.
    pub fn load(source: &str) -> (machine: Machine)
        ensures
            machine@ == State::initial(tape_of(source@)),
    {
        Machine::new(tokenize(source))
    }

    /// A machine in the middle of an execution, from its parts.
    pub fn resume(
        tape: Vec<Glyph>,
        ip: usize,
        stack: Vec<Item>,
        mode: Mode,
        queue: VecDeque<u16>,
    ) -> (machine: Machine)
        ensures
            machine@ == (State {
                tape: tape@,
                ip: ip as nat,
                stack: stack@,
                mode,
                queue: queue@,
            }),
    {
        Machine { tape, ip, stack, mode, queue }
    }

    /// The tape.
    pub fn tape(&self) -> (tape: &Vec<Glyph>)
        ensures
            tape@ == self@.tape,
    {
        &self.tape
    }

    /// The place of the next instruction.
    pub fn ip(&self) -> (ip: usize)
        ensures
            ip == self@.ip,
    {
        self.ip
    }

    /// The data stack, the top last.
    pub fn stack(&self) -> (stack: &Vec<Item>)
        ensures
            stack@ == self@.stack,
    {
        &self.stack
    }

    /// The active mode.
    pub fn mode(&self) -> (mode: Mode)
        ensures
            mode == self@.mode,
    {
        self.mode
    }

    /// The code units that wait to be pushed, the next one first.
    pub fn pending(&self) -> (queue: &VecDeque<u16>)
        ensures
            queue@ == self@.queue,
    {
        &self.queue
    }

    /// Whether the program has ended.
    pub fn halted(&self) -> (halted: bool)
        ensures
            halted == self@.halted(),
    {
        self.ip >= self.tape.len()
    }

    /// The instruction at the pointer, or `None` when the program has ended.
    pub fn decode(&self) -> (instruction: Option<Instruction>)
        ensures
            instruction == decoded(self@.tape, self@.ip),
    {
        if self.ip >= self.tape.len() {
            return None;
        }
        let first = self.tape[self.ip];
        match Opcode::from_single(first) {
            None => {
                let mut count: usize = 1;
                while self.ip + count < self.tape.len() && is_run(self.tape[self.ip + count])
                    invariant
                        1 <= count,
                        self.ip + count <= self.tape.len(),
                        forall|j: int|
                            self.ip <= j < self.ip + count ==> self.tape@[j] == Glyph::Run,
                    decreases self.tape.len() - count,
                {
                    count = count + 1;
                }
                proof {
                    lemma_run_length(self.tape@, self.ip as int, count as nat);
                }
                Some(Instruction::Literal(count))
            },
            Some(alone) => {
                let both = if self.ip + 1 < self.tape.len() {
                    Opcode::from_pair(first, self.tape[self.ip + 1])
                } else {
                    None
                };
                match both {
                    Some(opcode) => Some(Instruction::Operation(opcode)),
                    None => Some(Instruction::Operation(alone)),
                }
            },
        }
    }

    /// Executes a literal of the given run length.
    fn push_literal(&mut self, count: usize)
        requires
            old(self).ip + count <= old(self).tape.len(),
        ensures
            final(self)@ == old(self)@.literal(count as nat).0,
    {
        self.stack.push(Item::literal(count, self.mode));
        self.ip = self.ip + count;
    }

    /// Executes the output instruction.
    fn output(&mut self) -> (effect: Effect)
        requires
            old(self).ip + 2 <= old(self).tape.len(),
        ensures
            final(self)@ == old(self)@.output().0,
            effect@ == old(self)@.output().1,
    {
        self.ip = self.ip + 2;
        match self.stack.pop() {
            Some(item) => {
                assert(self.stack@ =~= old(self).stack@.drop_last());
                Effect::Write(item.render())
            },
            None => Effect::Underflow(Opcode::Output),
        }
    }

    /// Executes the input instruction.
    fn input(&mut self, line: Option<&str>) -> (effect: Effect)
        requires
            old(self).ip + 2 <= old(self).tape.len(),
        ensures
            final(self)@ == old(self)@.input(text_of(line)).0,
            effect@ == old(self)@.input(text_of(line)).1,
    {
        match self.mode {
            Mode::Int => match line {
                Some(text) => match parse_integer(text) {
                    Some(n) => {
                        self.stack.push(Item::Int(n));
                        self.ip = self.ip + 2;
                        Effect::Done
                    },
                    None => Effect::Fault(Fault::MalformedInteger),
                },
                None => Effect::NeedLine,
            },
            Mode::Float => match line {
                Some(text) => match parse_float(text) {
                    Some(x) => {
                        self.stack.push(Item::Float(x));
                        self.ip = self.ip + 2;
                        Effect::Done
                    },
                    None => Effect::Fault(Fault::MalformedFloat),
                },
                None => Effect::NeedLine,
            },
            Mode::Char => match self.queue.pop_front() {
                Some(unit) => {
                    self.stack.push(Item::Char(unit));
                    self.ip = self.ip + 2;
                    assert(self.queue@ =~= old(self).queue@.drop_first());
                    Effect::Done
                },
                None => match line {
                    Some(text) => {
                        let mut units = encode_utf16(text);
                        match units.pop_front() {
                            Some(unit) => {
                                assert(units@ =~= utf16_of(text@).drop_first());
                                self.queue = units;
                                self.stack.push(Item::Char(unit));
                                self.ip = self.ip + 2;
                                Effect::Done
                            },
                            None => Effect::Fault(Fault::EndOfInput),
                        }
                    },
                    None => Effect::NeedLine,
                },
            },
        }
    }

    /// Executes the rotate instruction.
    fn roll(&mut self) -> (effect: Effect)
        requires
            old(self).ip + 2 <= old(self).tape.len(),
        ensures
            final(self)@ == old(self)@.roll().0,
            effect@ == old(self)@.roll().1,
    {
        let n: usize = self.stack.len();
        self.ip = self.ip + 2;
        if n < 2 {
            return Effect::Underflow(Opcode::Roll);
        }
        let rot: i32 = self.stack[n - 1].get_int();
        let depth: i32 = self.stack[n - 2].get_int();
        let rest: usize = n - 2;
        if depth > 0 && depth as usize > rest {
            return Effect::Underflow(Opcode::Roll);
        }
        self.stack.truncate(rest);
        assert(self.stack@ =~= old(self)@.below_two());
        if depth > 0 {
            rotate_top(&mut self.stack, depth as usize, rot);
        }
        Effect::Done
    }

    /// Executes the comparing instruction.
    fn less(&mut self) -> (effect: Effect)
        requires
            old(self).ip + 2 <= old(self).tape.len(),
        ensures
            final(self)@ == old(self)@.less().0,
            effect@ == old(self)@.less().1,
    {
        let n: usize = self.stack.len();
        self.ip = self.ip + 2;
        if n < 2 {
            return Effect::Underflow(Opcode::Less);
        }
        let r = self.stack[n - 1];
        let l = self.stack[n - 2];
        self.stack.truncate(n - 2);
        let verdict = if l.less_than(r) {
            Item::Int(1)
        } else {
            Item::Int(0)
        };
        self.stack.push(verdict.into(self.mode));
        Effect::Done
    }

    /// Executes the duplicating instruction.
    fn duplicate(&mut self) -> (effect: Effect)
        requires
            old(self).ip + 2 <= old(self).tape.len(),
        ensures
            final(self)@ == old(self)@.duplicate().0,
            effect@ == old(self)@.duplicate().1,
    {
        let n: usize = self.stack.len();
        if n < 1 {
            return Effect::Fault(Fault::NothingToDuplicate);
        }
        let top = self.stack[n - 1];
        self.stack.push(top);
        self.ip = self.ip + 2;
        Effect::Done
    }

    /// Executes the conditional jump.
    fn jump(&mut self) -> (effect: Effect)
        requires
            old(self).ip + 2 <= old(self).tape.len(),
        ensures
            final(self)@ == old(self)@.jump().0,
            effect@ == old(self)@.jump().1,
    {
        let n: usize = self.stack.len();
        if n < 2 {
            self.ip = self.ip + 2;
            return Effect::Underflow(Opcode::Jump);
        }
        let condition: i32 = self.stack[n - 1].get_int();
        let target: i32 = self.stack[n - 2].get_int();
        self.stack.truncate(n - 2);
        if condition == 0 {
            self.ip = self.ip + 2;
        } else if target >= 0 {
            self.ip = target as usize;
        } else {
            self.ip = self.tape.len();
        }
        Effect::Done
    }

    /// Executes subtraction or division.
    fn arithmetic(&mut self, opcode: Opcode, op: Operator) -> (effect: Effect)
        requires
            old(self).ip + 2 <= old(self).tape.len(),
        ensures
            final(self)@ == old(self)@.arithmetic(opcode, op).0,
            effect@ == old(self)@.arithmetic(opcode, op).1,
    {
        let n: usize = self.stack.len();
        if n < 2 {
            self.ip = self.ip + 2;
            return Effect::Underflow(opcode);
        }
        let r = self.stack[n - 1];
        let l = self.stack[n - 2];
        match l.combine(op, r) {
            Ok(item) => {
                self.stack.truncate(n - 2);
                self.stack.push(item.into(self.mode));
                self.ip = self.ip + 2;
                Effect::Done
            },
            Err(Undefined::DivisionByZero) => Effect::Fault(Fault::DivisionByZero),
            Err(Undefined::DivisionOverflow) => Effect::Fault(Fault::DivisionOverflow),
        }
    }

    /// Executes one instruction of one or two glyphs.
    fn execute(&mut self, opcode: Opcode, line: Option<&str>) -> (effect: Effect)
        requires
            old(self).ip + opcode.width() <= old(self).tape.len(),
        ensures
            final(self)@ == old(self)@.execute(opcode, text_of(line)).0,
            effect@ == old(self)@.execute(opcode, text_of(line)).1,
    {
        match opcode {
            Opcode::Roll => self.roll(),
            Opcode::Input => self.input(line),
            Opcode::Output => self.output(),
            Opcode::Less => self.less(),
            Opcode::Duplicate => self.duplicate(),
            Opcode::Jump => self.jump(),
            Opcode::Subtract => self.arithmetic(opcode, Operator::Subtract),
            Opcode::Divide => self.arithmetic(opcode, Operator::Divide),
            Opcode::CycleMode => {
                self.mode = self.mode.next();
                self.ip = self.ip + 2;
                Effect::Done
            },
            Opcode::Reverse => {
                self.stack = reversed(&self.stack);
                self.ip = self.ip + 1;
                Effect::Done
            },
            Opcode::Clear => {
                self.stack = Vec::new();
                self.ip = self.ip + 1;
                Effect::Done
            },
            Opcode::PrintAll => {
                self.ip = self.ip + 1;
                Effect::Write(render_all(&self.stack))
            },
        }
    }

    /// Executes the instruction at the pointer. The line is what was read
    /// for an instruction that asked for one; an instruction that needs
    /// none does not look at it.
    ///
    /// The machine and the effect are exactly what [`State::step`] gives for
    /// the machine as it was and the line. In particular an effect of
    /// [`Effect::NeedLine`], [`Effect::Fault`] or [`Effect::Halt`] leaves
    /// the machine untouched, and a stack underflow leaves the stack
    /// untouched.
    pub fn step(&mut self, line: Option<&str>) -> (effect: Effect)
        ensures
            final(self)@ == old(self)@.step(text_of(line)).0,
            effect@ == old(self)@.step(text_of(line)).1,
    {
        match self.decode() {
            None => Effect::Halt,
            Some(Instruction::Literal(count)) => {
                proof {
                    lemma_run_is_maximal(self.tape@, self.ip as int);
                    assert(run_length(self.tape@, self.ip as int) <= self.tape.len());
                }
                self.push_literal(count);
                Effect::Done
            },
            Some(Instruction::Operation(opcode)) => self.execute(opcode, line),
        }
    }

    /// Executes instructions until one of them leaves something for the
    /// caller to do, or until `fuel` of them ran. The line goes to the first
    /// of them.
    ///
    /// The effect is that of the last instruction executed: anything but
    /// [`Effect::Done`] is to be handled as after a single step, and `Done`
    /// says that the fuel ran out with the program still running.
    pub fn run(&mut self, line: Option<&str>, fuel: usize) -> (effect: Effect)
        ensures
            final(self)@ == old(self)@.run(text_of(line), fuel as nat).0,
            effect@ == old(self)@.run(text_of(line), fuel as nat).1,
    {
        let mut pending: Option<&str> = line;
        let mut left: usize = fuel;
        while left > 0
            invariant
                self@.run(text_of(pending), left as nat) == old(self)@.run(
                    text_of(line),
                    fuel as nat,
                ),
            decreases left,
        {
            let effect = self.step(pending);
            match effect {
                Effect::Done => {
                    pending = None;
                    left = left - 1;
                },
                other => {
                    return other;
                },
            }
        }
        Effect::Done
    }
}

/// A copy of the items in the opposite order.
pub fn reversed(items: &Vec<Item>) -> (turned: Vec<Item>)
    ensures
        turned@ == items@.reverse(),
{
    let mut turned: Vec<Item> = Vec::new();
    let mut left: usize = items.len();
    while left > 0
        invariant
            left <= items.len(),
            turned@ == items@.reverse().take(items.len() - left),
        decreases left,
    {
        left = left - 1;
        turned.push(items[left]);
        assert(turned@ =~= items@.reverse().take(items.len() - left));
    }
    assert(items@.reverse().take(items.len() as int) =~= items@.reverse());
    turned
}

/// Renders the items one after another.
pub fn render_all(items: &Vec<Item>) -> (text: String)
    ensures
        text@ == rendered_all(items@),
{
    let mut text = String::new();
    let mut at: usize = 0;
    while at < items.len()
        invariant
            at <= items.len(),
            text@ == rendered_all(items@.take(at as int)),
        decreases items.len() - at,
    {
        let piece = items[at].render();
        text.append(piece.as_str());
        at = at + 1;
        proof {
            let longer = items@.take(at as int);
            assert(longer.drop_last() =~= items@.take(at - 1));
            assert(longer.last() == items@[at - 1]);
        }
    }
    assert(items@.take(items.len() as int) =~= items@);
    text
}

/// The place of rotation `rot` in a window of `size` items: `rot` modulo
/// `size`, which lies in the window for a negative `rot` too.
fn offset(rot: i32, size: usize) -> (place: usize)
    requires
        0 < size <= i32::MAX,
    ensures
        place == rot as int % size as int,
        place < size,
{
    if rot >= 0 {
        rot as usize % size
    } else {
        let back: usize = ((-(rot as i64)) as u64 % size as u64) as usize;
        proof {
            let m = -(rot as int);
            let d = size as int;
            lemma_fundamental_div_mod(m, d);
            let q = m / d;
            if back == 0 {
                assert(rot as int == (-q) * d + 0) by (nonlinear_arith)
                    requires
                        m == d * q + 0,
                        rot as int == -m,
                ;
                lemma_fundamental_div_mod_converse(
                    rot as int,
                    d,
                    -q,
                    0,
                );
            } else {
                assert(rot as int == (-q - 1) * d + (d - back)) by (nonlinear_arith)
                    requires
                        m == d * q + back,
                        rot as int == -m,
                ;
                lemma_fundamental_div_mod_converse(
                    rot as int,
                    d,
                    -q - 1,
                    d - back,
                );
            }
        }
        if back == 0 {
            0
        } else {
            size - back
        }
    }
}

/// Rotates the top `size` items of a stack by `rot`.
fn rotate_top(stack: &mut Vec<Item>, size: usize, rot: i32)
    requires
        0 < size <= i32::MAX,
        size <= old(stack)@.len(),
    ensures
        final(stack)@ == rolled(old(stack)@, size as nat, rot as int),
{
    let ghost below = stack@;
    let ghost goal = rolled(below, size as nat, rot as int);
    let rest: usize = stack.len();
    let base: usize = rest - size;
    let shift: usize = offset(rot, size);
    let mut window: Vec<Item> = Vec::new();
    let mut at: usize = 0;
    while at < size
        invariant
            at <= size,
            base + size == rest,
            stack@ == below,
            below.len() == rest,
            window@.len() == at,
            forall|j: int| 0 <= j < at ==> window@[j] == below[base + j],
        decreases size - at,
    {
        window.push(stack[base + at]);
        at = at + 1;
    }
    stack.truncate(base);
    let mut done: usize = 0;
    while done < size
        invariant
            done <= size,
            0 < size <= i32::MAX,
            base + size == rest,
            below.len() == rest,
            shift == rot as int % size as int,
            window@.len() == size,
            forall|j: int| 0 <= j < size ==> window@[j] == below[base + j],
            goal == rolled(below, size as nat, rot as int),
            stack@.len() == base + done,
            forall|j: int| 0 <= j < base + done ==> stack@[j] == goal[j],
        decreases size - done,
    {
        let top_first: usize = size - 1 - done;
        let from: usize = (top_first + shift) % size;
        proof {
            lemma_add_mod_noop_right(
                top_first as int,
                rot as int,
                size as int,
            );
            let turned = rotated(top_window(below, size as nat), rot as int);
            assert(goal[base + done] == turned.reverse()[done as int]);
            assert(turned.reverse()[done as int] == turned[top_first as int]);
            assert(turned[top_first as int] == top_window(below, size as nat)[from as int]);
        }
        stack.push(window[size - 1 - from]);
        done = done + 1;
    }
    assert(stack@ =~= goal);
}

/// Whether the glyph is the run marker.
fn is_run(glyph: Glyph) -> (run: bool)
    ensures
        run == (glyph == Glyph::Run),
{
    match glyph {
        Glyph::Run => true,
        _ => false,
    }
}

/// A run of `count` run markers from place `at` on, which ends with the tape
/// or before another glyph, has run length `count`.
pub proof fn lemma_run_length(tape: Seq<Glyph>, at: int, count: nat)
    requires
        0 <= at,
        at + count <= tape.len(),
        forall|j: int| at <= j < at + count ==> tape[j] == Glyph::Run,
        at + count == tape.len() || tape[at + count] != Glyph::Run,
    ensures
        run_length(tape, at) == count,
    decreases count,
{
    if count > 0 {
        lemma_run_length(tape, at + 1, (count - 1) as nat);
    }
}

/// A run never leaves the tape, and is followed by the end of the tape or
/// by another glyph.
pub proof fn lemma_run_is_maximal(tape: Seq<Glyph>, at: int)
    requires
        0 <= at <= tape.len(),
    ensures
        at + run_length(tape, at) <= tape.len(),
        forall|j: int| at <= j < at + run_length(tape, at) ==> tape[j] == Glyph::Run,
        at + run_length(tape, at) == tape.len() || tape[at + run_length(tape, at)] != Glyph::Run,
    decreases tape.len() - at,
{
    if at < tape.len() && tape[at] == Glyph::Run {
        lemma_run_is_maximal(tape, at + 1);
    }
}

} // verus!
