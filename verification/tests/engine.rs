use fourglyph::binary64::Binary64;
use fourglyph::glyph::{tokenize, Glyph};
use fourglyph::machine::{Effect, Fault, Instruction, Machine, Opcode};
use fourglyph::value::{Item, Mode};
use std::collections::VecDeque;

/// What a finished run leaves behind.
struct Run {
    machine: Machine,
    output: String,
    logged: Vec<Opcode>,
    fault: Option<Fault>,
}

fn float(x: f64) -> Item {
    Item::Float(Binary64 { bits: x.to_bits() })
}

/// Steps a machine until the program ends or faults, answering every need
/// from the given lines of input; past their end the lines are empty.
fn drive(mut machine: Machine, input: &[&str]) -> Run {
    let mut lines = input.iter();
    let mut output = String::new();
    let mut logged = Vec::new();
    let mut line: Option<String> = None;
    for _ in 0..100_000 {
        let effect = machine.step(line.as_deref());
        line = None;
        match effect {
            Effect::Halt => return Run { machine, output, logged, fault: None },
            Effect::Fault(fault) => return Run { machine, output, logged, fault: Some(fault) },
            Effect::Done => {}
            Effect::Write(text) => output.push_str(&text),
            Effect::Underflow(opcode) => logged.push(opcode),
            Effect::NeedLine => line = Some(lines.next().map(|l| l.to_string()).unwrap_or_default()),
        }
    }
    panic!("the program did not end");
}

fn run(source: &str, input: &[&str]) -> Run {
    drive(Machine::load(source), input)
}

/// A machine in the middle of a tape, with the given stack.
fn at(source: &str, ip: usize, stack: Vec<Item>, mode: Mode) -> Machine {
    Machine::resume(tokenize(source), ip, stack, mode, VecDeque::new())
}

#[test]
fn empty_program_halts_at_once() {
    let mut machine = Machine::load("no glyph in here\n");
    assert!(machine.tape().is_empty());
    assert!(machine.halted());
    assert!(matches!(machine.step(None), Effect::Halt));
    assert_eq!(machine.ip(), 0);
    assert!(machine.stack().is_empty());
    assert_eq!(machine.mode(), Mode::Int);
}

#[test]
fn starts_in_integer_mode_with_empty_stack() {
    let machine = Machine::load("ど");
    assert_eq!(machine.ip(), 0);
    assert_eq!(machine.mode(), Mode::Int);
    assert!(machine.stack().is_empty());
    assert!(machine.pending().is_empty());
    assert!(!machine.halted());
}

#[test]
fn duplicate_then_compare_leaves_zero() {
    let run = run("どど野野野木", &[]);
    assert_eq!(run.machine.stack(), &vec![Item::Int(0)]);
    assert_eq!(run.output, "");
    assert!(run.logged.is_empty());
    assert_eq!(run.fault, None);
}

#[test]
fn duplicate_then_compare_leaves_zero_in_every_mode() {
    for (mode, zero) in
        [(Mode::Int, Item::Int(0)), (Mode::Float, float(0.0)), (Mode::Char, Item::Char(0))]
    {
        for top in [Item::Int(-7), float(f64::NAN), float(2.5), Item::Char(9)] {
            let machine = at("野野野木", 0, vec![Item::Int(1), top], mode);
            let run = drive(machine, &[]);
            assert_eq!(run.machine.stack(), &vec![Item::Int(1), zero]);
            assert_eq!(run.fault, None);
        }
    }
}

#[test]
fn run_pushes_its_length_and_passes_the_whole_run() {
    let mut machine = Machine::load("どどどどど木松");
    assert_eq!(machine.decode(), Some(Instruction::Literal(5)));
    assert!(matches!(machine.step(None), Effect::Done));
    assert_eq!(machine.ip(), 5);
    assert_eq!(machine.stack(), &vec![Item::Int(5)]);
}

#[test]
fn long_run_is_one_literal() {
    let source = "ど".repeat(70_000);
    let mut machine = Machine::load(&source);
    assert!(matches!(machine.step(None), Effect::Done));
    assert_eq!(machine.ip(), 70_000);
    assert_eq!(machine.stack(), &vec![Item::Int(70_000)]);
    assert!(machine.halted());
    let mut machine = Machine::resume(tokenize(&source), 0, vec![], Mode::Char, VecDeque::new());
    assert!(matches!(machine.step(None), Effect::Done));
    assert_eq!(machine.ip(), 70_000);
    assert_eq!(machine.stack(), &vec![Item::Char(4464)]);
    let mut machine = Machine::resume(tokenize(&source), 0, vec![], Mode::Float, VecDeque::new());
    assert!(matches!(machine.step(None), Effect::Done));
    assert_eq!(machine.stack(), &vec![float(70_000.0)]);
}

#[test]
fn run_from_its_middle_counts_what_is_left() {
    let mut machine = at("どどどど", 1, vec![], Mode::Int);
    assert_eq!(machine.decode(), Some(Instruction::Literal(3)));
    machine.step(None);
    assert_eq!(machine.stack(), &vec![Item::Int(3)]);
    assert_eq!(machine.ip(), 4);
}

#[test]
fn decoration_is_ignored() {
    let run = run("push two: ど ど\n then 野野 copy, 野木 compare // 0", &[]);
    assert_eq!(run.machine.stack(), &vec![Item::Int(0)]);
}

#[test]
fn mode_cycle_types_literal_and_output() {
    let run = run("松松どど木松", &[]);
    assert_eq!(run.output, "2.000000");
    assert!(run.machine.stack().is_empty());
    assert_eq!(run.machine.mode(), Mode::Float);
}

#[test]
fn mode_cycle_returns_after_three() {
    let mut machine = Machine::load("松松松松松松ど");
    machine.step(None);
    assert_eq!(machine.mode(), Mode::Float);
    machine.step(None);
    assert_eq!(machine.mode(), Mode::Char);
    machine.step(None);
    assert_eq!(machine.mode(), Mode::Int);
    assert_eq!(machine.ip(), 6);
    machine.step(None);
    assert_eq!(machine.stack(), &vec![Item::Int(1)]);
}

#[test]
fn literals_follow_the_mode() {
    let run = run("ど松松ど松松ど松松ど松", &[]);
    assert_eq!(
        run.machine.stack(),
        &vec![Item::Int(1), float(1.0), Item::Char(1), Item::Int(1)]
    );
    assert_eq!(run.output, "11.000000\u{1}1");
}

#[test]
fn output_on_empty_stack_recovers() {
    let run = run("木松", &[]);
    assert_eq!(run.output, "");
    assert_eq!(run.logged, vec![Opcode::Output]);
    assert!(run.machine.stack().is_empty());
    assert_eq!(run.fault, None);
    assert_eq!(run.machine.ip(), 2);
}

#[test]
fn execution_continues_after_underflow() {
    let run = run("木松どどど木松", &[]);
    assert_eq!(run.output, "3");
    assert_eq!(run.logged, vec![Opcode::Output]);
}

#[test]
fn output_pops_and_writes_the_top() {
    let run = run("どどどどどどどどどどどど木松", &[]);
    assert_eq!(run.output, "12");
    assert!(run.machine.stack().is_empty());
}

#[test]
fn code_unit_is_written_as_its_character() {
    let source = format!("松松松松{}木松", "ど".repeat(65));
    let run = run(&source, &[]);
    assert_eq!(run.output, "A");
}

#[test]
fn print_all_writes_bottom_to_top_and_keeps_the_stack() {
    let run = run("ど木どど木どどど松", &[]);
    assert_eq!(run.machine.stack(), &vec![Item::Int(2), Item::Int(1), Item::Int(3)]);
    assert_eq!(run.output, "213");
}

#[test]
fn print_all_on_empty_stack_writes_nothing() {
    let mut machine = Machine::load("松");
    assert_eq!(machine.step(None), Effect::Write(String::new()));
    assert_eq!(machine.ip(), 1);
}

#[test]
fn clear_empties_the_stack() {
    let mut machine = at("野", 0, vec![Item::Int(1), Item::Char(2)], Mode::Int);
    assert_eq!(machine.decode(), Some(Instruction::Operation(Opcode::Clear)));
    assert!(matches!(machine.step(None), Effect::Done));
    assert!(machine.stack().is_empty());
    assert_eq!(machine.ip(), 1);
}

#[test]
fn clear_on_empty_stack_leaves_it_empty() {
    let run = run("野", &[]);
    assert!(run.machine.stack().is_empty());
    assert!(run.logged.is_empty());
    assert_eq!(run.fault, None);
}

#[test]
fn reverse_turns_the_whole_stack() {
    let mut machine = at("木", 0, vec![Item::Int(1), float(2.0), Item::Char(3)], Mode::Int);
    assert_eq!(machine.decode(), Some(Instruction::Operation(Opcode::Reverse)));
    machine.step(None);
    assert_eq!(machine.stack(), &vec![Item::Char(3), float(2.0), Item::Int(1)]);
    assert_eq!(machine.ip(), 1);
}

#[test]
fn reverse_on_empty_or_single_stack_changes_nothing() {
    let run = run("木", &[]);
    assert!(run.machine.stack().is_empty());
    assert!(run.logged.is_empty());
    let mut machine = at("木", 0, vec![Item::Int(9)], Mode::Int);
    machine.step(None);
    assert_eq!(machine.stack(), &vec![Item::Int(9)]);
}

#[test]
fn glyph_before_a_run_stands_alone() {
    let machine = at("松どど", 0, vec![], Mode::Int);
    assert_eq!(machine.decode(), Some(Instruction::Operation(Opcode::PrintAll)));
    let machine = at("野ど", 0, vec![], Mode::Int);
    assert_eq!(machine.decode(), Some(Instruction::Operation(Opcode::Clear)));
    let machine = at("木ど", 0, vec![], Mode::Int);
    assert_eq!(machine.decode(), Some(Instruction::Operation(Opcode::Reverse)));
}

#[test]
fn every_pair_selects_its_instruction() {
    let expected = [
        ("木木", Opcode::Roll),
        ("木野", Opcode::Input),
        ("木松", Opcode::Output),
        ("野木", Opcode::Less),
        ("野野", Opcode::Duplicate),
        ("野松", Opcode::Jump),
        ("松木", Opcode::Subtract),
        ("松野", Opcode::Divide),
        ("松松", Opcode::CycleMode),
    ];
    for (source, opcode) in expected {
        let machine = Machine::load(source);
        assert_eq!(machine.decode(), Some(Instruction::Operation(opcode)));
        assert_eq!(opcode.glyphs(), tokenize(source));
        assert_eq!(opcode.name(), source);
        let glyphs = tokenize(source);
        assert_eq!(Opcode::from_pair(glyphs[0], glyphs[1]), Some(opcode));
    }
    assert_eq!(Opcode::from_pair(Glyph::Run, Glyph::Tree), None);
    assert_eq!(Opcode::from_pair(Glyph::Pine, Glyph::Run), None);
    assert_eq!(Opcode::from_single(Glyph::Run), None);
    assert_eq!(Opcode::from_single(Glyph::Tree), Some(Opcode::Reverse));
    assert_eq!(Opcode::Reverse.glyphs(), vec![Glyph::Tree]);
    assert_eq!(Opcode::Clear.glyphs(), vec![Glyph::Field]);
    assert_eq!(Opcode::PrintAll.glyphs(), vec![Glyph::Pine]);
    assert_eq!(Opcode::Reverse.name(), "木");
    assert_eq!(Opcode::Clear.name(), "野");
    assert_eq!(Opcode::PrintAll.name(), "松");
}

#[test]
fn subtract_pops_right_then_left() {
    let run = run("どどどどど木どどど松木木松", &[]);
    assert_eq!(run.output, "2");
    let mut machine = at("松木", 0, vec![Item::Int(3), Item::Int(5)], Mode::Int);
    machine.step(None);
    assert_eq!(machine.stack(), &vec![Item::Int(-2)]);
    assert_eq!(machine.ip(), 2);
}

#[test]
fn subtract_result_is_coerced_to_the_mode() {
    let mut machine = at("松木", 0, vec![Item::Int(3), Item::Int(5)], Mode::Char);
    machine.step(None);
    assert_eq!(machine.stack(), &vec![Item::Char(65534)]);
    let mut machine = at("松木", 0, vec![Item::Int(3), Item::Int(5)], Mode::Float);
    machine.step(None);
    assert_eq!(machine.stack(), &vec![float(-2.0)]);
    let mut machine = at("松木", 0, vec![Item::Char(3), Item::Char(5)], Mode::Int);
    machine.step(None);
    assert_eq!(machine.stack(), &vec![Item::Int(65534)]);
}

#[test]
fn floating_subtraction_widens_the_other_operand() {
    let mut machine = at("松木", 0, vec![Item::Int(9), Item::Int(3), float(0.5)], Mode::Float);
    assert_eq!(machine.step(None), Effect::Done);
    assert_eq!(machine.stack(), &vec![Item::Int(9), float(2.5)]);
    assert_eq!(machine.ip(), 2);
    let mut machine = at("松木", 0, vec![float(0.1), Item::Char(2)], Mode::Float);
    machine.step(None);
    assert_eq!(machine.stack(), &vec![float(0.1 - 2.0)]);
}

#[test]
fn floating_division_rounds_as_ieee_does() {
    let mut machine = at("松野", 0, vec![float(1.0), float(3.0)], Mode::Float);
    machine.step(None);
    assert_eq!(machine.stack(), &vec![float(1.0 / 3.0)]);
    let mut machine = at("松野", 0, vec![Item::Int(2), float(0.3)], Mode::Float);
    machine.step(None);
    assert_eq!(machine.stack(), &vec![float(2.0 / 0.3)]);
}

#[test]
fn floating_result_is_coerced_to_the_mode() {
    let run = drive(at("松木", 0, vec![float(7.75), Item::Char(2)], Mode::Int), &[]);
    assert_eq!(run.machine.stack(), &vec![Item::Int(5)]);
    let run = drive(at("松野", 0, vec![float(1.0), float(-4.0)], Mode::Char), &[]);
    assert_eq!(run.machine.stack(), &vec![Item::Char(0)]);
    let run = drive(at("松野", 0, vec![float(-9.0), Item::Int(2)], Mode::Char), &[]);
    assert_eq!(run.machine.stack(), &vec![Item::Char(65532)]);
}

#[test]
fn unasked_line_is_ignored() {
    let mut machine = at("松木", 0, vec![Item::Int(3), Item::Int(5)], Mode::Int);
    assert_eq!(machine.step(Some("7")), Effect::Done);
    assert_eq!(machine.stack(), &vec![Item::Int(-2)]);
}

#[test]
fn divide_truncates_toward_zero() {
    let mut machine = at("松野", 0, vec![Item::Int(-7), Item::Int(2)], Mode::Int);
    machine.step(None);
    assert_eq!(machine.stack(), &vec![Item::Int(-3)]);
}

#[test]
fn integer_division_by_zero_is_a_fault() {
    let run = run("どどどどど木ど野野野木松野", &[]);
    assert_eq!(run.fault, Some(Fault::DivisionByZero));
    assert_eq!(run.machine.stack(), &vec![Item::Int(5), Item::Int(0)]);
    let run = drive(at("松野", 0, vec![Item::Char(5), Item::Char(0)], Mode::Char), &[]);
    assert_eq!(run.fault, Some(Fault::DivisionByZero));
    let run = drive(at("松野", 0, vec![Item::Int(5), Item::Char(0)], Mode::Float), &[]);
    assert_eq!(run.fault, Some(Fault::DivisionByZero));
}

#[test]
fn least_integer_by_minus_one_is_a_fault() {
    let run = drive(at("松野", 0, vec![Item::Int(i32::MIN), Item::Int(-1)], Mode::Int), &[]);
    assert_eq!(run.fault, Some(Fault::DivisionOverflow));
}

#[test]
fn floating_division_by_zero_is_not_a_fault() {
    let run = drive(at("松野木松", 0, vec![float(1.0), Item::Int(0)], Mode::Float), &[]);
    assert_eq!(run.fault, None);
    assert_eq!(run.output, "inf");
    let run = drive(at("松野", 0, vec![float(0.0), float(0.0)], Mode::Float), &[]);
    assert_eq!(run.fault, None);
    match run.machine.stack()[0] {
        Item::Float(x) => assert!(f64::from_bits(x.bits).is_nan()),
        _ => panic!("a floating quotient"),
    }
}

#[test]
fn arithmetic_underflow_restores_the_stack() {
    for (source, opcode) in [
        ("松木", Opcode::Subtract),
        ("松野", Opcode::Divide),
        ("野木", Opcode::Less),
        ("野松", Opcode::Jump),
        ("木木", Opcode::Roll),
    ] {
        for stack in [vec![], vec![Item::Int(4)]] {
            let mut machine = at(source, 0, stack.clone(), Mode::Int);
            match machine.step(None) {
                Effect::Underflow(found) => assert_eq!(found, opcode),
                _ => panic!("an underflow was expected"),
            }
            assert_eq!(machine.stack(), &stack);
            assert_eq!(machine.ip(), 2);
        }
    }
}

#[test]
fn compare_pushes_one_or_zero() {
    let mut machine = at("野木", 0, vec![Item::Int(3), Item::Int(5)], Mode::Int);
    machine.step(None);
    assert_eq!(machine.stack(), &vec![Item::Int(1)]);
    let mut machine = at("野木", 0, vec![Item::Int(5), Item::Int(3)], Mode::Int);
    machine.step(None);
    assert_eq!(machine.stack(), &vec![Item::Int(0)]);
    let mut machine = at("野木", 0, vec![Item::Int(3), Item::Int(5)], Mode::Float);
    machine.step(None);
    assert_eq!(machine.stack(), &vec![float(1.0)]);
    let mut machine = at("野木", 0, vec![Item::Int(3), Item::Int(5)], Mode::Char);
    machine.step(None);
    assert_eq!(machine.stack(), &vec![Item::Char(1)]);
}

#[test]
fn compare_ranks_integer_below_float() {
    let mut machine = at("野木", 0, vec![Item::Int(5), float(1.0)], Mode::Int);
    machine.step(None);
    assert_eq!(machine.stack(), &vec![Item::Int(1)]);
    let mut machine = at("野木", 0, vec![float(1.0), Item::Int(5)], Mode::Int);
    machine.step(None);
    assert_eq!(machine.stack(), &vec![Item::Int(0)]);
}

#[test]
fn duplicate_copies_the_top() {
    let mut machine = at("野野", 0, vec![Item::Int(1), float(2.5)], Mode::Char);
    assert!(matches!(machine.step(None), Effect::Done));
    assert_eq!(machine.stack(), &vec![Item::Int(1), float(2.5), float(2.5)]);
    assert_eq!(machine.ip(), 2);
}

#[test]
fn duplicate_on_empty_stack_is_a_fault() {
    let run = run("野野", &[]);
    assert_eq!(run.fault, Some(Fault::NothingToDuplicate));
    assert!(run.logged.is_empty());
    assert_eq!(run.machine.ip(), 0);
}

#[test]
fn jump_is_taken_when_the_condition_is_not_zero() {
    let mut machine = at("野松どどどど", 0, vec![Item::Int(4), Item::Int(-1)], Mode::Int);
    assert!(matches!(machine.step(None), Effect::Done));
    assert_eq!(machine.ip(), 4);
    assert!(machine.stack().is_empty());
    machine.step(None);
    assert_eq!(machine.stack(), &vec![Item::Int(2)]);
}

#[test]
fn jump_is_not_taken_when_the_condition_is_zero() {
    let mut machine = at("野松どどどど", 0, vec![Item::Int(4), Item::Int(0)], Mode::Int);
    machine.step(None);
    assert_eq!(machine.ip(), 2);
    assert!(machine.stack().is_empty());
}

#[test]
fn jump_reads_its_operands_as_integers() {
    let mut machine = at("野松どどどど", 0, vec![float(3.9), Item::Char(1)], Mode::Int);
    machine.step(None);
    assert_eq!(machine.ip(), 3);
    let mut machine = at("野松どどどど", 0, vec![Item::Int(3), float(0.9)], Mode::Int);
    machine.step(None);
    assert_eq!(machine.ip(), 2);
}

#[test]
fn jump_out_of_range_ends_the_program() {
    let run = drive(at("野松木松", 0, vec![Item::Int(7), Item::Int(1_000_000), Item::Int(1)], Mode::Int), &[]);
    assert_eq!(run.fault, None);
    assert_eq!(run.output, "");
    assert_eq!(run.machine.ip(), 1_000_000);
    assert!(run.machine.halted());
    assert_eq!(run.machine.stack(), &vec![Item::Int(7)]);
}

#[test]
fn jump_to_negative_target_ends_the_program() {
    let run = drive(at("野松木松", 0, vec![Item::Int(7), Item::Int(-3), Item::Int(1)], Mode::Int), &[]);
    assert_eq!(run.fault, None);
    assert_eq!(run.output, "");
    assert!(run.machine.halted());
    assert_eq!(run.machine.stack(), &vec![Item::Int(7)]);
}

#[test]
fn roll_brings_the_item_at_the_offset_to_the_top() {
    let stack = vec![Item::Int(10), Item::Int(20), Item::Int(30), Item::Int(40), Item::Int(3), Item::Int(1)];
    let mut machine = at("木木", 0, stack, Mode::Int);
    assert!(matches!(machine.step(None), Effect::Done));
    assert_eq!(
        machine.stack(),
        &vec![Item::Int(10), Item::Int(40), Item::Int(20), Item::Int(30)]
    );
    assert_eq!(machine.ip(), 2);
}

#[test]
fn roll_by_zero_or_by_the_depth_changes_nothing() {
    for rot in [0, 3, 6, -3] {
        let stack = vec![Item::Int(10), Item::Int(20), Item::Int(30), Item::Int(3), Item::Int(rot)];
        let mut machine = at("木木", 0, stack, Mode::Int);
        machine.step(None);
        assert_eq!(machine.stack(), &vec![Item::Int(10), Item::Int(20), Item::Int(30)]);
    }
}

#[test]
fn roll_round_trip_restores_the_window() {
    let items: Vec<Item> = (0..7).map(Item::Int).collect();
    for depth in 1..=7usize {
        for rot in -15..=15i32 {
            let mut stack = items.clone();
            stack.push(Item::Int(depth as i32));
            stack.push(Item::Int(rot));
            let mut machine = at("木木木木", 0, stack, Mode::Int);
            machine.step(None);
            let top = machine.stack()[6];
            let offset = rot.rem_euclid(depth as i32) as usize;
            assert_eq!(top, items[6 - offset]);
            let mut stack = machine.stack().clone();
            stack.push(Item::Int(depth as i32));
            stack.push(Item::Int(depth as i32 - rot));
            let mut machine = at("木木木木", 2, stack, Mode::Int);
            machine.step(None);
            assert_eq!(machine.stack(), &items);
        }
    }
}

#[test]
fn roll_with_negative_rotation_turns_the_other_way() {
    let stack = vec![Item::Int(10), Item::Int(20), Item::Int(30), Item::Int(3), Item::Int(-1)];
    let mut machine = at("木木", 0, stack, Mode::Int);
    machine.step(None);
    assert_eq!(machine.stack(), &vec![Item::Int(20), Item::Int(30), Item::Int(10)]);
}

#[test]
fn roll_with_depth_zero_or_less_consumes_its_operands() {
    for depth in [0, -1, i32::MIN] {
        let stack = vec![Item::Int(10), Item::Int(20), Item::Int(depth), Item::Int(1)];
        let mut machine = at("木木", 0, stack, Mode::Int);
        assert!(matches!(machine.step(None), Effect::Done));
        assert_eq!(machine.stack(), &vec![Item::Int(10), Item::Int(20)]);
    }
}

/// What a rotation does when the stack runs out in the middle of its window
/// is a choice of this implementation: it is an underflow like any other,
/// everything is put back and the program moves on.
#[test]
fn roll_deeper_than_the_stack_restores_everything() {
    let stack = vec![Item::Int(10), Item::Int(20), Item::Int(3), Item::Int(1)];
    let mut machine = at("木木", 0, stack.clone(), Mode::Int);
    assert!(matches!(machine.step(None), Effect::Underflow(Opcode::Roll)));
    assert_eq!(machine.stack(), &stack);
    assert_eq!(machine.ip(), 2);
}

#[test]
fn roll_keeps_what_lies_below_the_window() {
    let stack = vec![float(0.5), Item::Char(7), Item::Int(1), Item::Int(2), Item::Int(2), Item::Int(1)];
    let mut machine = at("木木", 0, stack, Mode::Float);
    machine.step(None);
    assert_eq!(machine.stack(), &vec![float(0.5), Item::Char(7), Item::Int(2), Item::Int(1)]);
}

#[test]
fn integer_input_reads_a_trimmed_line() {
    let mut machine = Machine::load("木野");
    assert!(matches!(machine.step(None), Effect::NeedLine));
    assert_eq!(machine.ip(), 0);
    assert!(matches!(machine.step(Some("  -42 \r\n")), Effect::Done));
    assert_eq!(machine.stack(), &vec![Item::Int(-42)]);
    assert_eq!(machine.ip(), 2);
}

#[test]
fn malformed_integer_input_is_a_fault() {
    for line in ["", "\n", "twelve\n", "1 2\n", "2147483648\n", "1.5\n", "-\n"] {
        let run = run("木野", &[line]);
        assert_eq!(run.fault, Some(Fault::MalformedInteger));
        assert!(run.machine.stack().is_empty());
    }
}

#[test]
fn floating_input_reads_a_trimmed_line() {
    let run = run("松松木野木松", &[" 1.5\n"]);
    assert_eq!(run.output, "1.500000");
    let mut machine = at("木野", 0, vec![], Mode::Float);
    assert_eq!(machine.step(None), Effect::NeedLine);
    assert!(machine.stack().is_empty());
    assert_eq!(machine.step(Some("\t-2.5e-1 \n")), Effect::Done);
    assert_eq!(machine.stack(), &vec![float(-0.25)]);
    assert_eq!(machine.ip(), 2);
}

#[test]
fn floating_input_reads_what_is_no_number() {
    let run = run("松松木野木野木野松", &["inf\n", "-Infinity\n", "NaN\n"]);
    assert_eq!(run.output, "inf-infNaN");
    assert_eq!(run.fault, None);
}

#[test]
fn malformed_floating_input_is_a_fault() {
    for line in ["one and a half\n", "", "\n", "1,5\n", "1.5.\n", "0x10\n", "1e\n", ".\n"] {
        let run = run("松松木野", &[line]);
        assert_eq!(run.fault, Some(Fault::MalformedFloat));
        assert!(run.machine.stack().is_empty());
        assert_eq!(run.machine.ip(), 2);
    }
}

#[test]
fn code_unit_input_drains_the_line_unit_by_unit() {
    let run = run("松松松松木野木野木野木野木野松", &["aé😀\n", "never read\n"]);
    assert_eq!(
        run.machine.stack(),
        &vec![
            Item::Char(0x61),
            Item::Char(0xE9),
            Item::Char(0xD83D),
            Item::Char(0xDE00),
            Item::Char(0x0A)
        ]
    );
    assert!(run.machine.pending().is_empty());
    assert_eq!(run.output, "aé\u{FFFD}\u{FFFD}\n");
}

#[test]
fn code_unit_input_asks_for_a_line_only_when_nothing_is_pending() {
    let mut machine = at("木野木野木野", 0, vec![], Mode::Char);
    assert!(matches!(machine.step(None), Effect::NeedLine));
    assert!(matches!(machine.step(Some("hi")), Effect::Done));
    assert_eq!(machine.pending(), &VecDeque::from(vec![0x69u16]));
    assert!(matches!(machine.step(None), Effect::Done));
    assert_eq!(machine.stack(), &vec![Item::Char(0x68), Item::Char(0x69)]);
    assert!(matches!(machine.step(None), Effect::NeedLine));
}

#[test]
fn pending_units_survive_a_change_of_mode() {
    let queue = VecDeque::from(vec![0x41u16, 0x42]);
    let mut machine = Machine::resume(tokenize("木野松松松松松松木野"), 0, vec![], Mode::Char, queue);
    for _ in 0..5 {
        assert!(matches!(machine.step(None), Effect::Done));
    }
    assert_eq!(machine.stack(), &vec![Item::Char(0x41), Item::Char(0x42)]);
}

#[test]
fn empty_line_in_code_unit_mode_is_a_fault() {
    let run = run("松松松松木野", &[""]);
    assert_eq!(run.fault, Some(Fault::EndOfInput));
    assert!(run.machine.stack().is_empty());
}

#[test]
fn steps_past_the_end_change_nothing() {
    let mut machine = at("ど", 1, vec![Item::Int(1)], Mode::Float);
    for _ in 0..3 {
        assert!(matches!(machine.step(Some("x")), Effect::Halt));
    }
    assert_eq!(machine.ip(), 1);
    assert_eq!(machine.stack(), &vec![Item::Int(1)]);
    assert_eq!(machine.mode(), Mode::Float);
}

#[test]
fn run_stops_at_the_first_effect_that_needs_the_caller() {
    let mut machine = Machine::load("どど野野木どどど松木木松どどどど");
    assert_eq!(machine.run(None, 100), Effect::Write("-1".to_string()));
    assert_eq!(machine.ip(), 12);
    assert_eq!(machine.stack(), &vec![Item::Int(2)]);
    assert_eq!(machine.run(None, 100), Effect::Halt);
    assert_eq!(machine.stack(), &vec![Item::Int(2), Item::Int(4)]);
}

#[test]
fn run_stops_when_the_fuel_is_spent() {
    let mut machine = Machine::load("ど木ど木ど木ど");
    assert_eq!(machine.run(None, 0), Effect::Done);
    assert_eq!(machine.ip(), 0);
    assert_eq!(machine.run(None, 3), Effect::Done);
    assert_eq!(machine.ip(), 3);
    assert_eq!(machine.stack(), &vec![Item::Int(1), Item::Int(1)]);
    assert_eq!(machine.run(None, 4), Effect::Done);
    assert_eq!(machine.ip(), 7);
    assert!(machine.halted());
    assert_eq!(machine.run(None, 1), Effect::Halt);
}

#[test]
fn run_hands_its_line_to_the_first_step_only() {
    let mut machine = Machine::load("木野木野");
    assert_eq!(machine.run(None, 10), Effect::NeedLine);
    assert_eq!(machine.run(Some("5\n"), 10), Effect::NeedLine);
    assert_eq!(machine.stack(), &vec![Item::Int(5)]);
    assert_eq!(machine.ip(), 2);
}

#[test]
fn run_does_not_end_an_endless_program() {
    //   0  ど      push 1          [1]
    //   1  野野    duplicate       [1 1]
    //   3  野木    compare         [0]
    //   5  ど      push 1          [0 1]
    //   6  野松    jump to 0       []
    let mut machine = Machine::load("ど野野野木ど野松");
    assert_eq!(machine.run(None, 5000), Effect::Done);
    assert_eq!(machine.ip(), 0);
    assert!(machine.stack().is_empty());
    assert_eq!(machine.run(None, 3), Effect::Done);
    assert_eq!(machine.ip(), 5);
    assert_eq!(machine.stack(), &vec![Item::Int(0)]);
    assert!(!machine.halted());
}

#[test]
fn countdown_program_loops_until_zero() {
    //   0  どどど          push 3                        [3]
    //   3  野野            duplicate                     [n n]
    //   5  木松            write the copy                [n]
    //   7  ど              push 1                        [n 1]
    //   8  松木            subtract                      [m]
    //  10  野野            duplicate                     [m m]
    //  12  どどど          push the target 3             [m m 3]
    //  15  松松松松松松    three mode changes: no effect
    //  21  どどど          push the depth 3              [m m 3 3]
    //  24  松松松松松松
    //  30  どど            push the rotation 2           [m m 3 3 2]
    //  32  木木            rotate                        [m 3 m]
    //  34  野松            jump to 3 unless m is 0       [m]
    let source = "どどど 野野 木松 ど 松木 野野 どどど 松松松松松松 どどど 松松松松松松 どど 木木 野松";
    let run = run(source, &[]);
    assert_eq!(run.output, "321");
    assert_eq!(run.machine.stack(), &vec![Item::Int(0)]);
    assert_eq!(run.machine.ip(), 36);
    assert_eq!(run.machine.mode(), Mode::Int);
    assert!(run.logged.is_empty());
    assert_eq!(run.fault, None);
}

#[test]
fn countdown_from_input_in_floating_mode() {
    // The same loop in floating mode, its start read from the input: every
    // subtraction is a floating one, and the jump reads its condition as an
    // integer, so that 0.5 ends the loop.
    let source = "松松 木野 野野 木松 ど 松木 野野 どどどど 松松松松松松 どどど 松松松松松松 どど 木木 野松";
    let run = run(source, &["2.5\n"]);
    assert_eq!(run.output, "2.5000001.500000");
    assert_eq!(run.machine.stack(), &vec![float(0.5)]);
    assert_eq!(run.fault, None);
}
