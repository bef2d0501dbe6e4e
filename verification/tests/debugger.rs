use hiwkhao::display::terminal_panels;
use hiwkhao::gui::{Command, EmulatorGui, Message};
use hiwkhao::vm::{Answer, ArithKind, Fault, FloatTask, Relation, Step, Stop, Value, VM};
use std::collections::HashSet;

/// Answers a float task the way the host does.
fn answer(task: &FloatTask) -> Answer {
    match task {
        FloatTask::Parse(text) => match text.parse::<f64>() {
            Ok(x) => Answer::Bits(x.to_bits()),
            Err(_) => Answer::Invalid,
        },
        FloatTask::Show(b) => Answer::Text(format!("{}", f64::from_bits(*b))),
        FloatTask::FromInt(i) => Answer::Bits((*i as f64).to_bits()),
        FloatTask::ToInt(b) => Answer::Int(f64::from_bits(*b) as i32),
        FloatTask::Arith(kind, a, b) => {
            let (x, y) = (f64::from_bits(*a), f64::from_bits(*b));
            let r = match kind {
                ArithKind::Add => x + y,
                ArithKind::Sub => x - y,
                ArithKind::Mul => x * y,
                ArithKind::Div => x / y,
            };
            Answer::Bits(r.to_bits())
        }
        FloatTask::Compare(rel, a, b) => {
            let (x, y) = (f64::from_bits(*a), f64::from_bits(*b));
            Answer::Truth(match rel {
                Relation::Eq => x == y,
                Relation::Ne => x != y,
                Relation::Lt => x < y,
                Relation::Gt => x > y,
                Relation::Le => x <= y,
                Relation::Ge => x >= y,
            })
        }
        FloatTask::Negate(b) => Answer::Bits((-f64::from_bits(*b)).to_bits()),
    }
}

fn float32_text(bits: u32) -> String {
    format!("{:10.3}", f32::from_bits(bits))
}

fn machine(lines: &[&str]) -> VM {
    let mut vm = VM::new(1024);
    vm.load_program(lines.iter().map(|s| s.to_string()).collect());
    vm
}

fn debugger(lines: &[&str]) -> EmulatorGui {
    EmulatorGui::new(machine(lines))
}

#[test]
fn step_with_answers_float_tasks_from_the_host() {
    let mut vm = machine(&["LD R0 #1.5", "LD R1 #2", "MUL.f R2 R0 R1", "ST @print R2"]);
    assert!(matches!(vm.step_with(&answer), Step::Ran(None)));
    assert!(matches!(vm.step_with(&answer), Step::Ran(None)));
    assert!(matches!(vm.step_with(&answer), Step::Ran(None)));
    match vm.step_with(&answer) {
        Step::Ran(Some(t)) => assert_eq!(t, "3"),
        _ => panic!("the print did not run"),
    }
    assert!(matches!(vm.step_with(&answer), Step::Halted));
}

#[test]
fn step_with_division_of_two_integers_as_floats() {
    // four answers: both conversions, the zero test and the division
    let mut vm = machine(&["LD R0 #7", "LD R1 #2", "DIV.f R2 R0 R1", "ST @print R2"]);
    let (printed, stop) = vm.run(&answer);
    assert_eq!(printed, vec!["3.5".to_string()]);
    assert!(matches!(stop, Stop::Halted));
}

#[test]
fn run_until_stops_at_a_breakpoint() {
    let mut vm = machine(&["LD R0 #1", "ST @print R0", "LD R1 #2", "ST @print R1"]);
    let mut bps = HashSet::new();
    bps.insert(2usize);
    let (printed, stop) = vm.run_until(&answer, &bps);
    assert_eq!(printed, vec!["1".to_string()]);
    assert!(matches!(stop, Stop::Breakpoint));
    assert_eq!(vm.get_state().2, 2);
    let (printed, stop) = vm.run(&answer);
    assert_eq!(printed, vec!["2".to_string()]);
    assert!(matches!(stop, Stop::Halted));
}

#[test]
fn run_reports_a_fault() {
    let mut vm = machine(&["LD R0 #1", "LD R1 #0", "DIV.i R2 R0 R1", "ST @print R2"]);
    let (printed, stop) = vm.run(&answer);
    assert!(printed.is_empty());
    assert!(matches!(stop, Stop::Fault(Fault::DivisionByZero)));
    assert_eq!(vm.get_state().2, 2);
}

#[test]
fn new_debugger_shows_the_program() {
    let gui = debugger(&["LD R0 #1", "ST @print R0"]);
    assert_eq!(gui.title(), "ILOC Emulator");
    let (rows, current) = gui.instruction_rows();
    assert_eq!(rows.len(), 2);
    assert_eq!(rows[0].text, "LD R0 #1");
    assert_eq!(rows[1].text, "ST @print R0");
    assert!(rows[0].is_current && !rows[1].is_current);
    assert!(!rows[0].has_breakpoint);
    assert_eq!(current, Some(0));
    assert_eq!(gui.memory_start_addr(), "0");
    assert!(gui.output().is_empty());
    assert!(!gui.is_running());
}

#[test]
fn step_message_runs_one_instruction_and_scrolls() {
    let mut gui = debugger(&["LD R0 #5", "ST @print R0"]);
    let (printed, cmd) = gui.update(Message::Step, &answer);
    assert!(printed.is_empty());
    assert!(matches!(cmd, Command::Send(Message::ScrollTo(1))));
    let (printed, cmd) = gui.update(Message::ScrollTo(1), &answer);
    assert!(printed.is_empty());
    assert!(matches!(cmd, Command::ScrollInstructions(1)));
    let (printed, cmd) = gui.update(Message::Step, &answer);
    assert_eq!(printed, vec!["5".to_string()]);
    assert!(matches!(cmd, Command::Send(Message::ScrollTo(2))));
    assert_eq!(gui.output().clone(), vec!["5".to_string()]);
    let (printed, cmd) = gui.update(Message::Step, &answer);
    assert!(printed.is_empty());
    assert!(matches!(cmd, Command::LogState));
}

#[test]
fn run_message_stops_at_a_breakpoint_and_continue_goes_on() {
    let mut gui = debugger(&["LD R0 #1", "ST @print R0", "LD R1 #2", "ST @print R1"]);
    let (_, cmd) = gui.update(Message::ToggleBreakpoint(2), &answer);
    assert!(matches!(cmd, Command::Nothing));
    let (printed, cmd) = gui.update(Message::Run, &answer);
    assert_eq!(printed, vec!["1".to_string()]);
    assert!(matches!(cmd, Command::LogState));
    assert!(!gui.is_running());
    assert_eq!(gui.vm().get_state().2, 2);
    let (rows, current) = gui.instruction_rows();
    assert!(rows[2].has_breakpoint && rows[2].is_current);
    assert_eq!(current, Some(2));
    let (printed, cmd) = gui.update(Message::Continue, &answer);
    assert_eq!(printed, vec!["2".to_string()]);
    assert!(matches!(cmd, Command::LogState));
    assert!(gui.is_running());
    assert_eq!(gui.output().clone(), vec!["1".to_string(), "2".to_string()]);
}

#[test]
fn run_message_reports_a_fault() {
    let mut gui = debugger(&["LD R0 #1", "LD R1 #0", "DIV.i R2 R0 R1"]);
    let (_, cmd) = gui.update(Message::Run, &answer);
    assert!(matches!(cmd, Command::Fault(Fault::DivisionByZero)));
}

#[test]
fn toggling_a_breakpoint_twice_clears_it() {
    let mut gui = debugger(&["LD R0 #1", "LD R1 #2"]);
    gui.update(Message::ToggleBreakpoint(1), &answer);
    assert!(gui.instruction_rows().0[1].has_breakpoint);
    gui.update(Message::ToggleBreakpoint(1), &answer);
    assert!(!gui.instruction_rows().0[1].has_breakpoint);
}

#[test]
fn reset_starts_the_program_again() {
    let mut gui = debugger(&["LD R0 #7", "ST @print R0"]);
    gui.update(Message::Run, &answer);
    assert_eq!(gui.output().clone(), vec!["7".to_string()]);
    let (printed, cmd) = gui.update(Message::Reset, &answer);
    assert!(printed.is_empty());
    assert!(matches!(cmd, Command::LogState));
    assert!(gui.output().is_empty());
    assert_eq!(gui.vm().get_state().2, 0);
    assert!(gui.vm().get_state().0.is_empty());
    assert_eq!(gui.vm().get_program(), vec!["LD R0 #7".to_string(), "ST @print R0".to_string()]);
}

#[test]
fn output_messages() {
    let mut gui = debugger(&["LD R0 #7", "ST @print R0"]);
    gui.update(Message::Run, &answer);
    gui.update(Message::AddOutput("note".to_string()), &answer);
    assert_eq!(gui.output().clone(), vec!["7".to_string(), "note".to_string()]);
    gui.update(Message::ClearOutput, &answer);
    assert!(gui.output().is_empty());
    assert!(gui.vm().get_output().is_empty());
}

#[test]
fn memory_start_is_read_in_hexadecimal() {
    let mut gui = debugger(&[]);
    assert_eq!(gui.memory_start(), 0);
    gui.update(Message::UpdateMemoryStart("1A".to_string()), &answer);
    assert_eq!(gui.memory_start_addr(), "1A");
    assert_eq!(gui.memory_start(), 26);
    gui.update(Message::UpdateMemoryStart("+ff".to_string()), &answer);
    assert_eq!(gui.memory_start(), 255);
    gui.update(Message::UpdateMemoryStart("zz".to_string()), &answer);
    assert_eq!(gui.memory_start(), 0);
    gui.update(Message::UpdateMemoryStart("".to_string()), &answer);
    assert_eq!(gui.memory_start(), 0);
    gui.update(Message::UpdateMemoryStart("1FFFFFFFFFFFFFFFF".to_string()), &answer);
    assert_eq!(gui.memory_start(), 0);
}

#[test]
fn registers_are_listed_by_number() {
    let mut gui = debugger(&["LD R10 #1", "LD R2 #2", "LD R1 #2.5"]);
    gui.update(Message::Run, &answer);
    assert_eq!(gui.format_registers(&answer), "R1: 2.5\nR2: 2\nR10: 1\n");
}

#[test]
fn memory_view_of_a_small_memory() {
    let mut vm = VM::new(8);
    vm.load_program(vec!["LD R0 #65".to_string(), "ST @0 R0".to_string()]);
    let mut gui = EmulatorGui::new(vm);
    gui.update(Message::Run, &answer);
    let view = gui.format_memory_view(0, &float32_text);
    let expected = String::new()
        + "Address  | 00 01 02 03 04 05 06 07 08 09 0A 0B 0C 0D 0E 0F | ASCII\n"
        + "─────────┼─────────────────────────────────────────────────┼─────────────\n"
        + "00000000 │ 41 00 00 00 00 00 00 00 "
        + &" ".repeat(24)
        + "│ A......."
        + &" ".repeat(8)
        + "\n"
        + "\n32-bit Values:\n"
        + "Address  | Int32     Float32   \n"
        + "─────────┼──────────────────────\n"
        + &format!("{:08X} │ {:10} {:10.3}\n", 0, 65, f32::from_bits(65))
        + &format!("{:08X} │ {:10} {:10.3}\n", 4, 0, f32::from_bits(0));
    assert_eq!(view, expected);
    let past_the_end = gui.format_memory_view(8, &float32_text);
    assert!(past_the_end.ends_with("─────────┼──────────────────────\n"));
}

#[test]
fn state_log_text() {
    let mut vm = VM::new(20);
    vm.load_program(vec!["LD R0 #258".to_string(), "ST @0 R0".to_string()]);
    let mut gui = EmulatorGui::new(vm);
    gui.update(Message::Run, &answer);
    let log = gui.log_state(&answer);
    let expected = String::new()
        + "\n=== VM State ===\n"
        + "PC: 2\n"
        + "Registers:\n"
        + "  R0: 258\n"
        + "Memory (first 64 bytes):\n"
        + "00000000: 02 01 00 00 00 00 00 00 00 00 00 00 00 00 00 00\n"
        + "00000010: 00 00 00 00\n"
        + "===============\n\n";
    assert_eq!(log, expected);
}

#[test]
fn terminal_panels_of_a_machine() {
    let mut vm = machine(&["LD R1 #300", "LD R10 #1.5", "ST @x R1"]);
    vm.step_with(&answer);
    vm.step_with(&answer);
    let (regs, mem, pc) = vm.get_state();
    let program = vm.get_program();
    let panels = terminal_panels(regs, mem, pc, &program, &answer);
    assert_eq!(panels.registers, vec!["R10: 1.5".to_string(), "R1: 300".to_string()]);
    assert_eq!(panels.program, vec!["  LD R1 #300".to_string(), "  LD R10 #1.5".to_string(), "> ST @x R1".to_string()]);
    assert!(panels.memory.is_empty());
    vm.step_with(&answer);
    let (regs, mem, pc) = vm.get_state();
    let panels = terminal_panels(regs, mem, pc, &program, &answer);
    assert_eq!(panels.memory, vec!["0x00: 300".to_string()]);
}

#[test]
fn reset_reads_back_the_program_written_out() {
    let text = "  LD R0 #1  \n// a comment\n\nST @print R0\r\n";
    let program = hiwkhao::vm::parse_iloc(text).unwrap();
    assert_eq!(program, vec!["LD R0 #1".to_string(), "ST @print R0".to_string()]);
    let mut vm = VM::new(1024);
    vm.load_program(program.clone());
    let mut gui = EmulatorGui::new(vm);
    gui.update(Message::Step, &answer);
    gui.update(Message::Reset, &answer);
    assert_eq!(gui.vm().get_program(), program);
    assert_eq!(gui.vm().get_state().2, 0);
}

#[test]
fn value_conversions_through_the_host() {
    assert_eq!(Value::Int(3).as_int(&answer), Some(3));
    assert_eq!(Value::Float(2.9f64.to_bits()).as_int(&answer), Some(2));
    assert_eq!(Value::Float((-2.9f64).to_bits()).as_int(&answer), Some(-2));
    assert_eq!(Value::Int(2).as_float(&answer), Some(2.0f64.to_bits()));
    assert_eq!(Value::Float(1.5f64.to_bits()).as_float(&answer), Some(1.5f64.to_bits()));
}
