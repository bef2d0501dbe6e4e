use hiwkhao::codegen::generate_assembly;
use hiwkhao::parser::Expr;
use hiwkhao::vm::parse_iloc;
use hiwkhao::vm::Answer;
use hiwkhao::vm::ArithKind;
use hiwkhao::vm::Fault;
use hiwkhao::vm::FloatTask;
use hiwkhao::vm::Relation;
use hiwkhao::vm::Step;
use hiwkhao::vm::Value;
use hiwkhao::vm::VM;

/// Answers a float task the way the host does.
fn answer(task: &FloatTask) -> Answer {
    match task {
        FloatTask::Parse(text) => match text.parse::<f64>() {
            Ok(x) => Answer::Bits(x.to_bits()),
            Err(_) => Answer::Invalid,
        },
        FloatTask::Show(b) => Answer::Text(format!("{}", f64::from_bits(*b))),
        FloatTask::FromInt(i) => Answer::Bits((*i as f64).to_bits()),
        FloatTask::ToInt(b) => Answer::Int(f64::from_bits(*b) as i32),
        FloatTask::Arith(kind, a, b) => {
            let (x, y) = (f64::from_bits(*a), f64::from_bits(*b));
            let r = match kind {
                ArithKind::Add => x + y,
                ArithKind::Sub => x - y,
                ArithKind::Mul => x * y,
                ArithKind::Div => x / y,
            };
            Answer::Bits(r.to_bits())
        }
        FloatTask::Compare(rel, a, b) => {
            let (x, y) = (f64::from_bits(*a), f64::from_bits(*b));
            Answer::Truth(match rel {
                Relation::Eq => x == y,
                Relation::Ne => x != y,
                Relation::Lt => x < y,
                Relation::Gt => x > y,
                Relation::Le => x <= y,
                Relation::Ge => x >= y,
            })
        }
        FloatTask::Negate(b) => Answer::Bits((-f64::from_bits(*b)).to_bits()),
    }
}

/// Runs the machine to the end; the printed texts, or the fault that stopped it.
fn run(vm: &mut VM) -> Result<Vec<String>, Fault> {
    let mut printed = Vec::new();
    let mut answers: Vec<Answer> = Vec::new();
    loop {
        match vm.step(&answers) {
            Step::Halted => return Ok(printed),
            Step::Ran(text) => {
                if let Some(t) = text {
                    printed.push(t);
                }
                answers.clear();
            }
            Step::Need(task) => answers.push(answer(&task)),
            Step::Fault(f) => return Err(f),
        }
    }
}

fn machine(lines: &[&str]) -> VM {
    let mut vm = VM::new(1024);
    vm.load_program(lines.iter().map(|s| s.to_string()).collect());
    vm
}

#[test]
fn runs_integer_addition() {
    let mut vm = machine(&["LD R0 #23", "LD R1 #8", "ADD.i R2 R0 R1", "ST @print R2"]);
    assert_eq!(run(&mut vm).unwrap(), vec!["31"]);
    assert_eq!(vm.get_output().clone(), vec!["31".to_string()]);
}

#[test]
fn runs_float_multiplication() {
    let mut vm = machine(&["LD R0 #2.5", "LD R1 #0", "FL.i R1 R1", "MUL.f R2 R0 R1", "ST @print R2"]);
    assert_eq!(run(&mut vm).unwrap(), vec!["0"]);
}

#[test]
fn runs_mixed_float_addition() {
    let mut vm = machine(&["LD R0 #1", "LD R1 #2.5", "ADD.f R2 R0 R1", "ST @print R2"]);
    assert_eq!(run(&mut vm).unwrap(), vec!["3.5"]);
}

#[test]
fn store_then_load_gives_the_value_back() {
    let mut vm = machine(&["LD R0 #7", "ST @x R0", "LD R1 @x", "ST @print R1"]);
    assert_eq!(run(&mut vm).unwrap(), vec!["7"]);
}

#[test]
fn store_then_load_negative_into_placed_variable() {
    let mut vm = machine(&["LD R0 #1", "ST @y R0", "LD R0 #-5", "ST @y R0", "LD R3 @y", "ST @print R3"]);
    assert_eq!(run(&mut vm).unwrap(), vec!["-5"]);
}

#[test]
fn integer_arithmetic_wraps() {
    let mut vm = machine(&["LD R0 #2147483647", "LD R1 #1", "ADD.i R2 R0 R1", "ST @print R2"]);
    assert_eq!(run(&mut vm).unwrap(), vec!["-2147483648"]);
}

#[test]
fn integer_division_rounds_toward_zero() {
    let mut vm = machine(&["LD R0 #-7", "LD R1 #2", "DIV.i R2 R0 R1", "ST @print R2"]);
    assert_eq!(run(&mut vm).unwrap(), vec!["-3"]);
}

#[test]
fn comparisons_give_one_or_zero() {
    let mut vm = machine(&[
        "LD R0 #3", "LD R1 #5", "LT.i R2 R0 R1", "ST @print R2", "GE.i R2 R0 R1", "ST @print R2",
        "FL.i R0 R0", "FL.i R1 R1", "NE.f R2 R0 R1", "ST @print R2", "EQ.i R2 R0 R1", "ST @print R2",
    ]);
    assert_eq!(run(&mut vm).unwrap(), vec!["1", "0", "1", "0"]);
}

#[test]
fn negation_of_integers_and_floats() {
    let mut vm = machine(&["LD R0 #4", "NEG.i R1 R0", "ST @print R1", "LD R2 #1.5", "NEG.f R3 R2", "ST @print R3"]);
    assert_eq!(run(&mut vm).unwrap(), vec!["-4", "-1.5"]);
}

#[test]
fn print_instruction_prints_without_output() {
    let mut vm = machine(&["LD R0 #9", "print R0"]);
    assert_eq!(run(&mut vm).unwrap(), vec!["9"]);
    assert!(vm.get_output().is_empty());
}

#[test]
fn list_element_store_and_load() {
    let mut vm = machine(&[
        "LD R0 #3", "ST @xs R0", "LD R0 #42", "LD R1 @xs", "LD R2 #1", "LD R3 #4", "MUL.i R4 R2 R3",
        "ADD.i R2 R1 R4", "ST R2 R0", "LD R5 R2", "ST @print R5",
    ]);
    assert_eq!(run(&mut vm).unwrap(), vec!["42"]);
}

#[test]
fn a_float_task_is_handed_out_and_nothing_changes() {
    let mut vm = machine(&["LD R0 #2.5"]);
    match vm.step(&Vec::new()) {
        Step::Need(FloatTask::Parse(t)) => assert_eq!(t, "2.5"),
        other => panic!("unexpected {:?}", other),
    }
    assert_eq!(vm.get_state().2, 0);
    assert!(vm.get_state().0.is_empty());
}

#[test]
fn fault_division_by_zero() {
    let mut vm = machine(&["LD R0 #1", "LD R1 #0", "DIV.i R2 R0 R1"]);
    assert!(matches!(run(&mut vm), Err(Fault::DivisionByZero)));
    let mut vm = machine(&["LD R0 #1.0", "LD R1 #0.0", "DIV.f R2 R0 R1"]);
    assert!(matches!(run(&mut vm), Err(Fault::DivisionByZero)));
}

#[test]
fn fault_unknown_instruction() {
    let mut vm = machine(&["JMP R0"]);
    match run(&mut vm) {
        Err(Fault::UnknownInstruction(name)) => assert_eq!(name, "JMP"),
        other => panic!("unexpected {:?}", other),
    }
}

#[test]
fn fault_missing_operand() {
    let mut vm = machine(&["LD R0"]);
    assert!(matches!(run(&mut vm), Err(Fault::MissingOperand)));
    let mut vm = machine(&["   "]);
    assert!(matches!(run(&mut vm), Err(Fault::MissingOperand)));
}

#[test]
fn fault_empty_register() {
    let mut vm = machine(&["ADD.i R2 R0 R1"]);
    assert!(matches!(run(&mut vm), Err(Fault::EmptyRegister)));
}

#[test]
fn fault_overflow() {
    let mut vm = machine(&["LD R0 #-2147483648", "NEG.i R1 R0"]);
    assert!(matches!(run(&mut vm), Err(Fault::Overflow)));
    let mut vm = machine(&["LD R0 #1", "LD R1 @18446744073709551615"]);
    assert!(matches!(run(&mut vm), Err(Fault::Overflow)));
}

#[test]
fn fault_bad_number() {
    let mut vm = machine(&["LD R0 #abc"]);
    assert!(matches!(run(&mut vm), Err(Fault::BadNumber)));
    let mut vm = machine(&["LD R0 #1.x"]);
    assert!(matches!(run(&mut vm), Err(Fault::BadNumber)));
    let mut vm = machine(&["LD R0 #2147483648"]);
    assert!(matches!(run(&mut vm), Err(Fault::BadNumber)));
}

#[test]
fn fault_unexpected_answer() {
    let mut vm = machine(&["LD R0 #2.5"]);
    let answers = vec![Answer::Int(3)];
    assert!(matches!(vm.step(&answers), Step::Fault(Fault::UnexpectedAnswer)));
}

#[test]
fn halts_after_the_last_instruction() {
    let mut vm = machine(&["LD R0 #1"]);
    assert!(matches!(vm.step(&Vec::new()), Step::Ran(None)));
    assert!(matches!(vm.step(&Vec::new()), Step::Halted));
    assert_eq!(vm.get_state().2, 1);
}

#[test]
fn a_step_keeps_program_and_memory_size() {
    let program = vec!["LD R0 #5", "ST @x R0", "LD R1 @x"];
    let mut vm = machine(&program);
    run(&mut vm).unwrap();
    assert_eq!(vm.get_program(), program.iter().map(|s| s.to_string()).collect::<Vec<_>>());
    assert_eq!(vm.get_state().1.len(), 1024);
}

#[test]
fn registers_hold_values() {
    // A non-negative integer in the source register is an address to read from; any
    // other value is copied.
    let mut vm = machine(&["LD R0 #5", "LD R1 R0", "LD R2 #-5", "LD R3 R2"]);
    run(&mut vm).unwrap();
    let regs = vm.get_state().0.clone();
    assert_eq!(regs, vec![
        ("R0".to_string(), Value::Int(5)),
        ("R1".to_string(), Value::Int(0)),
        ("R2".to_string(), Value::Int(-5)),
        ("R3".to_string(), Value::Int(-5)),
    ]);
}

#[test]
fn clear_output_forgets_output() {
    let mut vm = machine(&["LD R0 #5", "ST @print R0"]);
    run(&mut vm).unwrap();
    assert_eq!(vm.get_output().len(), 1);
    vm.clear_output();
    assert!(vm.get_output().is_empty());
}

#[test]
fn parse_iloc_keeps_instructions_only() {
    let program = parse_iloc("  LD R0 #1  \n\n// a comment\n\tST @print R0\r\n").unwrap();
    assert_eq!(program, vec!["LD R0 #1", "ST @print R0"]);
    for line in &program {
        assert_eq!(line.trim(), line);
        assert!(!line.is_empty() && !line.starts_with("//"));
    }
}

#[test]
fn compiled_program_runs() {
    let expr = Expr::BinaryOp(Box::new(Expr::Int(6)), "*".to_string(), Box::new(Expr::Int(7)));
    let mut vm = VM::new(64);
    vm.load_program(generate_assembly(&expr));
    assert_eq!(run(&mut vm).unwrap(), vec!["42"]);
}
