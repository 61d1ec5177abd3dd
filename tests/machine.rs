use yaul::instructions::{Destination, Instruction, Label, Source};
use yaul::parser::assemble;
use yaul::runner::{parse_input, Action, Fault, FaultKind, Runner, Status, SyscallRequest};

fn load(src: &str) -> Runner {
    let lines: Vec<String> = src.lines().map(String::from).collect();
    Runner::new(assemble(&lines).unwrap())
}

/// Runs until the program stops or asks for input, collecting what it prints.
fn run_printing(r: &mut Runner, limit: usize) -> (Vec<i64>, Action) {
    let mut out = Vec::new();
    for _ in 0..limit {
        match r.step() {
            Action::Continue => {}
            Action::Print(v) => out.push(v),
            other => return (out, other),
        }
    }
    (out, Action::Continue)
}

fn fault_of(src: &str) -> Fault {
    let mut r = load(src);
    match run_printing(&mut r, 1000).1 {
        Action::Faulted(f) => f,
        other => panic!("no fault: {:?}", other),
    }
}

#[test]
fn scenario_set_then_out_prints_five() {
    let mut r = load("SET '5' 0 \n OUT 0");
    assert_eq!(run_printing(&mut r, 100), (vec![5], Action::Finished));
    assert_eq!(r.status(), Status::Finished);
}

#[test]
fn scenario_division_prints_three() {
    let mut r = load("SET '10' 0 \n SET '3' 1 \n DIV 0 1 2 \n OUT 2");
    assert_eq!(run_printing(&mut r, 100), (vec![3], Action::Finished));
}

#[test]
fn scenario_self_loop_never_falls_off() {
    let mut r = load("loop:\n SET '1' 0 \n JEQ 0 0 loop");
    assert_eq!(r.run_until_request(10_000), Action::Continue);
    assert_eq!(r.status(), Status::Running);
    assert!(r.pc() < 2);
    // Written on one line, `loop: SET '1' 0` is no label line and does not assemble.
    let lines: Vec<String> = "loop: SET '1' 0 \n JEQ 0 0 loop".lines().map(String::from).collect();
    assert!(assemble(&lines).is_err());
}

#[test]
fn scenario_division_by_zero_faults_and_stops() {
    let mut r = load("DIV '1' '0' 0\nOUT '7'");
    let (out, a) = run_printing(&mut r, 100);
    assert!(out.is_empty());
    assert_eq!(a, Action::Faulted(Fault { kind: FaultKind::DivisionByZero, position: 0 }));
    assert_eq!(r.pc(), 0);
    // Stepping a stopped machine changes nothing.
    assert_eq!(r.step(), Action::Faulted(Fault { kind: FaultKind::DivisionByZero, position: 0 }));
    assert_eq!(r.register(0), Some(0));
}

#[test]
fn scenario_unresolved_label_stops_before_execution() {
    let lines = vec![String::from("JMP nowhere")];
    assert!(assemble(&lines).is_err());
}

#[test]
fn add_wraps_around() {
    let mut r = load("SET '9223372036854775807' 0\nSET '1' 1\nADD 0 1 2\nADD '-9223372036854775808' '-1' 3\nADD '40' '2' 4");
    r.run_until_request(100);
    assert_eq!(r.register(2), Some(i64::MIN));
    assert_eq!(r.register(3), Some(i64::MAX));
    assert_eq!(r.register(4), Some(42));
}

#[test]
fn sub_and_mul_wrap_around() {
    let mut r = load("SUB '-9223372036854775808' '1' 0\nMUL '4611686018427387904' '2' 1\nMUL '-6' '7' 2\nSUB '5' '8' 3");
    r.run_until_request(100);
    assert_eq!(r.register(0), Some(i64::MAX));
    assert_eq!(r.register(1), Some(i64::MIN));
    assert_eq!(r.register(2), Some(-42));
    assert_eq!(r.register(3), Some(-3));
}

#[test]
fn division_truncates_toward_zero() {
    let mut r = load("DIV '-7' '2' 0\nMOD '-7' '2' 1\nDIV '7' '-2' 2\nMOD '7' '-2' 3\nDIV '-9223372036854775808' '-1' 4\nMOD '-9223372036854775808' '-1' 5");
    r.run_until_request(100);
    assert_eq!(r.register(0), Some(-3));
    assert_eq!(r.register(1), Some(-1));
    assert_eq!(r.register(2), Some(-3));
    assert_eq!(r.register(3), Some(1));
    assert_eq!(r.register(4), Some(i64::MIN));
    assert_eq!(r.register(5), Some(0));
}

#[test]
fn modulo_by_zero_faults() {
    let f = fault_of("OUT '1'\nMOD '1' '0' 0");
    assert_eq!(f, Fault { kind: FaultKind::DivisionByZero, position: 1 });
}

#[test]
fn conditional_jumps() {
    // Each jump is taken iff its comparison holds; the next instruction runs otherwise.
    let src = "JGT '2' '1' a\nOUT '0'\na:\nJGT '1' '2' b\nOUT '1'\nb:\nJEQ '3' '3' c\nOUT '2'\nc:\n\
               JEQ '3' '4' d\nOUT '3'\nd:\nJLT '1' '2' e\nOUT '4'\ne:\nJLT '2' '1' f\nOUT '5'\nf:";
    let mut r = load(src);
    assert_eq!(run_printing(&mut r, 100), (vec![1, 3, 5], Action::Finished));
}

#[test]
fn call_and_return() {
    let src = "CALL sub\nOUT '2'\nTERM\nsub:\nOUT '1'\nRET";
    let mut r = load(src);
    assert_eq!(run_printing(&mut r, 100), (vec![1, 2], Action::Finished));
}

#[test]
fn call_then_immediate_return_resumes_after_call() {
    let mut r = load("CALL l\nOUT '9'\nl:\nRET");
    assert_eq!(r.step(), Action::Continue);
    assert_eq!(r.pc(), 2);
    assert_eq!(r.step(), Action::Continue);
    assert_eq!(r.pc(), 1);
}

#[test]
fn return_on_empty_stack_faults() {
    assert_eq!(fault_of("OUT '1'\nRET"), Fault { kind: FaultKind::StackUnderflow, position: 1 });
}

#[test]
fn terminate_stops_early() {
    let mut r = load("OUT '1'\nTERM\nOUT '2'");
    assert_eq!(run_printing(&mut r, 100), (vec![1], Action::Finished));
    assert_eq!(r.pc(), 1);
}

#[test]
fn reference_operands() {
    let mut r = load("SET '7' 0\nSET '42' &0\nOUT 7\nMOV &0 1\nOUT 1");
    assert_eq!(run_printing(&mut r, 100), (vec![42, 42], Action::Finished));
}

#[test]
fn invalid_registers_fault() {
    assert_eq!(fault_of("OUT 4096"), Fault { kind: FaultKind::InvalidRegister, position: 0 });
    assert_eq!(fault_of("SET '-1' 0\nOUT &0"), Fault { kind: FaultKind::InvalidRegister, position: 1 });
    assert_eq!(fault_of("SET '1' 5000"), Fault { kind: FaultKind::InvalidRegister, position: 0 });
    assert_eq!(fault_of("SET '4096' 3\nSET '1' &3"), Fault { kind: FaultKind::InvalidRegister, position: 1 });
    let mut r = load("OUT '1'");
    assert_eq!(r.register(4095), Some(0));
    assert_eq!(r.register(4096), None);
}

#[test]
fn input_is_requested_and_stored() {
    let mut r = load("IN 3\nOUT 3");
    assert_eq!(r.step(), Action::ReadInput);
    assert_eq!(r.pc(), 0);
    assert_eq!(r.supply_input("  -12 \n"), Action::Continue);
    assert_eq!(run_printing(&mut r, 10), (vec![-12], Action::Finished));
}

#[test]
fn malformed_input_faults() {
    let mut r = load("IN 3");
    assert_eq!(r.step(), Action::ReadInput);
    assert_eq!(
        r.supply_input("twelve\n"),
        Action::Faulted(Fault { kind: FaultKind::MalformedInput, position: 0 })
    );
}

#[test]
fn input_parsing() {
    assert_eq!(parse_input("42\n"), Some(42));
    assert_eq!(parse_input("\t+7  "), Some(7));
    assert_eq!(parse_input("-9223372036854775808"), Some(i64::MIN));
    assert_eq!(parse_input("9223372036854775808"), None);
    assert_eq!(parse_input("1 2"), None);
    assert_eq!(parse_input(""), None);
    assert_eq!(parse_input("0x10"), None);
}

#[test]
fn time_is_requested_and_stored() {
    let mut r = load("TIME 5");
    assert_eq!(r.step(), Action::ReadTime);
    assert_eq!(r.supply_time(1_700_000_000_000_000_000), Action::Continue);
    assert_eq!(r.register(5), Some(1_700_000_000_000_000_000));
}

#[test]
fn syscall_request_and_result() {
    let mut r = load("SET '11' 1\nSYS 2 '39' 1 '-1' _");
    assert_eq!(r.step(), Action::Continue);
    assert_eq!(
        r.step(),
        Action::Syscall(SyscallRequest { number: 39, args: vec![11, u64::MAX] })
    );
    assert_eq!(r.supply_syscall_result(1234), Action::Continue);
    assert_eq!(r.register(2), Some(1234));
    assert_eq!(r.step(), Action::Finished);
}

#[test]
fn syscall_error_result_faults() {
    let mut r = load("SYS 0 '2'");
    assert_eq!(r.step(), Action::Syscall(SyscallRequest { number: 2, args: vec![] }));
    // -2 as an unsigned word: ENOENT.
    assert_eq!(
        r.supply_syscall_result(u64::MAX - 1),
        Action::Faulted(Fault { kind: FaultKind::SyscallFailed(2), position: 0 })
    );
    let mut r = load("SYS 0 '2'");
    r.step();
    // -4096 is no error code: stored as it is.
    assert_eq!(r.supply_syscall_result(u64::MAX - 4095), Action::Continue);
    assert_eq!(r.register(0), Some(-4096));
}

#[test]
fn syscall_gap_faults_at_run_time() {
    let prog = vec![Instruction::Syscall(
        Destination::Address(0),
        Source::Data(1),
        None,
        Some(Source::Data(2)),
        None,
        None,
        None,
        None,
    )];
    let mut r = Runner::new(prog);
    assert_eq!(r.step(), Action::Faulted(Fault { kind: FaultKind::SyscallArgumentGap, position: 0 }));
}

#[test]
fn symbolic_label_faults_at_run_time() {
    let mut r = Runner::new(vec![Instruction::Jump(Label::Symbolic(String::from("x")))]);
    assert_eq!(r.step(), Action::Faulted(Fault { kind: FaultKind::UnresolvedLabel, position: 0 }));
}

#[test]
fn reply_without_request_faults() {
    let mut r = load("OUT '1'");
    assert_eq!(
        r.supply_time(5),
        Action::Faulted(Fault { kind: FaultKind::UnexpectedReply, position: 0 })
    );
}

#[test]
fn empty_program_finishes() {
    let mut r = Runner::new(Vec::new());
    assert_eq!(r.step(), Action::Finished);
    assert_eq!(r.status(), Status::Finished);
}
