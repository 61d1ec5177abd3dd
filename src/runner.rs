use vstd::prelude::*;

use crate::instructions::{Destination, Instruction, Label, Source, REGISTER_COUNT};
use crate::parser::has_gap;
use crate::text::{chars_of, parse_signed, parse_signed_at, word_spans, words};

verus! {

/// Why the machine stopped on an instruction.
#[derive(Debug, Clone, Copy, PartialEq, Eq, Structural)]
pub enum FaultKind {
    /// An operand names a register outside the register file.
    InvalidRegister,
    /// `DIV` or `MOD` by zero.
    DivisionByZero,
    /// The input line for `IN` is not a signed decimal integer.
    MalformedInput,
    /// `RET` with an empty call stack.
    StackUnderflow,
    /// A jump or call whose target was never resolved.
    UnresolvedLabel,
    /// A system call that gives a later argument while leaving an earlier one out.
    SyscallArgumentGap,
    /// A system call returned the negated error code `errno`.
    SyscallFailed(u64),
    /// The host answered a request that the current instruction did not make.
    UnexpectedReply,
}

/// A fault and the index of the instruction that raised it.
#[derive(Debug, Clone, Copy, PartialEq, Eq, Structural)]
pub struct Fault {
    pub kind: FaultKind,
    pub position: usize,
}

#[derive(Debug, Clone, Copy, PartialEq, Eq, Structural)]
pub enum Status {
    Running,
    Finished,
    Faulted(Fault),
}

/// A raw system call for the host to make: its number and its arguments, in order.
#[derive(Debug, PartialEq, Eq)]
pub struct SyscallRequest {
    pub number: u64,
    pub args: Vec<u64>,
}

/// What the host must do after a step.
#[derive(Debug, PartialEq, Eq)]
pub enum Action {
    /// Nothing: step again.
    Continue,
    /// Write the value as a decimal line to standard output, then step again.
    Print(i64),
    /// Read a line from standard input and hand it to `supply_input`.
    ReadInput,
    /// Hand the wall-clock time, in nanoseconds since the Unix epoch, to `supply_time`.
    ReadTime,
    /// Make the system call and hand its raw result to `supply_syscall_result`.
    Syscall(SyscallRequest),
    /// The program ended normally.
    Finished,
    /// The program stopped on a fault.
    Faulted(Fault),
}

pub enum ActionView {
    Continue,
    Print(i64),
    ReadInput,
    ReadTime,
    Syscall(u64, Seq<u64>),
    Finished,
    Faulted(Fault),
}

impl View for Action {
    type V = ActionView;

    open spec fn view(&self) -> ActionView {
        match self {
            Action::Continue => ActionView::Continue,
            Action::Print(v) => ActionView::Print(*v),
            Action::ReadInput => ActionView::ReadInput,
            Action::ReadTime => ActionView::ReadTime,
            Action::Syscall(r) => ActionView::Syscall(r.number, r.args@),
            Action::Finished => ActionView::Finished,
            Action::Faulted(f) => ActionView::Faulted(*f),
        }
    }
}

/// The machine's state: program counter, registers, call stack and status.
pub struct MachineView {
    pub pc: int,
    pub registers: Seq<i64>,
    pub stack: Seq<usize>,
    pub status: Status,
}

pub enum ArithOp {
    Add,
    Sub,
    Mul,
    Div,
    Mod,
}

pub enum CompareOp {
    Greater,
    Equal,
    Less,
}

/// The value an operand reads: the literal, the register, or the register that a register
/// names; `None` when a register index falls outside the file.
pub open spec fn value_of(regs: Seq<i64>, s: Source) -> Option<i64> {
    match s {
        Source::Data(v) => Some(v),
        Source::Address(i) => if i < regs.len() {
            Some(regs[i as int])
        } else {
            None
        },
        Source::Reference(i) => if i < regs.len() && 0 <= regs[i as int] < regs.len() {
            Some(regs[regs[i as int] as int])
        } else {
            None
        },
    }
}

/// The register an operand writes; `None` when an index falls outside the file.
pub open spec fn register_of(regs: Seq<i64>, d: Destination) -> Option<int> {
    match d {
        Destination::Address(i) => if i < regs.len() {
            Some(i as int)
        } else {
            None
        },
        Destination::Reference(i) => if i < regs.len() && 0 <= regs[i as int] < regs.len() {
            Some(regs[i as int] as int)
        } else {
            None
        },
    }
}

/// Signed division truncating toward zero; the one overflowing case wraps.
pub open spec fn wrapping_quotient(x: i64, y: i64) -> i64 {
    match x.checked_div(y) {
        Some(q) => q,
        None => i64::MIN,
    }
}

/// Remainder with the sign of the dividend; the one overflowing case gives zero.
pub open spec fn wrapping_remainder(x: i64, y: i64) -> i64 {
    match x.checked_rem(y) {
        Some(r) => r,
        None => 0,
    }
}

/// The result of an arithmetic operation, `None` on division by zero.
pub open spec fn combine(op: ArithOp, x: i64, y: i64) -> Option<i64> {
    match op {
        ArithOp::Add => Some(x.wrapping_add(y)),
        ArithOp::Sub => Some(x.wrapping_sub(y)),
        ArithOp::Mul => Some(x.wrapping_mul(y)),
        ArithOp::Div => if y == 0 {
            None
        } else {
            Some(wrapping_quotient(x, y))
        },
        ArithOp::Mod => if y == 0 {
            None
        } else {
            Some(wrapping_remainder(x, y))
        },
    }
}

pub open spec fn holds(op: CompareOp, x: i64, y: i64) -> bool {
    match op {
        CompareOp::Greater => x > y,
        CompareOp::Equal => x == y,
        CompareOp::Less => x < y,
    }
}

pub open spec fn status_action(s: Status) -> ActionView {
    match s {
        Status::Faulted(f) => ActionView::Faulted(f),
        _ => ActionView::Finished,
    }
}

pub open spec fn faulted(m: MachineView, kind: FaultKind) -> (MachineView, ActionView) {
    let f = Fault { kind, position: m.pc as usize };
    (MachineView { status: Status::Faulted(f), ..m }, ActionView::Faulted(f))
}

pub open spec fn advanced(m: MachineView, regs: Seq<i64>) -> (MachineView, ActionView) {
    (MachineView { pc: m.pc + 1, registers: regs, ..m }, ActionView::Continue)
}

pub open spec fn jumped(m: MachineView, t: usize) -> (MachineView, ActionView) {
    (MachineView { pc: t as int, ..m }, ActionView::Continue)
}

pub open spec fn store_spec(m: MachineView, s: Source, d: Destination) -> (MachineView, ActionView) {
    match (value_of(m.registers, s), register_of(m.registers, d)) {
        (Some(x), Some(t)) => advanced(m, m.registers.update(t, x)),
        _ => faulted(m, FaultKind::InvalidRegister),
    }
}

pub open spec fn binary_spec(
    m: MachineView,
    op: ArithOp,
    a: Source,
    b: Source,
    d: Destination,
) -> (MachineView, ActionView) {
    match (value_of(m.registers, a), value_of(m.registers, b), register_of(m.registers, d)) {
        (Some(x), Some(y), Some(t)) => match combine(op, x, y) {
            Some(r) => advanced(m, m.registers.update(t, r)),
            None => faulted(m, FaultKind::DivisionByZero),
        },
        _ => faulted(m, FaultKind::InvalidRegister),
    }
}

pub open spec fn branch_spec(m: MachineView, op: CompareOp, a: Source, b: Source, l: Label) -> (
    MachineView,
    ActionView,
) {
    match (value_of(m.registers, a), value_of(m.registers, b)) {
        (Some(x), Some(y)) => match l {
            Label::Resolved(t) => if holds(op, x, y) {
                jumped(m, t)
            } else {
                advanced(m, m.registers)
            },
            Label::Symbolic(_) => faulted(m, FaultKind::UnresolvedLabel),
        },
        _ => faulted(m, FaultKind::InvalidRegister),
    }
}

/// The values of the arguments among the first `k`, each read as an unsigned word;
/// `None` when one cannot be read.
pub open spec fn arg_values(regs: Seq<i64>, args: Seq<Option<Source>>, k: int) -> Option<Seq<u64>>
    decreases k,
{
    if k <= 0 {
        Some(seq![])
    } else {
        match arg_values(regs, args, k - 1) {
            None => None,
            Some(vs) => match args[k - 1] {
                None => Some(vs),
                Some(s) => match value_of(regs, s) {
                    None => None,
                    Some(x) => Some(vs.push(x as u64)),
                },
            },
        }
    }
}

pub open spec fn syscall_spec(m: MachineView, d: Destination, n: Source, args: Seq<Option<Source>>) -> (
    MachineView,
    ActionView,
) {
    if has_gap(args) {
        faulted(m, FaultKind::SyscallArgumentGap)
    } else {
        match (register_of(m.registers, d), value_of(m.registers, n)) {
            (Some(_), Some(x)) => match arg_values(m.registers, args, args.len() as int) {
                Some(vs) => (m, ActionView::Syscall(x as u64, vs)),
                None => faulted(m, FaultKind::InvalidRegister),
            },
            _ => faulted(m, FaultKind::InvalidRegister),
        }
    }
}

/// One instruction's effect on a running machine.
pub open spec fn execute(i: Instruction, m: MachineView) -> (MachineView, ActionView) {
    match i {
        Instruction::SetRegister(s, d) => store_spec(m, s, d),
        Instruction::Move(s, d) => store_spec(m, s, d),
        Instruction::Input(d) => match register_of(m.registers, d) {
            Some(_) => (m, ActionView::ReadInput),
            None => faulted(m, FaultKind::InvalidRegister),
        },
        Instruction::Output(s) => match value_of(m.registers, s) {
            Some(x) => (advanced(m, m.registers).0, ActionView::Print(x)),
            None => faulted(m, FaultKind::InvalidRegister),
        },
        Instruction::Add(a, b, d) => binary_spec(m, ArithOp::Add, a, b, d),
        Instruction::Subtract(a, b, d) => binary_spec(m, ArithOp::Sub, a, b, d),
        Instruction::Multiply(a, b, d) => binary_spec(m, ArithOp::Mul, a, b, d),
        Instruction::Divide(a, b, d) => binary_spec(m, ArithOp::Div, a, b, d),
        Instruction::Modulo(a, b, d) => binary_spec(m, ArithOp::Mod, a, b, d),
        Instruction::Jump(l) => match l {
            Label::Resolved(t) => jumped(m, t),
            Label::Symbolic(_) => faulted(m, FaultKind::UnresolvedLabel),
        },
        Instruction::JumpGreaterThan(a, b, l) => branch_spec(m, CompareOp::Greater, a, b, l),
        Instruction::JumpEqual(a, b, l) => branch_spec(m, CompareOp::Equal, a, b, l),
        Instruction::JumpLessThan(a, b, l) => branch_spec(m, CompareOp::Less, a, b, l),
        Instruction::Call(l) => match l {
            Label::Resolved(t) => (
                MachineView { pc: t as int, stack: m.stack.push((m.pc + 1) as usize), ..m },
                ActionView::Continue,
            ),
            Label::Symbolic(_) => faulted(m, FaultKind::UnresolvedLabel),
        },
        Instruction::Return => if m.stack.len() == 0 {
            faulted(m, FaultKind::StackUnderflow)
        } else {
            (
                MachineView { pc: m.stack.last() as int, stack: m.stack.drop_last(), ..m },
                ActionView::Continue,
            )
        },
        Instruction::Time(d) => match register_of(m.registers, d) {
            Some(_) => (m, ActionView::ReadTime),
            None => faulted(m, FaultKind::InvalidRegister),
        },
        Instruction::Terminate => (
            MachineView { status: Status::Finished, ..m },
            ActionView::Finished,
        ),
        Instruction::Syscall(d, n, a1, a2, a3, a4, a5, a6) => syscall_spec(
            m,
            d,
            n,
            seq![a1, a2, a3, a4, a5, a6],
        ),
    }
}

/// One step of the machine running `prog`.
pub open spec fn step_spec(prog: Seq<Instruction>, m: MachineView) -> (MachineView, ActionView) {
    if m.status != Status::Running {
        (m, status_action(m.status))
    } else if m.pc < 0 || m.pc >= prog.len() {
        (MachineView { status: Status::Finished, ..m }, ActionView::Finished)
    } else {
        execute(prog[m.pc], m)
    }
}

/// The value of an input line: one signed decimal integer, whitespace around it ignored.
pub open spec fn input_value(line: Seq<char>) -> Option<i64> {
    if words(line).len() == 1 {
        match parse_signed(words(line)[0], i64::MIN as int, i64::MAX as int) {
            Some(v) => Some(v as i64),
            None => None,
        }
    } else {
        None
    }
}

/// The instruction the running machine stands on, if any.
pub open spec fn current(prog: Seq<Instruction>, m: MachineView) -> Option<Instruction> {
    if m.status == Status::Running && 0 <= m.pc < prog.len() {
        Some(prog[m.pc])
    } else {
        None
    }
}

/// The machine after the host hands it the line that `IN` asked for.
pub open spec fn input_spec(prog: Seq<Instruction>, m: MachineView, line: Seq<char>) -> (
    MachineView,
    ActionView,
) {
    if m.status != Status::Running {
        (m, status_action(m.status))
    } else {
        match current(prog, m) {
            Some(Instruction::Input(d)) => match register_of(m.registers, d) {
                Some(t) => match input_value(line) {
                    Some(v) => advanced(m, m.registers.update(t, v)),
                    None => faulted(m, FaultKind::MalformedInput),
                },
                None => faulted(m, FaultKind::InvalidRegister),
            },
            _ => faulted(m, FaultKind::UnexpectedReply),
        }
    }
}

/// The machine after the host hands it the time that `TIME` asked for.
pub open spec fn time_spec(prog: Seq<Instruction>, m: MachineView, nanos: i64) -> (
    MachineView,
    ActionView,
) {
    if m.status != Status::Running {
        (m, status_action(m.status))
    } else {
        match current(prog, m) {
            Some(Instruction::Time(d)) => match register_of(m.registers, d) {
                Some(t) => advanced(m, m.registers.update(t, nanos)),
                None => faulted(m, FaultKind::InvalidRegister),
            },
            _ => faulted(m, FaultKind::UnexpectedReply),
        }
    }
}

/// The raw result denotes a failure: as a signed word it lies in `[-4095, -1]`.
pub open spec fn is_error_result(ret: u64) -> bool {
    ret >= 0xffff_ffff_ffff_f001
}

/// The machine after the host hands it the raw result of the system call it asked for.
pub open spec fn syscall_result_spec(prog: Seq<Instruction>, m: MachineView, ret: u64) -> (
    MachineView,
    ActionView,
) {
    if m.status != Status::Running {
        (m, status_action(m.status))
    } else {
        match current(prog, m) {
            Some(Instruction::Syscall(d, _, _, _, _, _, _, _)) => match register_of(m.registers, d) {
                Some(t) => if is_error_result(ret) {
                    faulted(m, FaultKind::SyscallFailed((0x1_0000_0000_0000_0000 - ret) as u64))
                } else {
                    advanced(m, m.registers.update(t, ret as i64))
                },
                None => faulted(m, FaultKind::InvalidRegister),
            },
            _ => faulted(m, FaultKind::UnexpectedReply),
        }
    }
}


/// The register machine: a program, a register file, a call stack and a program counter.
pub struct Runner {
    instructions: Vec<Instruction>,
    registers: Vec<i64>,
    stack: Vec<usize>,
    pc: usize,
    status: Status,
}

impl View for Runner {
    type V = MachineView;

    closed spec fn view(&self) -> MachineView {
        MachineView {
            pc: self.pc as int,
            registers: self.registers@,
            stack: self.stack@,
            status: self.status,
        }
    }
}

/// Reads an input line as one signed decimal integer, surrounding whitespace ignored.
pub fn parse_input(line: &str) -> (r: Option<i64>)
    ensures
        r == input_value(line@),
{
    let l = chars_of(line);
    let spans = word_spans(&l, l.len());
    assert(l@.take(l@.len() as int) =~= l@);
    if spans.len() != 1 {
        return None;
    }
    let (a, b) = spans[0];
    match parse_signed_at(&l, a, b, 0x8000_0000_0000_0000u64, 0x7fff_ffff_ffff_ffffu64) {
        Some((neg, m)) => Some(
            if neg {
                if m == 0x8000_0000_0000_0000u64 {
                    i64::MIN
                } else {
                    -(m as i64)
                }
            } else {
                m as i64
            },
        ),
        None => None,
    }
}

/// Up to `fuel` steps, stopping at the first that asks anything of the host.
pub open spec fn run_spec(prog: Seq<Instruction>, m: MachineView, fuel: nat) -> (
    MachineView,
    ActionView,
)
    decreases fuel,
{
    if fuel == 0 {
        (m, ActionView::Continue)
    } else {
        let (m1, a1) = step_spec(prog, m);
        if a1 is Continue {
            run_spec(prog, m1, (fuel - 1) as nat)
        } else {
            (m1, a1)
        }
    }
}

fn label_target(l: &Label) -> (r: Option<usize>)
    ensures
        r == (match *l {
            Label::Resolved(t) => Some(t),
            Label::Symbolic(_) => None::<usize>,
        }),
{
    match l {
        Label::Resolved(t) => Some(*t),
        Label::Symbolic(_) => None,
    }
}

impl Runner {
    /// The program the machine runs.
    pub closed spec fn program(&self) -> Seq<Instruction> {
        self.instructions@
    }

    /// The register file has its fixed size of `REGISTER_COUNT` registers, and every
    /// instruction index, and the one past the last, fits in a `usize`.
    pub open spec fn wf(&self) -> bool {
        &&& self@.registers.len() == REGISTER_COUNT
        &&& self.program().len() <= usize::MAX
    }

    /// A machine at the first instruction, registers zero, call stack empty.
    pub fn new(instructions: Vec<Instruction>) -> (r: Runner)
        ensures
            r.wf(),
            r.program() == instructions@,
            r@.pc == 0,
            r@.registers == Seq::new(REGISTER_COUNT as nat, |i: int| 0i64),
            r@.stack == Seq::<usize>::empty(),
            r@.status == Status::Running,
    {
        let n = instructions.len();
        assert(instructions@.len() == n);
        let mut registers: Vec<i64> = Vec::new();
        let mut i: usize = 0;
        while i < REGISTER_COUNT
            invariant
                i <= REGISTER_COUNT,
                registers@ == Seq::new(i as nat, |k: int| 0i64),
            decreases REGISTER_COUNT - i,
        {
            registers.push(0);
            assert(registers@ =~= Seq::new((i + 1) as nat, |k: int| 0i64));
            i = i + 1;
        }
        Runner { instructions, registers, stack: Vec::new(), pc: 0, status: Status::Running }
    }

    /// Index of the next instruction.
    pub fn pc(&self) -> (r: usize)
        ensures
            r == self@.pc,
    {
        self.pc
    }

    pub fn status(&self) -> (r: Status)
        ensures
            r == self@.status,
    {
        self.status
    }

    /// The value of register `i`, if there is such a register.
    pub fn register(&self, i: usize) -> (r: Option<i64>)
        ensures
            r == (if i < self@.registers.len() {
                Some(self@.registers[i as int])
            } else {
                None::<i64>
            }),
    {
        if i < self.registers.len() {
            Some(self.registers[i])
        } else {
            None
        }
    }

    fn read_source(&self, s: Source) -> (r: Option<i64>)
        requires
            self.wf(),
        ensures
            r == value_of(self@.registers, s),
    {
        match s {
            Source::Data(v) => Some(v),
            Source::Address(i) => if i < self.registers.len() {
                Some(self.registers[i])
            } else {
                None
            },
            Source::Reference(i) => if i < self.registers.len() {
                let j = self.registers[i];
                if 0 <= j && j < REGISTER_COUNT as i64 {
                    Some(self.registers[j as usize])
                } else {
                    None
                }
            } else {
                None
            },
        }
    }

    fn read_destination(&self, d: Destination) -> (r: Option<usize>)
        requires
            self.wf(),
        ensures
            r is Some <==> register_of(self@.registers, d) is Some,
            r matches Some(t) ==> register_of(self@.registers, d) == Some(t as int),
    {
        match d {
            Destination::Address(i) => if i < self.registers.len() {
                Some(i)
            } else {
                None
            },
            Destination::Reference(i) => if i < self.registers.len() {
                let j = self.registers[i];
                if 0 <= j && j < REGISTER_COUNT as i64 {
                    Some(j as usize)
                } else {
                    None
                }
            } else {
                None
            },
        }
    }

    fn fault(&mut self, kind: FaultKind) -> (r: Action)
        ensures
            final(self).program() == old(self).program(),
            final(self).registers == old(self).registers,
            (final(self)@, r@) == faulted(old(self)@, kind),
    {
        let f = Fault { kind, position: self.pc };
        self.status = Status::Faulted(f);
        Action::Faulted(f)
    }

    fn stop_action(&self) -> (r: Action)
        requires
            self@.status != Status::Running,
        ensures
            r@ == status_action(self@.status),
    {
        match self.status {
            Status::Faulted(f) => Action::Faulted(f),
            _ => Action::Finished,
        }
    }

    fn write_and_advance(&mut self, t: usize, v: i64) -> (r: Action)
        requires
            t < old(self).registers@.len(),
            old(self).pc < usize::MAX,
        ensures
            final(self).program() == old(self).program(),
            final(self).registers@.len() == old(self).registers@.len(),
            (final(self)@, r@) == advanced(old(self)@, old(self)@.registers.update(t as int, v)),
    {
        self.registers.set(t, v);
        self.pc = self.pc + 1;
        Action::Continue
    }

    fn store(&mut self, s: Source, d: Destination) -> (r: Action)
        requires
            old(self).wf(),
            old(self).pc < usize::MAX,
        ensures
            final(self).program() == old(self).program(),
            final(self).registers@.len() == old(self).registers@.len(),
            (final(self)@, r@) == store_spec(old(self)@, s, d),
    {
        match (self.read_source(s), self.read_destination(d)) {
            (Some(x), Some(t)) => self.write_and_advance(t, x),
            _ => self.fault(FaultKind::InvalidRegister),
        }
    }

    fn binary(&mut self, op: ArithOp, a: Source, b: Source, d: Destination) -> (r: Action)
        requires
            old(self).wf(),
            old(self).pc < usize::MAX,
        ensures
            final(self).program() == old(self).program(),
            final(self).registers@.len() == old(self).registers@.len(),
            (final(self)@, r@) == binary_spec(old(self)@, op, a, b, d),
    {
        match (self.read_source(a), self.read_source(b), self.read_destination(d)) {
            (Some(x), Some(y), Some(t)) => {
                let v = match op {
                    ArithOp::Add => Some(x.wrapping_add(y)),
                    ArithOp::Sub => Some(x.wrapping_sub(y)),
                    ArithOp::Mul => Some(x.wrapping_mul(y)),
                    ArithOp::Div => if y == 0 {
                        None
                    } else {
                        match x.checked_div(y) {
                            Some(q) => Some(q),
                            None => Some(i64::MIN),
                        }
                    },
                    ArithOp::Mod => if y == 0 {
                        None
                    } else {
                        match x.checked_rem(y) {
                            Some(q) => Some(q),
                            None => Some(0),
                        }
                    },
                };
                match v {
                    Some(v) => self.write_and_advance(t, v),
                    None => self.fault(FaultKind::DivisionByZero),
                }
            },
            _ => self.fault(FaultKind::InvalidRegister),
        }
    }

    fn branch(&mut self, op: CompareOp, a: Source, b: Source, target: Option<usize>) -> (r: Action)
        requires
            old(self).wf(),
            old(self).pc < usize::MAX,
        ensures
            final(self).program() == old(self).program(),
            final(self).registers == old(self).registers,
            forall|l: Label|
                (match l {
                    Label::Resolved(t) => target == Some(t),
                    Label::Symbolic(_) => target is None,
                }) ==> (final(self)@, r@) == #[trigger] branch_spec(old(self)@, op, a, b, l),
    {
        match (self.read_source(a), self.read_source(b)) {
            (Some(x), Some(y)) => match target {
                Some(t) => {
                    let taken = match op {
                        CompareOp::Greater => x > y,
                        CompareOp::Equal => x == y,
                        CompareOp::Less => x < y,
                    };
                    if taken {
                        self.pc = t;
                    } else {
                        self.pc = self.pc + 1;
                    }
                    Action::Continue
                },
                None => self.fault(FaultKind::UnresolvedLabel),
            },
            _ => self.fault(FaultKind::InvalidRegister),
        }
    }

    fn syscall_request(
        &mut self,
        d: Destination,
        n: Source,
        args: [Option<Source>; 6],
    ) -> (r: Action)
        requires
            old(self).wf(),
        ensures
            final(self).program() == old(self).program(),
            final(self).registers == old(self).registers,
            (final(self)@, r@) == syscall_spec(old(self)@, d, n, args@),
    {
        let mut seen_absent = false;
        let mut values: Vec<u64> = Vec::new();
        let mut k: usize = 0;
        let mut unreadable = false;
        while k < 6
            invariant
                *self == *old(self),
                self.wf(),
                k <= 6,
                args@.len() == 6,
                seen_absent == exists|i: int| 0 <= i < k && #[trigger] args@[i] is None,
                !exists|i: int, j: int|
                    #![trigger args@[i], args@[j]]
                    0 <= i < j < k && args@[i] is None && args@[j] is Some,
                unreadable <==> arg_values(self@.registers, args@, k as int) is None,
                !unreadable ==> arg_values(self@.registers, args@, k as int) == Some(values@),
            decreases 6 - k,
        {
            let a = args[k];
            match a {
                None => {
                    seen_absent = true;
                },
                Some(s) => {
                    if seen_absent {
                        let ghost i = choose|i: int| 0 <= i < k && #[trigger] args@[i] is None;
                        assert(args@[i] is None && args@[k as int] is Some);
                        return self.fault(FaultKind::SyscallArgumentGap);
                    }
                    if !unreadable {
                        match self.read_source(s) {
                            Some(v) => values.push(v as u64),
                            None => {
                                unreadable = true;
                            },
                        }
                    }
                },
            }
            k = k + 1;
        }
        assert(!has_gap(args@));
        match (self.read_destination(d), self.read_source(n)) {
            (Some(_), Some(x)) => if unreadable {
                self.fault(FaultKind::InvalidRegister)
            } else {
                Action::Syscall(SyscallRequest { number: x as u64, args: values })
            },
            _ => self.fault(FaultKind::InvalidRegister),
        }
    }


    /// Executes the instruction at the program counter. Input, time and system calls are
    /// requests: the machine waits on them until the host supplies the answer.
    pub fn step(&mut self) -> (r: Action)
        requires
            old(self).wf(),
        ensures
            final(self).wf(),
            final(self).program() == old(self).program(),
            (final(self)@, r@) == step_spec(old(self).program(), old(self)@),
    {
        if self.status != Status::Running {
            return self.stop_action();
        }
        if self.pc >= self.instructions.len() {
            self.status = Status::Finished;
            return Action::Finished;
        }
        let pc = self.pc;
        match &self.instructions[pc] {
            Instruction::SetRegister(s, d) => {
                let (s, d) = (*s, *d);
                self.store(s, d)
            },
            Instruction::Move(s, d) => {
                let (s, d) = (*s, *d);
                self.store(s, d)
            },
            Instruction::Input(d) => {
                let d = *d;
                match self.read_destination(d) {
                    Some(_) => Action::ReadInput,
                    None => self.fault(FaultKind::InvalidRegister),
                }
            },
            Instruction::Output(s) => {
                let s = *s;
                match self.read_source(s) {
                    Some(x) => {
                        self.pc = pc + 1;
                        Action::Print(x)
                    },
                    None => self.fault(FaultKind::InvalidRegister),
                }
            },
            Instruction::Add(a, b, d) => {
                let (a, b, d) = (*a, *b, *d);
                self.binary(ArithOp::Add, a, b, d)
            },
            Instruction::Subtract(a, b, d) => {
                let (a, b, d) = (*a, *b, *d);
                self.binary(ArithOp::Sub, a, b, d)
            },
            Instruction::Multiply(a, b, d) => {
                let (a, b, d) = (*a, *b, *d);
                self.binary(ArithOp::Mul, a, b, d)
            },
            Instruction::Divide(a, b, d) => {
                let (a, b, d) = (*a, *b, *d);
                self.binary(ArithOp::Div, a, b, d)
            },
            Instruction::Modulo(a, b, d) => {
                let (a, b, d) = (*a, *b, *d);
                self.binary(ArithOp::Mod, a, b, d)
            },
            Instruction::Jump(l) => match label_target(l) {
                Some(t) => {
                    self.pc = t;
                    Action::Continue
                },
                None => self.fault(FaultKind::UnresolvedLabel),
            },
            Instruction::JumpGreaterThan(a, b, l) => {
                let (a, b, t) = (*a, *b, label_target(l));
                self.branch(CompareOp::Greater, a, b, t)
            },
            Instruction::JumpEqual(a, b, l) => {
                let (a, b, t) = (*a, *b, label_target(l));
                self.branch(CompareOp::Equal, a, b, t)
            },
            Instruction::JumpLessThan(a, b, l) => {
                let (a, b, t) = (*a, *b, label_target(l));
                self.branch(CompareOp::Less, a, b, t)
            },
            Instruction::Call(l) => match label_target(l) {
                Some(t) => {
                    self.stack.push(pc + 1);
                    self.pc = t;
                    Action::Continue
                },
                None => self.fault(FaultKind::UnresolvedLabel),
            },
            Instruction::Return => match self.stack.pop() {
                Some(t) => {
                    self.pc = t;
                    Action::Continue
                },
                None => self.fault(FaultKind::StackUnderflow),
            },
            Instruction::Time(d) => {
                let d = *d;
                match self.read_destination(d) {
                    Some(_) => Action::ReadTime,
                    None => self.fault(FaultKind::InvalidRegister),
                }
            },
            Instruction::Terminate => {
                self.status = Status::Finished;
                Action::Finished
            },
            Instruction::Syscall(d, n, a1, a2, a3, a4, a5, a6) => {
                let (d, n) = (*d, *n);
                let args = [*a1, *a2, *a3, *a4, *a5, *a6];
                assert(args@ =~= seq![*a1, *a2, *a3, *a4, *a5, *a6]);
                self.syscall_request(d, n, args)
            },
        }
    }

    /// Hands the machine the input line that `IN` asked for.
    pub fn supply_input(&mut self, line: &str) -> (r: Action)
        requires
            old(self).wf(),
        ensures
            final(self).wf(),
            final(self).program() == old(self).program(),
            (final(self)@, r@) == input_spec(old(self).program(), old(self)@, line@),
    {
        if self.status != Status::Running {
            return self.stop_action();
        }
        if self.pc >= self.instructions.len() {
            return self.fault(FaultKind::UnexpectedReply);
        }
        let pc = self.pc;
        match &self.instructions[pc] {
            Instruction::Input(d) => {
                let d = *d;
                match self.read_destination(d) {
                    Some(t) => match parse_input(line) {
                        Some(v) => self.write_and_advance(t, v),
                        None => self.fault(FaultKind::MalformedInput),
                    },
                    None => self.fault(FaultKind::InvalidRegister),
                }
            },
            _ => self.fault(FaultKind::UnexpectedReply),
        }
    }

    /// Hands the machine the time, in nanoseconds since the Unix epoch, that `TIME` asked for.
    pub fn supply_time(&mut self, nanos: i64) -> (r: Action)
        requires
            old(self).wf(),
        ensures
            final(self).wf(),
            final(self).program() == old(self).program(),
            (final(self)@, r@) == time_spec(old(self).program(), old(self)@, nanos),
    {
        if self.status != Status::Running {
            return self.stop_action();
        }
        if self.pc >= self.instructions.len() {
            return self.fault(FaultKind::UnexpectedReply);
        }
        let pc = self.pc;
        match &self.instructions[pc] {
            Instruction::Time(d) => {
                let d = *d;
                match self.read_destination(d) {
                    Some(t) => self.write_and_advance(t, nanos),
                    None => self.fault(FaultKind::InvalidRegister),
                }
            },
            _ => self.fault(FaultKind::UnexpectedReply),
        }
    }

    /// Hands the machine the raw result of the system call it asked for. A result that
    /// denotes a negated error code stops the machine with that code.
    pub fn supply_syscall_result(&mut self, ret: u64) -> (r: Action)
        requires
            old(self).wf(),
        ensures
            final(self).wf(),
            final(self).program() == old(self).program(),
            (final(self)@, r@) == syscall_result_spec(old(self).program(), old(self)@, ret),
    {
        if self.status != Status::Running {
            return self.stop_action();
        }
        if self.pc >= self.instructions.len() {
            return self.fault(FaultKind::UnexpectedReply);
        }
        let pc = self.pc;
        match &self.instructions[pc] {
            Instruction::Syscall(d, _, _, _, _, _, _, _) => {
                let d = *d;
                match self.read_destination(d) {
                    Some(t) => if ret >= 0xffff_ffff_ffff_f001u64 {
                        let errno: u64 = (0xffff_ffff_ffff_ffffu64 - ret) + 1;
                        self.fault(FaultKind::SyscallFailed(errno))
                    } else {
                        self.write_and_advance(t, ret as i64)
                    },
                    None => self.fault(FaultKind::InvalidRegister),
                }
            },
            _ => self.fault(FaultKind::UnexpectedReply),
        }
    }

    /// Steps until the machine asks something of the host, or `max_steps` steps have run.
    pub fn run_until_request(&mut self, max_steps: usize) -> (r: Action)
        requires
            old(self).wf(),
        ensures
            final(self).wf(),
            final(self).program() == old(self).program(),
            (final(self)@, r@) == run_spec(old(self).program(), old(self)@, max_steps as nat),
    {
        let mut left: usize = max_steps;
        while left > 0
            invariant
                self.wf(),
                self.program() == old(self).program(),
                run_spec(old(self).program(), old(self)@, max_steps as nat) == run_spec(
                    self.program(),
                    self@,
                    left as nat,
                ),
            decreases left,
        {
            let a = self.step();
            if !matches!(a, Action::Continue) {
                return a;
            }
            left = left - 1;
        }
        Action::Continue
    }
}

} // verus!
