use vstd::prelude::*;

verus! {

/// Number of registers in the machine's register file.
pub const REGISTER_COUNT: usize = 4096;

/// An operand that is read: an immediate, a register, or a register named by another register.
#[derive(Debug, Clone, Copy, PartialEq, Eq, Structural)]
pub enum Source {
    Address(usize),
    Reference(usize),
    Data(i64),
}

/// An operand that is written: a register, or a register named by another register.
#[derive(Debug, Clone, Copy, PartialEq, Eq, Structural)]
pub enum Destination {
    Address(usize),
    Reference(usize),
}

/// A jump or call target: a name before assembly has resolved it, an instruction index after.
#[derive(Debug, PartialEq, Eq)]
pub enum Label {
    Symbolic(String),
    Resolved(usize),
}

/// One machine instruction.
#[derive(Debug, PartialEq, Eq)]
pub enum Instruction {
    Return,
    SetRegister(Source, Destination),
    Input(Destination),
    Output(Source),
    Add(Source, Source, Destination),
    Subtract(Source, Source, Destination),
    Multiply(Source, Source, Destination),
    Divide(Source, Source, Destination),
    Modulo(Source, Source, Destination),
    Jump(Label),
    JumpGreaterThan(Source, Source, Label),
    JumpEqual(Source, Source, Label),
    JumpLessThan(Source, Source, Label),
    Move(Source, Destination),
    Call(Label),
    Time(Destination),
    Terminate,
    Syscall(
        Destination,
        Source,
        Option<Source>,
        Option<Source>,
        Option<Source>,
        Option<Source>,
        Option<Source>,
        Option<Source>,
    ),
}

/// The target operand of a jump or a call.
pub open spec fn label_of(i: Instruction) -> Option<Label> {
    match i {
        Instruction::Jump(l) => Some(l),
        Instruction::JumpGreaterThan(_, _, l) => Some(l),
        Instruction::JumpEqual(_, _, l) => Some(l),
        Instruction::JumpLessThan(_, _, l) => Some(l),
        Instruction::Call(l) => Some(l),
        _ => None,
    }
}

/// `i` with its target operand replaced by `l`; other instructions are unchanged.
pub open spec fn with_label(i: Instruction, l: Label) -> Instruction {
    match i {
        Instruction::Jump(_) => Instruction::Jump(l),
        Instruction::JumpGreaterThan(a, b, _) => Instruction::JumpGreaterThan(a, b, l),
        Instruction::JumpEqual(a, b, _) => Instruction::JumpEqual(a, b, l),
        Instruction::JumpLessThan(a, b, _) => Instruction::JumpLessThan(a, b, l),
        Instruction::Call(_) => Instruction::Call(l),
        _ => i,
    }
}

/// The instruction carries no symbolic label.
pub open spec fn is_resolved(i: Instruction) -> bool {
    !(label_of(i) matches Some(Label::Symbolic(_)))
}

/// The name of the instruction's symbolic label, if it has one.
pub open spec fn symbolic_name(i: Instruction) -> Option<Seq<char>> {
    match label_of(i) {
        Some(Label::Symbolic(s)) => Some(s@),
        _ => None,
    }
}

/// `i` with its target set to the instruction index `target`.
pub fn retarget(i: &Instruction, target: usize) -> (r: Instruction)
    ensures
        r == with_label(*i, Label::Resolved(target)),
{
    match i {
        Instruction::Jump(_) => Instruction::Jump(Label::Resolved(target)),
        Instruction::JumpGreaterThan(a, b, _) => Instruction::JumpGreaterThan(
            *a,
            *b,
            Label::Resolved(target),
        ),
        Instruction::JumpEqual(a, b, _) => Instruction::JumpEqual(*a, *b, Label::Resolved(target)),
        Instruction::JumpLessThan(a, b, _) => Instruction::JumpLessThan(
            *a,
            *b,
            Label::Resolved(target),
        ),
        Instruction::Call(_) => Instruction::Call(Label::Resolved(target)),
        Instruction::Return => Instruction::Return,
        Instruction::SetRegister(a, d) => Instruction::SetRegister(*a, *d),
        Instruction::Input(d) => Instruction::Input(*d),
        Instruction::Output(a) => Instruction::Output(*a),
        Instruction::Add(a, b, d) => Instruction::Add(*a, *b, *d),
        Instruction::Subtract(a, b, d) => Instruction::Subtract(*a, *b, *d),
        Instruction::Multiply(a, b, d) => Instruction::Multiply(*a, *b, *d),
        Instruction::Divide(a, b, d) => Instruction::Divide(*a, *b, *d),
        Instruction::Modulo(a, b, d) => Instruction::Modulo(*a, *b, *d),
        Instruction::Move(a, d) => Instruction::Move(*a, *d),
        Instruction::Time(d) => Instruction::Time(*d),
        Instruction::Terminate => Instruction::Terminate,
        Instruction::Syscall(d, n, a1, a2, a3, a4, a5, a6) => Instruction::Syscall(
            *d,
            *n,
            *a1,
            *a2,
            *a3,
            *a4,
            *a5,
            *a6,
        ),
    }
}


/// `i` with its target set to the name `name`.
pub fn with_symbolic(i: Instruction, name: String) -> (r: Instruction)
    ensures
        r == with_label(i, Label::Symbolic(name)),
{
    match i {
        Instruction::Jump(_) => Instruction::Jump(Label::Symbolic(name)),
        Instruction::JumpGreaterThan(a, b, _) => Instruction::JumpGreaterThan(
            a,
            b,
            Label::Symbolic(name),
        ),
        Instruction::JumpEqual(a, b, _) => Instruction::JumpEqual(a, b, Label::Symbolic(name)),
        Instruction::JumpLessThan(a, b, _) => Instruction::JumpLessThan(
            a,
            b,
            Label::Symbolic(name),
        ),
        Instruction::Call(_) => Instruction::Call(Label::Symbolic(name)),
        other => other,
    }
}

/// Replacing a target twice is replacing it once, with the second target.
pub proof fn lemma_with_label_twice(i: Instruction, a: Label, b: Label)
    ensures
        with_label(with_label(i, a), b) == with_label(i, b),
        label_of(i) is Some ==> label_of(with_label(i, a)) == Some(a),
        label_of(i) is None ==> with_label(i, a) == i,
        label_of(i) == Some(a) ==> with_label(i, a) == i,
        symbolic_name(with_label(i, Label::Resolved(0))) is None,
{
    match i {
        _ => {},
    }
}

} // verus!
