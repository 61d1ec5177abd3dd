use vstd::prelude::*;

use crate::instructions::{
    is_resolved, label_of, lemma_with_label_twice, Destination, Instruction, Label, Source,
};
use crate::parser::{
    assembled, code_lines_before, lemma_defined_targets_assemble, lemma_first_pass_index,
    spec_instruction, target_name, emitted, first_pass, first_undefined, is_code_line,
    is_label_line, labels_before, lemma_assembled_targets_resolved, line_words, Emitted,
    ParseErrorKind,
};
use crate::runner::{
    register_of, run_spec, step_spec, value_of, ActionView, MachineView, Status,
};

verus! {

/// The instruction a running machine executes next.
pub open spec fn at(prog: Seq<Instruction>, m: MachineView, i: Instruction) -> bool {
    &&& m.status == Status::Running
    &&& 0 <= m.pc < prog.len()
    &&& prog[m.pc] == i
}

/// `x + y` brought back into the signed 64-bit range by two's-complement wraparound.
pub open spec fn wrapped_sum(x: int, y: int) -> int {
    if x + y > i64::MAX {
        x + y - 0x1_0000_0000_0000_0000
    } else if x + y < i64::MIN {
        x + y + 0x1_0000_0000_0000_0000
    } else {
        x + y
    }
}

/// Assembly that succeeds leaves every jump and call target resolved to an index, forward
/// references included.
pub proof fn lemma_round_trip(lines: Seq<Seq<char>>)
    ensures
        assembled(lines) matches Ok(v) ==> forall|m: int| 0 <= m < v.len() ==> is_resolved(
            #[trigger] v[m],
        ),
{
    lemma_assembled_targets_resolved(lines);
}

/// If code line `k` names a target not defined above it, instruction `i` jumps to the
/// index that the program's last definition of that label gives.
pub open spec fn forward_target_resolved(lines: Seq<Seq<char>>, k: int, i: Instruction) -> bool {
    match target_name(line_words(lines[k])) {
        Some(n) => labels_before(lines, k).contains_key(n) || label_of(i) == Some(
            Label::Resolved(labels_before(lines, lines.len() as int)[n] as usize),
        ),
        None => true,
    }
}

/// A program whose lines all parse and whose targets are all defined somewhere, forward
/// references included, assembles, and then every target is an instruction index. A
/// target defined only after its use is the number of instructions that precede its
/// label's last definition.
pub proof fn lemma_forward_labels_assemble(lines: Seq<Seq<char>>)
    requires
        first_pass(lines, lines.len() as int) is Ok,
        forall|k: int|
            0 <= k < lines.len() && is_code_line(#[trigger] lines[k]) ==> (target_name(
                line_words(lines[k]),
            ) matches Some(n) ==> labels_before(lines, lines.len() as int).contains_key(n)),
    ensures
        assembled(lines) matches Ok(v) && forall|m: int| 0 <= m < v.len() ==> is_resolved(
            #[trigger] v[m],
        ),
        forall|k: int|
            0 <= k < lines.len() && is_code_line(#[trigger] lines[k]) ==> forward_target_resolved(
                lines,
                k,
                assembled(lines)->Ok_0[code_lines_before(lines, k) as int],
            ),
{
    lemma_defined_targets_assemble(lines);
    lemma_assembled_targets_resolved(lines);
    lemma_first_pass_index(lines, lines.len() as int);
    let v = first_pass(lines, lines.len() as int)->Ok_0;
    assert forall|k: int|
        0 <= k < lines.len() && is_code_line(#[trigger] lines[k]) implies forward_target_resolved(
            lines,
            k,
            assembled(lines)->Ok_0[code_lines_before(lines, k) as int],
        ) by {
        let ws = line_words(lines[k]);
        if let Some(n) = target_name(ws) {
            let i0 = spec_instruction(ws)->Ok_0;
            crate::parser::lemma_instruction_shape(ws);
            let t = Label::Resolved(labels_before(lines, lines.len() as int)[n] as usize);
            lemma_with_label_twice(i0, t, t);
            assert(assembled(lines)->Ok_0[code_lines_before(lines, k) as int]
                == v[code_lines_before(lines, k) as int].0);
        }
    }
}

/// `ADD a b dst` writes the wrapping sum of the operands' values to `dst`, leaves every
/// other register alone and moves on to the next instruction.
pub proof fn lemma_add(prog: Seq<Instruction>, m: MachineView, a: Source, b: Source, d: Destination)
    requires
        at(prog, m, Instruction::Add(a, b, d)),
        value_of(m.registers, a) is Some,
        value_of(m.registers, b) is Some,
        register_of(m.registers, d) is Some,
    ensures
        ({
            let (m1, act) = step_spec(prog, m);
            let x = value_of(m.registers, a)->0;
            let y = value_of(m.registers, b)->0;
            let t = register_of(m.registers, d)->0;
            &&& act == ActionView::Continue
            &&& m1.pc == m.pc + 1
            &&& m1.registers[t] as int == wrapped_sum(x as int, y as int)
            &&& m1.registers == m.registers.update(t, m1.registers[t])
            &&& m1.stack == m.stack
            &&& m1.status == Status::Running
        }),
{
}

/// The program `ADD a b dst` alone, run from its start, ends normally with the wrapping sum
/// in `dst` and every other register as it was.
pub proof fn lemma_add_program(m: MachineView, a: Source, b: Source, d: Destination)
    requires
        m.status == Status::Running,
        m.pc == 0,
        value_of(m.registers, a) is Some,
        value_of(m.registers, b) is Some,
        register_of(m.registers, d) is Some,
    ensures
        ({
            let prog = seq![Instruction::Add(a, b, d)];
            let (m2, act) = run_spec(prog, m, 2);
            let x = value_of(m.registers, a)->0;
            let y = value_of(m.registers, b)->0;
            let t = register_of(m.registers, d)->0;
            &&& act == ActionView::Finished
            &&& m2.status == Status::Finished
            &&& m2.registers[t] as int == wrapped_sum(x as int, y as int)
            &&& m2.registers == m.registers.update(t, m2.registers[t])
        }),
{
    let prog = seq![Instruction::Add(a, b, d)];
    lemma_add(prog, m, a, b, d);
    let m1 = step_spec(prog, m).0;
    assert(run_spec(prog, m, 2) == run_spec(prog, m1, 1));
    assert(run_spec(prog, m1, 1) == step_spec(prog, m1));
}

/// `JGT`, `JEQ` and `JLT` jump to their target exactly when `>`, `==` or `<` holds of the
/// operands' values, and otherwise go on to the next instruction; nothing else changes.
pub proof fn lemma_conditional_jump(
    prog: Seq<Instruction>,
    m: MachineView,
    a: Source,
    b: Source,
    target: usize,
)
    requires
        m.status == Status::Running,
        0 <= m.pc < prog.len(),
        value_of(m.registers, a) is Some,
        value_of(m.registers, b) is Some,
    ensures
        ({
            let x = value_of(m.registers, a)->0;
            let y = value_of(m.registers, b)->0;
            let l = Label::Resolved(target);
            &&& prog[m.pc] == Instruction::JumpGreaterThan(a, b, l) ==> step_spec(prog, m) == (
                MachineView { pc: if x > y { target as int } else { m.pc + 1 }, ..m },
                ActionView::Continue,
            )
            &&& prog[m.pc] == Instruction::JumpEqual(a, b, l) ==> step_spec(prog, m) == (
                MachineView { pc: if x == y { target as int } else { m.pc + 1 }, ..m },
                ActionView::Continue,
            )
            &&& prog[m.pc] == Instruction::JumpLessThan(a, b, l) ==> step_spec(prog, m) == (
                MachineView { pc: if x < y { target as int } else { m.pc + 1 }, ..m },
                ActionView::Continue,
            )
        }),
{
}

/// `CALL L` followed, at `L`, by `RET` resumes at the instruction after the `CALL`, with
/// the call stack and the registers as they were.
pub proof fn lemma_call_return(prog: Seq<Instruction>, m: MachineView, target: usize)
    requires
        at(prog, m, Instruction::Call(Label::Resolved(target))),
        target < prog.len() <= usize::MAX,
        prog[target as int] == Instruction::Return,
    ensures
        ({
            let (m1, a1) = step_spec(prog, m);
            let (m2, a2) = step_spec(prog, m1);
            &&& a1 == ActionView::Continue
            &&& a2 == ActionView::Continue
            &&& m1.pc == target
            &&& m2.pc == m.pc + 1
            &&& m2.stack == m.stack
            &&& m2.registers == m.registers
            &&& m2.status == Status::Running
        }),
{
    let m1 = step_spec(prog, m).0;
    assert(m1.stack.last() == (m.pc + 1) as usize);
    assert(m1.stack.drop_last() =~= m.stack);
}


/// `l2` is `lines` with `x` inserted at position `p`.
pub open spec fn inserted(l2: Seq<Seq<char>>, lines: Seq<Seq<char>>, p: int, x: Seq<char>) -> bool {
    &&& 0 <= p <= lines.len()
    &&& l2.len() == lines.len() + 1
    &&& forall|i: int| 0 <= i < p ==> #[trigger] l2[i] == lines[i]
    &&& l2[p] == x
    &&& forall|i: int| p <= i < lines.len() ==> #[trigger] l2[i + 1] == lines[i]
}

/// Where line `j` of the original stands after the insertion at `p`.
pub open spec fn moved(j: int, p: int) -> int {
    if j < p {
        j
    } else {
        j + 1
    }
}

/// The original prefix length that a prefix of length `k2` of the longer text covers.
pub open spec fn covered(k2: int, p: int) -> int {
    if k2 <= p {
        k2
    } else {
        k2 - 1
    }
}

pub open spec fn moved_entries(v: Seq<Emitted>, p: int) -> Seq<Emitted> {
    v.map_values(|e: Emitted| (e.0, moved(e.1, p), e.2))
}

proof fn lemma_line_at(l2: Seq<Seq<char>>, lines: Seq<Seq<char>>, p: int, x: Seq<char>, i2: int)
    requires
        inserted(l2, lines, p, x),
        0 <= i2 < l2.len(),
        i2 != p,
    ensures
        l2[i2] == lines[covered(i2 + 1, p) - 1],
        moved(covered(i2 + 1, p) - 1, p) == i2,
{
    if i2 > p {
        assert(l2[(i2 - 1) + 1] == lines[i2 - 1]);
    }
}

proof fn lemma_tables_after_insert(
    l2: Seq<Seq<char>>,
    lines: Seq<Seq<char>>,
    p: int,
    x: Seq<char>,
    k2: int,
)
    requires
        inserted(l2, lines, p, x),
        line_words(x).len() == 0,
        0 <= k2 <= l2.len(),
    ensures
        code_lines_before(l2, k2) == code_lines_before(lines, covered(k2, p)),
        labels_before(l2, k2) == labels_before(lines, covered(k2, p)),
    decreases k2,
{
    if k2 > 0 {
        lemma_tables_after_insert(l2, lines, p, x, k2 - 1);
        if k2 - 1 == p {
            assert(!is_code_line(x) && !is_label_line(x));
        } else {
            lemma_line_at(l2, lines, p, x, k2 - 1);
        }
    }
}

proof fn lemma_first_pass_after_insert(
    l2: Seq<Seq<char>>,
    lines: Seq<Seq<char>>,
    p: int,
    x: Seq<char>,
    k2: int,
)
    requires
        inserted(l2, lines, p, x),
        line_words(x).len() == 0,
        0 <= k2 <= l2.len(),
    ensures
        match first_pass(lines, covered(k2, p)) {
            Ok(v) => first_pass(l2, k2) == Ok::<Seq<Emitted>, (ParseErrorKind, int)>(
                moved_entries(v, p),
            ),
            Err((kind, j)) => first_pass(l2, k2) == Err::<Seq<Emitted>, (ParseErrorKind, int)>(
                (kind, moved(j, p)),
            ),
        },
    decreases k2,
{
    if k2 == 0 {
        assert(moved_entries(seq![], p) =~= seq![]);
    } else {
        lemma_first_pass_after_insert(l2, lines, p, x, k2 - 1);
        if k2 - 1 == p {
            assert(!is_code_line(x));
            assert(first_pass(l2, k2) == first_pass(l2, k2 - 1));
        } else {
            let i2 = k2 - 1;
            let i = covered(k2, p) - 1;
            lemma_line_at(l2, lines, p, x, i2);
            assert(covered(k2 - 1, p) == i);
            assert(l2[i2] == lines[i]);
            match first_pass(lines, i) {
                Err(_) => {},
                Ok(v) => {
                    if is_code_line(lines[i]) {
                        match crate::parser::spec_instruction(line_words(lines[i])) {
                            Err(kind) => {
                                assert(first_pass(l2, k2) == Err::<
                                    Seq<Emitted>,
                                    (ParseErrorKind, int),
                                >((kind, moved(i, p))));
                            },
                            Ok(inst) => {
                                lemma_tables_after_insert(l2, lines, p, x, i2);
                                lemma_tables_after_insert(l2, lines, p, x, l2.len() as int);
                                assert(covered(i2, p) == i);
                                assert(covered(l2.len() as int, p) == lines.len());
                                let e = emitted(lines, i, inst);
                                let e2 = emitted(l2, i2, inst);
                                assert(e2 == (e.0, moved(e.1, p), e.2));
                                assert(moved_entries(v.push(e), p) =~= moved_entries(v, p).push(
                                    e2,
                                ));
                                assert(first_pass(l2, k2) == Ok::<
                                    Seq<Emitted>,
                                    (ParseErrorKind, int),
                                >(moved_entries(v, p).push(e2)));
                            },
                        }
                    } else {
                        assert(first_pass(l2, k2) == first_pass(l2, k2 - 1));
                    }
                },
            }
        }
    }
}

proof fn lemma_first_undefined_moved(v: Seq<Emitted>, p: int, m: int)
    ensures
        first_undefined(moved_entries(v, p), m) == first_undefined(v, m),
    decreases v.len() - m,
{
    if 0 <= m < v.len() {
        lemma_first_undefined_moved(v, p, m + 1);
    }
}

proof fn lemma_first_undefined_in_range(v: Seq<Emitted>, m: int)
    requires
        0 <= m,
    ensures
        first_undefined(v, m) matches Some(k) ==> m <= k < v.len(),
    decreases v.len() - m,
{
    if m < v.len() {
        lemma_first_undefined_in_range(v, m + 1);
    }
}

/// Inserting a line that holds no instruction and no label (a blank line, or one that is
/// only a comment) anywhere leaves the assembled program and every label's index as they
/// were; an error stays the same error, on the same line of text.
pub proof fn lemma_blank_line_changes_nothing(lines: Seq<Seq<char>>, p: int, x: Seq<char>)
    requires
        0 <= p <= lines.len(),
        line_words(x).len() == 0,
    ensures
        ({
            let l2 = lines.insert(p, x);
            &&& assembled(l2) is Ok <==> assembled(lines) is Ok
            &&& assembled(lines) matches Ok(v) ==> assembled(l2) == Ok::<
                Seq<Instruction>,
                (ParseErrorKind, int),
            >(v)
            &&& assembled(lines) matches Err((kind, j)) ==> assembled(l2) == Err::<
                Seq<Instruction>,
                (ParseErrorKind, int),
            >((kind, moved(j, p)))
            &&& labels_before(l2, l2.len() as int) == labels_before(lines, lines.len() as int)
        }),
{
    let l2 = lines.insert(p, x);
    lines.insert_ensures(p, x);
    assert forall|i: int| p <= i < lines.len() implies #[trigger] l2[i + 1] == lines[i] by {
        assert(lines.insert(p, x)[i + 1] == lines[i]);
    }
    assert(inserted(l2, lines, p, x));
    lemma_tables_after_insert(l2, lines, p, x, l2.len() as int);
    lemma_first_pass_after_insert(l2, lines, p, x, l2.len() as int);
    assert(covered(l2.len() as int, p) == lines.len());
    if let Ok(v) = first_pass(lines, lines.len() as int) {
        lemma_first_undefined_moved(v, p, 0);
        let w = moved_entries(v, p);
        assert(first_pass(l2, l2.len() as int) == Ok::<Seq<Emitted>, (ParseErrorKind, int)>(w));
        if let Some(m) = first_undefined(v, 0) {
            lemma_first_undefined_in_range(v, 0);
            assert(w[m].1 == moved(v[m].1, p));
        } else {
            assert(w.map_values(|e: Emitted| e.0) =~= v.map_values(|e: Emitted| e.0));
        }
    }
}


/// `lines` with the blank or comment-only lines of `ins` inserted one after another, each
/// at the position it names in the text as it stands by then.
pub open spec fn with_blank_lines(lines: Seq<Seq<char>>, ins: Seq<(int, Seq<char>)>) -> Seq<
    Seq<char>,
>
    decreases ins.len(),
{
    if ins.len() == 0 {
        lines
    } else {
        with_blank_lines(lines, ins.drop_last()).insert(ins.last().0, ins.last().1)
    }
}

/// Each inserted line has no words, and each position lies within the text it goes into.
pub open spec fn blank_insertions(lines: Seq<Seq<char>>, ins: Seq<(int, Seq<char>)>) -> bool
    decreases ins.len(),
{
    if ins.len() == 0 {
        true
    } else {
        &&& blank_insertions(lines, ins.drop_last())
        &&& 0 <= ins.last().0 <= with_blank_lines(lines, ins.drop_last()).len()
        &&& line_words(ins.last().1).len() == 0
    }
}

/// Inserting any number of blank or comment-only lines anywhere leaves the assembled
/// program and every label's index as they were, and an error stays an error of the same
/// kind.
pub proof fn lemma_blank_lines_change_nothing(lines: Seq<Seq<char>>, ins: Seq<(int, Seq<char>)>)
    requires
        blank_insertions(lines, ins),
    ensures
        ({
            let l2 = with_blank_lines(lines, ins);
            &&& assembled(l2) is Ok <==> assembled(lines) is Ok
            &&& assembled(lines) matches Ok(v) ==> assembled(l2) == Ok::<
                Seq<Instruction>,
                (ParseErrorKind, int),
            >(v)
            &&& assembled(lines) matches Err((kind, _)) ==> assembled(l2) matches Err((k2, _))
                && k2 == kind
            &&& labels_before(l2, l2.len() as int) == labels_before(lines, lines.len() as int)
        }),
    decreases ins.len(),
{
    if ins.len() > 0 {
        let prev = with_blank_lines(lines, ins.drop_last());
        lemma_blank_lines_change_nothing(lines, ins.drop_last());
        lemma_blank_line_changes_nothing(prev, ins.last().0, ins.last().1);
    }
}

} // verus!
