use vstd::prelude::*;

use crate::instructions::{
    is_resolved, label_of, retarget, symbolic_name, with_label, Destination, Instruction, Label,
    Source,
};
use crate::instructions::{lemma_with_label_twice, with_symbolic};
use crate::text::{
    all_digits, chars_of, code_len, code_of, is_digit, parse_signed, parse_signed_at,
    parse_unsigned, parse_unsigned_at, word_spans, words,
};

verus! {

/// Why a program could not be assembled.
#[derive(Debug, Clone, Copy, PartialEq, Eq, Structural)]
pub enum ParseErrorKind {
    /// An operand token is empty.
    EmptyOperand,
    /// The line has fewer operands than its instruction takes.
    MissingOperand,
    /// The first word of the line is no known mnemonic.
    UnknownInstruction,
    /// A literal or a register index is not a decimal number of the right range.
    MalformedNumber,
    /// A jump or call target starts with `&`.
    LabelStartsWithAmpersand,
    /// A jump or call target ends with `:`.
    LabelEndsWithColon,
    /// A jump or call target is a number.
    LabelIsNumber,
    /// A jump or call target is a quoted literal.
    LabelIsValue,
    /// A system call names a later argument while leaving an earlier one out.
    SyscallArgumentGap,
    /// A jump or call target is defined nowhere in the program.
    UnresolvedLabel,
    /// The source could not be read.
    ReadFailure,
}

/// Where in the source an assembly error was found.
#[derive(Debug, PartialEq, Eq)]
pub struct ParseErrorLineDetails {
    /// Zero-based line index.
    pub line: usize,
    /// The raw text of the line, when it could be read.
    pub contents: Option<String>,
}

#[derive(Debug, PartialEq, Eq)]
pub struct ParseError {
    pub kind: ParseErrorKind,
    pub line: Option<ParseErrorLineDetails>,
}

impl ParseError {
    pub fn new(kind: ParseErrorKind, line: Option<ParseErrorLineDetails>) -> (r: ParseError)
        ensures
            r.kind == kind,
            r.line == line,
    {
        ParseError { kind, line }
    }
}

/// The operation a line names.
#[derive(Debug, Clone, Copy, PartialEq, Eq, Structural)]
pub enum Mnemonic {
    Ret,
    Store,
    In,
    Out,
    Add,
    Sub,
    Mul,
    Div,
    Mod,
    Jmp,
    Jgt,
    Jeq,
    Jlt,
    Mov,
    Call,
    Time,
    Term,
    Sys,
}

/// `c` upper-cases to the ASCII capital `w`: `w` itself, its lower-case letter, or one of
/// the two other letters whose upper case is an ASCII capital: dotless `ı` (to `I`) and
/// long `ſ` (to `S`). Letters that upper-case to several capitals (`ß`, the `ﬀ`-style
/// ligatures) give pairs that no mnemonic contains.
pub open spec fn same_letter(c: char, w: char) -> bool {
    ||| c == w
    ||| (65 <= w as u32 <= 90 && c as u32 == w as u32 + 32)
    ||| (w == 'I' && c as u32 == 0x131)
    ||| (w == 'S' && c as u32 == 0x17F)
}

/// `t` spells `w` (given in upper case) once upper-cased letter by letter.
pub open spec fn is_word(t: Seq<char>, w: Seq<char>) -> bool {
    &&& t.len() == w.len()
    &&& forall|i: int| 0 <= i < t.len() ==> same_letter(#[trigger] t[i], w[i])
}

pub open spec fn mnemonic_of(t: Seq<char>) -> Option<Mnemonic> {
    if is_word(t, "RET"@) {
        Some(Mnemonic::Ret)
    } else if is_word(t, "SET"@) {
        Some(Mnemonic::Store)
    } else if is_word(t, "IN"@) {
        Some(Mnemonic::In)
    } else if is_word(t, "OUT"@) {
        Some(Mnemonic::Out)
    } else if is_word(t, "ADD"@) {
        Some(Mnemonic::Add)
    } else if is_word(t, "SUB"@) {
        Some(Mnemonic::Sub)
    } else if is_word(t, "MUL"@) {
        Some(Mnemonic::Mul)
    } else if is_word(t, "DIV"@) {
        Some(Mnemonic::Div)
    } else if is_word(t, "MOD"@) {
        Some(Mnemonic::Mod)
    } else if is_word(t, "JMP"@) {
        Some(Mnemonic::Jmp)
    } else if is_word(t, "JGT"@) {
        Some(Mnemonic::Jgt)
    } else if is_word(t, "JEQ"@) {
        Some(Mnemonic::Jeq)
    } else if is_word(t, "JLT"@) {
        Some(Mnemonic::Jlt)
    } else if is_word(t, "MOV"@) {
        Some(Mnemonic::Mov)
    } else if is_word(t, "CALL"@) {
        Some(Mnemonic::Call)
    } else if is_word(t, "TIME"@) {
        Some(Mnemonic::Time)
    } else if is_word(t, "TERM"@) {
        Some(Mnemonic::Term)
    } else if is_word(t, "SYS"@) {
        Some(Mnemonic::Sys)
    } else {
        None
    }
}

/// Number of operands that must follow the mnemonic.
pub open spec fn arity(m: Mnemonic) -> nat {
    match m {
        Mnemonic::Ret | Mnemonic::Term => 0,
        Mnemonic::In | Mnemonic::Out | Mnemonic::Jmp | Mnemonic::Call | Mnemonic::Time => 1,
        Mnemonic::Store | Mnemonic::Mov | Mnemonic::Sys => 2,
        _ => 3,
    }
}

/// Position, among the line's words, of the jump or call target.
pub open spec fn label_position(m: Mnemonic) -> Option<int> {
    match m {
        Mnemonic::Jmp | Mnemonic::Call => Some(1),
        Mnemonic::Jgt | Mnemonic::Jeq | Mnemonic::Jlt => Some(3),
        _ => None,
    }
}

pub open spec fn is_quoted(t: Seq<char>) -> bool {
    t.len() >= 2 && t[0] == '\'' && t.last() == '\''
}

pub open spec fn register_index(t: Seq<char>) -> Result<usize, ParseErrorKind> {
    match parse_unsigned(t, usize::MAX as int) {
        Some(v) => Ok(v as usize),
        None => Err(ParseErrorKind::MalformedNumber),
    }
}

/// A read operand: `'N'` is an immediate, `&N` an indirect register, `N` a register.
pub open spec fn spec_source(t: Seq<char>) -> Result<Source, ParseErrorKind> {
    if t.len() == 0 {
        Err(ParseErrorKind::EmptyOperand)
    } else if is_quoted(t) {
        match parse_signed(t.subrange(1, t.len() - 1), i64::MIN as int, i64::MAX as int) {
            Some(v) => Ok(Source::Data(v as i64)),
            None => Err(ParseErrorKind::MalformedNumber),
        }
    } else if t[0] == '&' {
        match register_index(t.drop_first()) {
            Ok(i) => Ok(Source::Reference(i)),
            Err(e) => Err(e),
        }
    } else {
        match register_index(t) {
            Ok(i) => Ok(Source::Address(i)),
            Err(e) => Err(e),
        }
    }
}

/// A written operand: `&N` an indirect register, `N` a register.
pub open spec fn spec_destination(t: Seq<char>) -> Result<Destination, ParseErrorKind> {
    if t.len() == 0 {
        Err(ParseErrorKind::EmptyOperand)
    } else if t[0] == '&' {
        match register_index(t.drop_first()) {
            Ok(i) => Ok(Destination::Reference(i)),
            Err(e) => Err(e),
        }
    } else {
        match register_index(t) {
            Ok(i) => Ok(Destination::Address(i)),
            Err(e) => Err(e),
        }
    }
}

/// A trailing system-call operand: absent, or `_`, stands for no argument.
pub open spec fn spec_optional_source(t: Option<Seq<char>>) -> Result<
    Option<Source>,
    ParseErrorKind,
> {
    match t {
        None => Ok(None),
        Some(t) => if t == seq!['_'] {
            Ok(None)
        } else {
            match spec_source(t) {
                Ok(s) => Ok(Some(s)),
                Err(e) => Err(e),
            }
        },
    }
}

/// `t` is a decimal integer of any size: an optional `+` or `-`, then one or more digits.
pub open spec fn is_integer(t: Seq<char>) -> bool {
    if t.len() > 0 && (t[0] == '+' || t[0] == '-') {
        all_digits(t.drop_first())
    } else {
        all_digits(t)
    }
}

/// What makes `t` unfit to name a jump or call target, if anything.
pub open spec fn label_problem(t: Seq<char>) -> Option<ParseErrorKind> {
    if t.len() == 0 {
        Some(ParseErrorKind::EmptyOperand)
    } else if t[0] == '&' {
        Some(ParseErrorKind::LabelStartsWithAmpersand)
    } else if t.last() == ':' {
        Some(ParseErrorKind::LabelEndsWithColon)
    } else if is_integer(t) {
        Some(ParseErrorKind::LabelIsNumber)
    } else if t[0] == '\'' && t.last() == '\'' {
        Some(ParseErrorKind::LabelIsValue)
    } else {
        None
    }
}

pub open spec fn word_at(ws: Seq<Seq<char>>, k: int) -> Option<Seq<char>> {
    if 0 <= k < ws.len() {
        Some(ws[k])
    } else {
        None
    }
}

/// The trailing system-call arguments at word positions `3 .. k`, parsed left to right.
pub open spec fn syscall_args(ws: Seq<Seq<char>>, k: int) -> Result<
    Seq<Option<Source>>,
    ParseErrorKind,
>
    decreases k - 3,
{
    if k <= 3 {
        Ok(seq![])
    } else {
        match syscall_args(ws, k - 1) {
            Err(e) => Err(e),
            Ok(v) => match spec_optional_source(word_at(ws, k - 1)) {
                Err(e) => Err(e),
                Ok(a) => Ok(v.push(a)),
            },
        }
    }
}

/// Some argument is given after one that was left out.
pub open spec fn has_gap(a: Seq<Option<Source>>) -> bool {
    exists|i: int, j: int| #![trigger a[i], a[j]] 0 <= i < j < a.len() && a[i] is None && a[j] is Some
}

pub open spec fn arithmetic(m: Mnemonic, a: Source, b: Source, d: Destination) -> Instruction {
    match m {
        Mnemonic::Add => Instruction::Add(a, b, d),
        Mnemonic::Sub => Instruction::Subtract(a, b, d),
        Mnemonic::Mul => Instruction::Multiply(a, b, d),
        Mnemonic::Div => Instruction::Divide(a, b, d),
        _ => Instruction::Modulo(a, b, d),
    }
}

pub open spec fn comparison(m: Mnemonic, a: Source, b: Source, l: Label) -> Instruction {
    match m {
        Mnemonic::Jgt => Instruction::JumpGreaterThan(a, b, l),
        Mnemonic::Jeq => Instruction::JumpEqual(a, b, l),
        _ => Instruction::JumpLessThan(a, b, l),
    }
}

/// The placeholder target that an instruction carries until its label is looked up.
pub open spec fn unset_label() -> Label {
    Label::Resolved(0)
}

/// The instruction that the operand words `ws` give for `m`, with an unset target.
pub open spec fn spec_operands(m: Mnemonic, ws: Seq<Seq<char>>) -> Result<
    Instruction,
    ParseErrorKind,
> {
    match m {
        Mnemonic::Ret => Ok(Instruction::Return),
        Mnemonic::Term => Ok(Instruction::Terminate),
        Mnemonic::Store | Mnemonic::Mov => match spec_source(ws[1]) {
            Err(e) => Err(e),
            Ok(a) => match spec_destination(ws[2]) {
                Err(e) => Err(e),
                Ok(d) => Ok(
                    if m == Mnemonic::Store {
                        Instruction::SetRegister(a, d)
                    } else {
                        Instruction::Move(a, d)
                    },
                ),
            },
        },
        Mnemonic::In | Mnemonic::Time => match spec_destination(ws[1]) {
            Err(e) => Err(e),
            Ok(d) => Ok(
                if m == Mnemonic::In {
                    Instruction::Input(d)
                } else {
                    Instruction::Time(d)
                },
            ),
        },
        Mnemonic::Out => match spec_source(ws[1]) {
            Err(e) => Err(e),
            Ok(a) => Ok(Instruction::Output(a)),
        },
        Mnemonic::Jmp | Mnemonic::Call => match label_problem(ws[1]) {
            Some(e) => Err(e),
            None => Ok(
                if m == Mnemonic::Jmp {
                    Instruction::Jump(unset_label())
                } else {
                    Instruction::Call(unset_label())
                },
            ),
        },
        Mnemonic::Jgt | Mnemonic::Jeq | Mnemonic::Jlt => match spec_source(ws[1]) {
            Err(e) => Err(e),
            Ok(a) => match spec_source(ws[2]) {
                Err(e) => Err(e),
                Ok(b) => match label_problem(ws[3]) {
                    Some(e) => Err(e),
                    None => Ok(comparison(m, a, b, unset_label())),
                },
            },
        },
        Mnemonic::Sys => match spec_destination(ws[1]) {
            Err(e) => Err(e),
            Ok(d) => match spec_source(ws[2]) {
                Err(e) => Err(e),
                Ok(n) => match syscall_args(ws, 9) {
                    Err(e) => Err(e),
                    Ok(a) => if has_gap(a) {
                        Err(ParseErrorKind::SyscallArgumentGap)
                    } else {
                        Ok(Instruction::Syscall(d, n, a[0], a[1], a[2], a[3], a[4], a[5]))
                    },
                },
            },
        },
        _ => match spec_source(ws[1]) {
            Err(e) => Err(e),
            Ok(a) => match spec_source(ws[2]) {
                Err(e) => Err(e),
                Ok(b) => match spec_destination(ws[3]) {
                    Err(e) => Err(e),
                    Ok(d) => Ok(arithmetic(m, a, b, d)),
                },
            },
        },
    }
}

/// The instruction on a line whose words are `ws`, with an unset target. A line without
/// words names no instruction.
#[verifier::opaque]
pub open spec fn spec_instruction(ws: Seq<Seq<char>>) -> Result<Instruction, ParseErrorKind> {
    if ws.len() == 0 {
        Err(ParseErrorKind::UnknownInstruction)
    } else {
        match mnemonic_of(ws[0]) {
            None => Err(ParseErrorKind::UnknownInstruction),
            Some(m) => if ws.len() < 1 + arity(m) {
                Err(ParseErrorKind::MissingOperand)
            } else {
                spec_operands(m, ws)
            },
        }
    }
}

/// The name of the jump or call target on a line whose words are `ws`.
pub open spec fn target_name(ws: Seq<Seq<char>>) -> Option<Seq<char>> {
    match mnemonic_of(ws[0]) {
        Some(m) => match label_position(m) {
            Some(p) => word_at(ws, p),
            None => None,
        },
        None => None,
    }
}

/// The words of a line, comment removed.
pub open spec fn line_words(l: Seq<char>) -> Seq<Seq<char>> {
    words(code_of(l))
}

/// Index of the first `:` in `t` at or after `i`, or `t.len()`.
pub open spec fn colon_from(t: Seq<char>, i: int) -> int
    decreases t.len() - i,
{
    if i >= t.len() {
        t.len() as int
    } else if t[i] == ':' {
        i
    } else {
        colon_from(t, i + 1)
    }
}

/// The words are one word `name:`, with `name` not empty and holding no `:`.
pub open spec fn is_label_words(ws: Seq<Seq<char>>) -> bool {
    &&& ws.len() == 1
    &&& ws[0].len() >= 2
    &&& colon_from(ws[0], 0) == ws[0].len() - 1
}

/// The line, comment removed and trimmed, is `name:`: it defines the label `name`.
pub open spec fn is_label_line(l: Seq<char>) -> bool {
    is_label_words(line_words(l))
}

/// The label that a label line defines: its one word without the closing `:`.
pub open spec fn defined_label(l: Seq<char>) -> Seq<char> {
    line_words(l)[0].drop_last()
}

/// The line holds an instruction.
pub open spec fn is_code_line(l: Seq<char>) -> bool {
    line_words(l).len() > 0 && !is_label_line(l)
}

/// Number of instruction lines among the first `k` lines.
pub open spec fn code_lines_before(lines: Seq<Seq<char>>, k: int) -> nat
    decreases k,
{
    if k <= 0 {
        0
    } else if is_code_line(lines[k - 1]) {
        code_lines_before(lines, k - 1) + 1
    } else {
        code_lines_before(lines, k - 1)
    }
}

/// The label table after the first `k` lines: each label maps to the index of the
/// instruction that follows its latest definition.
pub open spec fn labels_before(lines: Seq<Seq<char>>, k: int) -> Map<Seq<char>, nat>
    decreases k,
{
    if k <= 0 {
        Map::empty()
    } else if is_label_line(lines[k - 1]) {
        labels_before(lines, k - 1).insert(
            defined_label(lines[k - 1]),
            code_lines_before(lines, k - 1),
        )
    } else {
        labels_before(lines, k - 1)
    }
}

/// Where a target named on line `k` leads: to the label's latest definition above the
/// line, else to its last definition in the program.
pub open spec fn target_of(lines: Seq<Seq<char>>, k: int, name: Seq<char>) -> Option<nat> {
    if labels_before(lines, k).contains_key(name) {
        Some(labels_before(lines, k)[name])
    } else if labels_before(lines, lines.len() as int).contains_key(name) {
        Some(labels_before(lines, lines.len() as int)[name])
    } else {
        None
    }
}

/// One emitted instruction: the instruction, its line, and whether its target is undefined.
pub type Emitted = (Instruction, int, bool);

/// The instruction of code line `k`, targets resolved, and whether a target is undefined.
pub open spec fn emitted(lines: Seq<Seq<char>>, k: int, i: Instruction) -> Emitted {
    match target_name(line_words(lines[k])) {
        None => (i, k, false),
        Some(name) => match target_of(lines, k, name) {
            Some(t) => (with_label(i, Label::Resolved(t as usize)), k, false),
            None => (i, k, true),
        },
    }
}

/// The first pass over the first `k` lines: the instructions emitted, or the first error
/// with its line.
pub open spec fn first_pass(lines: Seq<Seq<char>>, k: int) -> Result<
    Seq<Emitted>,
    (ParseErrorKind, int),
>
    decreases k,
{
    if k <= 0 {
        Ok(seq![])
    } else {
        match first_pass(lines, k - 1) {
            Err(e) => Err(e),
            Ok(v) => if !is_code_line(lines[k - 1]) {
                Ok(v)
            } else {
                match spec_instruction(line_words(lines[k - 1])) {
                    Err(kind) => Err((kind, k - 1)),
                    Ok(i) => Ok(v.push(emitted(lines, k - 1, i))),
                }
            },
        }
    }
}

/// Index of the first emitted instruction at or after `m` whose target is undefined.
pub open spec fn first_undefined(v: Seq<Emitted>, m: int) -> Option<int>
    decreases v.len() - m,
{
    if m >= v.len() || m < 0 {
        None
    } else if v[m].2 {
        Some(m)
    } else {
        first_undefined(v, m + 1)
    }
}

/// The assembled program, or the first error with its zero-based line.
pub open spec fn assembled(lines: Seq<Seq<char>>) -> Result<
    Seq<Instruction>,
    (ParseErrorKind, int),
> {
    match first_pass(lines, lines.len() as int) {
        Err(e) => Err(e),
        Ok(v) => match first_undefined(v, 0) {
            Some(m) => Err((ParseErrorKind::UnresolvedLabel, v[m].1)),
            None => Ok(v.map_values(|e: Emitted| e.0)),
        },
    }
}

pub open spec fn line_views(lines: Seq<String>) -> Seq<Seq<char>> {
    lines.map_values(|s: String| s@)
}


/// The words that `spans` picks out of `l`.
pub open spec fn span_words(l: Seq<char>, spans: Seq<(usize, usize)>) -> Seq<Seq<char>> {
    Seq::new(spans.len(), |k: int| l.subrange(spans[k].0 as int, spans[k].1 as int))
}

pub open spec fn spans_fit(l: Seq<char>, spans: Seq<(usize, usize)>) -> bool {
    forall|k: int| #![trigger spans[k]] 0 <= k < spans.len() ==> spans[k].0 <= spans[k].1 <= l.len()
}

/// `l[from..to]` spells `w` in either case.
fn word_is(l: &Vec<char>, from: usize, to: usize, w: &str) -> (r: bool)
    requires
        from <= to <= l.len(),
    ensures
        r == is_word(l@.subrange(from as int, to as int), w@),
{
    let ghost t = l@.subrange(from as int, to as int);
    let n = w.unicode_len();
    if to - from != n {
        return false;
    }
    let mut i: usize = 0;
    while i < n
        invariant
            n == w@.len() == to - from,
            from <= to <= l.len(),
            t == l@.subrange(from as int, to as int),
            i <= n,
            forall|k: int| 0 <= k < i ==> same_letter(#[trigger] t[k], w@[k]),
        decreases n - i,
    {
        let c = l[from + i];
        let u = c as u32;
        let x = w.get_char(i);
        let v = x as u32;
        if !(c == x || (65 <= v && v <= 90 && u == v + 32) || (x == 'I' && u == 0x131) || (x
            == 'S' && u == 0x17F)) {
            assert(!same_letter(t[i as int], w@[i as int]));
            return false;
        }
        i = i + 1;
    }
    true
}

fn mnemonic_at(l: &Vec<char>, from: usize, to: usize) -> (r: Option<Mnemonic>)
    requires
        from <= to <= l.len(),
    ensures
        r == mnemonic_of(l@.subrange(from as int, to as int)),
{
    if word_is(l, from, to, "RET") {
        Some(Mnemonic::Ret)
    } else if word_is(l, from, to, "SET") {
        Some(Mnemonic::Store)
    } else if word_is(l, from, to, "IN") {
        Some(Mnemonic::In)
    } else if word_is(l, from, to, "OUT") {
        Some(Mnemonic::Out)
    } else if word_is(l, from, to, "ADD") {
        Some(Mnemonic::Add)
    } else if word_is(l, from, to, "SUB") {
        Some(Mnemonic::Sub)
    } else if word_is(l, from, to, "MUL") {
        Some(Mnemonic::Mul)
    } else if word_is(l, from, to, "DIV") {
        Some(Mnemonic::Div)
    } else if word_is(l, from, to, "MOD") {
        Some(Mnemonic::Mod)
    } else if word_is(l, from, to, "JMP") {
        Some(Mnemonic::Jmp)
    } else if word_is(l, from, to, "JGT") {
        Some(Mnemonic::Jgt)
    } else if word_is(l, from, to, "JEQ") {
        Some(Mnemonic::Jeq)
    } else if word_is(l, from, to, "JLT") {
        Some(Mnemonic::Jlt)
    } else if word_is(l, from, to, "MOV") {
        Some(Mnemonic::Mov)
    } else if word_is(l, from, to, "CALL") {
        Some(Mnemonic::Call)
    } else if word_is(l, from, to, "TIME") {
        Some(Mnemonic::Time)
    } else if word_is(l, from, to, "TERM") {
        Some(Mnemonic::Term)
    } else if word_is(l, from, to, "SYS") {
        Some(Mnemonic::Sys)
    } else {
        None
    }
}

fn register_at(l: &Vec<char>, from: usize, to: usize) -> (r: Result<usize, ParseErrorKind>)
    requires
        from <= to <= l.len(),
    ensures
        r == register_index(l@.subrange(from as int, to as int)),
{
    match parse_unsigned_at(l, from, to, usize::MAX as u64) {
        Some(v) => Ok(v as usize),
        None => Err(ParseErrorKind::MalformedNumber),
    }
}

fn source_at(l: &Vec<char>, from: usize, to: usize) -> (r: Result<Source, ParseErrorKind>)
    requires
        from <= to <= l.len(),
    ensures
        r == spec_source(l@.subrange(from as int, to as int)),
{
    let ghost t = l@.subrange(from as int, to as int);
    if from == to {
        return Err(ParseErrorKind::EmptyOperand);
    }
    if to - from >= 2 && l[from] == '\'' && l[to - 1] == '\'' {
        assert(t.subrange(1, t.len() - 1) =~= l@.subrange(from + 1, to - 1));
        let r = parse_signed_at(l, from + 1, to - 1, 0x8000_0000_0000_0000u64, 0x7fff_ffff_ffff_ffffu64);
        match r {
            Some((neg, m)) => {
                let v: i64 = if neg {
                    if m == 0x8000_0000_0000_0000u64 {
                        i64::MIN
                    } else {
                        -(m as i64)
                    }
                } else {
                    m as i64
                };
                Ok(Source::Data(v))
            },
            None => Err(ParseErrorKind::MalformedNumber),
        }
    } else if l[from] == '&' {
        assert(t.drop_first() =~= l@.subrange(from + 1, to as int));
        match register_at(l, from + 1, to) {
            Ok(i) => Ok(Source::Reference(i)),
            Err(e) => Err(e),
        }
    } else {
        match register_at(l, from, to) {
            Ok(i) => Ok(Source::Address(i)),
            Err(e) => Err(e),
        }
    }
}

fn destination_at(l: &Vec<char>, from: usize, to: usize) -> (r: Result<Destination, ParseErrorKind>)
    requires
        from <= to <= l.len(),
    ensures
        r == spec_destination(l@.subrange(from as int, to as int)),
{
    let ghost t = l@.subrange(from as int, to as int);
    if from == to {
        return Err(ParseErrorKind::EmptyOperand);
    }
    if l[from] == '&' {
        assert(t.drop_first() =~= l@.subrange(from + 1, to as int));
        match register_at(l, from + 1, to) {
            Ok(i) => Ok(Destination::Reference(i)),
            Err(e) => Err(e),
        }
    } else {
        match register_at(l, from, to) {
            Ok(i) => Ok(Destination::Address(i)),
            Err(e) => Err(e),
        }
    }
}

fn is_integer_at(l: &Vec<char>, from: usize, to: usize) -> (r: bool)
    requires
        from <= to <= l.len(),
    ensures
        r == is_integer(l@.subrange(from as int, to as int)),
{
    let ghost t = l@.subrange(from as int, to as int);
    let start = if from < to && (l[from] == '+' || l[from] == '-') {
        assert(t.drop_first() =~= l@.subrange(from + 1, to as int));
        from + 1
    } else {
        from
    };
    assert(is_integer(t) == all_digits(l@.subrange(start as int, to as int)));
    if start == to {
        return false;
    }
    let mut i: usize = start;
    while i < to
        invariant
            from <= start <= i <= to <= l.len(),
            t == l@.subrange(from as int, to as int),
            is_integer(t) == all_digits(l@.subrange(start as int, to as int)),
            forall|k: int| start <= k < i ==> is_digit(#[trigger] l@[k]),
        decreases to - i,
    {
        let u = l[i] as u32;
        if u < 48 || u > 57 {
            assert(!all_digits(l@.subrange(start as int, to as int))) by {
                assert(l@.subrange(start as int, to as int)[i - start] == l@[i as int]);
            }
            return false;
        }
        i = i + 1;
    }
    assert(all_digits(l@.subrange(start as int, to as int))) by {
        assert forall|k: int| 0 <= k < to - start implies is_digit(
            #[trigger] l@.subrange(start as int, to as int)[k],
        ) by {
            assert(l@.subrange(start as int, to as int)[k] == l@[start + k]);
        }
    }
    true
}

fn label_problem_at(l: &Vec<char>, from: usize, to: usize) -> (r: Option<ParseErrorKind>)
    requires
        from <= to <= l.len(),
    ensures
        r == label_problem(l@.subrange(from as int, to as int)),
{
    if from == to {
        Some(ParseErrorKind::EmptyOperand)
    } else if l[from] == '&' {
        Some(ParseErrorKind::LabelStartsWithAmpersand)
    } else if l[to - 1] == ':' {
        Some(ParseErrorKind::LabelEndsWithColon)
    } else if is_integer_at(l, from, to) {
        Some(ParseErrorKind::LabelIsNumber)
    } else if l[from] == '\'' && l[to - 1] == '\'' {
        Some(ParseErrorKind::LabelIsValue)
    } else {
        None
    }
}


fn source_word(l: &Vec<char>, spans: &Vec<(usize, usize)>, k: usize) -> (r: Result<
    Source,
    ParseErrorKind,
>)
    requires
        k < spans.len(),
        spans_fit(l@, spans@),
    ensures
        r == spec_source(span_words(l@, spans@)[k as int]),
{
    let (a, b) = spans[k];
    source_at(l, a, b)
}

fn destination_word(l: &Vec<char>, spans: &Vec<(usize, usize)>, k: usize) -> (r: Result<
    Destination,
    ParseErrorKind,
>)
    requires
        k < spans.len(),
        spans_fit(l@, spans@),
    ensures
        r == spec_destination(span_words(l@, spans@)[k as int]),
{
    let (a, b) = spans[k];
    destination_at(l, a, b)
}

fn label_problem_word(l: &Vec<char>, spans: &Vec<(usize, usize)>, k: usize) -> (r: Option<
    ParseErrorKind,
>)
    requires
        k < spans.len(),
        spans_fit(l@, spans@),
    ensures
        r == label_problem(span_words(l@, spans@)[k as int]),
{
    let (a, b) = spans[k];
    label_problem_at(l, a, b)
}

fn optional_source_word(l: &Vec<char>, spans: &Vec<(usize, usize)>, k: usize) -> (r: Result<
    Option<Source>,
    ParseErrorKind,
>)
    requires
        spans_fit(l@, spans@),
    ensures
        r == spec_optional_source(word_at(span_words(l@, spans@), k as int)),
{
    if k >= spans.len() {
        return Ok(None);
    }
    let (a, b) = spans[k];
    let ghost t = l@.subrange(a as int, b as int);
    assert(word_at(span_words(l@, spans@), k as int) == Some(t));
    if b - a == 1 && l[a] == '_' {
        assert(t =~= seq!['_']);
        return Ok(None);
    }
    assert(t != seq!['_']) by {
        if t == seq!['_'] {
            assert(t.len() == 1 && t[0] == '_');
        }
    }
    match source_at(l, a, b) {
        Ok(x) => Ok(Some(x)),
        Err(e) => Err(e),
    }
}

/// The six trailing operands of a system call; a missing word counts as absent.
fn syscall_args_words(l: &Vec<char>, spans: &Vec<(usize, usize)>) -> (r: Result<
    Vec<Option<Source>>,
    ParseErrorKind,
>)
    requires
        spans_fit(l@, spans@),
    ensures
        r matches Ok(v) ==> syscall_args(span_words(l@, spans@), 9) == Ok::<
            Seq<Option<Source>>,
            ParseErrorKind,
        >(v@),
        r matches Err(e) ==> syscall_args(span_words(l@, spans@), 9) == Err::<
            Seq<Option<Source>>,
            ParseErrorKind,
        >(e),
{
    let ghost ws = span_words(l@, spans@);
    let mut v: Vec<Option<Source>> = Vec::new();
    let mut k: usize = 3;
    while k < 9
        invariant
            3 <= k <= 9,
            ws == span_words(l@, spans@),
            spans_fit(l@, spans@),
            syscall_args(ws, k as int) == Ok::<Seq<Option<Source>>, ParseErrorKind>(v@),
        decreases 9 - k,
    {
        match optional_source_word(l, spans, k) {
            Ok(a) => {
                v.push(a);
            },
            Err(e) => {
                proof {
                    assert(syscall_args(ws, k + 1) == Err::<Seq<Option<Source>>, ParseErrorKind>(e));
                    lemma_syscall_args_err_stays(ws, k + 1, 9);
                }
                return Err(e);
            },
        }
        k = k + 1;
    }
    Ok(v)
}

fn has_gap_exec(a: &Vec<Option<Source>>) -> (r: bool)
    ensures
        r == has_gap(a@),
{
    let mut seen_none = false;
    let mut j: usize = 0;
    while j < a.len()
        invariant
            j <= a.len(),
            seen_none == exists|i: int| 0 <= i < j && #[trigger] a@[i] is None,
            !exists|i: int, k: int| #![trigger a@[i], a@[k]] 0 <= i < k < j && a@[i] is None
                && a@[k] is Some,
        decreases a.len() - j,
    {
        if a[j].is_some() {
            if seen_none {
                let ghost i = choose|i: int| 0 <= i < j && #[trigger] a@[i] is None;
                assert(a@[i] is None && a@[j as int] is Some);
                return true;
            }
        } else {
            seen_none = true;
            assert(a@[j as int] is None);
        }
        j = j + 1;
    }
    false
}

/// The instruction on a line whose words `spans` picks out, with an unset target.
fn parse_operands(l: &Vec<char>, spans: &Vec<(usize, usize)>) -> (r: Result<
    Instruction,
    ParseErrorKind,
>)
    requires
        spans_fit(l@, spans@),
    ensures
        r == spec_instruction(span_words(l@, spans@)),
{
    let ghost ws = span_words(l@, spans@);
    proof {
        reveal(spec_instruction);
    }
    if spans.len() == 0 {
        return Err(ParseErrorKind::UnknownInstruction);
    }
    let (a0, b0) = spans[0];
    let m = match mnemonic_at(l, a0, b0) {
        None => {
            return Err(ParseErrorKind::UnknownInstruction);
        },
        Some(m) => m,
    };
    let need: usize = match m {
        Mnemonic::Ret | Mnemonic::Term => 0,
        Mnemonic::In | Mnemonic::Out | Mnemonic::Jmp | Mnemonic::Call | Mnemonic::Time => 1,
        Mnemonic::Store | Mnemonic::Mov | Mnemonic::Sys => 2,
        _ => 3,
    };
    assert(need == arity(m));
    if spans.len() < 1 + need {
        return Err(ParseErrorKind::MissingOperand);
    }
    match m {
        Mnemonic::Ret => Ok(Instruction::Return),
        Mnemonic::Term => Ok(Instruction::Terminate),
        Mnemonic::Store | Mnemonic::Mov => match source_word(l, spans, 1) {
            Err(e) => Err(e),
            Ok(a) => match destination_word(l, spans, 2) {
                Err(e) => Err(e),
                Ok(d) => Ok(
                    if m == Mnemonic::Store {
                        Instruction::SetRegister(a, d)
                    } else {
                        Instruction::Move(a, d)
                    },
                ),
            },
        },
        Mnemonic::In | Mnemonic::Time => match destination_word(l, spans, 1) {
            Err(e) => Err(e),
            Ok(d) => Ok(
                if m == Mnemonic::In {
                    Instruction::Input(d)
                } else {
                    Instruction::Time(d)
                },
            ),
        },
        Mnemonic::Out => match source_word(l, spans, 1) {
            Err(e) => Err(e),
            Ok(a) => Ok(Instruction::Output(a)),
        },
        Mnemonic::Jmp | Mnemonic::Call => match label_problem_word(l, spans, 1) {
            Some(e) => Err(e),
            None => Ok(
                if m == Mnemonic::Jmp {
                    Instruction::Jump(Label::Resolved(0))
                } else {
                    Instruction::Call(Label::Resolved(0))
                },
            ),
        },
        Mnemonic::Jgt | Mnemonic::Jeq | Mnemonic::Jlt => match source_word(l, spans, 1) {
            Err(e) => Err(e),
            Ok(a) => match source_word(l, spans, 2) {
                Err(e) => Err(e),
                Ok(b) => match label_problem_word(l, spans, 3) {
                    Some(e) => Err(e),
                    None => Ok(
                        if m == Mnemonic::Jgt {
                            Instruction::JumpGreaterThan(a, b, Label::Resolved(0))
                        } else if m == Mnemonic::Jeq {
                            Instruction::JumpEqual(a, b, Label::Resolved(0))
                        } else {
                            Instruction::JumpLessThan(a, b, Label::Resolved(0))
                        },
                    ),
                },
            },
        },
        Mnemonic::Sys => match destination_word(l, spans, 1) {
            Err(e) => Err(e),
            Ok(d) => match source_word(l, spans, 2) {
                Err(e) => Err(e),
                Ok(n) => match syscall_args_words(l, spans) {
                    Err(e) => Err(e),
                    Ok(a) => {
                        proof {
                            lemma_syscall_args_len(ws, 9);
                        }
                        if has_gap_exec(&a) {
                            Err(ParseErrorKind::SyscallArgumentGap)
                        } else {
                            Ok(Instruction::Syscall(d, n, a[0], a[1], a[2], a[3], a[4], a[5]))
                        }
                    },
                },
            },
        },
        _ => match source_word(l, spans, 1) {
            Err(e) => Err(e),
            Ok(a) => match source_word(l, spans, 2) {
                Err(e) => Err(e),
                Ok(b) => match destination_word(l, spans, 3) {
                    Err(e) => Err(e),
                    Ok(d) => Ok(
                        if m == Mnemonic::Add {
                            Instruction::Add(a, b, d)
                        } else if m == Mnemonic::Sub {
                            Instruction::Subtract(a, b, d)
                        } else if m == Mnemonic::Mul {
                            Instruction::Multiply(a, b, d)
                        } else if m == Mnemonic::Div {
                            Instruction::Divide(a, b, d)
                        } else {
                            Instruction::Modulo(a, b, d)
                        },
                    ),
                },
            },
        },
    }
}

proof fn lemma_syscall_args_err_stays(ws: Seq<Seq<char>>, k: int, k2: int)
    requires
        3 <= k <= k2,
        syscall_args(ws, k) is Err,
    ensures
        syscall_args(ws, k2) == syscall_args(ws, k),
    decreases k2 - k,
{
    if k2 > k {
        lemma_syscall_args_err_stays(ws, k, k2 - 1);
    }
}

proof fn lemma_syscall_args_len(ws: Seq<Seq<char>>, k: int)
    ensures
        syscall_args(ws, k) matches Ok(v) ==> v.len() == if k <= 3 {
            0
        } else {
            k - 3
        },
    decreases k - 3,
{
    if k > 3 {
        lemma_syscall_args_len(ws, k - 1);
    }
}


/// `a` holds exactly the characters of `l[from..to]`.
fn eq_span(a: &Vec<char>, l: &Vec<char>, from: usize, to: usize) -> (r: bool)
    requires
        from <= to <= l.len(),
    ensures
        r == (a@ == l@.subrange(from as int, to as int)),
{
    if a.len() != to - from {
        return false;
    }
    let mut i: usize = 0;
    while i < a.len()
        invariant
            a.len() == to - from,
            from <= to <= l.len(),
            i <= a.len(),
            forall|k: int| 0 <= k < i ==> a@[k] == #[trigger] l@[from + k],
        decreases a.len() - i,
    {
        if a[i] != l[from + i] {
            assert(a@[i as int] != l@.subrange(from as int, to as int)[i as int]);
            return false;
        }
        i = i + 1;
    }
    assert forall|k: int| 0 <= k < a.len() implies a@[k] == l@.subrange(
        from as int,
        to as int,
    )[k] by {
        assert(a@[k] == l@[from + k]);
    }
    assert(a@ =~= l@.subrange(from as int, to as int));
    true
}

fn copy_span(l: &Vec<char>, from: usize, to: usize) -> (r: Vec<char>)
    requires
        from <= to <= l.len(),
    ensures
        r@ == l@.subrange(from as int, to as int),
{
    let mut r: Vec<char> = Vec::new();
    let mut i: usize = from;
    while i < to
        invariant
            from <= i <= to <= l.len(),
            r@ == l@.subrange(from as int, i as int),
        decreases to - i,
    {
        r.push(l[i]);
        assert(r@ =~= l@.subrange(from as int, i + 1));
        i = i + 1;
    }
    r
}

/// Position of the first `:` in `l[from..to]`, or `to`.
fn colon_in(l: &Vec<char>, from: usize, to: usize) -> (r: usize)
    requires
        from <= to <= l.len(),
    ensures
        r == from + colon_from(l@.subrange(from as int, to as int), 0),
        from <= r <= to,
{
    let ghost t = l@.subrange(from as int, to as int);
    let mut i: usize = from;
    while i < to
        invariant
            from <= i <= to <= l.len(),
            t == l@.subrange(from as int, to as int),
            colon_from(t, 0) == colon_from(t, i - from),
        decreases to - i,
    {
        if l[i] == ':' {
            return i;
        }
        i = i + 1;
    }
    i
}

/// Where in `l` the name of a label line stands, if the words `spans` picks out make one.
fn label_name_span(l: &Vec<char>, spans: &Vec<(usize, usize)>) -> (r: Option<(usize, usize)>)
    requires
        spans_fit(l@, spans@),
    ensures
        r is Some <==> is_label_words(span_words(l@, spans@)),
        r matches Some((a, c)) ==> a <= c <= l.len() && l@.subrange(a as int, c as int) == span_words(
            l@,
            spans@,
        )[0].drop_last(),
{
    if spans.len() != 1 {
        return None;
    }
    let (a0, b0) = spans[0];
    if b0 - a0 < 2 {
        return None;
    }
    let c = colon_in(l, a0, b0);
    if c == b0 - 1 {
        assert(l@.subrange(a0 as int, b0 - 1) =~= l@.subrange(a0 as int, b0 as int).drop_last());
        Some((a0, c))
    } else {
        None
    }
}

/// Word position of the jump or call target of a line that assembled.
fn target_position(l: &Vec<char>, spans: &Vec<(usize, usize)>) -> (r: Option<usize>)
    requires
        spans.len() >= 1,
        spans_fit(l@, spans@),
    ensures
        r matches Some(p) ==> p < spans.len() && target_name(span_words(l@, spans@)) == Some(
            span_words(l@, spans@)[p as int],
        ),
        r is None ==> target_name(span_words(l@, spans@)) is None,
{
    let (a0, b0) = spans[0];
    let p: usize = match mnemonic_at(l, a0, b0) {
        Some(Mnemonic::Jmp) | Some(Mnemonic::Call) => 1,
        Some(Mnemonic::Jgt) | Some(Mnemonic::Jeq) | Some(Mnemonic::Jlt) => 3,
        _ => {
            return None;
        },
    };
    if p < spans.len() {
        Some(p)
    } else {
        None
    }
}

/// The characters of the instruction's symbolic target, if it has one.
fn symbolic_chars(i: &Instruction) -> (r: Option<Vec<char>>)
    ensures
        r matches Some(c) ==> symbolic_name(*i) == Some(c@),
        r is None ==> symbolic_name(*i) is None,
{
    match i {
        Instruction::Jump(Label::Symbolic(s)) => Some(chars_of(s.as_str())),
        Instruction::JumpGreaterThan(_, _, Label::Symbolic(s)) => Some(chars_of(s.as_str())),
        Instruction::JumpEqual(_, _, Label::Symbolic(s)) => Some(chars_of(s.as_str())),
        Instruction::JumpLessThan(_, _, Label::Symbolic(s)) => Some(chars_of(s.as_str())),
        Instruction::Call(Label::Symbolic(s)) => Some(chars_of(s.as_str())),
        _ => None,
    }
}

/// `e` reports the assembly error `err` (a kind and a line) with the line's text.
pub open spec fn error_matches(e: ParseError, err: (ParseErrorKind, int), lines: Seq<String>) -> bool {
    &&& e.kind == err.0
    &&& e.line matches Some(d)
    &&& d.line == err.1
    &&& d.contents matches Some(c)
    &&& 0 <= err.1 < lines.len()
    &&& c@ == lines[err.1]@
}

/// `i` is `i0` given the target `name` (if any) against `table`: the index the table holds
/// for it, or, for a name not yet defined, the name itself.
pub open spec fn with_target(
    i: Instruction,
    i0: Instruction,
    name: Option<Seq<char>>,
    table: Map<Seq<char>, nat>,
) -> bool {
    match name {
        None => i == i0,
        Some(n) => if table.contains_key(n) {
            i == with_label(i0, Label::Resolved(table[n] as usize))
        } else {
            &&& symbolic_name(i) == Some(n)
            &&& with_label(i, unset_label()) == i0
        },
    }
}

/// The instruction names a target that `table` does not define.
pub open spec fn unknown_target(i: Instruction, table: Map<Seq<char>, nat>) -> bool {
    symbolic_name(i) matches Some(n) && !table.contains_key(n)
}

/// `i` with a symbolic target that `table` defines replaced by the table's index.
pub open spec fn resolved_in(i: Instruction, table: Map<Seq<char>, nat>) -> Instruction {
    match symbolic_name(i) {
        Some(n) => if table.contains_key(n) {
            with_label(i, Label::Resolved(table[n] as usize))
        } else {
            i
        },
        None => i,
    }
}

/// Index of the first instruction at or after `m` whose target `table` does not define.
pub open spec fn first_unknown(insts: Seq<Instruction>, table: Map<Seq<char>, nat>, m: int) -> Option<
    int,
>
    decreases insts.len() - m,
{
    if m < 0 || m >= insts.len() {
        None
    } else if unknown_target(insts[m], table) {
        Some(m)
    } else {
        first_unknown(insts, table, m + 1)
    }
}

proof fn lemma_first_unknown_none(insts: Seq<Instruction>, table: Map<Seq<char>, nat>, m: int)
    requires
        0 <= m,
    ensures
        first_unknown(insts, table, m) is None <==> forall|k: int|
            m <= k < insts.len() ==> !unknown_target(#[trigger] insts[k], table),
        first_unknown(insts, table, m) matches Some(k) ==> m <= k < insts.len(),
    decreases insts.len() - m,
{
    if m < insts.len() {
        lemma_first_unknown_none(insts, table, m + 1);
    }
}

/// Under the first pass's invariant, the second pass finds an undefined target exactly
/// where the specification does, and resolves every other instruction as emitted.
proof fn lemma_second_pass(
    insts: Seq<Instruction>,
    origin: Seq<usize>,
    v: Seq<Emitted>,
    ls: Seq<Seq<char>>,
    m: int,
)
    requires
        0 <= m <= insts.len(),
        pending_from(insts, origin, v, ls, m),
    ensures
        first_unknown(insts, labels_before(ls, ls.len() as int), m) == first_undefined(v, m),
        forall|k: int|
            #![trigger v[k]]
            m <= k < insts.len() && !v[k].2 ==> resolved_in(
                insts[k],
                labels_before(ls, ls.len() as int),
            ) == v[k].0,
    decreases insts.len() - m,
{
    if m < insts.len() {
        assert(pending_from(insts, origin, v, ls, m + 1));
        lemma_second_pass(insts, origin, v, ls, m + 1);
        lemma_resolve_step(insts[m], v[m], ls);
    }
}

/// An instruction after the first pass: as emitted, or, where its target was not yet
/// defined above its line, carrying the target's name.
pub open spec fn after_first_pass(inst: Instruction, e: Emitted, ls: Seq<Seq<char>>) -> bool {
    let ws = line_words(ls[e.1]);
    match target_name(ws) {
        Some(name) => if labels_before(ls, e.1).contains_key(name) {
            inst == e.0
        } else {
            &&& symbolic_name(inst) == Some(name)
            &&& with_label(inst, unset_label()) == spec_instruction(ws)->Ok_0
        },
        None => inst == e.0,
    }
}

/// `e` is what code line `e.1`, among the first `k` lines, emits.
pub open spec fn emitted_by_line(e: Emitted, ls: Seq<Seq<char>>, k: int) -> bool {
    &&& 0 <= e.1 < k <= ls.len()
    &&& is_code_line(ls[e.1])
    &&& spec_instruction(line_words(ls[e.1])) is Ok
    &&& e == emitted(ls, e.1, spec_instruction(line_words(ls[e.1]))->Ok_0)
}

/// A parsed instruction carries an unset target exactly when its line names one.
pub proof fn lemma_instruction_shape(ws: Seq<Seq<char>>)
    requires
        ws.len() >= 1,
        spec_instruction(ws) is Ok,
    ensures
        target_name(ws) is Some <==> label_of(spec_instruction(ws)->Ok_0) is Some,
        label_of(spec_instruction(ws)->Ok_0) is Some ==> label_of(spec_instruction(ws)->Ok_0)
            == Some(unset_label()),
{
    reveal(spec_instruction);
    let m = mnemonic_of(ws[0])->0;
    match m {
        Mnemonic::Jmp | Mnemonic::Call => {},
        Mnemonic::Jgt | Mnemonic::Jeq | Mnemonic::Jlt => {},
        _ => {},
    }
}

/// What the second pass finds at one instruction, and what it owes there.
proof fn lemma_resolve_step(inst: Instruction, e: Emitted, ls: Seq<Seq<char>>)
    requires
        emitted_by_line(e, ls, ls.len() as int),
        after_first_pass(inst, e, ls),
    ensures
        symbolic_name(inst) is None ==> inst == e.0 && !e.2,
        symbolic_name(inst) matches Some(name) ==> {
            &&& labels_before(ls, ls.len() as int).contains_key(name) ==> !e.2 && with_label(
                inst,
                Label::Resolved(labels_before(ls, ls.len() as int)[name] as usize),
            ) == e.0
            &&& !labels_before(ls, ls.len() as int).contains_key(name) ==> e.2
        },
{
    let ws = line_words(ls[e.1]);
    let i0 = spec_instruction(ws)->Ok_0;
    lemma_instruction_shape(ws);
    lemma_with_label_twice(i0, unset_label(), unset_label());
    match target_name(ws) {
        Some(name) => {
            let t = target_of(ls, e.1, name);
            if let Some(t) = t {
                lemma_with_label_twice(i0, Label::Resolved(t as usize), unset_label());
            }
            if !labels_before(ls, e.1).contains_key(name) {
                lemma_with_label_twice(inst, unset_label(), Label::Resolved(0));
                if labels_before(ls, ls.len() as int).contains_key(name) {
                    let x = Label::Resolved(labels_before(ls, ls.len() as int)[name] as usize);
                    lemma_with_label_twice(inst, unset_label(), x);
                }
            }
        },
        None => {
            lemma_with_label_twice(i0, unset_label(), Label::Resolved(0));
        },
    }
}

/// From position `from` on, the instructions are as the first pass leaves them.
pub open spec fn pending_from(
    insts: Seq<Instruction>,
    origin: Seq<usize>,
    v: Seq<Emitted>,
    ls: Seq<Seq<char>>,
    from: int,
) -> bool {
    &&& insts.len() == origin.len() == v.len()
    &&& forall|k: int|
        #![trigger v[k]]
        from <= k < insts.len() ==> {
            &&& emitted_by_line(v[k], ls, ls.len() as int)
            &&& after_first_pass(insts[k], v[k], ls)
            &&& origin[k] == v[k].1
        }
}

proof fn lemma_pending_push(
    insts: Seq<Instruction>,
    origin: Seq<usize>,
    v: Seq<Emitted>,
    ls: Seq<Seq<char>>,
    inst: Instruction,
    o: usize,
    e: Emitted,
)
    requires
        pending_from(insts, origin, v, ls, 0),
        emitted_by_line(e, ls, ls.len() as int),
        after_first_pass(inst, e, ls),
        o == e.1,
    ensures
        pending_from(insts.push(inst), origin.push(o), v.push(e), ls, 0),
{
    let ni = insts.push(inst);
    let no = origin.push(o);
    let nv = v.push(e);
    assert forall|k: int| #![trigger nv[k]] 0 <= k < ni.len() implies {
        &&& emitted_by_line(nv[k], ls, ls.len() as int)
        &&& after_first_pass(ni[k], nv[k], ls)
        &&& no[k] == nv[k].1
    } by {
        if k < insts.len() {
            assert(ni[k] == insts[k]);
            assert(nv[k] == v[k]);
            assert(no[k] == origin[k]);
        }
    }
    assert(pending_from(ni, no, nv, ls, 0));
}

proof fn lemma_first_pass_err_stays(ls: Seq<Seq<char>>, k: int, k2: int)
    requires
        0 <= k <= k2,
        first_pass(ls, k) is Err,
    ensures
        first_pass(ls, k2) == first_pass(ls, k),
    decreases k2 - k,
{
    if k2 > k {
        lemma_first_pass_err_stays(ls, k, k2 - 1);
    }
}

proof fn lemma_first_undefined_none(v: Seq<Emitted>, m: int)
    requires
        0 <= m <= v.len(),
        first_undefined(v, m) is None,
    ensures
        forall|k: int| m <= k < v.len() ==> !(#[trigger] v[k]).2,
    decreases v.len() - m,
{
    if m < v.len() {
        lemma_first_undefined_none(v, m + 1);
    }
}

/// The assembler: a label table and the source file it reads.
pub struct Parser {
    file: String,
    labels: Vec<(Vec<char>, usize)>,
    label_map: Ghost<Map<Seq<char>, nat>>,
}

impl Parser {
    /// The table holds each label once, and agrees with `labels()`.
    pub closed spec fn wf(&self) -> bool {
        &&& forall|j: int|
            #![trigger self.labels@[j]]
            0 <= j < self.labels@.len() ==> self.label_map@.contains_key(self.labels@[j].0@)
                && self.label_map@[self.labels@[j].0@] == self.labels@[j].1 as nat
        &&& forall|name: Seq<char>| #[trigger]
            self.label_map@.contains_key(name) ==> exists|j: int|
                #![trigger self.labels@[j]]
                0 <= j < self.labels@.len() && self.labels@[j].0@ == name
        &&& forall|i: int, j: int|
            #![trigger self.labels@[i], self.labels@[j]]
            0 <= i < j < self.labels@.len() ==> self.labels@[i].0@ != self.labels@[j].0@
    }

    /// Each label defined so far, with the index of the instruction it names.
    pub closed spec fn labels(&self) -> Map<Seq<char>, nat> {
        self.label_map@
    }

    pub closed spec fn file_name(&self) -> Seq<char> {
        self.file@
    }

    pub fn new(file: String) -> (r: Parser)
        ensures
            r.wf(),
            r.labels() == Map::<Seq<char>, nat>::empty(),
            r.file_name() == file@,
    {
        Parser { file, labels: Vec::new(), label_map: Ghost(Map::empty()) }
    }

    /// Path of the source file.
    pub fn file(&self) -> (r: &String)
        ensures
            r@ == self.file_name(),
    {
        &self.file
    }

    /// The instruction index that the label `name` stands for, if it is defined.
    pub fn label_index(&self, name: &str) -> (r: Option<usize>)
        requires
            self.wf(),
        ensures
            r is Some <==> self.labels().contains_key(name@),
            r matches Some(t) ==> self.labels()[name@] == t as nat,
    {
        let c = chars_of(name);
        assert(c@.subrange(0, c@.len() as int) =~= c@);
        self.lookup(&c, 0, c.len())
    }

    fn lookup(&self, l: &Vec<char>, from: usize, to: usize) -> (r: Option<usize>)
        requires
            self.wf(),
            from <= to <= l.len(),
        ensures
            r is Some <==> self.labels().contains_key(l@.subrange(from as int, to as int)),
            r matches Some(t) ==> self.labels()[l@.subrange(from as int, to as int)] == t as nat,
    {
        let ghost t = l@.subrange(from as int, to as int);
        let mut j: usize = 0;
        while j < self.labels.len()
            invariant
                self.wf(),
                j <= self.labels.len(),
                from <= to <= l.len(),
                t == l@.subrange(from as int, to as int),
                forall|i: int| 0 <= i < j ==> (#[trigger] self.labels@[i]).0@ != t,
            decreases self.labels.len() - j,
        {
            if eq_span(&self.labels[j].0, l, from, to) {
                assert(self.labels@[j as int].0@ == t);
                return Some(self.labels[j].1);
            }
            j = j + 1;
        }
        None
    }

    /// Assembles `lines`: instructions in order, every target resolved to an instruction
    /// index, or the first error with its line. The label table ends as the program defines it.
    pub fn parse_lines(&mut self, lines: &Vec<String>) -> (r: Result<Vec<Instruction>, ParseError>)
        ensures
            final(self).wf(),
            final(self).file_name() == old(self).file_name(),
            r is Ok <==> assembled(line_views(lines@)) is Ok,
            r matches Ok(v) ==> {
                &&& v@ == assembled(line_views(lines@))->Ok_0
                &&& final(self).labels() == labels_before(line_views(lines@), lines.len() as int)
            },
            r matches Err(e) ==> error_matches(e, assembled(line_views(lines@))->Err_0, lines@),
    {
        self.labels = Vec::new();
        self.label_map = Ghost(Map::empty());
        let ghost ls = line_views(lines@);
        let mut insts: Vec<Instruction> = Vec::new();
        let mut origin: Vec<usize> = Vec::new();
        let mut j: usize = 0;
        while j < lines.len()
            invariant
                self.wf(),
                self.file_name() == old(self).file_name(),
                j <= lines.len(),
                ls == line_views(lines@),
                ls.len() == lines.len(),
                first_pass(ls, j as int) is Ok,
                self.labels() == labels_before(ls, j as int),
                code_lines_before(ls, j as int) == insts.len(),
                pending_from(insts@, origin@, first_pass(ls, j as int)->Ok_0, ls, 0),
            decreases lines.len() - j,
        {
            let ghost v = first_pass(ls, j as int)->Ok_0;
            let line = lines[j].as_str();
            let l = chars_of(line);
            let end = code_len(&l);
            let spans = word_spans(&l, end);
            proof {
                assert(ls[j as int] == l@);
                assert(span_words(l@, spans@) =~= line_words(ls[j as int]));
            }
            if spans.len() > 0 {
                if let Some((a0, c)) = label_name_span(&l, &spans) {
                    let name = copy_span(&l, a0, c);
                    proof {
                        assert(is_label_line(ls[j as int]));
                        assert(name@ =~= defined_label(ls[j as int]));
                    }
                    self.define(name, insts.len());
                    assert(first_pass(ls, j + 1) == first_pass(ls, j as int));
                } else {
                    assert(is_code_line(ls[j as int]));
                    match self.parse_instruction(line, &l, &spans) {
                        Err(kind) => {
                            proof {
                                lemma_first_pass_err_stays(ls, j + 1, ls.len() as int);
                            }
                            let details = ParseErrorLineDetails {
                                line: j,
                                contents: Some(lines[j].clone()),
                            };
                            return Err(ParseError::new(kind, Some(details)));
                        },
                        Ok(inst) => {
                            let ghost ws = line_words(ls[j as int]);
                            let ghost i0 = spec_instruction(ws)->Ok_0;
                            let ghost e = emitted(ls, j as int, i0);
                            proof {
                                lemma_instruction_shape(ws);
                                lemma_with_label_twice(i0, unset_label(), unset_label());
                            }
                            proof {
                                assert(emitted_by_line(e, ls, ls.len() as int));
                                assert(after_first_pass(inst, e, ls));
                                lemma_pending_push(insts@, origin@, v, ls, inst, j, e);
                            }
                            insts.push(inst);
                            origin.push(j);
                            assert(first_pass(ls, j + 1) == Ok::<
                                Seq<Emitted>,
                                (ParseErrorKind, int),
                            >(v.push(e)));
                        },
                    }
                }
            } else {
                assert(first_pass(ls, j + 1) == first_pass(ls, j as int));
            }
            j = j + 1;
        }
        let ghost v = first_pass(ls, ls.len() as int)->Ok_0;
        let ghost before = insts@;
        proof {
            lemma_second_pass(insts@, origin@, v, ls, 0);
            assert forall|k: int| 0 <= k < origin.len() implies #[trigger] origin@[k] < lines.len() by {
                assert(v[k] == v[k]);
            }
        }
        match self.resolve_labels(&mut insts, &origin, lines) {
            Some(e) => {
                proof {
                    lemma_first_unknown_none(before, self.labels(), 0);
                    let m = first_unknown(before, self.labels(), 0)->0;
                    assert(v[m] == v[m]);
                    assert(origin@[m] == v[m].1);
                }
                Err(e)
            },
            None => {
                proof {
                    lemma_first_undefined_none(v, 0);
                    assert(insts@ =~= v.map_values(|e: Emitted| e.0)) by {
                        assert forall|k: int| 0 <= k < insts.len() implies insts@[k] == v.map_values(
                            |e: Emitted| e.0,
                        )[k] by {
                            assert(insts@[k] == resolved_in(before[k], self.labels()));
                            assert(!v[k].2);
                        }
                    }
                }
                Ok(insts)
            },
        }
    }


    /// The instruction on a line whose words `spans` picks out of `l` (the characters of
    /// `line`), its target looked up in the table: the index of a defined label, or the
    /// name of one not yet defined.
    fn parse_instruction(&self, line: &str, l: &Vec<char>, spans: &Vec<(usize, usize)>) -> (r:
        Result<Instruction, ParseErrorKind>)
        requires
            self.wf(),
            l@ == line@,
            spans_fit(l@, spans@),
        ensures
            r is Ok <==> spec_instruction(span_words(l@, spans@)) is Ok,
            r matches Err(e) ==> spec_instruction(span_words(l@, spans@)) == Err::<
                Instruction,
                ParseErrorKind,
            >(e),
            r matches Ok(i) ==> with_target(
                i,
                spec_instruction(span_words(l@, spans@))->Ok_0,
                target_name(span_words(l@, spans@)),
                self.labels(),
            ),
    {
        let ghost ws = span_words(l@, spans@);
        if spans.len() == 0 {
            proof {
                reveal(spec_instruction);
            }
            return Err(ParseErrorKind::UnknownInstruction);
        }
        let inst = match parse_operands(l, spans) {
            Err(e) => {
                return Err(e);
            },
            Ok(inst) => inst,
        };
        proof {
            lemma_instruction_shape(ws);
            lemma_with_label_twice(inst, unset_label(), unset_label());
        }
        match target_position(l, spans) {
            None => Ok(inst),
            Some(p) => {
                let (a, b) = spans[p];
                match self.lookup(l, a, b) {
                    Some(t) => Ok(retarget(&inst, t)),
                    None => {
                        let name = line.substring_char(a, b).to_owned();
                        proof {
                            lemma_with_label_twice(inst, Label::Symbolic(name), unset_label());
                        }
                        Ok(with_symbolic(inst, name))
                    },
                }
            },
        }
    }

    /// A jump or call target: the index of `chunk` if the table defines it, otherwise the
    /// name itself, to be resolved once the whole program is read.
    pub fn parse_label(&self, chunk: &str) -> (r: Result<Label, ParseErrorKind>)
        requires
            self.wf(),
        ensures
            r is Err <==> label_problem(chunk@) is Some,
            r matches Err(e) ==> label_problem(chunk@) == Some(e),
            r matches Ok(lb) ==> if self.labels().contains_key(chunk@) {
                lb == Label::Resolved(self.labels()[chunk@] as usize)
            } else {
                lb matches Label::Symbolic(s) && s@ == chunk@
            },
    {
        let l = chars_of(chunk);
        assert(l@.subrange(0, l@.len() as int) =~= l@);
        if let Some(e) = label_problem_at(&l, 0, l.len()) {
            return Err(e);
        }
        match self.lookup(&l, 0, l.len()) {
            Some(t) => Ok(Label::Resolved(t)),
            None => Ok(Label::Symbolic(chunk.to_owned())),
        }
    }

    /// The second pass: gives each instruction that still names its target the index the
    /// table holds for it, or reports the first whose target the table lacks, on the line
    /// `origin` gives for it.
    fn resolve_labels(
        &self,
        insts: &mut Vec<Instruction>,
        origin: &Vec<usize>,
        lines: &Vec<String>,
    ) -> (r: Option<ParseError>)
        requires
            self.wf(),
            old(insts).len() == origin.len(),
            forall|k: int| 0 <= k < origin.len() ==> #[trigger] origin@[k] < lines.len(),
        ensures
            r is None <==> first_unknown(old(insts)@, self.labels(), 0) is None,
            r is None ==> final(insts)@ == old(insts)@.map_values(
                |i: Instruction| resolved_in(i, self.labels()),
            ),
            r matches Some(e) ==> first_unknown(old(insts)@, self.labels(), 0) matches Some(m)
                && error_matches(e, (ParseErrorKind::UnresolvedLabel, origin@[m] as int), lines@),
            (forall|k: int| 0 <= k < old(insts).len() ==> is_resolved(#[trigger] old(insts)@[k]))
                ==> r is None && final(insts)@ == old(insts)@,
    {
        let ghost table = self.labels();
        let ghost start = insts@;
        let mut m: usize = 0;
        while m < insts.len()
            invariant
                self.wf(),
                self.labels() == table,
                start == old(insts)@,
                insts.len() == origin.len() == start.len(),
                forall|k: int| 0 <= k < origin.len() ==> #[trigger] origin@[k] < lines.len(),
                m <= insts.len(),
                first_unknown(start, table, 0) == first_unknown(start, table, m as int),
                forall|k: int|
                    #![trigger insts@[k]]
                    0 <= k < m ==> insts@[k] == resolved_in(start[k], table),
                forall|k: int| #![trigger insts@[k]] m <= k < insts.len() ==> insts@[k] == start[k],
            decreases insts.len() - m,
        {
            match symbolic_chars(&insts[m]) {
                None => {},
                Some(name) => {
                    assert(name@.subrange(0, name@.len() as int) =~= name@);
                    match self.lookup(&name, 0, name.len()) {
                        Some(t) => {
                            let next = retarget(&insts[m], t);
                            insts.set(m, next);
                        },
                        None => {
                            assert(insts@[m as int] == start[m as int]);
                            assert(unknown_target(start[m as int], table));
                            assert(first_unknown(start, table, m as int) == Some(m as int));
                            let at = origin[m];
                            let details = ParseErrorLineDetails {
                                line: at,
                                contents: Some(lines[at].clone()),
                            };
                            return Some(
                                ParseError::new(ParseErrorKind::UnresolvedLabel, Some(details)),
                            );
                        },
                    }
                },
            }
            m = m + 1;
        }
        proof {
            assert(insts@ =~= start.map_values(|i: Instruction| resolved_in(i, table)));
            lemma_first_unknown_none(start, table, 0);
            if forall|k: int| 0 <= k < start.len() ==> is_resolved(#[trigger] start[k]) {
                assert(insts@ =~= start);
            }
        }
        None
    }

    fn define(&mut self, name: Vec<char>, index: usize)
        requires
            old(self).wf(),
        ensures
            final(self).wf(),
            final(self).labels() == old(self).labels().insert(name@, index as nat),
            final(self).file_name() == old(self).file_name(),
    {
        let mut j: usize = 0;
        while j < self.labels.len()
            invariant
                self.wf(),
                *self == *old(self),
                j <= self.labels.len(),
                forall|i: int| 0 <= i < j ==> (#[trigger] self.labels@[i]).0@ != name@,
            decreases self.labels.len() - j,
        {
            assert(name@.subrange(0, name@.len() as int) =~= name@);
            if eq_span(&self.labels[j].0, &name, 0, name.len()) {
                let ghost old_labels = self.labels@;
                self.labels.set(j, (name, index));
                self.label_map = Ghost(self.label_map@.insert(self.labels@[j as int].0@, index as nat));
                assert forall|nm: Seq<char>| #[trigger]
                    self.label_map@.contains_key(nm) implies exists|k: int|
                        #![trigger self.labels@[k]]
                        0 <= k < self.labels@.len() && self.labels@[k].0@ == nm by {
                    if nm != self.labels@[j as int].0@ {
                        let k = choose|k: int|
                            #![trigger old_labels[k]]
                            0 <= k < old_labels.len() && old_labels[k].0@ == nm;
                        assert(self.labels@[k] == old_labels[k]);
                    } else {
                        assert(self.labels@[j as int].0@ == nm);
                    }
                }
                return;
            }
            j = j + 1;
        }
        let ghost old_labels = self.labels@;
        let ghost key = name@;
        self.labels.push((name, index));
        self.label_map = Ghost(self.label_map@.insert(key, index as nat));
        assert forall|nm: Seq<char>| #[trigger]
            self.label_map@.contains_key(nm) implies exists|k: int|
                #![trigger self.labels@[k]]
                0 <= k < self.labels@.len() && self.labels@[k].0@ == nm by {
            if nm != key {
                let k = choose|k: int|
                    #![trigger old_labels[k]]
                    0 <= k < old_labels.len() && old_labels[k].0@ == nm;
                assert(self.labels@[k] == old_labels[k]);
            } else {
                assert(self.labels@[old_labels.len() as int].0@ == nm);
            }
        }
    }
}


/// Assembles `lines` with a fresh label table.
pub fn assemble(lines: &Vec<String>) -> (r: Result<Vec<Instruction>, ParseError>)
    ensures
        r is Ok <==> assembled(line_views(lines@)) is Ok,
        r matches Ok(v) ==> v@ == assembled(line_views(lines@))->Ok_0,
        r matches Err(e) ==> error_matches(e, assembled(line_views(lines@))->Err_0, lines@),
        r matches Ok(v) ==> forall|m: int| 0 <= m < v.len() ==> is_resolved(#[trigger] v@[m]),
{
    proof {
        lemma_assembled_targets_resolved(line_views(lines@));
    }
    let mut parser = Parser::new(String::new());
    parser.parse_lines(lines)
}

/// Reads one operand token.
pub fn parse_source(chunk: &str) -> (r: Result<Source, ParseErrorKind>)
    ensures
        r == spec_source(chunk@),
{
    let l = chars_of(chunk);
    assert(l@.subrange(0, l@.len() as int) =~= l@);
    source_at(&l, 0, l.len())
}

/// Reads one destination token.
pub fn parse_destination(chunk: &str) -> (r: Result<Destination, ParseErrorKind>)
    ensures
        r == spec_destination(chunk@),
{
    let l = chars_of(chunk);
    assert(l@.subrange(0, l@.len() as int) =~= l@);
    destination_at(&l, 0, l.len())
}

/// The line holds neither an instruction nor a label: it is blank or a comment.
pub fn line_is_non_functional(line: &str) -> (r: bool)
    ensures
        r == (line_words(line@).len() == 0),
{
    let l = chars_of(line);
    let end = code_len(&l);
    let spans = word_spans(&l, end);
    spans.len() == 0
}

/// The line defines a label.
pub fn line_is_label(line: &str) -> (r: bool)
    ensures
        r == is_label_line(line@),
{
    let l = chars_of(line);
    let end = code_len(&l);
    let spans = word_spans(&l, end);
    if spans.len() == 0 {
        return false;
    }
    assert(span_words(l@, spans@) =~= line_words(line@));
    label_name_span(&l, &spans).is_some()
}

proof fn lemma_first_pass_entries(ls: Seq<Seq<char>>, k: int)
    requires
        0 <= k <= ls.len(),
        first_pass(ls, k) is Ok,
    ensures
        forall|m: int|
            #![trigger first_pass(ls, k)->Ok_0[m]]
            0 <= m < first_pass(ls, k)->Ok_0.len() ==> emitted_by_line(
                first_pass(ls, k)->Ok_0[m],
                ls,
                ls.len() as int,
            ),
    decreases k,
{
    if k > 0 {
        lemma_first_pass_entries(ls, k - 1);
        let v = first_pass(ls, k - 1)->Ok_0;
        let w = first_pass(ls, k)->Ok_0;
        assert forall|m: int|
            #![trigger w[m]]
            0 <= m < w.len() implies emitted_by_line(w[m], ls, ls.len() as int) by {
            if m < v.len() {
                assert(w[m] == v[m]);
            }
        }
    }
}

proof fn lemma_first_undefined_all_clear(v: Seq<Emitted>, m: int)
    requires
        0 <= m,
        forall|k: int| m <= k < v.len() ==> !(#[trigger] v[k]).2,
    ensures
        first_undefined(v, m) is None,
    decreases v.len() - m,
{
    if m < v.len() {
        lemma_first_undefined_all_clear(v, m + 1);
    }
}

/// The first pass emits one instruction per code line, in order: the instruction of code
/// line `k` stands at index `code_lines_before(lines, k)`.
pub proof fn lemma_first_pass_index(lines: Seq<Seq<char>>, k2: int)
    requires
        0 <= k2 <= lines.len(),
        first_pass(lines, k2) is Ok,
    ensures
        first_pass(lines, k2)->Ok_0.len() == code_lines_before(lines, k2),
        forall|k: int|
            0 <= k < k2 && is_code_line(#[trigger] lines[k]) ==> {
                let e = first_pass(lines, k2)->Ok_0[code_lines_before(lines, k) as int];
                &&& code_lines_before(lines, k) < code_lines_before(lines, k2)
                &&& spec_instruction(line_words(lines[k])) is Ok
                &&& e == emitted(lines, k, spec_instruction(line_words(lines[k]))->Ok_0)
            },
    decreases k2,
{
    if k2 > 0 {
        lemma_first_pass_index(lines, k2 - 1);
        let v = first_pass(lines, k2 - 1)->Ok_0;
        let w = first_pass(lines, k2)->Ok_0;
        assert forall|k: int| 0 <= k < k2 && is_code_line(#[trigger] lines[k]) implies {
            let e = w[code_lines_before(lines, k) as int];
            &&& code_lines_before(lines, k) < code_lines_before(lines, k2)
            &&& spec_instruction(line_words(lines[k])) is Ok
            &&& e == emitted(lines, k, spec_instruction(line_words(lines[k]))->Ok_0)
        } by {
            if k < k2 - 1 {
                assert(w[code_lines_before(lines, k) as int] == v[code_lines_before(lines, k) as int]);
            }
        }
    }
}

/// A program whose lines all parse, and whose every jump or call names a label defined
/// somewhere in it, before or after the use, assembles.
pub proof fn lemma_defined_targets_assemble(lines: Seq<Seq<char>>)
    requires
        first_pass(lines, lines.len() as int) is Ok,
        forall|k: int|
            0 <= k < lines.len() && is_code_line(#[trigger] lines[k]) ==> (target_name(
                line_words(lines[k]),
            ) matches Some(n) ==> labels_before(lines, lines.len() as int).contains_key(n)),
    ensures
        assembled(lines) is Ok,
{
    let v = first_pass(lines, lines.len() as int)->Ok_0;
    lemma_first_pass_entries(lines, lines.len() as int);
    assert forall|k: int| 0 <= k < v.len() implies !(#[trigger] v[k]).2 by {
        let e = v[k];
        assert(emitted_by_line(e, lines, lines.len() as int));
        assert(is_code_line(lines[e.1]));
    }
    lemma_first_undefined_all_clear(v, 0);
}

/// Whatever the program, a successful assembly leaves no target symbolic: every jump and
/// call names an instruction index.
pub proof fn lemma_assembled_targets_resolved(lines: Seq<Seq<char>>)
    ensures
        assembled(lines) matches Ok(v) ==> forall|m: int| 0 <= m < v.len() ==> is_resolved(
            #[trigger] v[m],
        ),
{
    if let Ok(v) = first_pass(lines, lines.len() as int) {
        if first_undefined(v, 0) is None {
            lemma_first_pass_entries(lines, lines.len() as int);
            lemma_first_undefined_none(v, 0);
            let out = v.map_values(|e: Emitted| e.0);
            assert forall|m: int| 0 <= m < out.len() implies is_resolved(#[trigger] out[m]) by {
                let e = v[m];
                let ws = line_words(lines[e.1]);
                let i0 = spec_instruction(ws)->Ok_0;
                lemma_instruction_shape(ws);
                lemma_with_label_twice(i0, unset_label(), unset_label());
                if let Some(name) = target_name(ws) {
                    if let Some(t) = target_of(lines, e.1, name) {
                        lemma_with_label_twice(i0, Label::Resolved(t as usize), unset_label());
                    }
                }
            }
        }
    }
}

} // verus!
