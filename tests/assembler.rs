use yaul::instructions::{Destination, Instruction, Label, Source};
use yaul::parser::{
    assemble, line_is_label, line_is_non_functional, parse_destination, parse_source,
    ParseError, ParseErrorKind, Parser,
};

fn lines(src: &str) -> Vec<String> {
    src.lines().map(String::from).collect()
}

fn error_of(src: &str) -> ParseError {
    match assemble(&lines(src)) {
        Ok(v) => panic!("assembled: {:?}", v),
        Err(e) => e,
    }
}

fn target_of(i: &Instruction) -> Option<&Label> {
    match i {
        Instruction::Jump(l) | Instruction::Call(l) => Some(l),
        Instruction::JumpGreaterThan(_, _, l)
        | Instruction::JumpEqual(_, _, l)
        | Instruction::JumpLessThan(_, _, l) => Some(l),
        _ => None,
    }
}

#[test]
fn operand_forms() {
    assert_eq!(parse_source("'42'"), Ok(Source::Data(42)));
    assert_eq!(parse_source("'-7'"), Ok(Source::Data(-7)));
    assert_eq!(parse_source("'+7'"), Ok(Source::Data(7)));
    assert_eq!(parse_source("'-9223372036854775808'"), Ok(Source::Data(i64::MIN)));
    assert_eq!(parse_source("&3"), Ok(Source::Reference(3)));
    assert_eq!(parse_source("17"), Ok(Source::Address(17)));
    assert_eq!(parse_destination("&0"), Ok(Destination::Reference(0)));
    assert_eq!(parse_destination("12"), Ok(Destination::Address(12)));
}

#[test]
fn operand_errors() {
    assert_eq!(parse_source(""), Err(ParseErrorKind::EmptyOperand));
    assert_eq!(parse_destination(""), Err(ParseErrorKind::EmptyOperand));
    assert_eq!(parse_source("'4x'"), Err(ParseErrorKind::MalformedNumber));
    assert_eq!(parse_source("''"), Err(ParseErrorKind::MalformedNumber));
    assert_eq!(parse_source("'9223372036854775808'"), Err(ParseErrorKind::MalformedNumber));
    assert_eq!(parse_source("&-1"), Err(ParseErrorKind::MalformedNumber));
    assert_eq!(parse_source("abc"), Err(ParseErrorKind::MalformedNumber));
    assert_eq!(parse_destination("'5'"), Err(ParseErrorKind::MalformedNumber));
}

#[test]
fn label_operand_rules() {
    let p = Parser::new(String::from("prog"));
    assert_eq!(p.parse_label("loop"), Ok(Label::Symbolic(String::from("loop"))));
    assert_eq!(p.parse_label(""), Err(ParseErrorKind::EmptyOperand));
    assert_eq!(p.parse_label("&x"), Err(ParseErrorKind::LabelStartsWithAmpersand));
    assert_eq!(p.parse_label("x:"), Err(ParseErrorKind::LabelEndsWithColon));
    assert_eq!(p.parse_label("12"), Err(ParseErrorKind::LabelIsNumber));
    assert_eq!(p.parse_label("-3"), Err(ParseErrorKind::LabelIsNumber));
    assert_eq!(p.parse_label("+3"), Err(ParseErrorKind::LabelIsNumber));
    assert_eq!(p.parse_label("'a'"), Err(ParseErrorKind::LabelIsValue));
    // A number of any size is a number, not a name.
    assert_eq!(p.parse_label("99999999999"), Err(ParseErrorKind::LabelIsNumber));
    assert_eq!(
        p.parse_label("123456789012345678901234567890"),
        Err(ParseErrorKind::LabelIsNumber)
    );
    assert_eq!(p.parse_label("-"), Ok(Label::Symbolic(String::from("-"))));
}

#[test]
fn label_operand_lookup() {
    let mut p = Parser::new(String::from("prog"));
    p.parse_lines(&lines("OUT 0\nOUT 1\nthere:\nOUT 2")).unwrap();
    assert_eq!(p.parse_label("there"), Ok(Label::Resolved(2)));
    assert_eq!(p.parse_label("nowhere"), Ok(Label::Symbolic(String::from("nowhere"))));
    assert_eq!(p.label_index("nowhere"), None);
}

#[test]
fn numeric_jump_target_is_rejected() {
    assert_eq!(error_of("JMP 99999999999").kind, ParseErrorKind::LabelIsNumber);
}

#[test]
fn line_kinds() {
    assert!(line_is_non_functional(""));
    assert!(line_is_non_functional("   \t "));
    assert!(line_is_non_functional("  // just a note"));
    assert!(!line_is_non_functional("OUT 0 // note"));
    assert!(line_is_label("loop:"));
    assert!(line_is_label("  start:  // entry"));
    assert!(!line_is_label("SET '1' 0"));
    assert!(!line_is_label("// a: b"));
    assert!(line_is_label("  loop:"));
    assert!(!line_is_label(":"));
    assert!(!line_is_label("a:b"));
    assert!(!line_is_label("a::"));
    assert!(!line_is_label("loop: SET '1' 0"));
}

#[test]
fn assembles_each_mnemonic() {
    let src = "ret\nSET '1' 2\nIN 3\nOUT &4\nADD 1 2 3\nSUB 1 2 3\nMUL 1 2 3\nDIV 1 2 3\nMOD 1 2 3\n\
               end:\nJMP end\nJGT 1 2 end\nJEQ 1 2 end\nJLT 1 2 end\nMOV '3' &1\nCALL end\nTIME 9\nTERM\n\
               SYS 0 '60' '1' _";
    let v = assemble(&lines(src)).unwrap();
    let a = Source::Address(1);
    let b = Source::Address(2);
    let d = Destination::Address(3);
    let end = || Label::Resolved(9);
    assert_eq!(
        v,
        vec![
            Instruction::Return,
            Instruction::SetRegister(Source::Data(1), Destination::Address(2)),
            Instruction::Input(Destination::Address(3)),
            Instruction::Output(Source::Reference(4)),
            Instruction::Add(a, b, d),
            Instruction::Subtract(a, b, d),
            Instruction::Multiply(a, b, d),
            Instruction::Divide(a, b, d),
            Instruction::Modulo(a, b, d),
            Instruction::Jump(end()),
            Instruction::JumpGreaterThan(a, b, end()),
            Instruction::JumpEqual(a, b, end()),
            Instruction::JumpLessThan(a, b, end()),
            Instruction::Move(Source::Data(3), Destination::Reference(1)),
            Instruction::Call(end()),
            Instruction::Time(Destination::Address(9)),
            Instruction::Terminate,
            Instruction::Syscall(
                Destination::Address(0),
                Source::Data(60),
                Some(Source::Data(1)),
                None,
                None,
                None,
                None,
                None
            ),
        ]
    );
}

#[test]
fn mnemonics_fold_unicode_case() {
    // Dotless i and long s upper-case to I and S.
    let v = assemble(&lines("\u{131}n 3\n\u{17F}et '1' 0")).unwrap();
    assert_eq!(
        v,
        vec![
            Instruction::Input(Destination::Address(3)),
            Instruction::SetRegister(Source::Data(1), Destination::Address(0)),
        ]
    );
}

#[test]
fn mnemonics_ignore_case() {
    let v = assemble(&lines("oUt '5'\nTeRm")).unwrap();
    assert_eq!(v, vec![Instruction::Output(Source::Data(5)), Instruction::Terminate]);
}

#[test]
fn forward_labels_resolve() {
    let src = "JMP end\nCALL sub\nOUT 0\nsub:\nRET\nend:";
    let v = assemble(&lines(src)).unwrap();
    assert_eq!(v[0], Instruction::Jump(Label::Resolved(4)));
    assert_eq!(v[1], Instruction::Call(Label::Resolved(3)));
    for i in &v {
        assert!(!matches!(target_of(i), Some(Label::Symbolic(_))));
    }
}

#[test]
fn backward_label_uses_latest_definition() {
    let src = "a:\nJMP a\nOUT 0\na:\nJMP a";
    let v = assemble(&lines(src)).unwrap();
    assert_eq!(v[0], Instruction::Jump(Label::Resolved(0)));
    assert_eq!(v[2], Instruction::Jump(Label::Resolved(2)));
    // A use before any definition takes the last one.
    let v = assemble(&lines("JMP b\nb:\nOUT 0\nb:\nOUT 1")).unwrap();
    assert_eq!(v[0], Instruction::Jump(Label::Resolved(2)));
}

#[test]
fn comments_and_blank_lines_change_nothing() {
    let plain = "SET '3' 0\nloop:\nSUB 0 '1' 0\nJGT 0 '0' loop\nJMP done\nOUT 0\ndone:\nOUT 0";
    let noisy = "// counts down\n\nSET '3' 0   // start\n  \nloop:\n// body\nSUB 0 '1' 0\n\n\
                 JGT 0 '0' loop // again\nJMP done\n   // skip\nOUT 0\ndone:\n\nOUT 0\n// end";
    let mut p1 = Parser::new(String::from("a"));
    let mut p2 = Parser::new(String::from("b"));
    let v1 = p1.parse_lines(&lines(plain)).unwrap();
    let v2 = p2.parse_lines(&lines(noisy)).unwrap();
    assert_eq!(v1, v2);
    assert_eq!(p1.label_index("loop"), Some(1));
    assert_eq!(p2.label_index("loop"), Some(1));
    assert_eq!(p1.label_index("done"), p2.label_index("done"));
    assert_eq!(p2.label_index("done"), Some(5));
    assert_eq!(p2.label_index("missing"), None);
}

#[test]
fn unresolved_label_is_an_error() {
    let e = error_of("JMP nowhere");
    assert_eq!(e.kind, ParseErrorKind::UnresolvedLabel);
    let d = e.line.unwrap();
    assert_eq!(d.line, 0);
    assert_eq!(d.contents, Some(String::from("JMP nowhere")));
}

#[test]
fn unresolved_label_reports_its_line() {
    let e = error_of("OUT 0\n\nJEQ 0 0 gone\nend:");
    assert_eq!(e.kind, ParseErrorKind::UnresolvedLabel);
    assert_eq!(e.line.unwrap().line, 2);
}

#[test]
fn syntax_error_comes_before_unresolved_label() {
    let e = error_of("JMP nowhere\nFROB 1");
    assert_eq!(e.kind, ParseErrorKind::UnknownInstruction);
    assert_eq!(e.line.unwrap().line, 1);
}

#[test]
fn line_errors() {
    assert_eq!(error_of("PUSH 1").kind, ParseErrorKind::UnknownInstruction);
    assert_eq!(error_of("SET '1'").kind, ParseErrorKind::MissingOperand);
    assert_eq!(error_of("ADD 1 2").kind, ParseErrorKind::MissingOperand);
    assert_eq!(error_of("RET\nSET 'x' 0").kind, ParseErrorKind::MalformedNumber);
    assert_eq!(error_of("JMP &l").kind, ParseErrorKind::LabelStartsWithAmpersand);
    assert_eq!(error_of("CALL 12").kind, ParseErrorKind::LabelIsNumber);
    assert_eq!(error_of("JLT 0 0 'x'").kind, ParseErrorKind::LabelIsValue);
    assert_eq!(error_of("JGT 0 0 x:").kind, ParseErrorKind::LabelEndsWithColon);
    let e = error_of("OUT 0\nSYS 0 '1' _ '2'");
    assert_eq!(e.kind, ParseErrorKind::SyscallArgumentGap);
    assert_eq!(e.line.unwrap().line, 1);
}

#[test]
fn label_line_is_the_whole_line() {
    // `loop:` followed by more words is no label line: its first word is no mnemonic.
    let e = error_of("loop: SET '1' 0\nJEQ 0 0 loop");
    assert_eq!(e.kind, ParseErrorKind::UnknownInstruction);
    assert_eq!(e.line.unwrap().line, 0);
    assert_eq!(error_of(":").kind, ParseErrorKind::UnknownInstruction);
    assert_eq!(error_of("a:b").kind, ParseErrorKind::UnknownInstruction);
    let v = assemble(&lines("  loop:   // top\nJEQ 0 0 loop")).unwrap();
    assert_eq!(v, vec![Instruction::JumpEqual(Source::Address(0), Source::Address(0), Label::Resolved(0))]);
}

#[test]
fn parser_keeps_file_name() {
    let p = Parser::new(String::from("prog.yaul"));
    assert_eq!(p.file(), "prog.yaul");
}
