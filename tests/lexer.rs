use asm_lexer::{create_tokens, Token};

fn op(s: &str) -> Token {
    Token::Opcode(s.to_string())
}

fn arg(s: &str) -> Token {
    Token::Operand(s.to_string())
}

fn note(s: &str) -> Token {
    Token::Comment(s.to_string())
}

fn dir(s: &str) -> Token {
    Token::Directive(s.to_string())
}

fn lex(s: &str) -> Vec<Token> {
    create_tokens(s.to_string())
}

const OPCODES: [&str; 67] = [
    "MOV", "MVI", "LXI", "LDA", "STA", "LHLD", "SHLD", "LDAX", "STAX", "XCHG", "ADD", "ADC", "SUB",
    "SBB", "ANA", "XRA", "ORA", "CMP", "ADI", "ACI", "SUI", "SBI", "ANI", "XRI", "ORI", "CPI",
    "RLC", "RRC", "RAL", "RAR", "CMA", "CMC", "STC", "HLT", "NOP", "DCR", "INR", "DAD", "DAA",
    "JMP", "CALL", "RET", "JNZ", "JZ", "JNC", "JC", "JPO", "JPE", "JP", "JM", "CNZ", "CZ", "CNC",
    "CC", "CPO", "CPE", "CP", "CM", "RIM", "SIM", "IN", "OUT", "PUSH", "POP", "XTHL", "SPHL",
    "PCHL",
];

const DIRECTIVES: [&str; 6] = ["ORG", "DB", "DW", "DS", "EQU", "END"];

#[test]
fn it_works() {
    let str = r#"
		ORG 0000H   ; Start the program at address 0000H

    MVI A, 42H  ; Load hexadecimal value 42H into the accumulator
    STA 2000H   ; Store the value in the accumulator into memory location 2000H

    HLT         ; Halt the program

		END         ; End of the program
		"#;

    let tokens = create_tokens(str.to_string());
    println!("{:#?}", tokens);
    assert_eq!(
        tokens,
        vec![
            dir("ORG"),
            arg("0000H"),
            note("Start the program at address 0000H"),
            op("MVI"),
            arg("A"),
            Token::Comma,
            arg("42H"),
            note("Load hexadecimal value 42H into the accumulator"),
            op("STA"),
            arg("2000H"),
            note("Store the value in the accumulator into memory location 2000H"),
            op("HLT"),
            note("Halt the program"),
            dir("END"),
            note("End of the program"),
        ]
    );
}

#[test]
fn every_mnemonic_is_an_opcode() {
    for m in OPCODES {
        assert_eq!(lex(m), vec![op(m)], "{}", m);
        assert_eq!(lex(&m.to_lowercase()), vec![op(m)], "{}", m);
    }
}

#[test]
fn every_directive_is_a_directive() {
    for d in DIRECTIVES {
        assert_eq!(lex(d), vec![dir(d)], "{}", d);
        assert_eq!(lex(&d.to_lowercase()), vec![dir(d)], "{}", d);
    }
}

#[test]
fn case_is_normalized() {
    assert_eq!(lex("mov"), vec![op("MOV")]);
    assert_eq!(lex("MOV"), vec![op("MOV")]);
    assert_eq!(lex("Mov"), vec![op("MOV")]);
}

#[test]
fn label_loses_its_colon() {
    assert_eq!(lex("start:"), vec![Token::Label("START".to_string())]);
}

#[test]
fn comment_whitespace_collapses() {
    assert_eq!(lex("; load   the   value"), vec![note("load the value")]);
}

#[test]
fn comment_keeps_case_and_stops_at_newline() {
    assert_eq!(lex(";  Mixed\tCase \r\nnop"), vec![note("Mixed Case"), op("NOP")]);
}

#[test]
fn empty_comment() {
    assert_eq!(lex(";"), vec![note("")]);
    assert_eq!(lex(";   "), vec![note("")]);
}

#[test]
fn hex_operands() {
    assert_eq!(lex("2000H"), vec![arg("2000H")]);
    assert_eq!(lex("42H"), vec![arg("42H")]);
    assert_eq!(lex("0ffh"), vec![arg("0FFH")]);
}

#[test]
fn comma_separates() {
    assert_eq!(lex("A,B"), vec![arg("A"), Token::Comma, arg("B")]);
}

#[test]
fn whitespace_is_invisible() {
    assert_eq!(lex("  MOV   A,  B  "), lex("MOV A,B"));
    assert_eq!(lex("MOV A,B"), vec![op("MOV"), arg("A"), Token::Comma, arg("B")]);
    assert_eq!(lex("\t\n\x0cMOV"), vec![op("MOV")]);
}

#[test]
fn repeated_calls_agree() {
    let text = "loop: MVI B, 0AH ; count\nDCR B\nJNZ loop";
    assert_eq!(lex(text), lex(text));
}

#[test]
fn end_to_end_program() {
    let text = "ORG 0000H   ; start\nMVI A, 42H\nHLT\nEND\n";
    assert_eq!(
        lex(text),
        vec![
            dir("ORG"),
            arg("0000H"),
            note("start"),
            op("MVI"),
            arg("A"),
            Token::Comma,
            arg("42H"),
            op("HLT"),
            dir("END"),
        ]
    );
}

#[test]
fn unknown_characters_are_skipped() {
    assert_eq!(lex("MOV $ A"), vec![op("MOV"), arg("A")]);
    assert_eq!(lex("é#MOV"), vec![op("MOV")]);
}

#[test]
fn empty_input_has_no_tokens() {
    assert_eq!(lex(""), vec![]);
    assert_eq!(lex("   \n\t "), vec![]);
}

#[test]
fn longer_identifier_beats_keyword() {
    assert_eq!(lex("MOVE"), vec![arg("MOVE")]);
    assert_eq!(lex("ADDH"), vec![arg("ADDH")]);
    assert_eq!(lex("ending"), vec![arg("ENDING")]);
}

#[test]
fn longest_mnemonic_wins() {
    assert_eq!(lex("jpo jp cma cm"), vec![op("JPO"), op("JP"), op("CMA"), op("CM")]);
}

#[test]
fn register_and_identifier_operands() {
    assert_eq!(lex("h l count"), vec![arg("H"), arg("L"), arg("COUNT")]);
}

#[test]
fn long_hex_run_is_not_one_literal() {
    assert_eq!(lex("12345H"), vec![arg("2345H")]);
}

#[test]
fn label_then_instruction() {
    assert_eq!(
        lex("Loop: jmp loop"),
        vec![Token::Label("LOOP".to_string()), op("JMP"), arg("LOOP")]
    );
}

#[test]
fn comment_splits_on_unicode_whitespace() {
    assert_eq!(lex(";a\u{a0}b\u{3000}c\u{2003}"), vec![note("a b c")]);
}

#[test]
fn whitespace_class_matches_std() {
    for c in (0u32..0x3100).filter_map(char::from_u32) {
        let text = format!(";x{}y", c);
        let expected = if c.is_whitespace() {
            if c == '\n' { "x".to_string() } else { "x y".to_string() }
        } else {
            format!("x{}y", c)
        };
        assert_eq!(lex(&text), if c == '\n' { vec![note(&expected), arg("Y")] } else { vec![note(&expected)] }, "{:?}", c);
    }
}

#[test]
fn leading_unicode_white_space_is_invisible() {
    assert_eq!(lex("\u{3000}\u{a0} mvi b, 0ah"), lex("mvi b, 0ah"));
}

#[test]
fn white_space_separates_texts() {
    let a = "MOV A, B ; copy";
    let b = "HLT";
    let mut expected = lex(a);
    expected.extend(lex(b));
    assert_eq!(lex(&format!("{}\n\t{}", a, b)), expected);
    assert_eq!(lex("ADD B   SUB C"), vec![op("ADD"), arg("B"), op("SUB"), arg("C")]);
}

#[test]
fn comment_runs_on_without_newline() {
    assert_eq!(lex("; a  HLT"), vec![note("a HLT")]);
}
