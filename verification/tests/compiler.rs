use tiny_compiler::lab1::category::LexemeCategory;
use tiny_compiler::lab1::token::Token;
use tiny_compiler::lab4::scanner::classify_tokens;
use tiny_compiler::lab4::compile::compile_str;
use tiny_compiler::lab4::error::CompileError;
use tiny_compiler::lab4::scanner::scan;
use tiny_compiler::lab4::token::TinyTokenKind;

#[test]
fn scan_read_write_program() {
    let toks = scan("read x; write x").expect("scans");
    let kinds: Vec<TinyTokenKind> = toks.iter().map(|t| t.kind.clone()).collect();
    assert_eq!(
        kinds,
        vec![
            TinyTokenKind::Read,
            TinyTokenKind::Id("x".to_string()),
            TinyTokenKind::Semi,
            TinyTokenKind::Write,
            TinyTokenKind::Id("x".to_string()),
            TinyTokenKind::Eof,
        ]
    );
}

#[test]
fn scan_numbers_and_operators() {
    let toks = scan("x := 12 + 3").expect("scans");
    let kinds: Vec<TinyTokenKind> = toks.iter().map(|t| t.kind.clone()).collect();
    assert_eq!(
        kinds,
        vec![
            TinyTokenKind::Id("x".to_string()),
            TinyTokenKind::Assign,
            TinyTokenKind::Num(12),
            TinyTokenKind::Plus,
            TinyTokenKind::Num(3),
            TinyTokenKind::Eof,
        ]
    );
    assert_eq!(toks[2].lexeme, "12");
}

#[test]
fn scan_treats_newlines_and_tabs_as_spaces() {
    let a = scan("read x;\nwrite\tx").expect("scans");
    let b = scan("read x; write x").expect("scans");
    assert_eq!(a, b);
}

#[test]
fn compile_read_write() {
    let tm = compile_str("read x; write x").expect("compiles");
    let expected = [
        "  0:  LD    6,0(0)\t* load maxaddress from location 0",
        "  1:  LDC   5,0(0)\t* set GP = 0",
        "  2:  ST    0,0(0)\t* clear location 0",
        "  3:  IN    0,0,0\t* read integer",
        "  4:  ST    0,0(5)\t* store to x",
        "  5:  LD    0,0(5)\t* load id x",
        "  6:  OUT   0,0,0\t* write integer",
        "  7:  HALT  0,0,0\t* done",
        "",
    ]
    .join("\n");
    assert_eq!(tm, expected);
}

#[test]
fn compile_factorial_program() {
    let src = "read x;\nif 0 < x then\n  fact := 1;\n  repeat\n    fact := fact * x;\n    x := x - 1\n  until x = 0;\n  write fact\nend";
    let tm = compile_str(src).expect("compiles");
    assert!(tm.starts_with("  0:  LD    6,0(0)"));
    assert!(tm.ends_with("HALT  0,0,0\t* done\n"));
    assert!(tm.contains("* store to x"));
    assert!(tm.contains("* assign to fact"));
    assert!(tm.contains("MUL"));
    assert!(tm.contains("SUB"));
}

#[test]
fn compile_reports_parse_error() {
    match compile_str("read ;") {
        Err(CompileError::Parse(_)) => {}
        other => panic!("expected a parse error, got {:?}", other),
    }
}

#[test]
fn compile_reports_missing_end() {
    match compile_str("if x < 1 then write x") {
        Err(CompileError::Parse(_)) => {}
        other => panic!("expected a parse error, got {:?}", other),
    }
}

#[test]
fn classify_tokens_reports_the_first_error_with_its_message() {
    let tok = |cat: LexemeCategory, text: &str| Token {
        lexeme_category: cat,
        symbol_type: String::new(),
        identify: Some(text.to_string()),
        value: None,
    };
    let raw = vec![tok(LexemeCategory::ID, "x"), tok(LexemeCategory::FLOAT_CONST, "1.5"), tok(LexemeCategory::KEYWORD, "foo")];
    match classify_tokens(&raw) {
        Err(CompileError::Semantic(m)) => assert_eq!(m, "当前实验四仅实现整数运算；不支持浮点常量: 1.5"),
        other => panic!("unexpected {:?}", other),
    }
    let raw = vec![tok(LexemeCategory::KEYWORD, "foo"), tok(LexemeCategory::FLOAT_CONST, "1.5")];
    match classify_tokens(&raw) {
        Err(CompileError::Lex(m)) => assert_eq!(m, "未知关键字: foo"),
        other => panic!("unexpected {:?}", other),
    }
    let raw = vec![tok(LexemeCategory::COMPARE_OPERATOR, "<>")];
    match classify_tokens(&raw) {
        Err(CompileError::Lex(m)) => assert_eq!(m, "未知比较运算符: <>"),
        other => panic!("unexpected {:?}", other),
    }
}
