use tiny_compiler::lab1::category::LexemeCategory;
use tiny_compiler::lab1::char_set::CharSetTable;
use tiny_compiler::lab1::graph::GraphCounter;
use tiny_compiler::lab1::regular_expression::RegularTable;
use tiny_compiler::lab3::build_tiny_lexer_dfa;
use tiny_compiler::lab3::regex_lang::{build_nfa_from_defs, name_to_category, parse_regex_definitions};
use tiny_compiler::lab3::TINY_LEX_FULL_DEF;

#[test]
fn test_lab3_sample_tiny_scan() {
    let mut t = CharSetTable::new();
    let mut counter = GraphCounter::new();
    let mut regs = RegularTable::new();
    let dfa = build_tiny_lexer_dfa(&mut t, &mut counter, &mut regs).expect("dfa");

    let sample = r#"
            { Sample program in TINY language - computes factorial }
            read x; { input an integer }
            if 0 < x then { don't compute if x <= 0 }
                fact := 1;
                repeat
                    fact := fact * x;
                    x := x - 1
                until x = 0;
                write fact { output factorial of x }
            end
        "#;

    let tokens = dfa.long_text_search(&t, sample);
    let meaningful: Vec<_> = tokens
        .iter()
        .filter(|t| t.lexeme_category != LexemeCategory::SPACE_CONST && t.lexeme_category != LexemeCategory::NOTE)
        .collect();

    assert!(!meaningful.is_empty(), "应该能扫描出 token");

    let has_read = meaningful.iter().any(|t| t.identify.as_deref() == Some("read"));
    let has_if = meaningful.iter().any(|t| t.identify.as_deref() == Some("if"));
    let has_end = meaningful.iter().any(|t| t.identify.as_deref() == Some("end"));
    let has_write = meaningful.iter().any(|t| t.identify.as_deref() == Some("write"));

    assert!(has_read, "应该包含 read 关键字");
    assert!(has_if, "应该包含 if 关键字");
    assert!(has_end, "应该包含 end 关键字");
    assert!(has_write, "应该包含 write 关键字");
}

#[test]
fn category_names() {
    assert_eq!(name_to_category("keyword"), LexemeCategory::KEYWORD);
    assert_eq!(name_to_category("crlf"), LexemeCategory::SPACE_CONST);
    assert_eq!(name_to_category("reserved"), LexemeCategory::LOGIC_OPERATOR);
    assert_eq!(name_to_category("cc"), LexemeCategory::STRING_CONST);
    assert_eq!(name_to_category("whatever"), LexemeCategory::ID);
}

#[test]
fn full_tiny_definitions_and_their_categories() {
    let defs = parse_regex_definitions(TINY_LEX_FULL_DEF);
    let names: Vec<&str> = defs.iter().map(|d| d.name.as_str()).collect();
    assert_eq!(
        names,
        vec![
            "digit", "letter", "letter_or_digit", "keyword", "numeric_op", "compare_op", "logic_op", "assign", "id",
            "integer_const", "note", "space", "lexeme"
        ]
    );
    assert_eq!(defs[3].pattern, "'i' 'f' | 't' 'h' 'e' 'n' | 'e' 'l' 's' 'e' | 'e' 'n' 'd' | 'r' 'e' 'p' 'e' 'a' 't' | 'u' 'n' 't' 'i' 'l' | 'r' 'e' 'a' 'd' | 'w' 'r' 'i' 't' 'e'");
    assert!(defs[3].is_token);
    assert!(!defs[0].is_token);
    let mut t = CharSetTable::new();
    let mut counter = GraphCounter::new();
    let (nfa, map) = build_nfa_from_defs(&defs, &mut t, &mut counter).expect("nfa");
    assert!(!nfa.pStateTable.is_empty());
    assert_eq!(map.len(), 9);
    assert!(map.contains(&("integer_const".to_string(), LexemeCategory::INTEGER_CONST)));
    assert!(map.contains(&("assign".to_string(), LexemeCategory::ASSIGN_OPERATOR)));
}

#[test]
fn small_definitions_build_an_automaton() {
    let defs = parse_regex_definitions("@id -> ('a'..'c')+\n@num -> '0' | '1'\n");
    let mut t = CharSetTable::new();
    let mut counter = GraphCounter::new();
    let (nfa, map) = build_nfa_from_defs(&defs, &mut t, &mut counter).expect("nfa");
    assert_eq!(map, vec![("id".to_string(), LexemeCategory::ID), ("num".to_string(), LexemeCategory::ID)]);
    // The last definition is the union of two characters.
    assert_eq!(nfa.pStateTable.len(), 6);
    let empty = build_nfa_from_defs(&Vec::new(), &mut t, &mut counter).expect("empty");
    assert!(empty.0.pStateTable.is_empty());
    assert!(empty.1.is_empty());
}
