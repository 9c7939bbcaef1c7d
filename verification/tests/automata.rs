use std::collections::HashSet;
use tiny_compiler::lab1::category::LexemeCategory;
use tiny_compiler::lab1::char_set::{difference_charset_char, difference_charsets, has_contain_char, range, segments_of, union_charset_char, union_chars, CharSet, CharSetTable};
use tiny_compiler::lab1::graph::{closure, generateBasicNFA, product, union, GraphCounter};
use tiny_compiler::lab1::lexer::create_tiny_lexical_dfa;
use tiny_compiler::lab1::regular_expression::RegularTable;

#[test]
fn char_set_range_and_union() {
    let mut t = CharSetTable::new();
    let digits = range(&mut t, '0', '9');
    assert!(has_contain_char(&t, digits, '5'));
    assert!(!has_contain_char(&t, digits, 'a'));
    let ab = union_chars(&mut t, 'a', 'b');
    assert!(has_contain_char(&t, ab, 'a'));
    assert!(has_contain_char(&t, ab, 'b'));
    assert!(!has_contain_char(&t, ab, 'c'));
    let no5 = difference_charset_char(&mut t, digits, '5');
    assert!(has_contain_char(&t, no5, '4'));
    assert!(!has_contain_char(&t, no5, '5'));
    assert!(has_contain_char(&t, no5, '6'));
}

#[test]
fn basic_nfa_has_one_edge() {
    let mut c = GraphCounter::new();
    let g = generateBasicNFA(&mut c, "CHAR", 3, Some(LexemeCategory::ID));
    assert_eq!(g.numOfStates, 2);
    assert_eq!(g.pEdgeTable.len(), 1);
    assert_eq!(g.pEdgeTable[0].fromState, 0);
    assert_eq!(g.pEdgeTable[0].nextState, 1);
    assert_eq!(g.pEdgeTable[0].driverId, 3);
    assert_eq!(g.pStateTable[1].StateType, "MATCH");
}

#[test]
fn thompson_constructions_and_subset_construction() {
    let mut t = CharSetTable::new();
    let mut c = GraphCounter::new();
    let a = union_chars(&mut t, 'a', 'a');
    let b = union_chars(&mut t, 'b', 'b');
    let ga = generateBasicNFA(&mut c, "CHARSET", a, None);
    let gb = generateBasicNFA(&mut c, "CHARSET", b, Some(LexemeCategory::ID));
    let ab = product(&mut c, ga.copyGraph(), gb.copyGraph());
    let star = closure(&mut c, ab);
    let gb2 = generateBasicNFA(&mut c, "CHARSET", b, Some(LexemeCategory::ID));
    let alt = union(&mut c, star, gb2);
    let dfa = alt.NFA_to_DFA(&t, &mut c);
    let mut start = HashSet::new();
    start.insert(0);
    let cl = alt.epsilon_closure(&start);
    assert!(cl.contains(&0));
    assert!(dfa.numOfStates >= 1);
    for e in &dfa.pEdgeTable {
        assert!(e.fromState < dfa.numOfStates);
        assert!(e.nextState < dfa.numOfStates);
    }
}

#[test]
fn tiny_lexer_scans_keywords_ids_and_numbers() {
    let mut t = CharSetTable::new();
    let mut c = GraphCounter::new();
    let mut regs = RegularTable::new();
    let dfa = create_tiny_lexical_dfa(&mut t, &mut c, &mut regs);
    let toks = dfa.long_text_search(&t, "read x; write 42");
    let cats: Vec<LexemeCategory> = toks.iter().map(|k| k.lexeme_category).collect();
    assert_eq!(
        cats,
        vec![
            LexemeCategory::KEYWORD,
            LexemeCategory::ID,
            LexemeCategory::LOGIC_OPERATOR,
            LexemeCategory::KEYWORD,
            LexemeCategory::INTEGER_CONST,
        ]
    );
    assert_eq!(toks[0].identify.as_deref(), Some("read"));
    assert_eq!(toks[1].identify.as_deref(), Some("x"));
    assert_eq!(toks[4].value, Some(42));
}

#[test]
fn tiny_lexer_dfa_edges_are_ordered_and_deterministic() {
    let mut t = CharSetTable::new();
    let mut c = GraphCounter::new();
    let mut regs = RegularTable::new();
    let dfa = create_tiny_lexical_dfa(&mut t, &mut c, &mut regs);
    let edges = &dfa.pEdgeTable;
    assert!(!edges.is_empty());
    for a in 0..edges.len() {
        for b in (a + 1)..edges.len() {
            let (ea, eb) = (&edges[a], &edges[b]);
            assert!(ea.fromState <= eb.fromState);
            if ea.fromState == eb.fromState {
                assert!(!(ea.DriverType == "CHARSET" && eb.DriverType == "CHAR"));
                if ea.DriverType == eb.DriverType {
                    assert_ne!(ea.driverId, eb.driverId);
                }
            }
        }
    }
}

#[test]
fn tiny_lexer_character_sets_hold_their_characters() {
    let mut t = CharSetTable::new();
    let mut c = GraphCounter::new();
    let mut regs = RegularTable::new();
    let _dfa = create_tiny_lexical_dfa(&mut t, &mut c, &mut regs);
    // Sets are numbered from 1 in the order they are built: a-z, A-Z, 0-9,
    // the letters, letters and digits, then one set per lower-case letter.
    assert!(has_contain_char(&t, 4, 'q') && has_contain_char(&t, 4, 'Q') && !has_contain_char(&t, 4, '7'));
    assert!(has_contain_char(&t, 5, '7') && has_contain_char(&t, 5, 'z') && !has_contain_char(&t, 5, '+'));
    assert!(has_contain_char(&t, 6, 'a') && !has_contain_char(&t, 6, 'b'));
    assert!(has_contain_char(&t, 31, 'z') && !has_contain_char(&t, 31, 'y'));
    assert!(has_contain_char(&t, 32, '+') && !has_contain_char(&t, 32, '-'));
    assert!(has_contain_char(&t, 42, ' ') && !has_contain_char(&t, 42, ':'));
    assert!(has_contain_char(&t, 43, '{') && has_contain_char(&t, 44, '}'));
}

#[test]
fn difference_with_a_set_beside_the_surrogate_gap() {
    let mut t = CharSetTable::new();
    let ab = range(&mut t, 'a', 'b');
    let private_use = range(&mut t, '\u{E000}', '\u{E001}');
    let d = difference_charsets(&mut t, ab, private_use);
    assert!(has_contain_char(&t, d, 'a'));
    assert!(has_contain_char(&t, d, 'b'));
    assert!(!has_contain_char(&t, d, '\u{E000}'));
    let back = difference_charsets(&mut t, private_use, ab);
    assert!(has_contain_char(&t, back, '\u{E001}'));
    assert!(!has_contain_char(&t, back, 'a'));
}

#[test]
fn union_charset_char_joins_the_segments_around_the_char() {
    let mut t = CharSetTable::new();
    let s = union_chars(&mut t, 'a', 'c');
    assert_eq!(s, 1);
    let r = union_charset_char(&mut t, s, 'b');
    assert_eq!(r, 2);
    assert_eq!(
        segments_of(&t, 2),
        vec![CharSet { indexId: 2, segementId: 1, fromChar: 'a', toChar: 'c' }]
    );
    assert_eq!(
        segments_of(&t, 1),
        vec![
            CharSet { indexId: 1, segementId: 1, fromChar: 'a', toChar: 'a' },
            CharSet { indexId: 1, segementId: 2, fromChar: 'c', toChar: 'c' },
        ]
    );
}

#[test]
fn union_charset_char_widens_or_appends() {
    let mut t = CharSetTable::new();
    let d = range(&mut t, 'c', 'e');
    let left = union_charset_char(&mut t, d, 'f');
    assert_eq!(segments_of(&t, left), vec![CharSet { indexId: left, segementId: 1, fromChar: 'c', toChar: 'f' }]);
    let right = union_charset_char(&mut t, d, 'b');
    assert_eq!(segments_of(&t, right), vec![CharSet { indexId: right, segementId: 1, fromChar: 'b', toChar: 'e' }]);
    let apart = union_charset_char(&mut t, d, 'x');
    assert_eq!(
        segments_of(&t, apart),
        vec![
            CharSet { indexId: apart, segementId: 1, fromChar: 'c', toChar: 'e' },
            CharSet { indexId: apart, segementId: 2, fromChar: 'x', toChar: 'x' },
        ]
    );
    let inside = union_charset_char(&mut t, d, 'd');
    assert_eq!(segments_of(&t, inside), vec![CharSet { indexId: inside, segementId: 1, fromChar: 'c', toChar: 'e' }]);
}

#[test]
fn minimisation_keeps_accepting_states_of_different_categories_apart() {
    let count = |g: &tiny_compiler::lab1::graph::Graph, cat: LexemeCategory| {
        g.pStateTable.iter().filter(|s| s.StateType == "MATCH" && s.LexemeCategory == Some(cat)).count()
    };
    let mut c = GraphCounter::new();
    let ga = generateBasicNFA(&mut c, "CHAR", 1, Some(LexemeCategory::ID));
    let gb = generateBasicNFA(&mut c, "CHAR", 2, Some(LexemeCategory::KEYWORD));
    let mixed = union(&mut c, ga, gb).minimize_nfa(&mut c);
    assert_eq!(count(&mixed, LexemeCategory::ID), 1);
    assert_eq!(count(&mixed, LexemeCategory::KEYWORD), 1);

    let ga = generateBasicNFA(&mut c, "CHAR", 1, Some(LexemeCategory::ID));
    let gb = generateBasicNFA(&mut c, "CHAR", 2, Some(LexemeCategory::ID));
    let same = union(&mut c, ga, gb).minimize_nfa(&mut c);
    assert_eq!(count(&same, LexemeCategory::ID), 1);
    assert!(same.pStateTable.len() < mixed.pStateTable.len());
}
