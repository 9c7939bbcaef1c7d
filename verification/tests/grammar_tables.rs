use tiny_compiler::lab2::tables::follow_circle::create_follow_circle_case;
use tiny_compiler::lab2::tables::items::{ItemSet, ItemType, LR0Item};
use tiny_compiler::lab2::tables::supplementary::{
    clear_lab2_tables, get_nts_index, get_ts, none_terminal_symbol, register_non_terminal, register_terminal, ts_null,
    Lab2Tables,
};
use tiny_compiler::lab2::tables::symbols::{GrammarSymbol, NonTerminalSymbol, Production, TerminalSymbol};
use tiny_compiler::lab2::tables::task1::{get_Production_FIRST, test1};
use tiny_compiler::lab2::tables::task2::{
    contains, create_LR1_Analysis_Table, exhaustTransition, getAcc, getClosure, judgeSetHasUnion, judge_SLR1, test2,
    test2_1, test2_6,
};
use tiny_compiler::lab2::tables::task3::{
    create_Arithmetic_Grammar, create_Arithmetic_Grammar_LR0_DFA, create_TINY_Grammar, create_TINY_LR0_DFA,
    judge_step, reset_lab2_state, test_TINY1, test_TINY2, test_TINY3, ActOutcome, StepOutcome,
};

fn names(v: &[TerminalSymbol]) -> Vec<String> {
    let mut n: Vec<String> = v.iter().map(|t| t.name.clone()).collect();
    n.sort();
    n
}

fn strs(v: &[&str]) -> Vec<String> {
    v.iter().map(|s| s.to_string()).collect()
}

fn first_of(t: &Lab2Tables, n: &str) -> Vec<String> {
    names(&t.all_nts.iter().find(|x| x.name == n).unwrap().pFirstSet)
}

fn follow_of(t: &Lab2Tables, n: &str) -> Vec<String> {
    names(&t.all_nts.iter().find(|x| x.name == n).unwrap().pFollowSet)
}

fn run(t: &Lab2Tables, toks: &Vec<String>) -> &'static str {
    let mut stack: Vec<i64> = vec![0];
    let mut pos: usize = 0;
    let mut steps = 0;
    while !stack.is_empty() {
        steps += 1;
        assert!(steps < 100000);
        assert!(pos < toks.len());
        match judge_step(t, &mut stack, &mut pos, toks) {
            StepOutcome::NoAction => return "error",
            StepOutcome::Acted(_, _, o) => match o {
                ActOutcome::Accepted => return "accepted",
                ActOutcome::StackRanOut | ActOutcome::NoGoto => return "error",
                ActOutcome::Fault => return "fault",
                _ => {}
            },
        }
    }
    "empty"
}

#[test]
fn test1_first_and_follow() {
    let mut t = Lab2Tables::new();
    test1(&mut t);
    assert_eq!(t.all_nts.len(), 4);
    assert_eq!(t.all_productions.len(), 7);
    assert_eq!(first_of(&t, "S"), strs(&["(", "a"]));
    assert_eq!(first_of(&t, "B"), strs(&["(", "+", "a", "null"]));
    assert_eq!(first_of(&t, "T"), strs(&["(", "a"]));
    assert_eq!(first_of(&t, "S'"), strs(&["(", "+", "a"]));
    for n in ["S", "B", "T", "S'"] {
        assert_eq!(follow_of(&t, n), strs(&["$", "(", ")", "+", "a"]));
    }
    assert_eq!(names(&t.all_productions[0].pFirstSet), strs(&["(", "a"]));
    assert_eq!(names(&t.all_productions[2].pFirstSet), strs(&["null"]));
    assert_eq!(names(&t.all_productions[3].pFirstSet), strs(&["+"]));
    assert_eq!(get_nts_index(&t, "T"), Some(2));
    assert!(get_ts(&t, "a").is_some());
    assert!(get_ts(&t, "b").is_none());
}

#[test]
fn follow_circle_case_sets() {
    let mut t = Lab2Tables::new();
    create_follow_circle_case(&mut t);
    assert_eq!(first_of(&t, "B"), strs(&["(", "+", "a", "null"]));
    assert_eq!(follow_of(&t, "S'"), strs(&["$", "(", ")", "+", "a"]));
}

#[test]
fn production_first_of_a_body() {
    let mut t = Lab2Tables::new();
    test1(&mut t);
    let mut p = Production::new(9, 2);
    p.pBodySymbolTable.push(GrammarSymbol::NonTerminal("B".to_string()));
    p.pBodySymbolTable.push(GrammarSymbol::NonTerminal("T".to_string()));
    get_Production_FIRST(&t.all_nts, &mut p);
    assert_eq!(names(&p.pFirstSet), strs(&["(", "+", "a"]));
    let mut q = Production::new(10, 0);
    get_Production_FIRST(&t.all_nts, &mut q);
    assert_eq!(names(&q.pFirstSet), strs(&["null"]));
}

#[test]
fn grammar_3_6_automaton_and_table() {
    let mut t = Lab2Tables::new();
    test2(&mut t);
    assert_eq!(follow_of(&t, "E"), strs(&["$", ")", "+"]));
    assert_eq!(follow_of(&t, "T"), strs(&["$", ")", "*", "+"]));
    test2_1(&mut t);
    assert_eq!(t.item_sets.len(), 13);
    assert_eq!(t.transition_edges.len(), 23);
    assert_eq!(t.item_sets[0].pItemTable.len(), 7);
    for (k, s) in t.item_sets.iter().enumerate() {
        assert_eq!(s.stateId, k as i64);
    }
    assert!(judge_SLR1(&t));
    let acc = getAcc(&t);
    assert_eq!(acc.pItemTable.len(), 1);
    create_LR1_Analysis_Table(&mut t);
    assert_eq!(t.action_cells.len(), 13);
    assert_eq!(t.goto_cells.len(), 13);
    assert_eq!(run(&t, &test2_6()), "accepted");
    assert_eq!(run(&t, &strs(&["id", "+", "$"])), "error");
    assert_eq!(run(&t, &strs(&["(", "id", ")", "$"])), "accepted");
}

#[test]
fn closure_of_the_start_item() {
    let mut t = Lab2Tables::new();
    test2(&mut t);
    let mut i0 = ItemSet::new(0);
    i0.pItemTable.push(LR0Item::new("E'", t.all_productions[0].clone(), 0, ItemType::Core));
    getClosure(&t.all_nts, &mut i0);
    assert_eq!(i0.pItemTable.len(), 7);
    assert_eq!(i0.pItemTable[0].itemType, ItemType::Core);
    let mut heads: Vec<String> = i0.pItemTable[1..].iter().map(|i| i.nonTerminalSymbol.clone()).collect();
    heads.sort();
    assert_eq!(heads, strs(&["E", "E", "F", "F", "T", "T"]));
    assert!(i0.pItemTable[1..].iter().all(|i| i.dotPosition == 0 && i.itemType == ItemType::NonCore));
}

#[test]
fn contains_finds_the_same_state() {
    let mut t = Lab2Tables::new();
    test2(&mut t);
    test2_1(&mut t);
    let mut probe = ItemSet::new(99);
    for it in t.item_sets[5].pItemTable.iter() {
        probe.pItemTable.push(it.clone());
    }
    assert!(contains(&t, &mut probe));
    assert_eq!(probe.stateId, 5);
    let mut other = ItemSet::new(77);
    other.pItemTable.push(LR0Item::new("E", t.all_productions[1].clone(), 3, ItemType::Core));
    other.pItemTable.push(LR0Item::new("E", t.all_productions[1].clone(), 3, ItemType::Core));
    assert!(!contains(&t, &mut other));
    assert_eq!(other.stateId, 77);
}

#[test]
fn set_union_check() {
    let a = TerminalSymbol::new("a", "TERMINAL", "ID");
    let b = TerminalSymbol::new("b", "TERMINAL", "ID");
    let c = TerminalSymbol::new("c", "TERMINAL", "ID");
    assert!(!judgeSetHasUnion(&vec![vec![a.clone()], vec![b.clone()], vec![c.clone()]]));
    assert!(judgeSetHasUnion(&vec![vec![a.clone(), b.clone()], vec![c.clone()], vec![b.clone()]]));
    assert!(!judgeSetHasUnion(&vec![]));
}

#[test]
fn arithmetic_grammar_is_not_slr1() {
    let mut t = Lab2Tables::new();
    create_Arithmetic_Grammar(&mut t);
    assert_eq!(follow_of(&t, "T"), strs(&["$", ")", "*", "+", "-", "/"]));
    create_Arithmetic_Grammar_LR0_DFA(&mut t);
    assert_eq!(t.item_sets.len(), 18);
    assert_eq!(t.transition_edges.len(), 36);
    assert!(!judge_SLR1(&t));
    create_LR1_Analysis_Table(&mut t);
    assert_eq!(run(&t, &strs(&["num", "*", "(", "+", "+", "num", ")", "+", "num", "$"])), "error");
}

#[test]
fn tiny_grammar_parses_the_samples() {
    let mut t = Lab2Tables::new();
    reset_lab2_state(&mut t);
    create_TINY_Grammar(&mut t);
    assert_eq!(t.all_nts.len(), 16);
    assert_eq!(t.all_productions.len(), 30);
    assert_eq!(first_of(&t, "statement"), strs(&["identifier", "if", "read", "repeat", "write"]));
    assert_eq!(follow_of(&t, "comparison-op"), strs(&["(", "Number", "identifier"]));
    create_TINY_LR0_DFA(&mut t);
    assert_eq!(t.item_sets.len(), 51);
    assert_eq!(t.transition_edges.len(), 138);
    assert!(judge_SLR1(&t));
    assert_eq!(run(&t, &test_TINY1()), "accepted");
    assert_eq!(run(&t, &test_TINY2()), "accepted");
    assert_eq!(run(&t, &test_TINY3()), "accepted");
    assert_eq!(run(&t, &strs(&["read", "$"])), "error");
}

#[test]
fn registry_and_reset() {
    let mut t = Lab2Tables::new();
    let i = register_non_terminal(&mut t, NonTerminalSymbol::new("A", "NONTERMINAL"));
    let j = register_non_terminal(&mut t, NonTerminalSymbol::new("B", "NONTERMINAL"));
    assert_eq!((i, j), (0, 1));
    register_terminal(&mut t, TerminalSymbol::new("x", "TERMINAL", "ID"));
    assert_eq!(get_nts_index(&t, "B"), Some(1));
    assert_eq!(get_ts(&t, "x").unwrap().symbolType, "TERMINAL");
    assert_eq!(ts_null().symbolType, "NULL");
    assert_eq!(none_terminal_symbol().name, "NONE");
    clear_lab2_tables(&mut t);
    assert!(t.all_nts.is_empty() && t.get_nts.is_empty() && t.get_ts.is_empty());
}

#[test]
fn exhaust_from_a_single_state() {
    let mut t = Lab2Tables::new();
    test2(&mut t);
    let mut i0 = ItemSet::new(0);
    i0.pItemTable.push(LR0Item::new("E'", t.all_productions[0].clone(), 0, ItemType::Core));
    getClosure(&t.all_nts, &mut i0);
    exhaustTransition(&mut t, i0);
    assert_eq!(t.item_sets.len(), 12);
}
