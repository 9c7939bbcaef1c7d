use tiny_compiler::lab2::display::{fmt_body, fmt_item, fmt_production};
use tiny_compiler::lab2::first::{compute_first_sets, first_of_sequence};
use tiny_compiler::lab2::follow::compute_follow_sets;
use tiny_compiler::lab2::ll1::{build_ll1_parse_table, check_ll1};
use tiny_compiler::lab2::lr0::{build_lr0_dfa, exhaust_transitions, get_closure};
use tiny_compiler::lab2::samples::{
    make_arith_extended_grammar, make_arith_grammar, make_ll1_test1, make_ll1_test2, make_tiny_grammar,
};
use tiny_compiler::lab2::slr::{build_lr_parse_table, check_slr1};
use tiny_compiler::lab2::types::{ActionCategory, Grammar, GrammarSymbol, ItemSet, LR0Item, SymbolType};

fn sym<'a>(g: &'a Grammar, n: &str) -> &'a GrammarSymbol {
    g.symbols.iter().find(|s| s.name == n).expect("symbol")
}

fn strings(v: &[&str]) -> Vec<String> {
    v.iter().map(|s| s.to_string()).collect()
}

fn analysed(mut g: Grammar) -> Grammar {
    compute_first_sets(&mut g);
    compute_follow_sets(&mut g);
    g
}

#[test]
fn new_grammar_is_augmented() {
    let g = make_arith_grammar();
    assert_eq!(g.aug_root, "E'");
    assert_eq!(g.non_terminals, strings(&["E'", "E", "T", "F"]));
    assert_eq!(g.terminals, strings(&["+", "*", "(", ")", "id", "$"]));
    assert_eq!(g.productions.len(), 7);
    assert_eq!(g.productions[0].head, "E'");
    assert_eq!(g.productions[0].body, strings(&["E"]));
    assert_eq!(g.productions[1].production_id, 1);
    assert_eq!(g.productions[1].body, strings(&["E", "+", "T"]));
    assert_eq!(sym(&g, "E").productions, vec![1, 2]);
    assert_eq!(sym(&g, "id").first_set, strings(&["id"]));
    assert_eq!(sym(&g, "id").sym_type, SymbolType::Terminal);
    assert!(g.is_nonterminal("T"));
    assert!(!g.is_nonterminal("id"));
    assert!(g.is_terminal("$"));
    assert!(!g.is_terminal("X"));
    let names: Vec<&str> = g.symbols.iter().map(|s| s.name.as_str()).collect();
    let mut sorted = names.clone();
    sorted.sort();
    assert_eq!(names, sorted);
}

#[test]
fn epsilon_body_is_empty() {
    let g = make_ll1_test2();
    assert!(g.productions[3].is_epsilon());
    assert!(!g.productions[2].is_epsilon());
}

#[test]
fn first_and_follow_of_arithmetic_grammar() {
    let g = analysed(make_arith_grammar());
    for nt in ["E", "T", "F"] {
        assert_eq!(sym(&g, nt).first_set, strings(&["(", "id"]));
    }
    assert_eq!(sym(&g, "E").follow_set, strings(&["$", ")", "+"]));
    assert_eq!(sym(&g, "T").follow_set, strings(&["$", ")", "*", "+"]));
    assert_eq!(sym(&g, "F").follow_set, strings(&["$", ")", "*", "+"]));
    assert_eq!(sym(&g, "E'").follow_set, strings(&["$"]));
    assert_eq!(g.productions[6].first_set, strings(&["id"]));
    assert_eq!(first_of_sequence(&g, &strings(&["T", "+"])), strings(&["(", "id"]));
    assert_eq!(first_of_sequence(&g, &[]), strings(&["ε"]));
}

#[test]
fn first_sets_with_epsilon() {
    let g = analysed(make_ll1_test2());
    assert_eq!(sym(&g, "S").first_set, strings(&["(", "ε"]));
    assert_eq!(sym(&g, "T").first_set, strings(&["(", "ε"]));
    assert_eq!(sym(&g, "S").follow_set, strings(&["$", "(", ")"]));
    assert_eq!(sym(&g, "T").follow_set, strings(&["$", "(", ")"]));
    assert!(sym(&g, "S").dependent_in_follow.contains(&"S".to_string()));
    assert!(sym(&g, "S").dependent_in_follow.contains(&"T".to_string()));
}

#[test]
fn computing_first_twice_changes_nothing() {
    let mut g = analysed(make_arith_grammar());
    let before: Vec<Vec<String>> = g.symbols.iter().map(|s| s.first_set.clone()).collect();
    compute_first_sets(&mut g);
    let after: Vec<Vec<String>> = g.symbols.iter().map(|s| s.first_set.clone()).collect();
    assert_eq!(before, after);
}

#[test]
fn ll1_table_without_conflicts() {
    let g = analysed(make_ll1_test1());
    let table = build_ll1_parse_table(&g);
    let keys: Vec<(String, String)> = table.cells.iter().map(|c| c.0.clone()).collect();
    assert_eq!(
        keys,
        vec![
            ("S".to_string(), "*".to_string()),
            ("S".to_string(), "+".to_string()),
            ("S".to_string(), "a".to_string()),
        ]
    );
    assert_eq!(table.cells[0].1, vec![2]);
    assert_eq!(table.cells[1].1, vec![1]);
    assert_eq!(table.cells[2].1, vec![3]);
    let (ok, conflicts) = check_ll1(&table);
    assert!(ok);
    assert!(conflicts.is_empty());
}

#[test]
fn ll1_table_with_conflict() {
    let g = analysed(make_ll1_test2());
    let table = build_ll1_parse_table(&g);
    let (ok, conflicts) = check_ll1(&table);
    assert!(!ok);
    assert_eq!(conflicts, vec!["M[S, (] 中存在多条产生式 [2, 3]".to_string()]);
}

#[test]
fn closure_of_start_item() {
    let g = analysed(make_arith_grammar());
    let mut is = ItemSet::new(0, vec![LR0Item { production_id: 0, dot_position: 0 }]);
    get_closure(&mut is, &g);
    let items: Vec<(usize, usize)> = is.items.iter().map(|i| (i.production_id, i.dot_position)).collect();
    assert_eq!(items, vec![(0, 0), (1, 0), (2, 0), (3, 0), (4, 0), (5, 0), (6, 0)]);
    assert_eq!(is.core_items.len(), 1);
    let trans = exhaust_transitions(&is, &g);
    let keys: Vec<&str> = trans.iter().map(|t| t.0.as_str()).collect();
    assert_eq!(keys, vec!["(", "E", "F", "T", "id"]);
    let over_e: Vec<(usize, usize)> = trans[1].1.iter().map(|i| (i.production_id, i.dot_position)).collect();
    assert_eq!(over_e, vec![(0, 1), (1, 1)]);
}

#[test]
fn lr0_automaton_of_arithmetic_grammar() {
    let g = analysed(make_arith_grammar());
    let dfa = build_lr0_dfa(&g);
    assert_eq!(dfa.item_sets.len(), 12);
    assert_eq!(dfa.start_state, 0);
    for (i, s) in dfa.item_sets.iter().enumerate() {
        assert_eq!(s.state_id, i);
    }
    for i in 0..dfa.item_sets.len() {
        for j in 0..i {
            assert_ne!(dfa.item_sets[i].core_items, dfa.item_sets[j].core_items);
        }
    }
    let from0: Vec<(&str, usize)> = dfa
        .edges
        .iter()
        .filter(|e| e.from_state == 0)
        .map(|e| (e.driver_symbol.as_str(), e.to_state))
        .collect();
    assert_eq!(from0, vec![("(", 1), ("E", 2), ("F", 3), ("T", 4), ("id", 5)]);
    let (ok, conflicts) = check_slr1(&dfa, &g);
    assert!(ok);
    assert!(conflicts.is_empty());
}

#[test]
fn slr_table_of_arithmetic_grammar() {
    let g = analysed(make_arith_grammar());
    let dfa = build_lr0_dfa(&g);
    let table = build_lr_parse_table(&dfa, &g);
    assert!(table.conflicts.is_empty());
    let accepts: Vec<&((usize, String), tiny_compiler::lab2::types::ActionCell)> =
        table.action.iter().filter(|e| e.1.action_type == ActionCategory::Accept).collect();
    assert_eq!(accepts.len(), 1);
    assert_eq!(accepts[0].0, (2, "$".to_string()));
    let shift_id = table.action.iter().find(|e| e.0 == (0, "id".to_string())).expect("shift");
    assert_eq!(shift_id.1.action_type, ActionCategory::Shift);
    assert_eq!(shift_id.1.id, 5);
    let reduce_id = table.action.iter().find(|e| e.0 == (5, "+".to_string())).expect("reduce");
    assert_eq!(reduce_id.1.action_type, ActionCategory::Reduce);
    assert_eq!(reduce_id.1.id, 6);
    let goto_e = table.goto.iter().find(|e| e.0 == (0, "E".to_string())).expect("goto");
    assert_eq!(goto_e.1.next_state, 2);
}

#[test]
fn extended_and_tiny_grammars_build() {
    let g = analysed(make_arith_extended_grammar());
    let dfa = build_lr0_dfa(&g);
    let (ok, conflicts) = check_slr1(&dfa, &g);
    assert_eq!(ok, conflicts.is_empty());
    assert!(ok);
    let t = analysed(make_tiny_grammar());
    assert_eq!(t.productions.len(), 25);
    let tdfa = build_lr0_dfa(&t);
    assert!(tdfa.item_sets.len() > 1);
    let table = build_lr_parse_table(&tdfa, &t);
    let (tok, tconf) = check_slr1(&tdfa, &t);
    assert_eq!(tok, tconf.is_empty());
    assert_eq!(table.conflicts.is_empty(), tconf.is_empty());
}

#[test]
fn text_of_productions_and_items() {
    let g = make_arith_grammar();
    assert_eq!(fmt_body(&[]), "ε");
    assert_eq!(fmt_body(&strings(&["E", "+", "T"])), "E + T");
    assert_eq!(fmt_production(&g.productions[1]), "E → E + T");
    let it = LR0Item { production_id: 1, dot_position: 1 };
    assert_eq!(fmt_item(&it, &g), "E → E · + T");
    let end = LR0Item { production_id: 6, dot_position: 1 };
    assert_eq!(fmt_item(&end, &g), "F → id ·");
    let e = make_ll1_test2();
    assert_eq!(fmt_production(&e.productions[3]), "S → ε");
    assert_eq!(fmt_item(&LR0Item { production_id: 3, dot_position: 0 }, &e), "S → ·");
}
