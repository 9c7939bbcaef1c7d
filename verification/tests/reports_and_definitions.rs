use tiny_compiler::lab2::first::compute_first_sets;
use tiny_compiler::lab2::follow::compute_follow_sets;
use tiny_compiler::lab2::ll1::build_ll1_parse_table;
use tiny_compiler::lab2::lr0::build_lr0_dfa;
use tiny_compiler::lab2::report::{
    html_conflicts, html_dfa, html_escape, html_first_follow, html_grammar_section, html_ll1_parse_table,
    html_lr_parse_table,
};
use tiny_compiler::lab2::samples::{make_arith_grammar, make_ll1_test1, make_ll1_test2, make_tiny_grammar};
use tiny_compiler::lab2::slr::build_lr_parse_table;
use tiny_compiler::lab2::types::Grammar;
use tiny_compiler::lab3::regex_lang::parse_regex_definitions;

fn analysed(mut g: Grammar) -> Grammar {
    compute_first_sets(&mut g);
    compute_follow_sets(&mut g);
    g
}

#[test]
fn escape_replaces_markup_characters() {
    assert_eq!(html_escape("a<b>&c"), "a&lt;b&gt;&amp;c");
    assert_eq!(html_escape("plain"), "plain");
    assert_eq!(html_escape(""), "");
}

#[test]
fn conflicts_badge_when_ok() {
    let h = html_conflicts(&Vec::new(), true, "SLR(1)");
    assert_eq!(h, "<div class=\"badge badge-ok\">\u{2714} 该文法是 SLR(1)</div>\n");
}

#[test]
fn conflicts_listed_when_not_ok() {
    let h = html_conflicts(&vec!["x<y".to_string()], false, "LL(1)");
    assert_eq!(
        h,
        "<div class=\"badge badge-ng\">\u{2718} 该文法不是 LL(1)，检测到 1 个冲突</div>\n<ul class=\"conflict-list\">\n<li>x&lt;y</li>\n</ul>\n"
    );
}

#[test]
fn grammar_section_lists_productions() {
    let g = make_ll1_test1();
    let h = html_grammar_section("G<1>", &g);
    assert!(h.contains("文法 \u{2014} G&lt;1&gt;</div>"));
    assert!(h.contains("<tr><td>1</td><td><code>S \u{2192} + S S</code></td></tr>\n"));
    assert!(h.ends_with("</tbody></table></div></div>\n"));
}

#[test]
fn first_follow_panel_has_a_row_per_non_terminal() {
    let g = analysed(make_ll1_test1());
    let h = html_first_follow(&g);
    assert!(h.contains("<tr><td>S</td>"));
    assert!(h.contains("<tr><td>S'</td>"));
    assert_eq!(h.matches("<tr><td>").count(), g.non_terminals.len());
}

#[test]
fn ll1_table_panel_exact() {
    let g = analysed(make_ll1_test1());
    let t = build_ll1_parse_table(&g);
    let h = html_ll1_parse_table(&g, &t);
    let expected = String::from(
        "<div class=\"panel\"><div class=\"panel-head\"><span class=\"ico\">\u{1f4ca}</span>LL(1) 分析表</div>\n<div class=\"panel-body compact\"><div class=\"tbl-scroll\"><table><thead><tr><th></th>",
    ) + "<th>+</th><th>*</th><th>a</th><th>$</th></tr></thead><tbody>\n"
        + "<tr><td>S</td><td class=\"act-reduce\">r1</td><td class=\"act-reduce\">r2</td><td class=\"act-reduce\">r3</td><td class=\"\">\u{b7}</td></tr>\n"
        + "</tbody></table></div></div></div>\n";
    assert_eq!(h, expected);
}

#[test]
fn ll1_table_panel_marks_conflicts() {
    let g = analysed(make_ll1_test2());
    let t = build_ll1_parse_table(&g);
    let h = html_ll1_parse_table(&g, &t);
    assert!(h.contains("<td class=\"act-conflict\">\u{26a0}</td>"));
}

#[test]
fn lr_table_panel_columns_and_accept() {
    let g = analysed(make_arith_grammar());
    let dfa = build_lr0_dfa(&g);
    let t = build_lr_parse_table(&dfa, &g);
    let h = html_lr_parse_table(&dfa, &g, &t);
    assert!(h.contains("<th colspan=\"6\">ACTION</th><th colspan=\"3\">GOTO</th>"));
    assert!(h.contains("<th>+</th><th>*</th><th>(</th><th>)</th><th>id</th><th>$</th><th>E</th><th>T</th><th>F</th>"));
    assert!(h.contains("<td class=\"act-accept\">acc</td>"));
    assert_eq!(h.matches("<tr><td>").count(), dfa.item_sets.len());
}

#[test]
fn dfa_panel_with_chart() {
    let g = analysed(make_arith_grammar());
    let dfa = build_lr0_dfa(&g);
    let h = html_dfa(&dfa, &g);
    assert!(h.contains("12 状态 \u{b7} "));
    assert!(h.contains("<div class=\"state-card\"><div class=\"sid\">I0</div><table><tbody>\n<tr><td class=\"core-tag\">CORE</td><td><code>E' \u{2192} \u{b7} E</code></td></tr>\n<tr><td class=\"ncore-tag\">NC</td><td><code>E \u{2192} \u{b7} E + T</code></td></tr>\n"));
    assert!(h.contains("<div class=\"trans-bar\">"));
    assert!(h.contains("    I0:::start\n"));
    assert!(h.contains("    I0 -->|\"E\"| I2\n"));
    assert_eq!(h.matches("<div class=\"state-card\">").count(), 12);
    assert!(h.ends_with("</pre></div>\n</div></div>\n"));
}

#[test]
fn dfa_panel_without_chart_for_many_states() {
    let g = analysed(make_tiny_grammar());
    let dfa = build_lr0_dfa(&g);
    assert!(dfa.item_sets.len() > 30);
    let h = html_dfa(&dfa, &g);
    assert!(!h.contains("mermaid-wrap"));
    assert!(h.contains(&format!("状态较多 ({}), 省略 Mermaid 图</p>\n", dfa.item_sets.len())));
}

#[test]
fn definitions_with_continuation_lines() {
    let text = "\ndigit -> '0'..'9'\n  @id   ->  letter letter_or_digit*  \n@keyword -> 'i' 'f'\n   | 'e' 'n' 'd'\n\nlexeme -> keyword | id\n";
    let defs = parse_regex_definitions(text);
    let v: Vec<(String, String, bool)> = defs.iter().map(|d| (d.name.clone(), d.pattern.clone(), d.is_token)).collect();
    assert_eq!(
        v,
        vec![
            ("digit".to_string(), "'0'..'9'".to_string(), false),
            ("id".to_string(), "letter letter_or_digit*".to_string(), true),
            ("keyword".to_string(), "'i' 'f' | 'e' 'n' 'd'".to_string(), true),
            ("lexeme".to_string(), "keyword | id".to_string(), false),
        ]
    );
}

#[test]
fn definitions_skip_numbers_and_non_definitions() {
    let defs = parse_regex_definitions("1 a -> x\nnot a definition\n| y\n12 @b -> z\n-> w\n");
    let v: Vec<(String, String, bool)> = defs.iter().map(|d| (d.name.clone(), d.pattern.clone(), d.is_token)).collect();
    assert_eq!(v, vec![("a".to_string(), "x".to_string(), false), ("b".to_string(), "z".to_string(), true)]);
    assert!(parse_regex_definitions("").is_empty());
}
