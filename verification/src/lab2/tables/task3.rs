//! The arithmetic and TINY grammars declared in the shared tables, their
//! LR(0) automata and tables, and a shift-reduce run over a token sequence.
use vstd::prelude::*;
use crate::lab2::tables::declare::{
    add_production, analyse, analysed, empties, n_, nt, ntviews, null_, pfirsts, production, pviews, sview, t_, term, tsmap,
};
use crate::lab2::tables::supplementary::{register_non_terminal, register_terminal, smap, tables_wf, ts_null, Lab2Tables};
use crate::lab2::tables::symbols::{copy_ts, tset, ts_insert, GrammarSymbol, NonTerminalSymbol, TerminalSymbol};
use crate::lab2::tables::task1::{nfirst, nfollow, nts_wf, prods_wf};
use crate::lab2::tables::parse_table::{action_lookup, akeys_unique, amap, arows_wf, gmap, goto_lookup, grows_wf, rows_unique};
use crate::lab2::tables::supplementary::skeys_unique;
use crate::lab2::tables::items::ActionCell;
use crate::lab2::tables::supplementary::{clear_lab2_tables, get_ts, tables_empty};
use crate::lab2::tables::symbols::tkey;
use crate::lab2::tables::task2::{acc_id, apply_ws, create_LR1_Analysis_Table, goto_ws, lr0_built, reduce_ws, rows_init, shift_ws, test2_1};
use crate::text::str_eq;

verus! {

/// The declarations of the non-terminals that `create_Arithmetic_Grammar` adds.
pub open spec fn arith_nts() -> Seq<(Seq<char>, i64, Seq<(i64, i64, Seq<(u8, Seq<char>, Seq<char>)>)>)> {
    seq![("E'"@, 1i64, seq![(0i64, 2i64, seq![n_("E"@), t_("$"@)])]), ("E"@, 4i64, seq![(1i64, 3i64, seq![n_("E"@), t_("+"@), n_("T"@)]), (2i64, 3i64, seq![n_("E"@), t_("-"@), n_("T"@)]), (3i64, 1i64, seq![n_("T"@)]), (4i64, 1i64, seq![t_("num"@)])]), ("T"@, 3i64, seq![(5i64, 3i64, seq![n_("T"@), t_("*"@), n_("F"@)]), (6i64, 3i64, seq![n_("T"@), t_("/"@), n_("F"@)]), (7i64, 1i64, seq![n_("F"@)])]), ("F"@, 2i64, seq![(8i64, 3i64, seq![t_("("@), n_("E"@), t_(")"@)]), (9i64, 1i64, seq![t_("num"@)])])]
}

/// The productions that `create_Arithmetic_Grammar` lists.
pub open spec fn arith_prods() -> Seq<(i64, i64, Seq<(u8, Seq<char>, Seq<char>)>)> {
    seq![(0i64, 2i64, seq![n_("E"@), t_("$"@)]), (1i64, 3i64, seq![n_("E"@), t_("+"@), n_("T"@)]), (2i64, 3i64, seq![n_("E"@), t_("-"@), n_("T"@)]), (3i64, 1i64, seq![n_("T"@)]), (4i64, 1i64, seq![t_("num"@)]), (5i64, 3i64, seq![n_("T"@), t_("*"@), n_("F"@)]), (6i64, 3i64, seq![n_("T"@), t_("/"@), n_("F"@)]), (7i64, 1i64, seq![n_("F"@)]), (8i64, 3i64, seq![t_("("@), n_("E"@), t_(")"@)]), (9i64, 1i64, seq![t_("num"@)])]
}

/// Declares the arithmetic grammar E' -> E $, E -> E + T | E - T | T | num,
/// T -> T * F | T / F | F, F -> ( E ) | num in the tables, with `$` in
/// FOLLOW of E and the head positions of the productions listed, and
/// computes the FIRST and FOLLOW sets.
pub fn create_Arithmetic_Grammar(tables: &mut Lab2Tables)
    requires
        tables_wf(*old(tables)),
        nts_wf(old(tables).all_nts@),
        prods_wf(old(tables).all_productions@),
    ensures
        tables_wf(*final(tables)),
        ntviews(final(tables).all_nts@) == ntviews(old(tables).all_nts@) + arith_nts(),
        pviews(final(tables).all_productions@) == pviews(old(tables).all_productions@) + arith_prods(),
        final(tables).relative_id@ == old(tables).relative_id@ + seq![0i64, 1i64, 1i64, 1i64, 1i64, 2i64, 2i64, 2i64, 3i64, 3i64],
        smap(final(tables).get_nts@) == smap(old(tables).get_nts@).insert("E'"@, (old(tables).all_nts@.len() + 0) as usize).insert("E"@, (old(tables).all_nts@.len() + 1) as usize).insert("T"@, (old(tables).all_nts@.len() + 2) as usize).insert("F"@, (old(tables).all_nts@.len() + 3) as usize),
        tsmap(final(tables).get_ts@) == tsmap(old(tables).get_ts@).insert("+"@, ("TERMINAL"@, "+"@)).insert("-"@, ("TERMINAL"@, "-"@)).insert("*"@, ("TERMINAL"@, "*"@)).insert("/"@, ("TERMINAL"@, "/"@)).insert("num"@, ("TERMINAL"@, "num"@)).insert("("@, ("TERMINAL"@, "("@)).insert(")"@, ("TERMINAL"@, ")"@)).insert("$"@, ("TERMINAL"@, "$"@)),
        analysed(*final(tables), nfirst(old(tables).all_nts@) + empties(4), pfirsts(old(tables).all_productions@) + empties(10),
            nfollow(old(tables).all_nts@) + seq![Set::empty(), set![("TERMINAL"@, "$"@)], Set::empty(), Set::empty()]),
{
    let ghost a_old = tables.all_nts@;
    let ghost p_old = tables.all_productions@;
    let ghost r_old = tables.relative_id@;
    let ghost g_old = tables.get_nts@;
    let ghost gt_old = tables.get_ts@;
    let ts_plus = TerminalSymbol::new("+", "TERMINAL", "OPERATOR");
    let ts_subtract = TerminalSymbol::new("-", "TERMINAL", "OPERATOR");
    let ts_multiply = TerminalSymbol::new("*", "TERMINAL", "OPERATOR");
    let ts_divide = TerminalSymbol::new("/", "TERMINAL", "OPERATOR");
    let ts_num = TerminalSymbol::new("num", "TERMINAL", "NUM");
    let ts_left_bracket = TerminalSymbol::new("(", "TERMINAL", "OPERATOR");
    let ts_right_bracket = TerminalSymbol::new(")", "TERMINAL", "OPERATOR");
    let ts_shut = TerminalSymbol::new("$", "TERMINAL", "SHUT");
    let nts_E1_idx = register_non_terminal(tables, NonTerminalSymbol::new("E'", "NONTERMINAL"));
    let nts_E_idx = register_non_terminal(tables, NonTerminalSymbol::new("E", "NONTERMINAL"));
    let nts_T_idx = register_non_terminal(tables, NonTerminalSymbol::new("T", "NONTERMINAL"));
    let nts_F_idx = register_non_terminal(tables, NonTerminalSymbol::new("F", "NONTERMINAL"));
    proof {
        assert(ntviews(tables.all_nts@) =~~= ntviews(a_old) + seq![("E'"@, 0i64, seq![]), ("E"@, 0i64, seq![]), ("T"@, 0i64, seq![]), ("F"@, 0i64, seq![])]);
        assert(nfirst(tables.all_nts@) =~~= nfirst(a_old) + empties(4));
        assert(nfollow(tables.all_nts@) =~~= nfollow(a_old) + empties(4));
    }
    register_terminal(tables, copy_ts(&ts_plus));
    register_terminal(tables, copy_ts(&ts_subtract));
    register_terminal(tables, copy_ts(&ts_multiply));
    register_terminal(tables, copy_ts(&ts_divide));
    register_terminal(tables, copy_ts(&ts_num));
    register_terminal(tables, copy_ts(&ts_left_bracket));
    register_terminal(tables, copy_ts(&ts_right_bracket));
    register_terminal(tables, copy_ts(&ts_shut));
    assert(tsmap(tables.get_ts@) =~= tsmap(gt_old).insert("+"@, ("TERMINAL"@, "+"@)).insert("-"@, ("TERMINAL"@, "-"@)).insert("*"@, ("TERMINAL"@, "*"@)).insert("/"@, ("TERMINAL"@, "/"@)).insert("num"@, ("TERMINAL"@, "num"@)).insert("("@, ("TERMINAL"@, "("@)).insert(")"@, ("TERMINAL"@, ")"@)).insert("$"@, ("TERMINAL"@, "$"@)));
    let ghost before_follow = tables.all_nts@;
    ts_insert(&mut tables.all_nts[nts_E_idx].pFollowSet, &ts_shut);
    proof {
        assert(ntviews(tables.all_nts@) =~= ntviews(before_follow));
        assert(nfirst(tables.all_nts@) =~= nfirst(before_follow));
        assert(tset(before_follow[nts_E_idx as int].pFollowSet@) =~= Set::<(Seq<char>, Seq<char>)>::empty());
        assert(nfollow(tables.all_nts@) =~~= nfollow(a_old) + seq![Set::empty(), set![("TERMINAL"@, "$"@)], Set::empty(), Set::empty()]);
        assert(nts_wf(tables.all_nts@));
    }
    let mut body: Vec<GrammarSymbol> = Vec::new();
    body.push(nt("E"));
    body.push(term(&ts_shut));
    let ghost bv = body@;
    let pr = production(0i64, 2i64, body);
    assert(bv.map_values(|s: GrammarSymbol| sview(s)) =~= seq![n_("E"@), t_("$"@)]);
    add_production(tables, nts_E1_idx, pr, Some(1i64), Some(0i64));
    assert(ntviews(tables.all_nts@) =~~= ntviews(a_old) + seq![("E'"@, 1i64, seq![(0i64, 2i64, seq![n_("E"@), t_("$"@)])]), ("E"@, 0i64, seq![]), ("T"@, 0i64, seq![]), ("F"@, 0i64, seq![])]);
    assert(pviews(tables.all_productions@) =~~= pviews(p_old) + seq![(0i64, 2i64, seq![n_("E"@), t_("$"@)])]);
    let mut body: Vec<GrammarSymbol> = Vec::new();
    body.push(nt("E"));
    body.push(term(&ts_plus));
    body.push(nt("T"));
    let ghost bv = body@;
    let pr = production(1i64, 3i64, body);
    assert(bv.map_values(|s: GrammarSymbol| sview(s)) =~= seq![n_("E"@), t_("+"@), n_("T"@)]);
    add_production(tables, nts_E_idx, pr, Some(4i64), Some(1i64));
    assert(ntviews(tables.all_nts@) =~~= ntviews(a_old) + seq![("E'"@, 1i64, seq![(0i64, 2i64, seq![n_("E"@), t_("$"@)])]), ("E"@, 4i64, seq![(1i64, 3i64, seq![n_("E"@), t_("+"@), n_("T"@)])]), ("T"@, 0i64, seq![]), ("F"@, 0i64, seq![])]);
    assert(pviews(tables.all_productions@) =~~= pviews(p_old) + seq![(0i64, 2i64, seq![n_("E"@), t_("$"@)]), (1i64, 3i64, seq![n_("E"@), t_("+"@), n_("T"@)])]);
    let mut body: Vec<GrammarSymbol> = Vec::new();
    body.push(nt("E"));
    body.push(term(&ts_subtract));
    body.push(nt("T"));
    let ghost bv = body@;
    let pr = production(2i64, 3i64, body);
    assert(bv.map_values(|s: GrammarSymbol| sview(s)) =~= seq![n_("E"@), t_("-"@), n_("T"@)]);
    add_production(tables, nts_E_idx, pr, Some(4i64), Some(1i64));
    assert(ntviews(tables.all_nts@) =~~= ntviews(a_old) + seq![("E'"@, 1i64, seq![(0i64, 2i64, seq![n_("E"@), t_("$"@)])]), ("E"@, 4i64, seq![(1i64, 3i64, seq![n_("E"@), t_("+"@), n_("T"@)]), (2i64, 3i64, seq![n_("E"@), t_("-"@), n_("T"@)])]), ("T"@, 0i64, seq![]), ("F"@, 0i64, seq![])]);
    assert(pviews(tables.all_productions@) =~~= pviews(p_old) + seq![(0i64, 2i64, seq![n_("E"@), t_("$"@)]), (1i64, 3i64, seq![n_("E"@), t_("+"@), n_("T"@)]), (2i64, 3i64, seq![n_("E"@), t_("-"@), n_("T"@)])]);
    let mut body: Vec<GrammarSymbol> = Vec::new();
    body.push(nt("T"));
    let ghost bv = body@;
    let pr = production(3i64, 1i64, body);
    assert(bv.map_values(|s: GrammarSymbol| sview(s)) =~= seq![n_("T"@)]);
    add_production(tables, nts_E_idx, pr, Some(4i64), Some(1i64));
    assert(ntviews(tables.all_nts@) =~~= ntviews(a_old) + seq![("E'"@, 1i64, seq![(0i64, 2i64, seq![n_("E"@), t_("$"@)])]), ("E"@, 4i64, seq![(1i64, 3i64, seq![n_("E"@), t_("+"@), n_("T"@)]), (2i64, 3i64, seq![n_("E"@), t_("-"@), n_("T"@)]), (3i64, 1i64, seq![n_("T"@)])]), ("T"@, 0i64, seq![]), ("F"@, 0i64, seq![])]);
    assert(pviews(tables.all_productions@) =~~= pviews(p_old) + seq![(0i64, 2i64, seq![n_("E"@), t_("$"@)]), (1i64, 3i64, seq![n_("E"@), t_("+"@), n_("T"@)]), (2i64, 3i64, seq![n_("E"@), t_("-"@), n_("T"@)]), (3i64, 1i64, seq![n_("T"@)])]);
    let mut body: Vec<GrammarSymbol> = Vec::new();
    body.push(term(&ts_num));
    let ghost bv = body@;
    let pr = production(4i64, 1i64, body);
    assert(bv.map_values(|s: GrammarSymbol| sview(s)) =~= seq![t_("num"@)]);
    add_production(tables, nts_E_idx, pr, Some(4i64), Some(1i64));
    assert(ntviews(tables.all_nts@) =~~= ntviews(a_old) + seq![("E'"@, 1i64, seq![(0i64, 2i64, seq![n_("E"@), t_("$"@)])]), ("E"@, 4i64, seq![(1i64, 3i64, seq![n_("E"@), t_("+"@), n_("T"@)]), (2i64, 3i64, seq![n_("E"@), t_("-"@), n_("T"@)]), (3i64, 1i64, seq![n_("T"@)]), (4i64, 1i64, seq![t_("num"@)])]), ("T"@, 0i64, seq![]), ("F"@, 0i64, seq![])]);
    assert(pviews(tables.all_productions@) =~~= pviews(p_old) + seq![(0i64, 2i64, seq![n_("E"@), t_("$"@)]), (1i64, 3i64, seq![n_("E"@), t_("+"@), n_("T"@)]), (2i64, 3i64, seq![n_("E"@), t_("-"@), n_("T"@)]), (3i64, 1i64, seq![n_("T"@)]), (4i64, 1i64, seq![t_("num"@)])]);
    let mut body: Vec<GrammarSymbol> = Vec::new();
    body.push(nt("T"));
    body.push(term(&ts_multiply));
    body.push(nt("F"));
    let ghost bv = body@;
    let pr = production(5i64, 3i64, body);
    assert(bv.map_values(|s: GrammarSymbol| sview(s)) =~= seq![n_("T"@), t_("*"@), n_("F"@)]);
    add_production(tables, nts_T_idx, pr, Some(3i64), Some(2i64));
    assert(ntviews(tables.all_nts@) =~~= ntviews(a_old) + seq![("E'"@, 1i64, seq![(0i64, 2i64, seq![n_("E"@), t_("$"@)])]), ("E"@, 4i64, seq![(1i64, 3i64, seq![n_("E"@), t_("+"@), n_("T"@)]), (2i64, 3i64, seq![n_("E"@), t_("-"@), n_("T"@)]), (3i64, 1i64, seq![n_("T"@)]), (4i64, 1i64, seq![t_("num"@)])]), ("T"@, 3i64, seq![(5i64, 3i64, seq![n_("T"@), t_("*"@), n_("F"@)])]), ("F"@, 0i64, seq![])]);
    assert(pviews(tables.all_productions@) =~~= pviews(p_old) + seq![(0i64, 2i64, seq![n_("E"@), t_("$"@)]), (1i64, 3i64, seq![n_("E"@), t_("+"@), n_("T"@)]), (2i64, 3i64, seq![n_("E"@), t_("-"@), n_("T"@)]), (3i64, 1i64, seq![n_("T"@)]), (4i64, 1i64, seq![t_("num"@)]), (5i64, 3i64, seq![n_("T"@), t_("*"@), n_("F"@)])]);
    let mut body: Vec<GrammarSymbol> = Vec::new();
    body.push(nt("T"));
    body.push(term(&ts_divide));
    body.push(nt("F"));
    let ghost bv = body@;
    let pr = production(6i64, 3i64, body);
    assert(bv.map_values(|s: GrammarSymbol| sview(s)) =~= seq![n_("T"@), t_("/"@), n_("F"@)]);
    add_production(tables, nts_T_idx, pr, Some(3i64), Some(2i64));
    assert(ntviews(tables.all_nts@) =~~= ntviews(a_old) + seq![("E'"@, 1i64, seq![(0i64, 2i64, seq![n_("E"@), t_("$"@)])]), ("E"@, 4i64, seq![(1i64, 3i64, seq![n_("E"@), t_("+"@), n_("T"@)]), (2i64, 3i64, seq![n_("E"@), t_("-"@), n_("T"@)]), (3i64, 1i64, seq![n_("T"@)]), (4i64, 1i64, seq![t_("num"@)])]), ("T"@, 3i64, seq![(5i64, 3i64, seq![n_("T"@), t_("*"@), n_("F"@)]), (6i64, 3i64, seq![n_("T"@), t_("/"@), n_("F"@)])]), ("F"@, 0i64, seq![])]);
    assert(pviews(tables.all_productions@) =~~= pviews(p_old) + seq![(0i64, 2i64, seq![n_("E"@), t_("$"@)]), (1i64, 3i64, seq![n_("E"@), t_("+"@), n_("T"@)]), (2i64, 3i64, seq![n_("E"@), t_("-"@), n_("T"@)]), (3i64, 1i64, seq![n_("T"@)]), (4i64, 1i64, seq![t_("num"@)]), (5i64, 3i64, seq![n_("T"@), t_("*"@), n_("F"@)]), (6i64, 3i64, seq![n_("T"@), t_("/"@), n_("F"@)])]);
    let mut body: Vec<GrammarSymbol> = Vec::new();
    body.push(nt("F"));
    let ghost bv = body@;
    let pr = production(7i64, 1i64, body);
    assert(bv.map_values(|s: GrammarSymbol| sview(s)) =~= seq![n_("F"@)]);
    add_production(tables, nts_T_idx, pr, Some(3i64), Some(2i64));
    assert(ntviews(tables.all_nts@) =~~= ntviews(a_old) + seq![("E'"@, 1i64, seq![(0i64, 2i64, seq![n_("E"@), t_("$"@)])]), ("E"@, 4i64, seq![(1i64, 3i64, seq![n_("E"@), t_("+"@), n_("T"@)]), (2i64, 3i64, seq![n_("E"@), t_("-"@), n_("T"@)]), (3i64, 1i64, seq![n_("T"@)]), (4i64, 1i64, seq![t_("num"@)])]), ("T"@, 3i64, seq![(5i64, 3i64, seq![n_("T"@), t_("*"@), n_("F"@)]), (6i64, 3i64, seq![n_("T"@), t_("/"@), n_("F"@)]), (7i64, 1i64, seq![n_("F"@)])]), ("F"@, 0i64, seq![])]);
    assert(pviews(tables.all_productions@) =~~= pviews(p_old) + seq![(0i64, 2i64, seq![n_("E"@), t_("$"@)]), (1i64, 3i64, seq![n_("E"@), t_("+"@), n_("T"@)]), (2i64, 3i64, seq![n_("E"@), t_("-"@), n_("T"@)]), (3i64, 1i64, seq![n_("T"@)]), (4i64, 1i64, seq![t_("num"@)]), (5i64, 3i64, seq![n_("T"@), t_("*"@), n_("F"@)]), (6i64, 3i64, seq![n_("T"@), t_("/"@), n_("F"@)]), (7i64, 1i64, seq![n_("F"@)])]);
    let mut body: Vec<GrammarSymbol> = Vec::new();
    body.push(term(&ts_left_bracket));
    body.push(nt("E"));
    body.push(term(&ts_right_bracket));
    let ghost bv = body@;
    let pr = production(8i64, 3i64, body);
    assert(bv.map_values(|s: GrammarSymbol| sview(s)) =~= seq![t_("("@), n_("E"@), t_(")"@)]);
    add_production(tables, nts_F_idx, pr, Some(2i64), Some(3i64));
    assert(ntviews(tables.all_nts@) =~~= ntviews(a_old) + seq![("E'"@, 1i64, seq![(0i64, 2i64, seq![n_("E"@), t_("$"@)])]), ("E"@, 4i64, seq![(1i64, 3i64, seq![n_("E"@), t_("+"@), n_("T"@)]), (2i64, 3i64, seq![n_("E"@), t_("-"@), n_("T"@)]), (3i64, 1i64, seq![n_("T"@)]), (4i64, 1i64, seq![t_("num"@)])]), ("T"@, 3i64, seq![(5i64, 3i64, seq![n_("T"@), t_("*"@), n_("F"@)]), (6i64, 3i64, seq![n_("T"@), t_("/"@), n_("F"@)]), (7i64, 1i64, seq![n_("F"@)])]), ("F"@, 2i64, seq![(8i64, 3i64, seq![t_("("@), n_("E"@), t_(")"@)])])]);
    assert(pviews(tables.all_productions@) =~~= pviews(p_old) + seq![(0i64, 2i64, seq![n_("E"@), t_("$"@)]), (1i64, 3i64, seq![n_("E"@), t_("+"@), n_("T"@)]), (2i64, 3i64, seq![n_("E"@), t_("-"@), n_("T"@)]), (3i64, 1i64, seq![n_("T"@)]), (4i64, 1i64, seq![t_("num"@)]), (5i64, 3i64, seq![n_("T"@), t_("*"@), n_("F"@)]), (6i64, 3i64, seq![n_("T"@), t_("/"@), n_("F"@)]), (7i64, 1i64, seq![n_("F"@)]), (8i64, 3i64, seq![t_("("@), n_("E"@), t_(")"@)])]);
    let mut body: Vec<GrammarSymbol> = Vec::new();
    body.push(term(&ts_num));
    let ghost bv = body@;
    let pr = production(9i64, 1i64, body);
    assert(bv.map_values(|s: GrammarSymbol| sview(s)) =~= seq![t_("num"@)]);
    add_production(tables, nts_F_idx, pr, Some(2i64), Some(3i64));
    assert(ntviews(tables.all_nts@) =~~= ntviews(a_old) + seq![("E'"@, 1i64, seq![(0i64, 2i64, seq![n_("E"@), t_("$"@)])]), ("E"@, 4i64, seq![(1i64, 3i64, seq![n_("E"@), t_("+"@), n_("T"@)]), (2i64, 3i64, seq![n_("E"@), t_("-"@), n_("T"@)]), (3i64, 1i64, seq![n_("T"@)]), (4i64, 1i64, seq![t_("num"@)])]), ("T"@, 3i64, seq![(5i64, 3i64, seq![n_("T"@), t_("*"@), n_("F"@)]), (6i64, 3i64, seq![n_("T"@), t_("/"@), n_("F"@)]), (7i64, 1i64, seq![n_("F"@)])]), ("F"@, 2i64, seq![(8i64, 3i64, seq![t_("("@), n_("E"@), t_(")"@)]), (9i64, 1i64, seq![t_("num"@)])])]);
    assert(pviews(tables.all_productions@) =~~= pviews(p_old) + seq![(0i64, 2i64, seq![n_("E"@), t_("$"@)]), (1i64, 3i64, seq![n_("E"@), t_("+"@), n_("T"@)]), (2i64, 3i64, seq![n_("E"@), t_("-"@), n_("T"@)]), (3i64, 1i64, seq![n_("T"@)]), (4i64, 1i64, seq![t_("num"@)]), (5i64, 3i64, seq![n_("T"@), t_("*"@), n_("F"@)]), (6i64, 3i64, seq![n_("T"@), t_("/"@), n_("F"@)]), (7i64, 1i64, seq![n_("F"@)]), (8i64, 3i64, seq![t_("("@), n_("E"@), t_(")"@)]), (9i64, 1i64, seq![t_("num"@)])]);
    proof {
        assert(pfirsts(tables.all_productions@) =~= pfirsts(p_old) + empties(10));
        assert(tables.relative_id@ =~= r_old + seq![0i64, 1i64, 1i64, 1i64, 1i64, 2i64, 2i64, 2i64, 3i64, 3i64]);
    }
    analyse(tables);
}

/// The declarations of the non-terminals that `create_TINY_Grammar` adds.
pub open spec fn tiny_nts() -> Seq<(Seq<char>, i64, Seq<(i64, i64, Seq<(u8, Seq<char>, Seq<char>)>)>)> {
    seq![("Program'"@, 0i64, seq![(0i64, 1i64, seq![n_("Program"@), t_("$"@)])]), ("Program"@, 0i64, seq![(1i64, 1i64, seq![n_("stmt-sequence"@)])]), ("stmt-sequence"@, 0i64, seq![(2i64, 3i64, seq![n_("stmt-sequence"@), t_(";"@), n_("statement"@)]), (3i64, 1i64, seq![n_("statement"@)])]), ("statement"@, 0i64, seq![(4i64, 1i64, seq![n_("if-stmt"@)]), (5i64, 1i64, seq![n_("repeat-stmt"@)]), (6i64, 1i64, seq![n_("assign-stmt"@)]), (7i64, 1i64, seq![n_("read-stmt"@)]), (8i64, 1i64, seq![n_("write-stmt"@)])]), ("if-stmt"@, 0i64, seq![(9i64, 5i64, seq![t_("if"@), n_("exp"@), t_("then"@), n_("stmt-sequence"@), t_("end"@)]), (10i64, 7i64, seq![t_("if"@), n_("exp"@), t_("then"@), n_("stmt-sequence"@), t_("else"@), n_("stmt-sequence"@), t_("end"@)])]), ("repeat-stmt"@, 0i64, seq![(11i64, 4i64, seq![t_("repeat"@), n_("stmt-sequence"@), t_("until"@), n_("exp"@)])]), ("assign-stmt"@, 0i64, seq![(12i64, 3i64, seq![t_("identifier"@), t_(":="@), n_("exp"@)])]), ("read-stmt"@, 0i64, seq![(13i64, 2i64, seq![t_("read"@), t_("identifier"@)])]), ("write-stmt"@, 0i64, seq![(14i64, 2i64, seq![t_("write"@), n_("exp"@)])]), ("exp"@, 0i64, seq![(15i64, 3i64, seq![n_("simple-exp"@), n_("comparison-op"@), n_("simple-exp"@)]), (16i64, 1i64, seq![n_("simple-exp"@)])]), ("comparison-op"@, 0i64, seq![(17i64, 1i64, seq![t_("<"@)]), (18i64, 1i64, seq![t_("="@)])]), ("simple-exp"@, 0i64, seq![(19i64, 3i64, seq![n_("simple-exp"@), n_("addop"@), n_("term"@)]), (20i64, 1i64, seq![n_("term"@)])]), ("addop"@, 0i64, seq![(21i64, 1i64, seq![t_("+"@)]), (22i64, 1i64, seq![t_("-"@)])]), ("term"@, 0i64, seq![(23i64, 3i64, seq![n_("term"@), n_("mulop"@), n_("factor"@)]), (24i64, 1i64, seq![n_("factor"@)])]), ("mulop"@, 0i64, seq![(25i64, 1i64, seq![t_("*"@)]), (26i64, 1i64, seq![t_("/"@)])]), ("factor"@, 0i64, seq![(27i64, 3i64, seq![t_("("@), n_("exp"@), t_(")"@)]), (28i64, 1i64, seq![t_("Number"@)]), (29i64, 1i64, seq![t_("identifier"@)])])]
}

/// The productions that `create_TINY_Grammar` lists.
pub open spec fn tiny_prods() -> Seq<(i64, i64, Seq<(u8, Seq<char>, Seq<char>)>)> {
    seq![(0i64, 1i64, seq![n_("Program"@), t_("$"@)]), (1i64, 1i64, seq![n_("stmt-sequence"@)]), (2i64, 3i64, seq![n_("stmt-sequence"@), t_(";"@), n_("statement"@)]), (3i64, 1i64, seq![n_("statement"@)]), (4i64, 1i64, seq![n_("if-stmt"@)]), (5i64, 1i64, seq![n_("repeat-stmt"@)]), (6i64, 1i64, seq![n_("assign-stmt"@)]), (7i64, 1i64, seq![n_("read-stmt"@)]), (8i64, 1i64, seq![n_("write-stmt"@)]), (9i64, 5i64, seq![t_("if"@), n_("exp"@), t_("then"@), n_("stmt-sequence"@), t_("end"@)]), (10i64, 7i64, seq![t_("if"@), n_("exp"@), t_("then"@), n_("stmt-sequence"@), t_("else"@), n_("stmt-sequence"@), t_("end"@)]), (11i64, 4i64, seq![t_("repeat"@), n_("stmt-sequence"@), t_("until"@), n_("exp"@)]), (12i64, 3i64, seq![t_("identifier"@), t_(":="@), n_("exp"@)]), (13i64, 2i64, seq![t_("read"@), t_("identifier"@)]), (14i64, 2i64, seq![t_("write"@), n_("exp"@)]), (15i64, 3i64, seq![n_("simple-exp"@), n_("comparison-op"@), n_("simple-exp"@)]), (16i64, 1i64, seq![n_("simple-exp"@)]), (17i64, 1i64, seq![t_("<"@)]), (18i64, 1i64, seq![t_("="@)]), (19i64, 3i64, seq![n_("simple-exp"@), n_("addop"@), n_("term"@)]), (20i64, 1i64, seq![n_("term"@)]), (21i64, 1i64, seq![t_("+"@)]), (22i64, 1i64, seq![t_("-"@)]), (23i64, 3i64, seq![n_("term"@), n_("mulop"@), n_("factor"@)]), (24i64, 1i64, seq![n_("factor"@)]), (25i64, 1i64, seq![t_("*"@)]), (26i64, 1i64, seq![t_("/"@)]), (27i64, 3i64, seq![t_("("@), n_("exp"@), t_(")"@)]), (28i64, 1i64, seq![t_("Number"@)]), (29i64, 1i64, seq![t_("identifier"@)])]
}

/// Declares the TINY grammar (programs of statements: if, repeat,
/// assignment, read and write, over expressions with comparison, additive
/// and multiplicative operators) in the tables, with `$` in FOLLOW of
/// Program and the head positions of the productions listed, and computes
/// the FIRST and FOLLOW sets.
#[verifier::rlimit(100)]
#[verifier::spinoff_prover]
pub fn create_TINY_Grammar(tables: &mut Lab2Tables)
    requires
        tables_wf(*old(tables)),
        nts_wf(old(tables).all_nts@),
        prods_wf(old(tables).all_productions@),
    ensures
        tables_wf(*final(tables)),
        ntviews(final(tables).all_nts@) == ntviews(old(tables).all_nts@) + tiny_nts(),
        pviews(final(tables).all_productions@) == pviews(old(tables).all_productions@) + tiny_prods(),
        final(tables).relative_id@ == old(tables).relative_id@ + seq![0i64, 1i64, 2i64, 2i64, 3i64, 3i64, 3i64, 3i64, 3i64, 4i64, 4i64, 5i64, 6i64, 7i64, 8i64, 9i64, 9i64, 10i64, 10i64, 11i64, 11i64, 12i64, 12i64, 13i64, 13i64, 14i64, 14i64, 15i64, 15i64, 15i64],
        smap(final(tables).get_nts@) == smap(old(tables).get_nts@).insert("Program'"@, (old(tables).all_nts@.len() + 0) as usize).insert("Program"@, (old(tables).all_nts@.len() + 1) as usize).insert("stmt-sequence"@, (old(tables).all_nts@.len() + 2) as usize).insert("statement"@, (old(tables).all_nts@.len() + 3) as usize).insert("if-stmt"@, (old(tables).all_nts@.len() + 4) as usize).insert("repeat-stmt"@, (old(tables).all_nts@.len() + 5) as usize).insert("assign-stmt"@, (old(tables).all_nts@.len() + 6) as usize).insert("read-stmt"@, (old(tables).all_nts@.len() + 7) as usize).insert("write-stmt"@, (old(tables).all_nts@.len() + 8) as usize).insert("exp"@, (old(tables).all_nts@.len() + 9) as usize).insert("comparison-op"@, (old(tables).all_nts@.len() + 10) as usize).insert("simple-exp"@, (old(tables).all_nts@.len() + 11) as usize).insert("addop"@, (old(tables).all_nts@.len() + 12) as usize).insert("term"@, (old(tables).all_nts@.len() + 13) as usize).insert("mulop"@, (old(tables).all_nts@.len() + 14) as usize).insert("factor"@, (old(tables).all_nts@.len() + 15) as usize),
        tsmap(final(tables).get_ts@) == tsmap(old(tables).get_ts@).insert("if"@, ("TERMINAL"@, "if"@)).insert("then"@, ("TERMINAL"@, "then"@)).insert("end"@, ("TERMINAL"@, "end"@)).insert("else"@, ("TERMINAL"@, "else"@)).insert("repeat"@, ("TERMINAL"@, "repeat"@)).insert("until"@, ("TERMINAL"@, "until"@)).insert("read"@, ("TERMINAL"@, "read"@)).insert("write"@, ("TERMINAL"@, "write"@)).insert(";"@, ("TERMINAL"@, ";"@)).insert(":="@, ("TERMINAL"@, ":="@)).insert("<"@, ("TERMINAL"@, "<"@)).insert("="@, ("TERMINAL"@, "="@)).insert("+"@, ("TERMINAL"@, "+"@)).insert("-"@, ("TERMINAL"@, "-"@)).insert("*"@, ("TERMINAL"@, "*"@)).insert("/"@, ("TERMINAL"@, "/"@)).insert("("@, ("TERMINAL"@, "("@)).insert(")"@, ("TERMINAL"@, ")"@)).insert("identifier"@, ("TERMINAL"@, "identifier"@)).insert("Number"@, ("TERMINAL"@, "Number"@)).insert("$"@, ("TERMINAL"@, "$"@)),
        analysed(*final(tables), nfirst(old(tables).all_nts@) + empties(16), pfirsts(old(tables).all_productions@) + empties(30),
            nfollow(old(tables).all_nts@) + seq![Set::empty(), set![("TERMINAL"@, "$"@)], Set::empty(), Set::empty(), Set::empty(), Set::empty(), Set::empty(), Set::empty(), Set::empty(), Set::empty(), Set::empty(), Set::empty(), Set::empty(), Set::empty(), Set::empty(), Set::empty()]),
{
    let ghost a_old = tables.all_nts@;
    let ghost p_old = tables.all_productions@;
    let ghost r_old = tables.relative_id@;
    let ghost g_old = tables.get_nts@;
    let ghost gt_old = tables.get_ts@;
    let ts_if = TerminalSymbol::new("if", "TERMINAL", "KEYWORD");
    let ts_then = TerminalSymbol::new("then", "TERMINAL", "KEYWORD");
    let ts_end = TerminalSymbol::new("end", "TERMINAL", "KEYWORD");
    let ts_else = TerminalSymbol::new("else", "TERMINAL", "KEYWORD");
    let ts_repeat = TerminalSymbol::new("repeat", "TERMINAL", "KEYWORD");
    let ts_until = TerminalSymbol::new("until", "TERMINAL", "KEYWORD");
    let ts_read = TerminalSymbol::new("read", "TERMINAL", "KEYWORD");
    let ts_write = TerminalSymbol::new("write", "TERMINAL", "KEYWORD");
    let ts_semicolon = TerminalSymbol::new(";", "TERMINAL", "OPERATOR");
    let ts_assign = TerminalSymbol::new(":=", "TERMINAL", "OPERATOR");
    let ts_less = TerminalSymbol::new("<", "TERMINAL", "OPERATOR");
    let ts_equal = TerminalSymbol::new("=", "TERMINAL", "OPERATOR");
    let ts_plus = TerminalSymbol::new("+", "TERMINAL", "OPERATOR");
    let ts_subtract = TerminalSymbol::new("-", "TERMINAL", "OPERATOR");
    let ts_multiply = TerminalSymbol::new("*", "TERMINAL", "OPERATOR");
    let ts_divide = TerminalSymbol::new("/", "TERMINAL", "OPERATOR");
    let ts_left_bracket = TerminalSymbol::new("(", "TERMINAL", "OPERATOR");
    let ts_right_bracket = TerminalSymbol::new(")", "TERMINAL", "OPERATOR");
    let ts_identifier = TerminalSymbol::new("identifier", "TERMINAL", "IDENTIFIER");
    let ts_number = TerminalSymbol::new("Number", "TERMINAL", "NUM");
    let ts_shut = TerminalSymbol::new("$", "TERMINAL", "SHUT");
    register_terminal(tables, copy_ts(&ts_if));
    register_terminal(tables, copy_ts(&ts_then));
    register_terminal(tables, copy_ts(&ts_end));
    register_terminal(tables, copy_ts(&ts_else));
    register_terminal(tables, copy_ts(&ts_repeat));
    register_terminal(tables, copy_ts(&ts_until));
    register_terminal(tables, copy_ts(&ts_read));
    register_terminal(tables, copy_ts(&ts_write));
    register_terminal(tables, copy_ts(&ts_semicolon));
    register_terminal(tables, copy_ts(&ts_assign));
    register_terminal(tables, copy_ts(&ts_less));
    register_terminal(tables, copy_ts(&ts_equal));
    register_terminal(tables, copy_ts(&ts_plus));
    register_terminal(tables, copy_ts(&ts_subtract));
    register_terminal(tables, copy_ts(&ts_multiply));
    register_terminal(tables, copy_ts(&ts_divide));
    register_terminal(tables, copy_ts(&ts_left_bracket));
    register_terminal(tables, copy_ts(&ts_right_bracket));
    register_terminal(tables, copy_ts(&ts_identifier));
    register_terminal(tables, copy_ts(&ts_number));
    register_terminal(tables, copy_ts(&ts_shut));
    assert(tsmap(tables.get_ts@) =~= tsmap(gt_old).insert("if"@, ("TERMINAL"@, "if"@)).insert("then"@, ("TERMINAL"@, "then"@)).insert("end"@, ("TERMINAL"@, "end"@)).insert("else"@, ("TERMINAL"@, "else"@)).insert("repeat"@, ("TERMINAL"@, "repeat"@)).insert("until"@, ("TERMINAL"@, "until"@)).insert("read"@, ("TERMINAL"@, "read"@)).insert("write"@, ("TERMINAL"@, "write"@)).insert(";"@, ("TERMINAL"@, ";"@)).insert(":="@, ("TERMINAL"@, ":="@)).insert("<"@, ("TERMINAL"@, "<"@)).insert("="@, ("TERMINAL"@, "="@)).insert("+"@, ("TERMINAL"@, "+"@)).insert("-"@, ("TERMINAL"@, "-"@)).insert("*"@, ("TERMINAL"@, "*"@)).insert("/"@, ("TERMINAL"@, "/"@)).insert("("@, ("TERMINAL"@, "("@)).insert(")"@, ("TERMINAL"@, ")"@)).insert("identifier"@, ("TERMINAL"@, "identifier"@)).insert("Number"@, ("TERMINAL"@, "Number"@)).insert("$"@, ("TERMINAL"@, "$"@)));
    let nts_Program1_idx = register_non_terminal(tables, NonTerminalSymbol::new("Program'", "NONTERMINAL"));
    let nts_Program_idx = register_non_terminal(tables, NonTerminalSymbol::new("Program", "NONTERMINAL"));
    let nts_stmt_sequence_idx = register_non_terminal(tables, NonTerminalSymbol::new("stmt-sequence", "NONTERMINAL"));
    let nts_statement_idx = register_non_terminal(tables, NonTerminalSymbol::new("statement", "NONTERMINAL"));
    let nts_if_stmt_idx = register_non_terminal(tables, NonTerminalSymbol::new("if-stmt", "NONTERMINAL"));
    let nts_repeat_stmt_idx = register_non_terminal(tables, NonTerminalSymbol::new("repeat-stmt", "NONTERMINAL"));
    let nts_assign_stmt_idx = register_non_terminal(tables, NonTerminalSymbol::new("assign-stmt", "NONTERMINAL"));
    let nts_read_stmt_idx = register_non_terminal(tables, NonTerminalSymbol::new("read-stmt", "NONTERMINAL"));
    let nts_write_stmt_idx = register_non_terminal(tables, NonTerminalSymbol::new("write-stmt", "NONTERMINAL"));
    let nts_exp_idx = register_non_terminal(tables, NonTerminalSymbol::new("exp", "NONTERMINAL"));
    let nts_comparison_op_idx = register_non_terminal(tables, NonTerminalSymbol::new("comparison-op", "NONTERMINAL"));
    let nts_simple_exp_idx = register_non_terminal(tables, NonTerminalSymbol::new("simple-exp", "NONTERMINAL"));
    let nts_addop_idx = register_non_terminal(tables, NonTerminalSymbol::new("addop", "NONTERMINAL"));
    let nts_term_idx = register_non_terminal(tables, NonTerminalSymbol::new("term", "NONTERMINAL"));
    let nts_mulop_idx = register_non_terminal(tables, NonTerminalSymbol::new("mulop", "NONTERMINAL"));
    let nts_factor_idx = register_non_terminal(tables, NonTerminalSymbol::new("factor", "NONTERMINAL"));
    proof {
        assert(ntviews(tables.all_nts@) =~~= ntviews(a_old) + seq![("Program'"@, 0i64, seq![]), ("Program"@, 0i64, seq![]), ("stmt-sequence"@, 0i64, seq![]), ("statement"@, 0i64, seq![]), ("if-stmt"@, 0i64, seq![]), ("repeat-stmt"@, 0i64, seq![]), ("assign-stmt"@, 0i64, seq![]), ("read-stmt"@, 0i64, seq![]), ("write-stmt"@, 0i64, seq![]), ("exp"@, 0i64, seq![]), ("comparison-op"@, 0i64, seq![]), ("simple-exp"@, 0i64, seq![]), ("addop"@, 0i64, seq![]), ("term"@, 0i64, seq![]), ("mulop"@, 0i64, seq![]), ("factor"@, 0i64, seq![])]);
        assert(nfirst(tables.all_nts@) =~~= nfirst(a_old) + empties(16));
        assert(nfollow(tables.all_nts@) =~~= nfollow(a_old) + empties(16));
    }
    let ghost before_follow = tables.all_nts@;
    ts_insert(&mut tables.all_nts[nts_Program_idx].pFollowSet, &ts_shut);
    proof {
        assert(ntviews(tables.all_nts@) =~= ntviews(before_follow));
        assert(nfirst(tables.all_nts@) =~= nfirst(before_follow));
        assert(tset(before_follow[nts_Program_idx as int].pFollowSet@) =~= Set::<(Seq<char>, Seq<char>)>::empty());
        assert(nfollow(tables.all_nts@) =~~= nfollow(a_old) + seq![Set::empty(), set![("TERMINAL"@, "$"@)], Set::empty(), Set::empty(), Set::empty(), Set::empty(), Set::empty(), Set::empty(), Set::empty(), Set::empty(), Set::empty(), Set::empty(), Set::empty(), Set::empty(), Set::empty(), Set::empty()]);
        assert(nts_wf(tables.all_nts@));
    }
    let mut body: Vec<GrammarSymbol> = Vec::new();
    body.push(nt("Program"));
    body.push(term(&ts_shut));
    let ghost bv = body@;
    let pr = production(0i64, 1i64, body);
    assert(bv.map_values(|s: GrammarSymbol| sview(s)) =~= seq![n_("Program"@), t_("$"@)]);
    add_production(tables, nts_Program1_idx, pr, None, Some(0i64));
    let mut body: Vec<GrammarSymbol> = Vec::new();
    body.push(nt("stmt-sequence"));
    let ghost bv = body@;
    let pr = production(1i64, 1i64, body);
    assert(bv.map_values(|s: GrammarSymbol| sview(s)) =~= seq![n_("stmt-sequence"@)]);
    add_production(tables, nts_Program_idx, pr, None, Some(1i64));
    let mut body: Vec<GrammarSymbol> = Vec::new();
    body.push(nt("stmt-sequence"));
    body.push(term(&ts_semicolon));
    body.push(nt("statement"));
    let ghost bv = body@;
    let pr = production(2i64, 3i64, body);
    assert(bv.map_values(|s: GrammarSymbol| sview(s)) =~= seq![n_("stmt-sequence"@), t_(";"@), n_("statement"@)]);
    add_production(tables, nts_stmt_sequence_idx, pr, None, Some(2i64));
    let mut body: Vec<GrammarSymbol> = Vec::new();
    body.push(nt("statement"));
    let ghost bv = body@;
    let pr = production(3i64, 1i64, body);
    assert(bv.map_values(|s: GrammarSymbol| sview(s)) =~= seq![n_("statement"@)]);
    add_production(tables, nts_stmt_sequence_idx, pr, None, Some(2i64));
    let mut body: Vec<GrammarSymbol> = Vec::new();
    body.push(nt("if-stmt"));
    let ghost bv = body@;
    let pr = production(4i64, 1i64, body);
    assert(bv.map_values(|s: GrammarSymbol| sview(s)) =~= seq![n_("if-stmt"@)]);
    add_production(tables, nts_statement_idx, pr, None, Some(3i64));
    let mut body: Vec<GrammarSymbol> = Vec::new();
    body.push(nt("repeat-stmt"));
    let ghost bv = body@;
    let pr = production(5i64, 1i64, body);
    assert(bv.map_values(|s: GrammarSymbol| sview(s)) =~= seq![n_("repeat-stmt"@)]);
    add_production(tables, nts_statement_idx, pr, None, Some(3i64));
    let mut body: Vec<GrammarSymbol> = Vec::new();
    body.push(nt("assign-stmt"));
    let ghost bv = body@;
    let pr = production(6i64, 1i64, body);
    assert(bv.map_values(|s: GrammarSymbol| sview(s)) =~= seq![n_("assign-stmt"@)]);
    add_production(tables, nts_statement_idx, pr, None, Some(3i64));
    let mut body: Vec<GrammarSymbol> = Vec::new();
    body.push(nt("read-stmt"));
    let ghost bv = body@;
    let pr = production(7i64, 1i64, body);
    assert(bv.map_values(|s: GrammarSymbol| sview(s)) =~= seq![n_("read-stmt"@)]);
    add_production(tables, nts_statement_idx, pr, None, Some(3i64));
    let mut body: Vec<GrammarSymbol> = Vec::new();
    body.push(nt("write-stmt"));
    let ghost bv = body@;
    let pr = production(8i64, 1i64, body);
    assert(bv.map_values(|s: GrammarSymbol| sview(s)) =~= seq![n_("write-stmt"@)]);
    add_production(tables, nts_statement_idx, pr, None, Some(3i64));
    let mut body: Vec<GrammarSymbol> = Vec::new();
    body.push(term(&ts_if));
    body.push(nt("exp"));
    body.push(term(&ts_then));
    body.push(nt("stmt-sequence"));
    body.push(term(&ts_end));
    let ghost bv = body@;
    let pr = production(9i64, 5i64, body);
    assert(bv.map_values(|s: GrammarSymbol| sview(s)) =~= seq![t_("if"@), n_("exp"@), t_("then"@), n_("stmt-sequence"@), t_("end"@)]);
    add_production(tables, nts_if_stmt_idx, pr, None, Some(4i64));
    let mut body: Vec<GrammarSymbol> = Vec::new();
    body.push(term(&ts_if));
    body.push(nt("exp"));
    body.push(term(&ts_then));
    body.push(nt("stmt-sequence"));
    body.push(term(&ts_else));
    body.push(nt("stmt-sequence"));
    body.push(term(&ts_end));
    let ghost bv = body@;
    let pr = production(10i64, 7i64, body);
    assert(bv.map_values(|s: GrammarSymbol| sview(s)) =~= seq![t_("if"@), n_("exp"@), t_("then"@), n_("stmt-sequence"@), t_("else"@), n_("stmt-sequence"@), t_("end"@)]);
    add_production(tables, nts_if_stmt_idx, pr, None, Some(4i64));
    let mut body: Vec<GrammarSymbol> = Vec::new();
    body.push(term(&ts_repeat));
    body.push(nt("stmt-sequence"));
    body.push(term(&ts_until));
    body.push(nt("exp"));
    let ghost bv = body@;
    let pr = production(11i64, 4i64, body);
    assert(bv.map_values(|s: GrammarSymbol| sview(s)) =~= seq![t_("repeat"@), n_("stmt-sequence"@), t_("until"@), n_("exp"@)]);
    add_production(tables, nts_repeat_stmt_idx, pr, None, Some(5i64));
    let mut body: Vec<GrammarSymbol> = Vec::new();
    body.push(term(&ts_identifier));
    body.push(term(&ts_assign));
    body.push(nt("exp"));
    let ghost bv = body@;
    let pr = production(12i64, 3i64, body);
    assert(bv.map_values(|s: GrammarSymbol| sview(s)) =~= seq![t_("identifier"@), t_(":="@), n_("exp"@)]);
    add_production(tables, nts_assign_stmt_idx, pr, None, Some(6i64));
    let mut body: Vec<GrammarSymbol> = Vec::new();
    body.push(term(&ts_read));
    body.push(term(&ts_identifier));
    let ghost bv = body@;
    let pr = production(13i64, 2i64, body);
    assert(bv.map_values(|s: GrammarSymbol| sview(s)) =~= seq![t_("read"@), t_("identifier"@)]);
    add_production(tables, nts_read_stmt_idx, pr, None, Some(7i64));
    let mut body: Vec<GrammarSymbol> = Vec::new();
    body.push(term(&ts_write));
    body.push(nt("exp"));
    let ghost bv = body@;
    let pr = production(14i64, 2i64, body);
    assert(bv.map_values(|s: GrammarSymbol| sview(s)) =~= seq![t_("write"@), n_("exp"@)]);
    add_production(tables, nts_write_stmt_idx, pr, None, Some(8i64));
    let mut body: Vec<GrammarSymbol> = Vec::new();
    body.push(nt("simple-exp"));
    body.push(nt("comparison-op"));
    body.push(nt("simple-exp"));
    let ghost bv = body@;
    let pr = production(15i64, 3i64, body);
    assert(bv.map_values(|s: GrammarSymbol| sview(s)) =~= seq![n_("simple-exp"@), n_("comparison-op"@), n_("simple-exp"@)]);
    add_production(tables, nts_exp_idx, pr, None, Some(9i64));
    let mut body: Vec<GrammarSymbol> = Vec::new();
    body.push(nt("simple-exp"));
    let ghost bv = body@;
    let pr = production(16i64, 1i64, body);
    assert(bv.map_values(|s: GrammarSymbol| sview(s)) =~= seq![n_("simple-exp"@)]);
    add_production(tables, nts_exp_idx, pr, None, Some(9i64));
    let mut body: Vec<GrammarSymbol> = Vec::new();
    body.push(term(&ts_less));
    let ghost bv = body@;
    let pr = production(17i64, 1i64, body);
    assert(bv.map_values(|s: GrammarSymbol| sview(s)) =~= seq![t_("<"@)]);
    add_production(tables, nts_comparison_op_idx, pr, None, Some(10i64));
    let mut body: Vec<GrammarSymbol> = Vec::new();
    body.push(term(&ts_equal));
    let ghost bv = body@;
    let pr = production(18i64, 1i64, body);
    assert(bv.map_values(|s: GrammarSymbol| sview(s)) =~= seq![t_("="@)]);
    add_production(tables, nts_comparison_op_idx, pr, None, Some(10i64));
    let mut body: Vec<GrammarSymbol> = Vec::new();
    body.push(nt("simple-exp"));
    body.push(nt("addop"));
    body.push(nt("term"));
    let ghost bv = body@;
    let pr = production(19i64, 3i64, body);
    assert(bv.map_values(|s: GrammarSymbol| sview(s)) =~= seq![n_("simple-exp"@), n_("addop"@), n_("term"@)]);
    add_production(tables, nts_simple_exp_idx, pr, None, Some(11i64));
    let mut body: Vec<GrammarSymbol> = Vec::new();
    body.push(nt("term"));
    let ghost bv = body@;
    let pr = production(20i64, 1i64, body);
    assert(bv.map_values(|s: GrammarSymbol| sview(s)) =~= seq![n_("term"@)]);
    add_production(tables, nts_simple_exp_idx, pr, None, Some(11i64));
    let mut body: Vec<GrammarSymbol> = Vec::new();
    body.push(term(&ts_plus));
    let ghost bv = body@;
    let pr = production(21i64, 1i64, body);
    assert(bv.map_values(|s: GrammarSymbol| sview(s)) =~= seq![t_("+"@)]);
    add_production(tables, nts_addop_idx, pr, None, Some(12i64));
    let mut body: Vec<GrammarSymbol> = Vec::new();
    body.push(term(&ts_subtract));
    let ghost bv = body@;
    let pr = production(22i64, 1i64, body);
    assert(bv.map_values(|s: GrammarSymbol| sview(s)) =~= seq![t_("-"@)]);
    add_production(tables, nts_addop_idx, pr, None, Some(12i64));
    let mut body: Vec<GrammarSymbol> = Vec::new();
    body.push(nt("term"));
    body.push(nt("mulop"));
    body.push(nt("factor"));
    let ghost bv = body@;
    let pr = production(23i64, 3i64, body);
    assert(bv.map_values(|s: GrammarSymbol| sview(s)) =~= seq![n_("term"@), n_("mulop"@), n_("factor"@)]);
    add_production(tables, nts_term_idx, pr, None, Some(13i64));
    let mut body: Vec<GrammarSymbol> = Vec::new();
    body.push(nt("factor"));
    let ghost bv = body@;
    let pr = production(24i64, 1i64, body);
    assert(bv.map_values(|s: GrammarSymbol| sview(s)) =~= seq![n_("factor"@)]);
    add_production(tables, nts_term_idx, pr, None, Some(13i64));
    let mut body: Vec<GrammarSymbol> = Vec::new();
    body.push(term(&ts_multiply));
    let ghost bv = body@;
    let pr = production(25i64, 1i64, body);
    assert(bv.map_values(|s: GrammarSymbol| sview(s)) =~= seq![t_("*"@)]);
    add_production(tables, nts_mulop_idx, pr, None, Some(14i64));
    let mut body: Vec<GrammarSymbol> = Vec::new();
    body.push(term(&ts_divide));
    let ghost bv = body@;
    let pr = production(26i64, 1i64, body);
    assert(bv.map_values(|s: GrammarSymbol| sview(s)) =~= seq![t_("/"@)]);
    add_production(tables, nts_mulop_idx, pr, None, Some(14i64));
    let mut body: Vec<GrammarSymbol> = Vec::new();
    body.push(term(&ts_left_bracket));
    body.push(nt("exp"));
    body.push(term(&ts_right_bracket));
    let ghost bv = body@;
    let pr = production(27i64, 3i64, body);
    assert(bv.map_values(|s: GrammarSymbol| sview(s)) =~= seq![t_("("@), n_("exp"@), t_(")"@)]);
    add_production(tables, nts_factor_idx, pr, None, Some(15i64));
    let mut body: Vec<GrammarSymbol> = Vec::new();
    body.push(term(&ts_number));
    let ghost bv = body@;
    let pr = production(28i64, 1i64, body);
    assert(bv.map_values(|s: GrammarSymbol| sview(s)) =~= seq![t_("Number"@)]);
    add_production(tables, nts_factor_idx, pr, None, Some(15i64));
    let mut body: Vec<GrammarSymbol> = Vec::new();
    body.push(term(&ts_identifier));
    let ghost bv = body@;
    let pr = production(29i64, 1i64, body);
    assert(bv.map_values(|s: GrammarSymbol| sview(s)) =~= seq![t_("identifier"@)]);
    add_production(tables, nts_factor_idx, pr, None, Some(15i64));
    assert(ntviews(tables.all_nts@) =~~= ntviews(a_old) + seq![("Program'"@, 0i64, seq![(0i64, 1i64, seq![n_("Program"@), t_("$"@)])]), ("Program"@, 0i64, seq![(1i64, 1i64, seq![n_("stmt-sequence"@)])]), ("stmt-sequence"@, 0i64, seq![(2i64, 3i64, seq![n_("stmt-sequence"@), t_(";"@), n_("statement"@)]), (3i64, 1i64, seq![n_("statement"@)])]), ("statement"@, 0i64, seq![(4i64, 1i64, seq![n_("if-stmt"@)]), (5i64, 1i64, seq![n_("repeat-stmt"@)]), (6i64, 1i64, seq![n_("assign-stmt"@)]), (7i64, 1i64, seq![n_("read-stmt"@)]), (8i64, 1i64, seq![n_("write-stmt"@)])]), ("if-stmt"@, 0i64, seq![(9i64, 5i64, seq![t_("if"@), n_("exp"@), t_("then"@), n_("stmt-sequence"@), t_("end"@)]), (10i64, 7i64, seq![t_("if"@), n_("exp"@), t_("then"@), n_("stmt-sequence"@), t_("else"@), n_("stmt-sequence"@), t_("end"@)])]), ("repeat-stmt"@, 0i64, seq![(11i64, 4i64, seq![t_("repeat"@), n_("stmt-sequence"@), t_("until"@), n_("exp"@)])]), ("assign-stmt"@, 0i64, seq![(12i64, 3i64, seq![t_("identifier"@), t_(":="@), n_("exp"@)])]), ("read-stmt"@, 0i64, seq![(13i64, 2i64, seq![t_("read"@), t_("identifier"@)])]), ("write-stmt"@, 0i64, seq![(14i64, 2i64, seq![t_("write"@), n_("exp"@)])]), ("exp"@, 0i64, seq![(15i64, 3i64, seq![n_("simple-exp"@), n_("comparison-op"@), n_("simple-exp"@)]), (16i64, 1i64, seq![n_("simple-exp"@)])]), ("comparison-op"@, 0i64, seq![(17i64, 1i64, seq![t_("<"@)]), (18i64, 1i64, seq![t_("="@)])]), ("simple-exp"@, 0i64, seq![(19i64, 3i64, seq![n_("simple-exp"@), n_("addop"@), n_("term"@)]), (20i64, 1i64, seq![n_("term"@)])]), ("addop"@, 0i64, seq![(21i64, 1i64, seq![t_("+"@)]), (22i64, 1i64, seq![t_("-"@)])]), ("term"@, 0i64, seq![(23i64, 3i64, seq![n_("term"@), n_("mulop"@), n_("factor"@)]), (24i64, 1i64, seq![n_("factor"@)])]), ("mulop"@, 0i64, seq![(25i64, 1i64, seq![t_("*"@)]), (26i64, 1i64, seq![t_("/"@)])]), ("factor"@, 0i64, seq![(27i64, 3i64, seq![t_("("@), n_("exp"@), t_(")"@)]), (28i64, 1i64, seq![t_("Number"@)]), (29i64, 1i64, seq![t_("identifier"@)])])]);
    assert(pviews(tables.all_productions@) =~~= pviews(p_old) + seq![(0i64, 1i64, seq![n_("Program"@), t_("$"@)]), (1i64, 1i64, seq![n_("stmt-sequence"@)]), (2i64, 3i64, seq![n_("stmt-sequence"@), t_(";"@), n_("statement"@)]), (3i64, 1i64, seq![n_("statement"@)]), (4i64, 1i64, seq![n_("if-stmt"@)]), (5i64, 1i64, seq![n_("repeat-stmt"@)]), (6i64, 1i64, seq![n_("assign-stmt"@)]), (7i64, 1i64, seq![n_("read-stmt"@)]), (8i64, 1i64, seq![n_("write-stmt"@)]), (9i64, 5i64, seq![t_("if"@), n_("exp"@), t_("then"@), n_("stmt-sequence"@), t_("end"@)]), (10i64, 7i64, seq![t_("if"@), n_("exp"@), t_("then"@), n_("stmt-sequence"@), t_("else"@), n_("stmt-sequence"@), t_("end"@)]), (11i64, 4i64, seq![t_("repeat"@), n_("stmt-sequence"@), t_("until"@), n_("exp"@)]), (12i64, 3i64, seq![t_("identifier"@), t_(":="@), n_("exp"@)]), (13i64, 2i64, seq![t_("read"@), t_("identifier"@)]), (14i64, 2i64, seq![t_("write"@), n_("exp"@)]), (15i64, 3i64, seq![n_("simple-exp"@), n_("comparison-op"@), n_("simple-exp"@)]), (16i64, 1i64, seq![n_("simple-exp"@)]), (17i64, 1i64, seq![t_("<"@)]), (18i64, 1i64, seq![t_("="@)]), (19i64, 3i64, seq![n_("simple-exp"@), n_("addop"@), n_("term"@)]), (20i64, 1i64, seq![n_("term"@)]), (21i64, 1i64, seq![t_("+"@)]), (22i64, 1i64, seq![t_("-"@)]), (23i64, 3i64, seq![n_("term"@), n_("mulop"@), n_("factor"@)]), (24i64, 1i64, seq![n_("factor"@)]), (25i64, 1i64, seq![t_("*"@)]), (26i64, 1i64, seq![t_("/"@)]), (27i64, 3i64, seq![t_("("@), n_("exp"@), t_(")"@)]), (28i64, 1i64, seq![t_("Number"@)]), (29i64, 1i64, seq![t_("identifier"@)])]);
    proof {
        assert(pfirsts(tables.all_productions@) =~= pfirsts(p_old) + empties(30));
        assert(tables.relative_id@ =~= r_old + seq![0i64, 1i64, 2i64, 2i64, 3i64, 3i64, 3i64, 3i64, 3i64, 4i64, 4i64, 5i64, 6i64, 7i64, 8i64, 9i64, 9i64, 10i64, 10i64, 11i64, 11i64, 12i64, 12i64, 13i64, 13i64, 14i64, 14i64, 15i64, 15i64, 15i64]);
    }
    analyse(tables);
}


/// Builds the LR(0) automaton of the arithmetic grammar in the tables, from
/// the start item of its first production.
pub fn create_Arithmetic_Grammar_LR0_DFA(tables: &mut Lab2Tables)
    requires
        old(tables).all_nts@.len() > 0,
        old(tables).all_productions@.len() > 0,
    ensures
        lr0_built(*old(tables), *final(tables)),
{
    test2_1(tables);
}

/// Builds the LR(0) automaton of the TINY grammar in the tables, from the
/// start item of its first production, and fills the ACTION and GOTO tables
/// from it.
pub fn create_TINY_LR0_DFA(tables: &mut Lab2Tables)
    requires
        old(tables).all_nts@.len() > 0,
        old(tables).all_productions@.len() > 0,
        arows_wf(old(tables).action_cells@),
        grows_wf(old(tables).goto_cells@),
    ensures
        exists|mid: Lab2Tables| lr0_built(*old(tables), mid)
            && mid.action_cells@ == old(tables).action_cells@ && mid.goto_cells@ == old(tables).goto_cells@
            && #[trigger] amap(final(tables).action_cells@) == apply_ws(rows_init(amap(old(tables).action_cells@), mid.item_sets@),
                shift_ws(mid.transition_edges@, acc_id(mid.item_sets@)) + reduce_ws(mid.all_nts@, mid.item_sets@))
            && gmap(final(tables).goto_cells@) == apply_ws(rows_init(gmap(old(tables).goto_cells@), mid.item_sets@), goto_ws(mid.transition_edges@))
            && final(tables).item_sets@ == mid.item_sets@ && final(tables).transition_edges@ == mid.transition_edges@,
        arows_wf(final(tables).action_cells@),
        grows_wf(final(tables).goto_cells@),
        final(tables).all_nts@ == old(tables).all_nts@,
        final(tables).all_productions@ == old(tables).all_productions@,
        final(tables).relative_id@ == old(tables).relative_id@,
        final(tables).get_ts@ == old(tables).get_ts@,
        final(tables).get_nts@ == old(tables).get_nts@,
{
    test2_1(tables);
    let ghost mid = *tables;
    create_LR1_Analysis_Table(tables);
    assert(lr0_built(*old(tables), mid));
}

/// Empties every table.
pub fn reset_lab2_state(tables: &mut Lab2Tables)
    ensures
        tables_empty(*final(tables)),
        tables_wf(*final(tables)),
{
    clear_lab2_tables(tables);
}

/// What came of an ACTION entry in a step of the shift-reduce run.
pub enum ActOutcome {
    /// The state was pushed and the input advanced.
    Shifted,
    /// The production's states were popped and its head's GOTO state, where
    /// the uncovered state has a GOTO row, pushed.
    Reduced,
    /// The stack ran out while popping: the input has a syntax error.
    StackRanOut,
    /// The uncovered state's GOTO row has no entry for the head: the input
    /// has a syntax error.
    NoGoto,
    /// The input is accepted.
    Accepted,
    /// An entry of another kind: nothing changes.
    Ignored,
    /// The reduction names a production, head or state that the tables do not
    /// hold, or pops the whole stack.
    Fault,
}

/// Whether the names of `v` are distinct.
fn names_distinct<V>(v: &Vec<(String, V)>) -> (res: bool)
    ensures
        res == skeys_unique(v@),
{
    let mut i: usize = 0;
    while i < v.len()
        invariant
            i <= v@.len(),
            forall|a: int, b: int| 0 <= a < i && a < b < v@.len() ==> (#[trigger] v@[a]).0@ != (#[trigger] v@[b]).0@,
        decreases v@.len() - i,
    {
        let mut j: usize = i + 1;
        while j < v.len()
            invariant
                i < v@.len(),
                i + 1 <= j <= v@.len(),
                forall|a: int, b: int| 0 <= a < i && a < b < v@.len() ==> (#[trigger] v@[a]).0@ != (#[trigger] v@[b]).0@,
                forall|b: int| i < b < j ==> v@[i as int].0@ != (#[trigger] v@[b]).0@,
            decreases v@.len() - j,
        {
            if str_eq(v[i].0.as_str(), v[j].0.as_str()) {
                return false;
            }
            j = j + 1;
        }
        i = i + 1;
    }
    assert forall|a: int, b: int| 0 <= a < v@.len() && 0 <= b < v@.len() && a != b implies (#[trigger] v@[a]).0@ != (#[trigger] v@[b]).0@ by {
        if a > b {
            assert(v@[b].0@ != v@[a].0@);
        }
    }
    true
}

/// Whether the row numbers of `v` are distinct.
fn rows_distinct<X>(v: &Vec<(i64, X)>) -> (res: bool)
    ensures
        res == rows_unique(v@),
{
    let mut i: usize = 0;
    while i < v.len()
        invariant
            i <= v@.len(),
            forall|a: int, b: int| 0 <= a < i && a < b < v@.len() ==> (#[trigger] v@[a]).0 != (#[trigger] v@[b]).0,
        decreases v@.len() - i,
    {
        let mut j: usize = i + 1;
        while j < v.len()
            invariant
                i < v@.len(),
                i + 1 <= j <= v@.len(),
                forall|a: int, b: int| 0 <= a < i && a < b < v@.len() ==> (#[trigger] v@[a]).0 != (#[trigger] v@[b]).0,
                forall|b: int| i < b < j ==> v@[i as int].0 != (#[trigger] v@[b]).0,
            decreases v@.len() - j,
        {
            if v[i].0 == v[j].0 {
                return false;
            }
            j = j + 1;
        }
        i = i + 1;
    }
    assert forall|a: int, b: int| 0 <= a < v@.len() && 0 <= b < v@.len() && a != b implies (#[trigger] v@[a]).0 != (#[trigger] v@[b]).0 by {
        if a > b {
            assert(v@[b].0 != v@[a].0);
        }
    }
    true
}

/// Whether the terminals of an ACTION row are distinct.
fn terminals_distinct(r: &Vec<(TerminalSymbol, ActionCell)>) -> (res: bool)
    ensures
        res == akeys_unique(r@),
{
    let mut i: usize = 0;
    while i < r.len()
        invariant
            i <= r@.len(),
            forall|a: int, b: int| 0 <= a < i && a < b < r@.len() ==> tkey((#[trigger] r@[a]).0) != tkey((#[trigger] r@[b]).0),
        decreases r@.len() - i,
    {
        let mut j: usize = i + 1;
        while j < r.len()
            invariant
                i < r@.len(),
                i + 1 <= j <= r@.len(),
                forall|a: int, b: int| 0 <= a < i && a < b < r@.len() ==> tkey((#[trigger] r@[a]).0) != tkey((#[trigger] r@[b]).0),
                forall|b: int| i < b < j ==> tkey(r@[i as int].0) != tkey((#[trigger] r@[b]).0),
            decreases r@.len() - j,
        {
            if str_eq(r[i].0.symbolType.as_str(), r[j].0.symbolType.as_str()) && str_eq(r[i].0.name.as_str(), r[j].0.name.as_str()) {
                return false;
            }
            j = j + 1;
        }
        i = i + 1;
    }
    assert forall|a: int, b: int| 0 <= a < r@.len() && 0 <= b < r@.len() && a != b implies tkey((#[trigger] r@[a]).0) != tkey((#[trigger] r@[b]).0) by {
        if a > b {
            assert(tkey(r@[b].0) != tkey(r@[a].0));
        }
    }
    true
}

/// Whether the tables meet what [`judge_step`] asks of them: distinct
/// symbol names, distinct rows, distinct keys within each row.
pub fn judge_ready(tables: &Lab2Tables) -> (res: bool)
    ensures
        res == (tables_wf(*tables) && arows_wf(tables.action_cells@) && grows_wf(tables.goto_cells@)),
{
    if !names_distinct(&tables.get_nts) || !names_distinct(&tables.get_ts) {
        return false;
    }
    if !rows_distinct(&tables.action_cells) || !rows_distinct(&tables.goto_cells) {
        return false;
    }
    let mut i: usize = 0;
    while i < tables.action_cells.len()
        invariant
            i <= tables.action_cells@.len(),
            forall|k: int| 0 <= k < i ==> akeys_unique((#[trigger] tables.action_cells@[k]).1@),
        decreases tables.action_cells@.len() - i,
    {
        if !terminals_distinct(&tables.action_cells[i].1) {
            return false;
        }
        i = i + 1;
    }
    let mut i: usize = 0;
    while i < tables.goto_cells.len()
        invariant
            i <= tables.goto_cells@.len(),
            forall|k: int| 0 <= k < i ==> skeys_unique((#[trigger] tables.goto_cells@[k]).1@),
        decreases tables.goto_cells@.len() - i,
    {
        if !names_distinct(&tables.goto_cells[i].1) {
            return false;
        }
        i = i + 1;
    }
    true
}

/// One step of the shift-reduce run.
pub enum StepOutcome {
    /// No ACTION entry for the state on top and the current token: the input
    /// has a syntax error.
    NoAction,
    /// The entry's kind and number, and what came of it.
    Acted(String, i64, ActOutcome),
}

/// The ACTION entry of state `state` on the terminal named `tok`, if the
/// name is a registered terminal and the state's row holds one.
pub open spec fn entry_of(t: Lab2Tables, state: i64, tok: Seq<char>) -> Option<(i64, Seq<char>, Seq<char>, i64)> {
    if smap(t.get_ts@).contains_key(tok) && amap(t.action_cells@).contains_key(state)
        && amap(t.action_cells@)[state].contains_key(tkey(smap(t.get_ts@)[tok])) {
        Some(amap(t.action_cells@)[state][tkey(smap(t.get_ts@)[tok])])
    } else {
        None
    }
}

/// One step of the shift-reduce run over `tokens` with the state stack
/// `stack` at position `pos`: looks up the ACTION entry of the top state on
/// the current token; shifts, reduces by the production the entry names
/// (popping one state per body symbol, then pushing the GOTO state of the
/// head under the uncovered state), accepts, or reports what went wrong.
pub fn judge_step(tables: &Lab2Tables, stack: &mut Vec<i64>, pos: &mut usize, tokens: &Vec<String>) -> (res: StepOutcome)
    requires
        tables_wf(*tables),
        arows_wf(tables.action_cells@),
        grows_wf(tables.goto_cells@),
        old(stack)@.len() > 0,
        *old(pos) < tokens@.len(),
    ensures
        ({
            let e = entry_of(*tables, old(stack)@.last(), tokens@[*old(pos) as int]@);
            match res {
                StepOutcome::NoAction => e is None && final(stack)@ == old(stack)@ && *final(pos) == *old(pos),
                StepOutcome::Acted(typ, id, o) => e matches Some(c) && typ@ == c.2 && id == c.3 && ({
                    let prods = tables.all_productions@;
                    if c.2 == "s"@ {
                        o is Shifted && final(stack)@ == old(stack)@.push(id) && *final(pos) == *old(pos) + 1
                    } else if c.2 == "r"@ {
                        *final(pos) == *old(pos) && if !(0 <= id < prods.len()) {
                            o is Fault
                        } else {
                            let n = prods[id as int].pBodySymbolTable@.len();
                            let s2 = old(stack)@.subrange(0, old(stack)@.len() - n);
                            if old(stack)@.len() < n {
                                o is StackRanOut
                            } else if old(stack)@.len() == n || !(0 <= id < tables.relative_id@.len())
                                || !(0 <= tables.relative_id@[id as int] < tables.all_nts@.len()) {
                                o is Fault
                            } else {
                                let head = tables.all_nts@[tables.relative_id@[id as int] as int].name@;
                                let st2 = s2.last();
                                if !gmap(tables.goto_cells@).contains_key(st2) {
                                    o is Reduced && final(stack)@ == s2
                                } else if gmap(tables.goto_cells@)[st2].contains_key(head) {
                                    o is Reduced && final(stack)@ == s2.push(gmap(tables.goto_cells@)[st2][head].2)
                                } else {
                                    o is NoGoto && final(stack)@ == s2
                                }
                            }
                        }
                    } else if c.2 == "acc"@ {
                        o is Accepted && final(stack)@ == old(stack)@ && *final(pos) == *old(pos)
                    } else {
                        o is Ignored && final(stack)@ == old(stack)@ && *final(pos) == *old(pos)
                    }
                }),
            }
        }),
{
    let _tl = tokens.len();
    let state = stack[stack.len() - 1];
    let tok = tokens[*pos].as_str();
    let ts = match get_ts(tables, tok) {
        Some(t) => t,
        None => {
            return StepOutcome::NoAction;
        },
    };
    let cell = match action_lookup(&tables.action_cells, state, &ts) {
        Some(c) => c,
        None => {
            return StepOutcome::NoAction;
        },
    };
    let typ = cell.0;
    let id = cell.1;
    if str_eq(typ.as_str(), "s") {
        stack.push(id);
        *pos = *pos + 1;
        StepOutcome::Acted(typ, id, ActOutcome::Shifted)
    } else if str_eq(typ.as_str(), "r") {
        if id < 0 || id as u64 >= tables.all_productions.len() as u64 {
            return StepOutcome::Acted(typ, id, ActOutcome::Fault);
        }
        let pi = id as usize;
        let n = tables.all_productions[pi].pBodySymbolTable.len();
        let ghost s0 = stack@;
        if stack.len() < n {
            stack.clear();
            return StepOutcome::Acted(typ, id, ActOutcome::StackRanOut);
        }
        let mut times: usize = n;
        while times != 0
            invariant
                times <= n,
                n <= s0.len(),
                stack@ == s0.subrange(0, s0.len() - (n - times)),
            decreases times,
        {
            times = times - 1;
            stack.pop();
        }
        if stack.len() == 0 || pi >= tables.relative_id.len() {
            return StepOutcome::Acted(typ, id, ActOutcome::Fault);
        }
        let rel = tables.relative_id[pi];
        if rel < 0 || rel as u64 >= tables.all_nts.len() as u64 {
            return StepOutcome::Acted(typ, id, ActOutcome::Fault);
        }
        let head = tables.all_nts[rel as usize].name.as_str();
        let st2 = stack[stack.len() - 1];
        match goto_lookup(&tables.goto_cells, st2, head) {
            (false, _) => StepOutcome::Acted(typ, id, ActOutcome::Reduced),
            (true, Some(next)) => {
                stack.push(next);
                StepOutcome::Acted(typ, id, ActOutcome::Reduced)
            },
            (true, None) => StepOutcome::Acted(typ, id, ActOutcome::NoGoto),
        }
    } else if str_eq(typ.as_str(), "acc") {
        StepOutcome::Acted(typ, id, ActOutcome::Accepted)
    } else {
        StepOutcome::Acted(typ, id, ActOutcome::Ignored)
    }
}

/// The TINY token sequence `repeat identifier := identifier * Number until identifier = Number $`.
pub fn test_TINY1() -> (res: Vec<String>)
    ensures
        res@.map_values(|x: String| x@) == seq!["repeat"@, "identifier"@, ":="@, "identifier"@, "*"@, "Number"@, "until"@, "identifier"@, "="@, "Number"@, "$"@],
{
    let mut v: Vec<String> = Vec::new();
    v.push(String::from_str("repeat"));
    v.push(String::from_str("identifier"));
    v.push(String::from_str(":="));
    v.push(String::from_str("identifier"));
    v.push(String::from_str("*"));
    v.push(String::from_str("Number"));
    v.push(String::from_str("until"));
    v.push(String::from_str("identifier"));
    v.push(String::from_str("="));
    v.push(String::from_str("Number"));
    v.push(String::from_str("$"));
    assert(v@.map_values(|x: String| x@) =~= seq!["repeat"@, "identifier"@, ":="@, "identifier"@, "*"@, "Number"@, "until"@, "identifier"@, "="@, "Number"@, "$"@]);
    v
}

/// The TINY token sequence `read identifier ; identifier := identifier - Number ; write identifier $`.
pub fn test_TINY2() -> (res: Vec<String>)
    ensures
        res@.map_values(|x: String| x@) == seq!["read"@, "identifier"@, ";"@, "identifier"@, ":="@, "identifier"@, "-"@, "Number"@, ";"@, "write"@, "identifier"@, "$"@],
{
    let mut v: Vec<String> = Vec::new();
    v.push(String::from_str("read"));
    v.push(String::from_str("identifier"));
    v.push(String::from_str(";"));
    v.push(String::from_str("identifier"));
    v.push(String::from_str(":="));
    v.push(String::from_str("identifier"));
    v.push(String::from_str("-"));
    v.push(String::from_str("Number"));
    v.push(String::from_str(";"));
    v.push(String::from_str("write"));
    v.push(String::from_str("identifier"));
    v.push(String::from_str("$"));
    assert(v@.map_values(|x: String| x@) =~= seq!["read"@, "identifier"@, ";"@, "identifier"@, ":="@, "identifier"@, "-"@, "Number"@, ";"@, "write"@, "identifier"@, "$"@]);
    v
}

/// The TINY token sequence of a program that reads, tests, assigns in a repeat loop and writes.
pub fn test_TINY3() -> (res: Vec<String>)
    ensures
        res@.map_values(|x: String| x@) == seq!["read"@, "identifier"@, ";"@, "if"@, "Number"@, "<"@, "identifier"@, "then"@, "identifier"@, ":="@, "Number"@, ";"@, "repeat"@, "identifier"@, ":="@, "identifier"@, "*"@, "identifier"@, ";"@, "identifier"@, ":="@, "identifier"@, "-"@, "Number"@, "until"@, "identifier"@, "="@, "Number"@, ";"@, "write"@, "identifier"@, "end"@, "$"@],
{
    let mut v: Vec<String> = Vec::new();
    v.push(String::from_str("read"));
    v.push(String::from_str("identifier"));
    v.push(String::from_str(";"));
    v.push(String::from_str("if"));
    v.push(String::from_str("Number"));
    v.push(String::from_str("<"));
    v.push(String::from_str("identifier"));
    v.push(String::from_str("then"));
    v.push(String::from_str("identifier"));
    v.push(String::from_str(":="));
    v.push(String::from_str("Number"));
    v.push(String::from_str(";"));
    v.push(String::from_str("repeat"));
    v.push(String::from_str("identifier"));
    v.push(String::from_str(":="));
    v.push(String::from_str("identifier"));
    v.push(String::from_str("*"));
    v.push(String::from_str("identifier"));
    v.push(String::from_str(";"));
    v.push(String::from_str("identifier"));
    v.push(String::from_str(":="));
    v.push(String::from_str("identifier"));
    v.push(String::from_str("-"));
    v.push(String::from_str("Number"));
    v.push(String::from_str("until"));
    v.push(String::from_str("identifier"));
    v.push(String::from_str("="));
    v.push(String::from_str("Number"));
    v.push(String::from_str(";"));
    v.push(String::from_str("write"));
    v.push(String::from_str("identifier"));
    v.push(String::from_str("end"));
    v.push(String::from_str("$"));
    assert(v@.map_values(|x: String| x@) =~= seq!["read"@, "identifier"@, ";"@, "if"@, "Number"@, "<"@, "identifier"@, "then"@, "identifier"@, ":="@, "Number"@, ";"@, "repeat"@, "identifier"@, ":="@, "identifier"@, "*"@, "identifier"@, ";"@, "identifier"@, ":="@, "identifier"@, "-"@, "Number"@, "until"@, "identifier"@, "="@, "Number"@, ";"@, "write"@, "identifier"@, "end"@, "$"@]);
    v
}

} // verus!
