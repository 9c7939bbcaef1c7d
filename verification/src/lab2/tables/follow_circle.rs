//! A grammar whose FOLLOW sets depend on one another in a circle.
use vstd::prelude::*;
use crate::lab2::tables::declare::{
    add_production, analyse, analysed, empties, n_, nt, ntviews, null_, pfirsts, production, pviews, sview, t_, term, tsmap,
};
use crate::lab2::tables::supplementary::{register_non_terminal, register_terminal, smap, tables_wf, ts_null, Lab2Tables};
use crate::lab2::tables::symbols::{copy_ts, tset, ts_insert, GrammarSymbol, NonTerminalSymbol, TerminalSymbol};
use crate::lab2::tables::task1::{nfirst, nfollow, nts_wf, prods_wf};

verus! {

/// The declarations of the non-terminals that `create_follow_circle_case` adds.
pub open spec fn circle_nts() -> Seq<(Seq<char>, i64, Seq<(i64, i64, Seq<(u8, Seq<char>, Seq<char>)>)>)> {
    seq![("S"@, 1i64, seq![(1i64, 2i64, seq![n_("T"@), n_("B"@)])]), ("B"@, 2i64, seq![(2i64, 2i64, seq![n_("S'"@), n_("B"@)]), (3i64, 1i64, seq![null_()])]), ("T"@, 2i64, seq![(6i64, 3i64, seq![t_("("@), n_("S"@), t_(")"@)]), (7i64, 1i64, seq![t_("a"@)])]), ("S'"@, 2i64, seq![(4i64, 2i64, seq![t_("+"@), n_("S"@)]), (5i64, 2i64, seq![n_("T"@), n_("B"@)])])]
}

/// The productions that `create_follow_circle_case` lists.
pub open spec fn circle_prods() -> Seq<(i64, i64, Seq<(u8, Seq<char>, Seq<char>)>)> {
    seq![(1i64, 2i64, seq![n_("T"@), n_("B"@)]), (2i64, 2i64, seq![n_("S'"@), n_("B"@)]), (3i64, 1i64, seq![null_()]), (4i64, 2i64, seq![t_("+"@), n_("S"@)]), (5i64, 2i64, seq![n_("T"@), n_("B"@)]), (6i64, 3i64, seq![t_("("@), n_("S"@), t_(")"@)]), (7i64, 1i64, seq![t_("a"@)])]
}

/// Declares the grammar S -> T B, B -> S' B | null, S' -> + S | T B,
/// T -> ( S ) | a, in which FOLLOW sets depend on one another in a circle,
/// with `$` in FOLLOW of S, and computes the FIRST and FOLLOW sets.
pub fn create_follow_circle_case(tables: &mut Lab2Tables)
    requires
        tables_wf(*old(tables)),
        nts_wf(old(tables).all_nts@),
        prods_wf(old(tables).all_productions@),
    ensures
        tables_wf(*final(tables)),
        ntviews(final(tables).all_nts@) == ntviews(old(tables).all_nts@) + circle_nts(),
        pviews(final(tables).all_productions@) == pviews(old(tables).all_productions@) + circle_prods(),
        final(tables).relative_id@ == old(tables).relative_id@,
        smap(final(tables).get_nts@) == smap(old(tables).get_nts@).insert("S"@, (old(tables).all_nts@.len() + 0) as usize).insert("B"@, (old(tables).all_nts@.len() + 1) as usize).insert("T"@, (old(tables).all_nts@.len() + 2) as usize).insert("S'"@, (old(tables).all_nts@.len() + 3) as usize),
        tsmap(final(tables).get_ts@) == tsmap(old(tables).get_ts@).insert("+"@, ("TERMINAL"@, "+"@)).insert("("@, ("TERMINAL"@, "("@)).insert(")"@, ("TERMINAL"@, ")"@)).insert("*"@, ("TERMINAL"@, "*"@)).insert("a"@, ("TERMINAL"@, "a"@)).insert("$"@, ("TERMINAL"@, "$"@)),
        analysed(*final(tables), nfirst(old(tables).all_nts@) + empties(4), pfirsts(old(tables).all_productions@) + empties(7),
            nfollow(old(tables).all_nts@) + seq![set![("TERMINAL"@, "$"@)], Set::empty(), Set::empty(), Set::empty()]),
{
    let ghost a_old = tables.all_nts@;
    let ghost p_old = tables.all_productions@;
    let ghost r_old = tables.relative_id@;
    let ghost g_old = tables.get_nts@;
    let ghost gt_old = tables.get_ts@;
    let tsnull = ts_null();
    let ts_plus = TerminalSymbol::new("+", "TERMINAL", "OPERATOR+");
    let ts_left_bracket = TerminalSymbol::new("(", "TERMINAL", "LEFT BRACKET");
    let ts_right_bracket = TerminalSymbol::new(")", "TERMINAL", "RIGHT BRACKET");
    let ts_multiple = TerminalSymbol::new("*", "TERMINAL", "OPERATOR*");
    let ts_a = TerminalSymbol::new("a", "TERMINAL", "ID");
    let ts_shut = TerminalSymbol::new("$", "TERMINAL", "$");
    let nts_S_idx = register_non_terminal(tables, NonTerminalSymbol::new("S", "NONTERMINAL"));
    let nts_B_idx = register_non_terminal(tables, NonTerminalSymbol::new("B", "NONTERMINAL"));
    let nts_T_idx = register_non_terminal(tables, NonTerminalSymbol::new("T", "NONTERMINAL"));
    let nts_S1_idx = register_non_terminal(tables, NonTerminalSymbol::new("S'", "NONTERMINAL"));
    proof {
        assert(ntviews(tables.all_nts@) =~~= ntviews(a_old) + seq![("S"@, 0i64, seq![]), ("B"@, 0i64, seq![]), ("T"@, 0i64, seq![]), ("S'"@, 0i64, seq![])]);
        assert(nfirst(tables.all_nts@) =~~= nfirst(a_old) + empties(4));
        assert(nfollow(tables.all_nts@) =~~= nfollow(a_old) + empties(4));
    }
    register_terminal(tables, copy_ts(&ts_plus));
    register_terminal(tables, copy_ts(&ts_left_bracket));
    register_terminal(tables, copy_ts(&ts_right_bracket));
    register_terminal(tables, copy_ts(&ts_multiple));
    register_terminal(tables, copy_ts(&ts_a));
    register_terminal(tables, copy_ts(&ts_shut));
    assert(tsmap(tables.get_ts@) =~= tsmap(gt_old).insert("+"@, ("TERMINAL"@, "+"@)).insert("("@, ("TERMINAL"@, "("@)).insert(")"@, ("TERMINAL"@, ")"@)).insert("*"@, ("TERMINAL"@, "*"@)).insert("a"@, ("TERMINAL"@, "a"@)).insert("$"@, ("TERMINAL"@, "$"@)));
    let ghost before_follow = tables.all_nts@;
    ts_insert(&mut tables.all_nts[nts_S_idx].pFollowSet, &ts_shut);
    proof {
        assert(ntviews(tables.all_nts@) =~= ntviews(before_follow));
        assert(nfirst(tables.all_nts@) =~= nfirst(before_follow));
        assert(tset(before_follow[nts_S_idx as int].pFollowSet@) =~= Set::<(Seq<char>, Seq<char>)>::empty());
        assert(nfollow(tables.all_nts@) =~~= nfollow(a_old) + seq![set![("TERMINAL"@, "$"@)], Set::empty(), Set::empty(), Set::empty()]);
        assert(nts_wf(tables.all_nts@));
    }
    let mut body: Vec<GrammarSymbol> = Vec::new();
    body.push(nt("T"));
    body.push(nt("B"));
    let ghost bv = body@;
    let pr = production(1i64, 2i64, body);
    assert(bv.map_values(|s: GrammarSymbol| sview(s)) =~= seq![n_("T"@), n_("B"@)]);
    add_production(tables, nts_S_idx, pr, Some(1i64), None);
    assert(ntviews(tables.all_nts@) =~~= ntviews(a_old) + seq![("S"@, 1i64, seq![(1i64, 2i64, seq![n_("T"@), n_("B"@)])]), ("B"@, 0i64, seq![]), ("T"@, 0i64, seq![]), ("S'"@, 0i64, seq![])]);
    assert(pviews(tables.all_productions@) =~~= pviews(p_old) + seq![(1i64, 2i64, seq![n_("T"@), n_("B"@)])]);
    let mut body: Vec<GrammarSymbol> = Vec::new();
    body.push(nt("S'"));
    body.push(nt("B"));
    let ghost bv = body@;
    let pr = production(2i64, 2i64, body);
    assert(bv.map_values(|s: GrammarSymbol| sview(s)) =~= seq![n_("S'"@), n_("B"@)]);
    add_production(tables, nts_B_idx, pr, Some(2i64), None);
    assert(ntviews(tables.all_nts@) =~~= ntviews(a_old) + seq![("S"@, 1i64, seq![(1i64, 2i64, seq![n_("T"@), n_("B"@)])]), ("B"@, 2i64, seq![(2i64, 2i64, seq![n_("S'"@), n_("B"@)])]), ("T"@, 0i64, seq![]), ("S'"@, 0i64, seq![])]);
    assert(pviews(tables.all_productions@) =~~= pviews(p_old) + seq![(1i64, 2i64, seq![n_("T"@), n_("B"@)]), (2i64, 2i64, seq![n_("S'"@), n_("B"@)])]);
    let mut body: Vec<GrammarSymbol> = Vec::new();
    body.push(term(&tsnull));
    let ghost bv = body@;
    let pr = production(3i64, 1i64, body);
    assert(bv.map_values(|s: GrammarSymbol| sview(s)) =~= seq![null_()]);
    add_production(tables, nts_B_idx, pr, Some(2i64), None);
    assert(ntviews(tables.all_nts@) =~~= ntviews(a_old) + seq![("S"@, 1i64, seq![(1i64, 2i64, seq![n_("T"@), n_("B"@)])]), ("B"@, 2i64, seq![(2i64, 2i64, seq![n_("S'"@), n_("B"@)]), (3i64, 1i64, seq![null_()])]), ("T"@, 0i64, seq![]), ("S'"@, 0i64, seq![])]);
    assert(pviews(tables.all_productions@) =~~= pviews(p_old) + seq![(1i64, 2i64, seq![n_("T"@), n_("B"@)]), (2i64, 2i64, seq![n_("S'"@), n_("B"@)]), (3i64, 1i64, seq![null_()])]);
    let mut body: Vec<GrammarSymbol> = Vec::new();
    body.push(term(&ts_plus));
    body.push(nt("S"));
    let ghost bv = body@;
    let pr = production(4i64, 2i64, body);
    assert(bv.map_values(|s: GrammarSymbol| sview(s)) =~= seq![t_("+"@), n_("S"@)]);
    add_production(tables, nts_S1_idx, pr, Some(2i64), None);
    assert(ntviews(tables.all_nts@) =~~= ntviews(a_old) + seq![("S"@, 1i64, seq![(1i64, 2i64, seq![n_("T"@), n_("B"@)])]), ("B"@, 2i64, seq![(2i64, 2i64, seq![n_("S'"@), n_("B"@)]), (3i64, 1i64, seq![null_()])]), ("T"@, 0i64, seq![]), ("S'"@, 2i64, seq![(4i64, 2i64, seq![t_("+"@), n_("S"@)])])]);
    assert(pviews(tables.all_productions@) =~~= pviews(p_old) + seq![(1i64, 2i64, seq![n_("T"@), n_("B"@)]), (2i64, 2i64, seq![n_("S'"@), n_("B"@)]), (3i64, 1i64, seq![null_()]), (4i64, 2i64, seq![t_("+"@), n_("S"@)])]);
    let mut body: Vec<GrammarSymbol> = Vec::new();
    body.push(nt("T"));
    body.push(nt("B"));
    let ghost bv = body@;
    let pr = production(5i64, 2i64, body);
    assert(bv.map_values(|s: GrammarSymbol| sview(s)) =~= seq![n_("T"@), n_("B"@)]);
    add_production(tables, nts_S1_idx, pr, Some(2i64), None);
    assert(ntviews(tables.all_nts@) =~~= ntviews(a_old) + seq![("S"@, 1i64, seq![(1i64, 2i64, seq![n_("T"@), n_("B"@)])]), ("B"@, 2i64, seq![(2i64, 2i64, seq![n_("S'"@), n_("B"@)]), (3i64, 1i64, seq![null_()])]), ("T"@, 0i64, seq![]), ("S'"@, 2i64, seq![(4i64, 2i64, seq![t_("+"@), n_("S"@)]), (5i64, 2i64, seq![n_("T"@), n_("B"@)])])]);
    assert(pviews(tables.all_productions@) =~~= pviews(p_old) + seq![(1i64, 2i64, seq![n_("T"@), n_("B"@)]), (2i64, 2i64, seq![n_("S'"@), n_("B"@)]), (3i64, 1i64, seq![null_()]), (4i64, 2i64, seq![t_("+"@), n_("S"@)]), (5i64, 2i64, seq![n_("T"@), n_("B"@)])]);
    let mut body: Vec<GrammarSymbol> = Vec::new();
    body.push(term(&ts_left_bracket));
    body.push(nt("S"));
    body.push(term(&ts_right_bracket));
    let ghost bv = body@;
    let pr = production(6i64, 3i64, body);
    assert(bv.map_values(|s: GrammarSymbol| sview(s)) =~= seq![t_("("@), n_("S"@), t_(")"@)]);
    add_production(tables, nts_T_idx, pr, Some(2i64), None);
    assert(ntviews(tables.all_nts@) =~~= ntviews(a_old) + seq![("S"@, 1i64, seq![(1i64, 2i64, seq![n_("T"@), n_("B"@)])]), ("B"@, 2i64, seq![(2i64, 2i64, seq![n_("S'"@), n_("B"@)]), (3i64, 1i64, seq![null_()])]), ("T"@, 2i64, seq![(6i64, 3i64, seq![t_("("@), n_("S"@), t_(")"@)])]), ("S'"@, 2i64, seq![(4i64, 2i64, seq![t_("+"@), n_("S"@)]), (5i64, 2i64, seq![n_("T"@), n_("B"@)])])]);
    assert(pviews(tables.all_productions@) =~~= pviews(p_old) + seq![(1i64, 2i64, seq![n_("T"@), n_("B"@)]), (2i64, 2i64, seq![n_("S'"@), n_("B"@)]), (3i64, 1i64, seq![null_()]), (4i64, 2i64, seq![t_("+"@), n_("S"@)]), (5i64, 2i64, seq![n_("T"@), n_("B"@)]), (6i64, 3i64, seq![t_("("@), n_("S"@), t_(")"@)])]);
    let mut body: Vec<GrammarSymbol> = Vec::new();
    body.push(term(&ts_a));
    let ghost bv = body@;
    let pr = production(7i64, 1i64, body);
    assert(bv.map_values(|s: GrammarSymbol| sview(s)) =~= seq![t_("a"@)]);
    add_production(tables, nts_T_idx, pr, Some(2i64), None);
    assert(ntviews(tables.all_nts@) =~~= ntviews(a_old) + seq![("S"@, 1i64, seq![(1i64, 2i64, seq![n_("T"@), n_("B"@)])]), ("B"@, 2i64, seq![(2i64, 2i64, seq![n_("S'"@), n_("B"@)]), (3i64, 1i64, seq![null_()])]), ("T"@, 2i64, seq![(6i64, 3i64, seq![t_("("@), n_("S"@), t_(")"@)]), (7i64, 1i64, seq![t_("a"@)])]), ("S'"@, 2i64, seq![(4i64, 2i64, seq![t_("+"@), n_("S"@)]), (5i64, 2i64, seq![n_("T"@), n_("B"@)])])]);
    assert(pviews(tables.all_productions@) =~~= pviews(p_old) + seq![(1i64, 2i64, seq![n_("T"@), n_("B"@)]), (2i64, 2i64, seq![n_("S'"@), n_("B"@)]), (3i64, 1i64, seq![null_()]), (4i64, 2i64, seq![t_("+"@), n_("S"@)]), (5i64, 2i64, seq![n_("T"@), n_("B"@)]), (6i64, 3i64, seq![t_("("@), n_("S"@), t_(")"@)]), (7i64, 1i64, seq![t_("a"@)])]);
    proof {
        assert(pfirsts(tables.all_productions@) =~= pfirsts(p_old) + empties(7));
    }
    analyse(tables);
}

} // verus!
