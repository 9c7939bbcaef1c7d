//! Declaring grammars in the shared tables, and running the FIRST and
//! FOLLOW computations over what was declared.
use vstd::prelude::*;
use crate::lab2::tables::supplementary::{tables_wf, Lab2Tables};
use crate::lab2::tables::symbols::{copy_ts, tset, GrammarSymbol, NonTerminalSymbol, Production, TerminalSymbol};
use crate::lab2::tables::task1::{
    copy_production, get_All_NTS_FIRST, get_All_NTS_FOLLOW, get_All_Production_FIRST, lemma_first_closed_same,
    nfirst, nfirst_closed, nfirst_least, nfollow, nfollow_closed, nts_names, nts_wf, prods_wf, pstep, tcovers,
};

verus! {

/// A body symbol as plain values: 1 and a terminal's kind and name, 2 and
/// a non-terminal's name, or 0 for the empty symbol.
pub open spec fn sview(s: GrammarSymbol) -> (u8, Seq<char>, Seq<char>) {
    match s {
        GrammarSymbol::Terminal(ts) => (1u8, ts.symbolType@, ts.name@),
        GrammarSymbol::NonTerminal(n) => (2u8, Seq::empty(), n@),
        GrammarSymbol::Null => (0u8, Seq::empty(), Seq::empty()),
    }
}

/// The view of a plain terminal named `n`.
pub open spec fn t_(n: Seq<char>) -> (u8, Seq<char>, Seq<char>) {
    (1u8, "TERMINAL"@, n)
}

/// The view of the non-terminal named `n`.
pub open spec fn n_(n: Seq<char>) -> (u8, Seq<char>, Seq<char>) {
    (2u8, Seq::empty(), n)
}

/// The view of the terminal `null`.
pub open spec fn null_() -> (u8, Seq<char>, Seq<char>) {
    (1u8, "NULL"@, "null"@)
}

/// A production as plain values: number, declared size, body.
pub open spec fn pview(p: Production) -> (i64, i64, Seq<(u8, Seq<char>, Seq<char>)>) {
    (p.productionId, p.bodySize, p.pBodySymbolTable@.map_values(|s: GrammarSymbol| sview(s)))
}

/// A list of productions as plain values.
pub open spec fn pviews(ps: Seq<Production>) -> Seq<(i64, i64, Seq<(u8, Seq<char>, Seq<char>)>)> {
    ps.map_values(|p: Production| pview(p))
}

/// A non-terminal's declaration as plain values: name, production count,
/// productions.
pub open spec fn ntview(x: NonTerminalSymbol) -> (Seq<char>, i64, Seq<(i64, i64, Seq<(u8, Seq<char>, Seq<char>)>)>) {
    (x.name@, x.numOfProduction, pviews(x.pProductionTable@))
}

/// The declarations of a list of non-terminals.
pub open spec fn ntviews(a: Seq<NonTerminalSymbol>) -> Seq<(Seq<char>, i64, Seq<(i64, i64, Seq<(u8, Seq<char>, Seq<char>)>)>)> {
    a.map_values(|x: NonTerminalSymbol| ntview(x))
}

/// The FIRST sets of a list of productions.
pub open spec fn pfirsts(ps: Seq<Production>) -> Seq<Set<(Seq<char>, Seq<char>)>> {
    ps.map_values(|p: Production| tset(p.pFirstSet@))
}

/// The terminals by name, as kind and name.
pub open spec fn tsmap(v: Seq<(String, TerminalSymbol)>) -> Map<Seq<char>, (Seq<char>, Seq<char>)> {
    crate::lab2::tables::supplementary::smap(v).map_values(|t: TerminalSymbol| crate::lab2::tables::symbols::tkey(t))
}

/// `n` empty sets.
pub open spec fn empties(n: nat) -> Seq<Set<(Seq<char>, Seq<char>)>> {
    Seq::new(n, |i: int| Set::empty())
}

/// The tables hold the outcome of the FIRST and FOLLOW computations run
/// from the FIRST sets `f0`, the production FIRST sets `pf0` and the FOLLOW
/// sets `fl0`: each FIRST and FOLLOW set is the least that holds its start
/// and is closed under its rule, and each production's FIRST set is what one
/// pass over its body adds to its start.
pub open spec fn analysed(
    t: Lab2Tables,
    f0: Seq<Set<(Seq<char>, Seq<char>)>>,
    pf0: Seq<Set<(Seq<char>, Seq<char>)>>,
    fl0: Seq<Set<(Seq<char>, Seq<char>)>>,
) -> bool {
    let a = t.all_nts@;
    &&& nts_wf(a)
    &&& prods_wf(t.all_productions@)
    &&& tcovers(nfirst(a), f0)
    &&& nfirst_closed(a, nfirst(a))
    &&& nfirst_least(a, f0, nfirst(a))
    &&& pf0.len() == t.all_productions@.len()
    &&& forall|j: int| 0 <= j < t.all_productions@.len() ==> #[trigger] tset(t.all_productions@[j].pFirstSet@)
        == pstep(nts_names(a), nfirst(a), t.all_productions@[j].pBodySymbolTable@, 0, pf0[j], true)
    &&& tcovers(nfollow(a), fl0)
    &&& nfollow_closed(a, nfollow(a))
    &&& forall|g: Seq<Set<(Seq<char>, Seq<char>)>>| #[trigger] nfollow_closed(a, g) && tcovers(g, fl0) ==> tcovers(g, nfollow(a))
}

/// Runs the FIRST computation for the non-terminals, then for the
/// productions, then the FOLLOW computation.
pub fn analyse(tables: &mut Lab2Tables)
    requires
        nts_wf(old(tables).all_nts@),
        prods_wf(old(tables).all_productions@),
    ensures
        analysed(*final(tables), nfirst(old(tables).all_nts@), pfirsts(old(tables).all_productions@), nfollow(old(tables).all_nts@)),
        ntviews(final(tables).all_nts@) == ntviews(old(tables).all_nts@),
        pviews(final(tables).all_productions@) == pviews(old(tables).all_productions@),
        final(tables).get_nts@ == old(tables).get_nts@,
        final(tables).get_ts@ == old(tables).get_ts@,
        final(tables).relative_id@ == old(tables).relative_id@,
        final(tables).item_sets@ == old(tables).item_sets@,
        final(tables).transition_edges@ == old(tables).transition_edges@,
        final(tables).action_cells@ == old(tables).action_cells@,
        final(tables).goto_cells@ == old(tables).goto_cells@,
        final(tables).production_infos@ == old(tables).production_infos@,
        final(tables).parse_table_of_ll@ == old(tables).parse_table_of_ll@,
{
    let ghost a0 = tables.all_nts@;
    let ghost p0 = tables.all_productions@;
    get_All_NTS_FIRST(tables);
    let ghost a1 = tables.all_nts@;
    get_All_Production_FIRST(tables);
    assert(tables.all_nts@ == a1);
    get_All_NTS_FOLLOW(tables);
    proof {
        let a2 = tables.all_nts@;
        assert(nfirst(a2) =~= nfirst(a1));
        assert(nts_names(a2) =~= nts_names(a1));
        lemma_first_closed_same(a1, a2);
        assert(nfirst_closed(a2, nfirst(a2)));
        assert forall|g: Seq<Set<(Seq<char>, Seq<char>)>>| #[trigger] nfirst_closed(a2, g) && tcovers(g, nfirst(a0))
            implies tcovers(g, nfirst(a2)) by {
            assert(nfirst_closed(a1, g));
        }
        assert(nfollow(a1) =~= nfollow(a0));
        assert(ntviews(a2) =~= ntviews(a0));
        assert(pviews(tables.all_productions@) =~= pviews(p0));
        assert forall|j: int| 0 <= j < tables.all_productions@.len() implies #[trigger] tset(tables.all_productions@[j].pFirstSet@)
            == pstep(nts_names(a2), nfirst(a2), tables.all_productions@[j].pBodySymbolTable@, 0, pfirsts(p0)[j], true) by {
        }
    }
}

/// A non-terminal symbol named `name`.
pub fn nt(name: &str) -> (res: GrammarSymbol)
    ensures
        sview(res) == n_(name@),
{
    GrammarSymbol::NonTerminal(String::from_str(name))
}

/// The body symbol of terminal `ts`.
pub fn term(ts: &TerminalSymbol) -> (res: GrammarSymbol)
    ensures
        sview(res) == (1u8, ts.symbolType@, ts.name@),
        res == GrammarSymbol::Terminal(*ts),
{
    GrammarSymbol::Terminal(copy_ts(ts))
}

/// Production `id` of declared size `size` with body `body`.
pub fn production(id: i64, size: i64, body: Vec<GrammarSymbol>) -> (res: Production)
    ensures
        pview(res) == (id, size, body@.map_values(|s: GrammarSymbol| sview(s))),
        res.pFirstSet@.len() == 0,
        tset(res.pFirstSet@) == Set::<(Seq<char>, Seq<char>)>::empty(),
{
    let mut p = Production::new(id, size);
    p.pBodySymbolTable = body;
    assert(tset(p.pFirstSet@) =~= Set::<(Seq<char>, Seq<char>)>::empty());
    p
}

/// Appends `pr` to the productions of the non-terminal at `head`, sets that
/// non-terminal's production count to `num` where given, and lists `pr`,
/// with `rel` as its head's position where given.
pub fn add_production(tables: &mut Lab2Tables, head: usize, pr: Production, num: Option<i64>, rel: Option<i64>)
    requires
        head < old(tables).all_nts@.len(),
    ensures
        ntviews(final(tables).all_nts@) == ntviews(old(tables).all_nts@).update(head as int, (
            ntviews(old(tables).all_nts@)[head as int].0,
            match num { Some(n) => n, None => ntviews(old(tables).all_nts@)[head as int].1 },
            ntviews(old(tables).all_nts@)[head as int].2.push(pview(pr)),
        )),
        final(tables).all_nts@.len() == old(tables).all_nts@.len(),
        forall|i: int| 0 <= i < final(tables).all_nts@.len() ==> (#[trigger] final(tables).all_nts@[i]).pFirstSet@ == old(tables).all_nts@[i].pFirstSet@
            && final(tables).all_nts@[i].pFollowSet@ == old(tables).all_nts@[i].pFollowSet@,
        nfirst(final(tables).all_nts@) == nfirst(old(tables).all_nts@),
        nfollow(final(tables).all_nts@) == nfollow(old(tables).all_nts@),
        nts_wf(old(tables).all_nts@) ==> nts_wf(final(tables).all_nts@),
        prods_wf(old(tables).all_productions@) && crate::lab2::tables::symbols::tunique(pr.pFirstSet@) ==> prods_wf(final(tables).all_productions@),
        pviews(final(tables).all_productions@) == pviews(old(tables).all_productions@).push(pview(pr)),
        pfirsts(final(tables).all_productions@) == pfirsts(old(tables).all_productions@).push(tset(pr.pFirstSet@)),
        forall|j: int| 0 <= j < final(tables).all_productions@.len() ==> (#[trigger] final(tables).all_productions@[j]).pFirstSet@
            == (if j < old(tables).all_productions@.len() { old(tables).all_productions@[j].pFirstSet@ } else { pr.pFirstSet@ }),
        final(tables).relative_id@ == (match rel { Some(r) => old(tables).relative_id@.push(r), None => old(tables).relative_id@ }),
        final(tables).get_nts@ == old(tables).get_nts@,
        final(tables).get_ts@ == old(tables).get_ts@,
        final(tables).item_sets@ == old(tables).item_sets@,
        final(tables).transition_edges@ == old(tables).transition_edges@,
        final(tables).action_cells@ == old(tables).action_cells@,
        final(tables).goto_cells@ == old(tables).goto_cells@,
        final(tables).production_infos@ == old(tables).production_infos@,
        final(tables).parse_table_of_ll@ == old(tables).parse_table_of_ll@,
{
    let ghost a0 = tables.all_nts@;
    let ghost ps0 = tables.all_productions@;
    let ghost prv = pr;
    let p2 = copy_production(&pr);
    tables.all_nts[head].pProductionTable.push(pr);
    match num {
        Some(n) => {
            tables.all_nts[head].numOfProduction = n;
        },
        None => {},
    }
    tables.all_productions.push(p2);
    match rel {
        Some(r) => {
            tables.relative_id.push(r);
        },
        None => {},
    }
    proof {
        let a1 = tables.all_nts@;
        assert(pviews(a1[head as int].pProductionTable@) =~= pviews(a0[head as int].pProductionTable@).push(pview(prv)));
        assert(ntviews(a1) =~= ntviews(a0).update(head as int, (
            ntviews(a0)[head as int].0,
            match num { Some(n) => n, None => ntviews(a0)[head as int].1 },
            ntviews(a0)[head as int].2.push(pview(prv)),
        )));
        assert(pview(p2) == pview(prv));
        assert(pviews(tables.all_productions@) =~= pviews(ps0).push(pview(prv)));
        assert(pfirsts(tables.all_productions@) =~= pfirsts(ps0).push(tset(prv.pFirstSet@)));
        assert(nfirst(a1) =~= nfirst(a0));
        assert(nfollow(a1) =~= nfollow(a0));
        assert(nts_wf(a0) ==> nts_wf(a1)) by {
            if nts_wf(a0) {
                assert forall|i: int| 0 <= i < a1.len() implies crate::lab2::tables::symbols::tunique((#[trigger] a1[i]).pFirstSet@)
                    && crate::lab2::tables::symbols::tunique(a1[i].pFollowSet@) by {
                    assert(a1[i].pFirstSet@ == a0[i].pFirstSet@);
                }
            }
        }
    }
}

} // verus!
