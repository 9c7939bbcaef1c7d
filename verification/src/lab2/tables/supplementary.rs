//! The shared tables of the grammar analysis, held in one value that the
//! operations take, and the operations that register and look up symbols.
use vstd::prelude::*;
use crate::lab2::tables::items::{ActionCell, Cell, GotoCell, ItemSet, TransitionEdge};
use crate::lab2::tables::symbols::{category_for, NonTerminalSymbol, Production, ProductionInfo, TerminalSymbol};
use crate::text::str_eq;

verus! {

/// The kind of non-terminal records.
pub const NON_S: &'static str = "NONTERMINAL";
/// The kind of terminal records.
pub const TER_S: &'static str = "TERMINAL";
/// The kind of the empty terminal.
pub const NULL_S: &'static str = "NULL";
/// The kind of the placeholder terminal.
pub const NONE_S: &'static str = "NONE";

/// Distinct keys.
pub open spec fn skeys_unique<V>(v: Seq<(String, V)>) -> bool {
    forall|i: int, j: int| 0 <= i < v.len() && 0 <= j < v.len() && i != j ==> (#[trigger] v[i]).0@ != (#[trigger] v[j]).0@
}

/// A list of named entries as a map.
pub open spec fn smap<V>(v: Seq<(String, V)>) -> Map<Seq<char>, V> {
    Map::new(
        |k: Seq<char>| exists|i: int| 0 <= i < v.len() && (#[trigger] v[i]).0@ == k,
        |k: Seq<char>| v[choose|i: int| 0 <= i < v.len() && (#[trigger] v[i]).0@ == k].1,
    )
}

/// With distinct keys the entry named `v[i].0` is `v[i].1`.
pub proof fn lemma_smap_at<V>(v: Seq<(String, V)>, i: int)
    requires
        skeys_unique(v),
        0 <= i < v.len(),
    ensures
        smap(v).contains_key(v[i].0@),
        smap(v)[v[i].0@] == v[i].1,
{
    assert(smap(v).dom().contains(v[i].0@));
    let j = choose|j: int| 0 <= j < v.len() && (#[trigger] v[j]).0@ == v[i].0@;
    assert(j == i);
}

/// Puts `x` under the name `k`.
pub fn sput<V>(v: &mut Vec<(String, V)>, k: &str, x: V)
    requires
        skeys_unique(old(v)@),
    ensures
        skeys_unique(final(v)@),
        smap(final(v)@) == smap(old(v)@).insert(k@, x),
{
    let ghost v0 = v@;
    let mut i: usize = 0;
    while i < v.len()
        invariant
            i <= v@.len(),
            v@ == v0,
            v0 == old(v)@,
            skeys_unique(v0),
            forall|q: int| 0 <= q < i ==> (#[trigger] v0[q]).0@ != k@,
        decreases v@.len() - i,
    {
        if str_eq(v[i].0.as_str(), k) {
            let ghost xv = x;
            v.set(i, (String::from_str(k), x));
            proof {
                let v1 = v@;
                assert forall|a: int, b: int| 0 <= a < v1.len() && 0 <= b < v1.len() && a != b
                    implies (#[trigger] v1[a]).0@ != (#[trigger] v1[b]).0@ by {
                    assert(v1[a].0@ == v0[a].0@);
                    assert(v1[b].0@ == v0[b].0@);
                }
                assert forall|kk: Seq<char>| #[trigger] smap(v1).dom().contains(kk) <==> smap(v0).insert(k@, xv).dom().contains(kk) by {
                    if smap(v1).dom().contains(kk) {
                        let j = choose|j: int| 0 <= j < v1.len() && (#[trigger] v1[j]).0@ == kk;
                        assert(v0[j].0@ == kk);
                    }
                    if smap(v0).dom().contains(kk) {
                        let j = choose|j: int| 0 <= j < v0.len() && (#[trigger] v0[j]).0@ == kk;
                        assert(v1[j].0@ == kk);
                    }
                    if kk == k@ {
                        assert(v1[i as int].0@ == kk);
                    }
                }
                assert forall|kk: Seq<char>| #[trigger] smap(v1).dom().contains(kk) implies smap(v1)[kk] == smap(v0).insert(k@, xv)[kk] by {
                    let j = choose|j: int| 0 <= j < v1.len() && (#[trigger] v1[j]).0@ == kk;
                    lemma_smap_at(v1, j);
                    if j != i {
                        assert(v1[j] == v0[j]);
                        lemma_smap_at(v0, j);
                        assert(v0[j].0@ != v0[i as int].0@);
                    }
                }
                assert(smap(v1) =~= smap(v0).insert(k@, xv));
            }
            return;
        }
        i = i + 1;
    }
    let ghost xv = x;
    v.push((String::from_str(k), x));
    proof {
        let v1 = v@;
        let n = v0.len() as int;
        assert forall|a: int, b: int| 0 <= a < v1.len() && 0 <= b < v1.len() && a != b
            implies (#[trigger] v1[a]).0@ != (#[trigger] v1[b]).0@ by {
            if a < n {
                assert(v1[a] == v0[a]);
            }
            if b < n {
                assert(v1[b] == v0[b]);
            }
        }
        assert forall|kk: Seq<char>| #[trigger] smap(v1).dom().contains(kk) <==> smap(v0).insert(k@, xv).dom().contains(kk) by {
            if smap(v1).dom().contains(kk) {
                let j = choose|j: int| 0 <= j < v1.len() && (#[trigger] v1[j]).0@ == kk;
                if j < n {
                    assert(v1[j] == v0[j]);
                }
            }
            if smap(v0).dom().contains(kk) {
                let j = choose|j: int| 0 <= j < v0.len() && (#[trigger] v0[j]).0@ == kk;
                assert(v1[j] == v0[j]);
            }
            if kk == k@ {
                assert(v1[n].0@ == kk);
            }
        }
        assert forall|kk: Seq<char>| #[trigger] smap(v1).dom().contains(kk) implies smap(v1)[kk] == smap(v0).insert(k@, xv)[kk] by {
            let j = choose|j: int| 0 <= j < v1.len() && (#[trigger] v1[j]).0@ == kk;
            lemma_smap_at(v1, j);
            if j < n {
                assert(v1[j] == v0[j]);
                lemma_smap_at(v0, j);
            }
        }
        assert(smap(v1) =~= smap(v0).insert(k@, xv));
    }
}

/// The position of the entry named `k`, if any.
pub fn sfind<V>(v: &Vec<(String, V)>, k: &str) -> (res: Option<usize>)
    requires
        skeys_unique(v@),
    ensures
        res is Some <==> smap(v@).contains_key(k@),
        res matches Some(i) ==> i < v@.len() && v@[i as int].0@ == k@ && smap(v@)[k@] == v@[i as int].1,
{
    let mut i: usize = 0;
    while i < v.len()
        invariant
            i <= v@.len(),
            skeys_unique(v@),
            forall|q: int| 0 <= q < i ==> (#[trigger] v@[q]).0@ != k@,
        decreases v@.len() - i,
    {
        if str_eq(v[i].0.as_str(), k) {
            proof {
                lemma_smap_at(v@, i as int);
            }
            return Some(i);
        }
        i = i + 1;
    }
    proof {
        if smap(v@).dom().contains(k@) {
            let j = choose|j: int| 0 <= j < v@.len() && (#[trigger] v@[j]).0@ == k@;
        }
    }
    None
}

/// The shared tables of the grammar analysis.
pub struct Lab2Tables {
    /// Non-terminal names and their positions in `all_nts`.
    pub get_nts: Vec<(String, usize)>,
    /// Terminals by name.
    pub get_ts: Vec<(String, TerminalSymbol)>,
    /// The LL(1) table.
    pub parse_table_of_ll: Vec<Vec<Cell>>,
    /// The states of the LR(0) automaton.
    pub item_sets: Vec<ItemSet>,
    /// The edges of the LR(0) automaton.
    pub transition_edges: Vec<TransitionEdge>,
    /// ACTION: per state, the entries by terminal.
    pub action_cells: Vec<(i64, Vec<(TerminalSymbol, ActionCell)>)>,
    /// GOTO: per state, the entries by non-terminal name.
    pub goto_cells: Vec<(i64, Vec<(String, GotoCell)>)>,
    /// Records of the productions.
    pub production_infos: Vec<ProductionInfo>,
    /// The non-terminals, in the order of registration.
    pub all_nts: Vec<NonTerminalSymbol>,
    /// The productions, in the order of declaration.
    pub all_productions: Vec<Production>,
    /// For each production, the position of its head in `all_nts`.
    pub relative_id: Vec<i64>,
}

/// All tables are empty.
pub open spec fn tables_empty(t: Lab2Tables) -> bool {
    &&& t.get_nts@.len() == 0
    &&& t.get_ts@.len() == 0
    &&& t.parse_table_of_ll@.len() == 0
    &&& t.item_sets@.len() == 0
    &&& t.transition_edges@.len() == 0
    &&& t.action_cells@.len() == 0
    &&& t.goto_cells@.len() == 0
    &&& t.production_infos@.len() == 0
    &&& t.all_nts@.len() == 0
    &&& t.all_productions@.len() == 0
    &&& t.relative_id@.len() == 0
}

/// The name maps have one entry per name.
pub open spec fn tables_wf(t: Lab2Tables) -> bool {
    &&& skeys_unique(t.get_nts@)
    &&& skeys_unique(t.get_ts@)
}

impl Lab2Tables {
    /// Empty tables.
    pub fn new() -> (res: Self)
        ensures
            tables_empty(res),
            tables_wf(res),
    {
        Lab2Tables {
            get_nts: Vec::new(),
            get_ts: Vec::new(),
            parse_table_of_ll: Vec::new(),
            item_sets: Vec::new(),
            transition_edges: Vec::new(),
            action_cells: Vec::new(),
            goto_cells: Vec::new(),
            production_infos: Vec::new(),
            all_nts: Vec::new(),
            all_productions: Vec::new(),
            relative_id: Vec::new(),
        }
    }
}

/// The placeholder terminal `NONE`.
pub fn none_terminal_symbol() -> (res: TerminalSymbol)
    ensures
        res.name@ == "NONE"@,
        res.symbolType@ == "NONE"@,
        res.lemexeCategory == category_for("NONE"@, "NONE"@),
{
    TerminalSymbol::new(NONE_S, NONE_S, NONE_S)
}

/// The empty terminal `null`.
pub fn ts_null() -> (res: TerminalSymbol)
    ensures
        res.name@ == "null"@,
        res.symbolType@ == "NULL"@,
        res.lemexeCategory == category_for("null"@, "null"@),
{
    TerminalSymbol::new("null", NULL_S, "null")
}

/// Appends a non-terminal and maps its name to its position, which is
/// returned.
pub fn register_non_terminal(tables: &mut Lab2Tables, nts: NonTerminalSymbol) -> (index: usize)
    requires
        tables_wf(*old(tables)),
    ensures
        tables_wf(*final(tables)),
        index == old(tables).all_nts@.len(),
        final(tables).all_nts@ == old(tables).all_nts@.push(nts),
        smap(final(tables).get_nts@) == smap(old(tables).get_nts@).insert(nts.name@, index),
        final(tables).get_ts@ == old(tables).get_ts@,
        final(tables).all_productions@ == old(tables).all_productions@,
        final(tables).relative_id@ == old(tables).relative_id@,
        final(tables).item_sets@ == old(tables).item_sets@,
        final(tables).transition_edges@ == old(tables).transition_edges@,
        final(tables).action_cells@ == old(tables).action_cells@,
        final(tables).goto_cells@ == old(tables).goto_cells@,
        final(tables).production_infos@ == old(tables).production_infos@,
        final(tables).parse_table_of_ll@ == old(tables).parse_table_of_ll@,
{
    let index = tables.all_nts.len();
    sput(&mut tables.get_nts, nts.name.as_str(), index);
    tables.all_nts.push(nts);
    index
}

/// Maps a terminal's name to it.
pub fn register_terminal(tables: &mut Lab2Tables, ts: TerminalSymbol)
    requires
        tables_wf(*old(tables)),
    ensures
        tables_wf(*final(tables)),
        smap(final(tables).get_ts@) == smap(old(tables).get_ts@).insert(ts.name@, ts),
        final(tables).get_nts@ == old(tables).get_nts@,
        final(tables).all_nts@ == old(tables).all_nts@,
        final(tables).all_productions@ == old(tables).all_productions@,
        final(tables).relative_id@ == old(tables).relative_id@,
        final(tables).item_sets@ == old(tables).item_sets@,
        final(tables).transition_edges@ == old(tables).transition_edges@,
        final(tables).action_cells@ == old(tables).action_cells@,
        final(tables).goto_cells@ == old(tables).goto_cells@,
        final(tables).production_infos@ == old(tables).production_infos@,
        final(tables).parse_table_of_ll@ == old(tables).parse_table_of_ll@,
{
    let name = ts.name.clone();
    sput(&mut tables.get_ts, name.as_str(), ts);
}

/// The position of the non-terminal named `name`, if registered.
pub fn get_nts_index(tables: &Lab2Tables, name: &str) -> (res: Option<usize>)
    requires
        tables_wf(*tables),
    ensures
        res == (if smap(tables.get_nts@).contains_key(name@) { Some(smap(tables.get_nts@)[name@]) } else { None::<usize> }),
{
    match sfind(&tables.get_nts, name) {
        Some(i) => Some(tables.get_nts[i].1),
        None => None,
    }
}

/// The terminal named `name`, if registered.
pub fn get_ts(tables: &Lab2Tables, name: &str) -> (res: Option<TerminalSymbol>)
    requires
        tables_wf(*tables),
    ensures
        res is Some <==> smap(tables.get_ts@).contains_key(name@),
        res matches Some(t) ==> t.name@ == smap(tables.get_ts@)[name@].name@
            && t.symbolType@ == smap(tables.get_ts@)[name@].symbolType@
            && t.lemexeCategory == smap(tables.get_ts@)[name@].lemexeCategory,
{
    match sfind(&tables.get_ts, name) {
        Some(i) => Some(crate::lab2::tables::symbols::copy_ts(&tables.get_ts[i].1)),
        None => None,
    }
}

/// Empties every table.
pub fn clear_lab2_tables(tables: &mut Lab2Tables)
    ensures
        tables_empty(*final(tables)),
        tables_wf(*final(tables)),
{
    tables.get_nts.clear();
    tables.get_ts.clear();
    tables.parse_table_of_ll.clear();
    tables.item_sets.clear();
    tables.transition_edges.clear();
    tables.action_cells.clear();
    tables.goto_cells.clear();
    tables.production_infos.clear();
    tables.all_nts.clear();
    tables.all_productions.clear();
    tables.relative_id.clear();
}

} // verus!
