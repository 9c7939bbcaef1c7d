//! LR(0) items and item sets over the symbol records, automaton edges, and
//! the cells of the parse tables.
use vstd::prelude::*;
use vstd::multiset::Multiset;
use crate::lab2::tables::symbols::{GrammarSymbol, NonTerminalSymbol, Production, TerminalSymbol};
use crate::text::str_eq;

verus! {

broadcast use vstd::multiset::group_multiset_axioms, vstd::seq_lib::group_to_multiset_ensures;

/// Whether an item came from a transition (core) or from a closure.
#[derive(Clone, Copy, Debug, PartialEq, Eq, Structural)]
pub enum ItemType {
    Core,
    NonCore,
}

impl ItemType {
    /// `CORE` or `NONCORE`.
    pub fn as_str(&self) -> (res: &'static str)
        ensures
            res@ == (if *self == ItemType::Core { "CORE"@ } else { "NONCORE"@ }),
    {
        match self {
            ItemType::Core => "CORE",
            ItemType::NonCore => "NONCORE",
        }
    }
}

/// An LR(0) item: the head, the production, and the dot's position.
#[derive(Clone, Debug)]
pub struct LR0Item {
    pub nonTerminalSymbol: String,
    pub production: Production,
    pub dotPosition: i64,
    pub itemType: ItemType,
}

impl LR0Item {
    /// An item of `production` with head `non_terminal`.
    pub fn new(non_terminal: &str, production: Production, dot_position: i64, item_type: ItemType) -> (res: Self)
        ensures
            res.nonTerminalSymbol@ == non_terminal@,
            res.production == production,
            res.dotPosition == dot_position,
            res.itemType == item_type,
    {
        LR0Item { nonTerminalSymbol: String::from_str(non_terminal), production, dotPosition: dot_position, itemType: item_type }
    }
}

/// What identifies an item: head, production number and dot position.
pub open spec fn ikey(it: LR0Item) -> (Seq<char>, i64, i64) {
    (it.nonTerminalSymbol@, it.production.productionId, it.dotPosition)
}

/// A state of the automaton: its number and its items, core items first.
#[derive(Clone, Debug)]
pub struct ItemSet {
    pub stateId: i64,
    pub pItemTable: Vec<LR0Item>,
}

impl ItemSet {
    /// An empty item set numbered `state_id`.
    pub fn new(state_id: i64) -> (res: Self)
        ensures
            res.stateId == state_id,
            res.pItemTable@.len() == 0,
    {
        ItemSet { stateId: state_id, pItemTable: Vec::new() }
    }
}

/// The keys of the core items of a list of items, in order.
pub open spec fn core_keys(items: Seq<LR0Item>) -> Seq<(Seq<char>, i64, i64)>
    decreases items.len(),
{
    if items.len() == 0 {
        Seq::empty()
    } else {
        core_keys(items.drop_last()) + (if items.last().itemType == ItemType::Core { seq![ikey(items.last())] } else { Seq::empty() })
    }
}

/// Two item sets are the same state: their core items agree, counted with
/// multiplicity.
pub open spec fn same_state(a: Seq<LR0Item>, b: Seq<LR0Item>) -> bool {
    core_keys(a).to_multiset() == core_keys(b).to_multiset()
}

/// The keys of the core items.
fn core_list(items: &Vec<LR0Item>) -> (res: Vec<(String, i64, i64)>)
    ensures
        res@.map_values(|k: (String, i64, i64)| (k.0@, k.1, k.2)) == core_keys(items@),
{
    let mut res: Vec<(String, i64, i64)> = Vec::new();
    let mut i: usize = 0;
    while i < items.len()
        invariant
            i <= items@.len(),
            res@.map_values(|k: (String, i64, i64)| (k.0@, k.1, k.2)) == core_keys(items@.subrange(0, i as int)),
        decreases items@.len() - i,
    {
        let ghost before = res@;
        let ghost sub = items@.subrange(0, i + 1);
        assert(sub.drop_last() =~= items@.subrange(0, i as int));
        if items[i].itemType == ItemType::Core {
            let it = &items[i];
            res.push((it.nonTerminalSymbol.clone(), it.production.productionId, it.dotPosition));
            assert(res@.map_values(|k: (String, i64, i64)| (k.0@, k.1, k.2)) =~= before.map_values(
                |k: (String, i64, i64)| (k.0@, k.1, k.2)).push(ikey(items@[i as int])));
        } else {
            assert(res@.map_values(|k: (String, i64, i64)| (k.0@, k.1, k.2)) =~= core_keys(sub));
        }
        i = i + 1;
    }
    assert(items@.subrange(0, i as int) =~= items@);
    res
}

/// The view of a list of keys.
pub open spec fn kview(v: Seq<(String, i64, i64)>) -> Seq<(Seq<char>, i64, i64)> {
    v.map_values(|k: (String, i64, i64)| (k.0@, k.1, k.2))
}

/// Whether two item sets are the same state.
pub fn item_sets_same(a: &ItemSet, b: &ItemSet) -> (res: bool)
    ensures
        res == same_state(a.pItemTable@, b.pItemTable@),
{
    let ka = core_list(&a.pItemTable);
    let mut rest = core_list(&b.pItemTable);
    let ghost ma = kview(ka@).to_multiset();
    let ghost mb = kview(rest@).to_multiset();
    let mut k: usize = 0;
    while k < ka.len()
        invariant
            k <= ka@.len(),
            ma == kview(ka@).to_multiset(),
            ma == core_keys(a.pItemTable@).to_multiset(),
            mb == core_keys(b.pItemTable@).to_multiset(),
            kview(rest@).to_multiset().add(kview(ka@).subrange(0, k as int).to_multiset()) == mb,
        decreases ka@.len() - k,
    {
        let mut j: usize = 0;
        let mut found = false;
        while !found && j < rest.len()
            invariant
                j <= rest@.len(),
                k < ka@.len(),
                found ==> j < rest@.len() && kview(rest@)[j as int] == kview(ka@)[k as int],
                !found ==> forall|q: int| 0 <= q < j ==> kview(rest@)[q] != kview(ka@)[k as int],
            decreases rest@.len() - j, (if found { 0int } else { 1int }),
        {
            if rest[j].1 == ka[k].1 && rest[j].2 == ka[k].2 && str_eq(rest[j].0.as_str(), ka[k].0.as_str()) {
                found = true;
            } else {
                j = j + 1;
            }
        }
        let ghost x = kview(ka@)[k as int];
        let ghost pre = kview(ka@).subrange(0, k as int);
        assert(kview(ka@).subrange(0, k + 1) =~= pre.push(x));
        if !found {
            proof {
                assert(!kview(rest@).contains(x));
                kview(rest@).to_multiset_ensures();
                assert(kview(rest@).to_multiset().count(x) == 0);
                let full = kview(ka@);
                let tail = full.subrange(k + 1, full.len() as int);
                assert(full =~= pre.push(x) + tail);
                vstd::seq_lib::lemma_multiset_commutative(pre.push(x), tail);
                vstd::seq_lib::to_multiset_build(pre, x);
                assert(ma.count(x) >= pre.to_multiset().count(x) + 1);
                assert(mb.count(x) == pre.to_multiset().count(x));
                assert(ma != mb);
            }
            return false;
        }
        let ghost r0 = kview(rest@);
        assert(r0[j as int] == x);
        rest.remove(j);
        proof {
            assert(kview(rest@) =~= r0.remove(j as int));
            vstd::seq_lib::to_multiset_remove(r0, j as int);
            assert(kview(rest@).to_multiset() =~= r0.to_multiset().remove(x));
            assert(kview(rest@).to_multiset().add(pre.push(x).to_multiset()) =~= r0.to_multiset().add(pre.to_multiset()));
        }
        k = k + 1;
    }
    assert(kview(ka@).subrange(0, k as int) =~= kview(ka@));
    if rest.len() == 0 {
        assert(kview(rest@) =~= Seq::<(Seq<char>, i64, i64)>::empty());
        assert(ma =~= mb);
        true
    } else {
        proof {
            assert(kview(rest@).to_multiset().len() > 0);
            assert(mb.len() > ma.len());
        }
        false
    }
}

/// An edge of the automaton: its driving symbol and its ends.
#[derive(Clone, Debug)]
pub struct TransitionEdge {
    pub driverSymbol: GrammarSymbol,
    pub fromItemSet: ItemSet,
    pub toItemSet: ItemSet,
}

impl TransitionEdge {
    /// The edge from `from_item_set` to `to_item_set` on `driver_symbol`.
    pub fn new(driver_symbol: GrammarSymbol, from_item_set: ItemSet, to_item_set: ItemSet) -> (res: Self)
        ensures
            res.driverSymbol == driver_symbol,
            res.fromItemSet == from_item_set,
            res.toItemSet == to_item_set,
    {
        TransitionEdge { driverSymbol: driver_symbol, fromItemSet: from_item_set, toItemSet: to_item_set }
    }
}

/// An automaton: its start state and its edges.
#[derive(Clone, Debug)]
pub struct DFA {
    pub startupItemSet: ItemSet,
    pub pEdgeTable: Vec<TransitionEdge>,
}

impl DFA {
    /// The automaton with start `startup_item_set` and edges `p_edge_table`.
    pub fn new(startup_item_set: ItemSet, p_edge_table: Vec<TransitionEdge>) -> (res: Self)
        ensures
            res.startupItemSet == startup_item_set,
            res.pEdgeTable == p_edge_table,
    {
        DFA { startupItemSet: startup_item_set, pEdgeTable: p_edge_table }
    }
}

/// An ACTION entry: state, terminal, `s`/`r`/`acc`, and target or production.
#[derive(Clone, Debug)]
pub struct ActionCell {
    pub stateId: i64,
    pub terminalSymbolName: String,
    pub actionType: String,
    pub actionId: i64,
}

impl ActionCell {
    /// An ACTION entry.
    pub fn new(state_id: i64, terminal_symbol_name: &str, action_type: &str, action_id: i64) -> (res: Self)
        ensures
            res.stateId == state_id,
            res.terminalSymbolName@ == terminal_symbol_name@,
            res.actionType@ == action_type@,
            res.actionId == action_id,
    {
        ActionCell {
            stateId: state_id,
            terminalSymbolName: String::from_str(terminal_symbol_name),
            actionType: String::from_str(action_type),
            actionId: action_id,
        }
    }
}

/// A GOTO entry.
#[derive(Clone, Debug)]
pub struct GotoCell {
    pub stateId: i64,
    pub nonTerminalStmbolName: String,
    pub nextStateId: i64,
}

impl GotoCell {
    /// A GOTO entry.
    pub fn new(state_id: i64, non_terminal_symbol_name: &str, next_state_id: i64) -> (res: Self)
        ensures
            res.stateId == state_id,
            res.nonTerminalStmbolName@ == non_terminal_symbol_name@,
            res.nextStateId == next_state_id,
    {
        GotoCell { stateId: state_id, nonTerminalStmbolName: String::from_str(non_terminal_symbol_name), nextStateId: next_state_id }
    }
}

/// An LL(1) table entry.
#[derive(Clone, Debug)]
pub struct Cell {
    pub nonTerminalSymbol: NonTerminalSymbol,
    pub terminalSymbol: TerminalSymbol,
    pub production: Production,
}

impl Cell {
    /// An LL(1) table entry.
    pub fn new(non_terminal_symbol: NonTerminalSymbol, terminal_symbol: TerminalSymbol, production: Production) -> (res: Self)
        ensures
            res.nonTerminalSymbol == non_terminal_symbol,
            res.terminalSymbol == terminal_symbol,
            res.production == production,
    {
        Cell { nonTerminalSymbol: non_terminal_symbol, terminalSymbol: terminal_symbol, production }
    }
}

} // verus!
