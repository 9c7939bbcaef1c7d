//! The data of grammar analysis: grammar symbols, productions, LR(0) items,
//! item sets, automata and parse tables, with their views and the
//! well-formedness that the analyses keep.
use vstd::prelude::*;
use crate::lab2::str_set::{ascending, is_str_set, members, strs};
use crate::text::lex_less;

verus! {

/// The empty string `ε`.
pub const EPSILON: &'static str = "ε";
/// The end-of-input marker `$`.
pub const END_MARKER: &'static str = "$";
/// The dot `·` of an LR(0) item.
pub const DOT: &'static str = "·";

/// The characters of `ε`.
pub open spec fn eps() -> Seq<char> {
    seq!['ε']
}

/// The characters of `$`.
pub open spec fn end_marker() -> Seq<char> {
    seq!['$']
}

/// The characters of `·`.
pub open spec fn dot() -> Seq<char> {
    seq!['·']
}

/// The kind of a grammar symbol.
#[derive(Debug, Clone, Copy, PartialEq, Eq, Structural)]
pub enum SymbolType {
    Terminal,
    NonTerminal,
    Null,
}

/// A grammar symbol with the sets that the analyses compute for it.
#[derive(Debug, Clone)]
pub struct GrammarSymbol {
    pub name: String,
    pub sym_type: SymbolType,
    /// The numbers of the productions with this symbol as head.
    pub productions: Vec<usize>,
    /// FIRST, an ascending string set.
    pub first_set: Vec<String>,
    /// FOLLOW, an ascending string set.
    pub follow_set: Vec<String>,
    /// Heads whose FOLLOW flows into this symbol's FOLLOW.
    pub dependent_in_follow: Vec<String>,
}

/// A production `head → body`; an empty body is an ε-production.
#[derive(Debug, Clone)]
pub struct Production {
    pub production_id: usize,
    pub head: String,
    pub body: Vec<String>,
    pub first_set: Vec<String>,
}

impl Production {
    /// Whether this is an ε-production (its body is empty).
    pub fn is_epsilon(&self) -> (res: bool)
        ensures
            res == (self.body@.len() == 0),
    {
        self.body.len() == 0
    }
}

/// A context-free grammar, augmented with `S' → S` as production 0. The
/// symbol table is kept ascending by name, one entry per name.
#[derive(Debug, Clone)]
pub struct Grammar {
    pub symbols: Vec<GrammarSymbol>,
    pub productions: Vec<Production>,
    pub root_symbol: String,
    pub aug_root: String,
    pub terminals: Vec<String>,
    pub non_terminals: Vec<String>,
}

/// The names of a list of symbols.
pub open spec fn sym_names(s: Seq<GrammarSymbol>) -> Seq<Seq<char>> {
    s.map_values(|x: GrammarSymbol| x.name@)
}

/// Whether some symbol of the list is named `n`.
pub open spec fn has_name(s: Seq<GrammarSymbol>, n: Seq<char>) -> bool {
    exists|i: int| 0 <= i < s.len() && (#[trigger] s[i]).name@ == n
}

/// The position of the symbol named `n` (meaningful where there is one).
pub open spec fn index_of_name(s: Seq<GrammarSymbol>, n: Seq<char>) -> int {
    choose|i: int| 0 <= i < s.len() && (#[trigger] s[i]).name@ == n
}

/// The symbol table as a map from names to symbols.
pub open spec fn sym_map(s: Seq<GrammarSymbol>) -> Map<Seq<char>, GrammarSymbol> {
    Map::new(|n: Seq<char>| has_name(s, n), |n: Seq<char>| s[index_of_name(s, n)])
}

/// In an ascending symbol list the entry named `s[i].name` is `s[i]`.
pub proof fn lemma_sym_at(s: Seq<GrammarSymbol>, i: int)
    requires
        ascending(sym_names(s)),
        0 <= i < s.len(),
    ensures
        has_name(s, s[i].name@),
        index_of_name(s, s[i].name@) == i,
        sym_map(s).dom().contains(s[i].name@),
        sym_map(s)[s[i].name@] == s[i],
{
    assert(sym_names(s)[i] == s[i].name@);
    assert(has_name(s, s[i].name@));
    let j = index_of_name(s, s[i].name@);
    assert(sym_names(s)[j] == s[j].name@);
    if j < i {
        assert(lex_less(sym_names(s)[j], sym_names(s)[i]));
        crate::text::lemma_lex_irreflexive(s[i].name@);
    } else if j > i {
        assert(lex_less(sym_names(s)[i], sym_names(s)[j]));
        crate::text::lemma_lex_irreflexive(s[i].name@);
    }
}

/// FIRST of the symbol named `n` in a table, empty for unknown names.
pub open spec fn first_in(s: Seq<GrammarSymbol>, n: Seq<char>) -> Set<Seq<char>> {
    if has_name(s, n) {
        members(s[index_of_name(s, n)].first_set@)
    } else {
        Set::empty()
    }
}

/// FOLLOW of the symbol named `n` in a table, empty for unknown names.
pub open spec fn follow_in(s: Seq<GrammarSymbol>, n: Seq<char>) -> Set<Seq<char>> {
    if has_name(s, n) {
        members(s[index_of_name(s, n)].follow_set@)
    } else {
        Set::empty()
    }
}

/// The character sequences of a production body.
pub open spec fn body_of(p: Production) -> Seq<Seq<char>> {
    strs(p.body@)
}

/// The string sets of one symbol are ascending.
pub open spec fn sym_wf(x: GrammarSymbol) -> bool {
    &&& is_str_set(x.first_set@)
    &&& is_str_set(x.follow_set@)
    &&& is_str_set(x.dependent_in_follow@)
}

impl Grammar {
    /// The symbol table is ascending by name with well-formed sets, and
    /// production `i` is numbered `i`.
    pub open spec fn wf(&self) -> bool {
        &&& ascending(sym_names(self.symbols@))
        &&& forall|i: int| 0 <= i < self.symbols@.len() ==> sym_wf(#[trigger] self.symbols@[i])
        &&& forall|p: int| 0 <= p < self.productions@.len() ==> (#[trigger] self.productions@[p]).production_id == p
        &&& forall|p: int| 0 <= p < self.productions@.len() ==> is_str_set((#[trigger] self.productions@[p]).first_set@)
    }

    /// Whether a symbol is named `n`.
    pub open spec fn has_sym(&self, n: Seq<char>) -> bool {
        has_name(self.symbols@, n)
    }

    /// The symbol named `n`.
    pub open spec fn sym(&self, n: Seq<char>) -> GrammarSymbol {
        self.symbols@[index_of_name(self.symbols@, n)]
    }

    /// Whether `n` names a non-terminal of the table.
    pub open spec fn is_nt(&self, n: Seq<char>) -> bool {
        self.has_sym(n) && self.sym(n).sym_type == SymbolType::NonTerminal
    }

    /// Whether `n` names a terminal of the table.
    pub open spec fn is_t(&self, n: Seq<char>) -> bool {
        self.has_sym(n) && self.sym(n).sym_type == SymbolType::Terminal
    }
}

/// An LR(0) item: a production and the position of the dot in its body.
#[derive(Debug, Clone, Copy, PartialEq, Eq, Structural)]
pub struct LR0Item {
    pub production_id: usize,
    pub dot_position: usize,
}

/// The order of items: by production, then by dot position.
pub open spec fn item_less(a: LR0Item, b: LR0Item) -> bool {
    a.production_id < b.production_id || (a.production_id == b.production_id && a.dot_position < b.dot_position)
}

/// Strictly ascending items: an item set as a `BTreeSet` holds it.
pub open spec fn items_ascending(s: Seq<LR0Item>) -> bool {
    forall|i: int, j: int| 0 <= i < j < s.len() ==> item_less(#[trigger] s[i], #[trigger] s[j])
}

/// A state of the LR(0) automaton: its core items and their closure.
#[derive(Debug, Clone)]
pub struct ItemSet {
    pub state_id: usize,
    pub core_items: Vec<LR0Item>,
    pub items: Vec<LR0Item>,
}

impl ItemSet {
    /// A new item set whose items are, so far, its core items.
    pub fn new(state_id: usize, cores: Vec<LR0Item>) -> (res: Self)
        ensures
            res.state_id == state_id,
            res.core_items@ == cores@,
            res.items@ == cores@,
    {
        let items = copy_items(&cores);
        ItemSet { state_id, core_items: cores, items }
    }
}

/// A copy of a list of items.
pub fn copy_items(v: &Vec<LR0Item>) -> (res: Vec<LR0Item>)
    ensures
        res@ == v@,
{
    let mut res: Vec<LR0Item> = Vec::new();
    let mut i: usize = 0;
    while i < v.len()
        invariant
            i <= v.len(),
            res@ == v@.subrange(0, i as int),
        decreases v.len() - i,
    {
        res.push(v[i]);
        i = i + 1;
        assert(res@ =~= v@.subrange(0, i as int));
    }
    assert(v@.subrange(0, i as int) =~= v@);
    res
}

/// An edge of the LR(0) automaton.
#[derive(Debug, Clone)]
pub struct TransitionEdge {
    pub driver_symbol: String,
    pub from_state: usize,
    pub to_state: usize,
}

/// The LR(0) automaton: item sets numbered by position, and its edges.
#[derive(Debug, Clone)]
pub struct LR0DFA {
    pub item_sets: Vec<ItemSet>,
    pub edges: Vec<TransitionEdge>,
    pub start_state: usize,
}

/// The kind of an ACTION entry.
#[derive(Debug, Clone, Copy, PartialEq, Eq, Structural)]
pub enum ActionCategory {
    Shift,
    Reduce,
    Accept,
}

/// An ACTION entry: shift to a state, reduce by a production, or accept.
#[derive(Debug, Clone, Copy, PartialEq, Eq, Structural)]
pub struct ActionCell {
    pub action_type: ActionCategory,
    pub id: usize,
}

/// A GOTO entry.
#[derive(Debug, Clone, Copy, PartialEq, Eq, Structural)]
pub struct GotoCell {
    pub next_state: usize,
}

/// ACTION and GOTO as maps from `(state, symbol)`, one entry per key, and
/// the conflicts met while filling them.
#[derive(Debug, Clone)]
pub struct LRParseTable {
    pub action: Vec<((usize, String), ActionCell)>,
    pub goto: Vec<((usize, String), GotoCell)>,
    pub conflicts: Vec<String>,
}

/// The LL(1) table: for each `(non-terminal, terminal)` key, ascending by
/// key, the productions in that cell.
#[derive(Debug, Clone)]
pub struct LL1ParseTable {
    pub cells: Vec<((String, String), Vec<usize>)>,
}

} // verus!
