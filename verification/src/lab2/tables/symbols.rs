//! Grammar symbols held in the shared tables: terminal and non-terminal
//! records, productions over them, and sets of terminals.
use vstd::prelude::*;
use crate::lab1::category::LexemeCategory;
use crate::text::str_eq;

verus! {

/// A terminal symbol. Two terminals are the same where their kind and name
/// agree; the category goes along.
#[derive(Clone, Debug)]
pub struct TerminalSymbol {
    pub name: String,
    pub symbolType: String,
    pub lemexeCategory: LexemeCategory,
}

/// What identifies a terminal: its kind and its name.
pub open spec fn tkey(t: TerminalSymbol) -> (Seq<char>, Seq<char>) {
    (t.symbolType@, t.name@)
}

/// The category that a terminal's tag (and, for plain operators, its name)
/// selects.
pub open spec fn category_for(name: Seq<char>, tag: Seq<char>) -> LexemeCategory {
    if tag == "KEYWORD"@ {
        LexemeCategory::KEYWORD
    } else if tag == "ASSIGN"@ || tag == "ASSIGN_OPERATOR"@ {
        LexemeCategory::ASSIGN_OPERATOR
    } else if tag == "COMPARE"@ || tag == "COMPARE_OPERATOR"@ {
        LexemeCategory::COMPARE_OPERATOR
    } else if tag == "OPERATOR+"@ || tag == "OPERATOR-"@ || tag == "OPERATOR*"@ || tag == "OPERATOR/"@ {
        LexemeCategory::NUMERIC_OPERATOR
    } else if tag == "OPERATOR"@ {
        if name == "+"@ || name == "-"@ || name == "*"@ || name == "/"@ {
            LexemeCategory::NUMERIC_OPERATOR
        } else if name == "<"@ || name == "="@ {
            LexemeCategory::COMPARE_OPERATOR
        } else if name == ":="@ {
            LexemeCategory::ASSIGN_OPERATOR
        } else {
            LexemeCategory::LOGIC_OPERATOR
        }
    } else if tag == "LEFT BRACKET"@ || tag == "RIGHT BRACKET"@ || tag == "SHUT"@ {
        LexemeCategory::LOGIC_OPERATOR
    } else if tag == "ID"@ || tag == "IDENTIFIER"@ {
        LexemeCategory::ID
    } else if tag == "NUM"@ || tag == "NUMBER"@ || tag == "INTEGER"@ {
        LexemeCategory::INTEGER_CONST
    } else if name == "+"@ || name == "-"@ || name == "*"@ || name == "/"@ {
        LexemeCategory::NUMERIC_OPERATOR
    } else if name == "<"@ || name == "="@ {
        LexemeCategory::COMPARE_OPERATOR
    } else if name == ":="@ {
        LexemeCategory::ASSIGN_OPERATOR
    } else if name == "identifier"@ || name == "id"@ {
        LexemeCategory::ID
    } else if name == "num"@ || name == "Number"@ {
        LexemeCategory::INTEGER_CONST
    } else {
        LexemeCategory::LOGIC_OPERATOR
    }
}

/// Whether `name` is one of `+ - * /`.
fn arith_name(name: &str) -> (res: bool)
    ensures
        res == (name@ == "+"@ || name@ == "-"@ || name@ == "*"@ || name@ == "/"@),
{
    str_eq(name, "+") || str_eq(name, "-") || str_eq(name, "*") || str_eq(name, "/")
}

/// The category that `tag` (and `name`) select.
fn map_lexeme_category(name: &str, tag: &str) -> (res: LexemeCategory)
    ensures
        res == category_for(name@, tag@),
{
    if str_eq(tag, "KEYWORD") {
        LexemeCategory::KEYWORD
    } else if str_eq(tag, "ASSIGN") || str_eq(tag, "ASSIGN_OPERATOR") {
        LexemeCategory::ASSIGN_OPERATOR
    } else if str_eq(tag, "COMPARE") || str_eq(tag, "COMPARE_OPERATOR") {
        LexemeCategory::COMPARE_OPERATOR
    } else if str_eq(tag, "OPERATOR+") || str_eq(tag, "OPERATOR-") || str_eq(tag, "OPERATOR*") || str_eq(tag, "OPERATOR/") {
        LexemeCategory::NUMERIC_OPERATOR
    } else if str_eq(tag, "OPERATOR") {
        if arith_name(name) {
            LexemeCategory::NUMERIC_OPERATOR
        } else if str_eq(name, "<") || str_eq(name, "=") {
            LexemeCategory::COMPARE_OPERATOR
        } else if str_eq(name, ":=") {
            LexemeCategory::ASSIGN_OPERATOR
        } else {
            LexemeCategory::LOGIC_OPERATOR
        }
    } else if str_eq(tag, "LEFT BRACKET") || str_eq(tag, "RIGHT BRACKET") || str_eq(tag, "SHUT") {
        LexemeCategory::LOGIC_OPERATOR
    } else if str_eq(tag, "ID") || str_eq(tag, "IDENTIFIER") {
        LexemeCategory::ID
    } else if str_eq(tag, "NUM") || str_eq(tag, "NUMBER") || str_eq(tag, "INTEGER") {
        LexemeCategory::INTEGER_CONST
    } else if arith_name(name) {
        LexemeCategory::NUMERIC_OPERATOR
    } else if str_eq(name, "<") || str_eq(name, "=") {
        LexemeCategory::COMPARE_OPERATOR
    } else if str_eq(name, ":=") {
        LexemeCategory::ASSIGN_OPERATOR
    } else if str_eq(name, "identifier") || str_eq(name, "id") {
        LexemeCategory::ID
    } else if str_eq(name, "num") || str_eq(name, "Number") {
        LexemeCategory::INTEGER_CONST
    } else {
        LexemeCategory::LOGIC_OPERATOR
    }
}

impl TerminalSymbol {
    /// A terminal named `name` of kind `symbol_type`, its category chosen by
    /// `lexeme_tag`.
    pub fn new(name: &str, symbol_type: &str, lexeme_tag: &str) -> (res: Self)
        ensures
            res.name@ == name@,
            res.symbolType@ == symbol_type@,
            res.lemexeCategory == category_for(name@, lexeme_tag@),
    {
        let category = map_lexeme_category(name, lexeme_tag);
        TerminalSymbol { name: String::from_str(name), symbolType: String::from_str(symbol_type), lemexeCategory: category }
    }
}

/// A copy of a terminal.
pub fn copy_ts(t: &TerminalSymbol) -> (res: TerminalSymbol)
    ensures
        res == *t,
{
    TerminalSymbol { name: t.name.clone(), symbolType: t.symbolType.clone(), lemexeCategory: t.lemexeCategory }
}

/// Whether two terminals are the same terminal.
pub fn ts_same(a: &TerminalSymbol, b: &TerminalSymbol) -> (res: bool)
    ensures
        res == (tkey(*a) == tkey(*b)),
{
    str_eq(a.symbolType.as_str(), b.symbolType.as_str()) && str_eq(a.name.as_str(), b.name.as_str())
}

/// The terminals of a terminal set.
pub open spec fn tset(v: Seq<TerminalSymbol>) -> Set<(Seq<char>, Seq<char>)> {
    v.map_values(|t: TerminalSymbol| tkey(t)).to_set()
}

/// No terminal occurs twice.
pub open spec fn tunique(v: Seq<TerminalSymbol>) -> bool {
    forall|i: int, j: int| 0 <= i < v.len() && 0 <= j < v.len() && i != j ==> tkey(#[trigger] v[i]) != tkey(#[trigger] v[j])
}

/// Whether the set holds terminal `t`.
pub fn ts_contains(v: &Vec<TerminalSymbol>, t: &TerminalSymbol) -> (res: bool)
    ensures
        res == tset(v@).contains(tkey(*t)),
{
    let mut i: usize = 0;
    while i < v.len()
        invariant
            i <= v@.len(),
            forall|k: int| 0 <= k < i ==> tkey(#[trigger] v@[k]) != tkey(*t),
        decreases v@.len() - i,
    {
        if ts_same(&v[i], t) {
            assert(v@.map_values(|x: TerminalSymbol| tkey(x))[i as int] == tkey(*t));
            return true;
        }
        i = i + 1;
    }
    proof {
        let m = v@.map_values(|x: TerminalSymbol| tkey(x));
        if m.to_set().contains(tkey(*t)) {
            let k = choose|k: int| 0 <= k < m.len() && m[k] == tkey(*t);
            assert(tkey(v@[k]) == tkey(*t));
        }
    }
    false
}

/// Adds terminal `t` unless the set holds it; the result says whether it
/// was added.
pub fn ts_insert(v: &mut Vec<TerminalSymbol>, t: &TerminalSymbol) -> (res: bool)
    requires
        tunique(old(v)@),
    ensures
        tunique(final(v)@),
        tset(final(v)@) == tset(old(v)@).insert(tkey(*t)),
        res == !tset(old(v)@).contains(tkey(*t)),
        res ==> final(v)@.len() == old(v)@.len() + 1,
        !res ==> final(v)@ == old(v)@,
{
    if ts_contains(v, t) {
        assert(tset(v@).insert(tkey(*t)) =~= tset(v@));
        return false;
    }
    let ghost v0 = v@;
    let c = copy_ts(t);
    v.push(c);
    proof {
        let v1 = v@;
        assert(tkey(v1[v0.len() as int]) == tkey(*t));
        assert forall|i: int, j: int| 0 <= i < v1.len() && 0 <= j < v1.len() && i != j implies tkey(#[trigger] v1[i]) != tkey(#[trigger] v1[j]) by {
            if i < v0.len() && j < v0.len() {
                assert(v1[i] == v0[i] && v1[j] == v0[j]);
            } else if i < v0.len() {
                assert(v1[i] == v0[i]);
                assert(v0.map_values(|x: TerminalSymbol| tkey(x))[i] == tkey(v0[i]));
            } else {
                assert(v1[j] == v0[j]);
                assert(v0.map_values(|x: TerminalSymbol| tkey(x))[j] == tkey(v0[j]));
            }
        }
        let m0 = v0.map_values(|x: TerminalSymbol| tkey(x));
        let m1 = v1.map_values(|x: TerminalSymbol| tkey(x));
        assert(m1 =~= m0.push(tkey(*t)));
        m0.lemma_push_to_set_commute(tkey(*t));
    }
    true
}

/// Removes terminal `t` from the set; the result says whether it was there.
pub fn ts_remove(v: &mut Vec<TerminalSymbol>, t: &TerminalSymbol) -> (res: bool)
    requires
        tunique(old(v)@),
    ensures
        tunique(final(v)@),
        tset(final(v)@) == tset(old(v)@).remove(tkey(*t)),
        res == tset(old(v)@).contains(tkey(*t)),
{
    let mut i: usize = 0;
    while i < v.len()
        invariant
            i <= v@.len(),
            v@ == old(v)@,
            tunique(old(v)@),
            forall|k: int| 0 <= k < i ==> tkey(#[trigger] v@[k]) != tkey(*t),
        decreases v@.len() - i,
    {
        if ts_same(&v[i], t) {
            let ghost v0 = v@;
            v.remove(i);
            proof {
                let v1 = v@;
                assert(v1 =~= v0.remove(i as int));
                let m0 = v0.map_values(|x: TerminalSymbol| tkey(x));
                let m1 = v1.map_values(|x: TerminalSymbol| tkey(x));
                assert forall|y: (Seq<char>, Seq<char>)| #[trigger] m1.to_set().contains(y) <==> m0.to_set().remove(tkey(*t)).contains(y) by {
                    if m1.to_set().contains(y) {
                        let k = choose|k: int| 0 <= k < m1.len() && m1[k] == y;
                        if k < i {
                            assert(m0[k] == y);
                            assert(v0[k] == v1[k]);
                        } else {
                            assert(m0[k + 1] == y);
                            assert(v0[k + 1] == v1[k]);
                            assert(k + 1 != i);
                            assert(tkey(v0[k + 1]) != tkey(v0[i as int]));
                        }
                    }
                    if m0.to_set().remove(tkey(*t)).contains(y) {
                        let k = choose|k: int| 0 <= k < m0.len() && m0[k] == y;
                        if k < i {
                            assert(m1[k] == y);
                        } else if k > i {
                            assert(m1[k - 1] == y);
                        }
                    }
                }
                assert(tset(v1) =~= tset(v0).remove(tkey(*t)));
                assert(m0[i as int] == tkey(*t));
                assert forall|a: int, b: int| 0 <= a < v1.len() && 0 <= b < v1.len() && a != b implies tkey(#[trigger] v1[a]) != tkey(#[trigger] v1[b]) by {
                    let a0 = if a < i { a } else { a + 1 };
                    let b0 = if b < i { b } else { b + 1 };
                    assert(v1[a] == v0[a0] && v1[b] == v0[b0]);
                }
            }
            return true;
        }
        i = i + 1;
    }
    proof {
        let m = v@.map_values(|x: TerminalSymbol| tkey(x));
        if m.to_set().contains(tkey(*t)) {
            let k = choose|k: int| 0 <= k < m.len() && m[k] == tkey(*t);
            assert(tkey(v@[k]) == tkey(*t));
        }
        assert(tset(v@).remove(tkey(*t)) =~= tset(v@));
    }
    false
}

/// Adds every terminal of `src` to `dst`; the result says whether `dst`
/// grew.
pub fn ts_extend(dst: &mut Vec<TerminalSymbol>, src: &Vec<TerminalSymbol>) -> (res: bool)
    requires
        tunique(old(dst)@),
    ensures
        tunique(final(dst)@),
        tset(final(dst)@) == tset(old(dst)@).union(tset(src@)),
        final(dst)@.len() >= old(dst)@.len(),
        res == (final(dst)@.len() > old(dst)@.len()),
        !res ==> final(dst)@ == old(dst)@,
{
    let mut grew = false;
    let mut i: usize = 0;
    while i < src.len()
        invariant
            i <= src@.len(),
            tunique(dst@),
            tset(dst@) == tset(old(dst)@).union(src@.subrange(0, i as int).map_values(|x: TerminalSymbol| tkey(x)).to_set()),
            dst@.len() >= old(dst)@.len(),
            grew == (dst@.len() > old(dst)@.len()),
            !grew ==> dst@ == old(dst)@,
        decreases src@.len() - i,
    {
        let ghost sub = src@.subrange(0, i as int).map_values(|x: TerminalSymbol| tkey(x));
        if ts_insert(dst, &src[i]) {
            grew = true;
        }
        proof {
            let sub2 = src@.subrange(0, i + 1).map_values(|x: TerminalSymbol| tkey(x));
            assert(sub2 =~= sub.push(tkey(src@[i as int])));
            sub.lemma_push_to_set_commute(tkey(src@[i as int]));
        }
        i = i + 1;
        assert(tset(dst@) =~= tset(old(dst)@).union(src@.subrange(0, i as int).map_values(|x: TerminalSymbol| tkey(x)).to_set()));
    }
    assert(src@.subrange(0, i as int) =~= src@);
    grew
}

/// A symbol of a production body: a terminal, a non-terminal by name, or
/// the empty symbol.
#[derive(Clone, Debug)]
pub enum GrammarSymbol {
    Terminal(TerminalSymbol),
    NonTerminal(String),
    Null,
}

/// The name of a body symbol: the terminal's or non-terminal's, `null` for
/// the empty symbol.
pub open spec fn gs_name(s: GrammarSymbol) -> Seq<char> {
    match s {
        GrammarSymbol::Terminal(ts) => ts.name@,
        GrammarSymbol::NonTerminal(n) => n@,
        GrammarSymbol::Null => "null"@,
    }
}

impl GrammarSymbol {
    /// The symbol's name.
    pub fn name(&self) -> (res: &str)
        ensures
            res@ == gs_name(*self),
    {
        match self {
            GrammarSymbol::Terminal(ts) => ts.name.as_str(),
            GrammarSymbol::NonTerminal(name) => name.as_str(),
            GrammarSymbol::Null => "null",
        }
    }

    /// Whether the symbol is a terminal.
    pub fn is_terminal(&self) -> (res: bool)
        ensures
            res == (*self is Terminal),
    {
        match self {
            GrammarSymbol::Terminal(_) => true,
            _ => false,
        }
    }

    /// Whether the symbol is a non-terminal.
    pub fn is_non_terminal(&self) -> (res: bool)
        ensures
            res == (*self is NonTerminal),
    {
        match self {
            GrammarSymbol::NonTerminal(_) => true,
            _ => false,
        }
    }
}

/// A copy of a body symbol.
pub fn copy_gs(s: &GrammarSymbol) -> (res: GrammarSymbol)
    ensures
        res == *s,
{
    match s {
        GrammarSymbol::Terminal(ts) => GrammarSymbol::Terminal(copy_ts(ts)),
        GrammarSymbol::NonTerminal(n) => GrammarSymbol::NonTerminal(n.clone()),
        GrammarSymbol::Null => GrammarSymbol::Null,
    }
}

/// A copy of a body.
pub fn copy_body(v: &Vec<GrammarSymbol>) -> (res: Vec<GrammarSymbol>)
    ensures
        res@ == v@,
{
    let mut res: Vec<GrammarSymbol> = Vec::new();
    let mut i: usize = 0;
    while i < v.len()
        invariant
            i <= v@.len(),
            res@ == v@.subrange(0, i as int),
        decreases v@.len() - i,
    {
        res.push(copy_gs(&v[i]));
        i = i + 1;
        assert(res@ =~= v@.subrange(0, i as int));
    }
    assert(v@.subrange(0, i as int) =~= v@);
    res
}

/// A copy of a terminal set.
pub fn copy_tset(v: &Vec<TerminalSymbol>) -> (res: Vec<TerminalSymbol>)
    ensures
        res@ == v@,
{
    let mut res: Vec<TerminalSymbol> = Vec::new();
    let mut i: usize = 0;
    while i < v.len()
        invariant
            i <= v@.len(),
            res@ == v@.subrange(0, i as int),
        decreases v@.len() - i,
    {
        res.push(copy_ts(&v[i]));
        i = i + 1;
        assert(res@ =~= v@.subrange(0, i as int));
    }
    assert(v@.subrange(0, i as int) =~= v@);
    res
}

/// A production: its number, the size it was declared with, its body, and
/// its FIRST set.
#[derive(Clone, Debug)]
pub struct Production {
    pub productionId: i64,
    pub bodySize: i64,
    pub pBodySymbolTable: Vec<GrammarSymbol>,
    pub pFirstSet: Vec<TerminalSymbol>,
}

impl Production {
    /// An empty production numbered `production_id`.
    pub fn new(production_id: i64, body_size: i64) -> (res: Self)
        ensures
            res.productionId == production_id,
            res.bodySize == body_size,
            res.pBodySymbolTable@.len() == 0,
            res.pFirstSet@.len() == 0,
    {
        Production { productionId: production_id, bodySize: body_size, pBodySymbolTable: Vec::new(), pFirstSet: Vec::new() }
    }
}

/// A non-terminal with its productions and its FIRST, FOLLOW and
/// FOLLOW-dependency sets.
#[derive(Clone, Debug)]
pub struct NonTerminalSymbol {
    pub name: String,
    pub symbolType: String,
    pub pProductionTable: Vec<Production>,
    pub numOfProduction: i64,
    pub pFirstSet: Vec<TerminalSymbol>,
    pub pFollowSet: Vec<TerminalSymbol>,
    pub pDependentSetInFollow: Vec<String>,
}

impl NonTerminalSymbol {
    /// A non-terminal with no productions and empty sets.
    pub fn new(name: &str, symbol_type: &str) -> (res: Self)
        ensures
            res.name@ == name@,
            res.symbolType@ == symbol_type@,
            res.pProductionTable@.len() == 0,
            res.numOfProduction == 0,
            res.pFirstSet@.len() == 0,
            res.pFollowSet@.len() == 0,
            res.pDependentSetInFollow@.len() == 0,
    {
        NonTerminalSymbol {
            name: String::from_str(name),
            symbolType: String::from_str(symbol_type),
            pProductionTable: Vec::new(),
            numOfProduction: 0,
            pFirstSet: Vec::new(),
            pFollowSet: Vec::new(),
            pDependentSetInFollow: Vec::new(),
        }
    }
}

/// Where a production stands: its number, head and body size.
#[derive(Clone, Debug)]
pub struct ProductionInfo {
    pub indexId: i64,
    pub headName: String,
    pub bodySize: i64,
}

impl ProductionInfo {
    /// The record of a production.
    pub fn new(index_id: i64, head_name: &str, body_size: i64) -> (res: Self)
        ensures
            res.indexId == index_id,
            res.headName@ == head_name@,
            res.bodySize == body_size,
    {
        ProductionInfo { indexId: index_id, headName: String::from_str(head_name), bodySize: body_size }
    }
}

} // verus!
