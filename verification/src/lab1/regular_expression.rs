//! Named regular expressions with their NFAs, kept in a table.
use vstd::prelude::*;
use crate::lab1::category::LexemeCategory;
use crate::lab1::graph::Graph;

verus! {

/// A regular expression built from operands by an operator, with its NFA.
#[derive(Debug)]
pub struct RegularExpression {
    pub regularId: i32,
    pub name: String,
    pub operatorSymbol: char,
    pub operandId1: i32,
    pub operandId2: i32,
    pub type1: String,
    pub type2: String,
    pub resultType: String,
    pub LexemeCategory: Option<LexemeCategory>,
    pub pNFA: Graph,
}

/// Two entries hold the same values (graphs compared by number, size,
/// states and edges).
pub open spec fn same_regex(a: RegularExpression, b: RegularExpression) -> bool {
    &&& a.regularId == b.regularId
    &&& a.name@ == b.name@
    &&& a.operatorSymbol == b.operatorSymbol
    &&& a.operandId1 == b.operandId1
    &&& a.operandId2 == b.operandId2
    &&& a.type1@ == b.type1@
    &&& a.type2@ == b.type2@
    &&& a.resultType@ == b.resultType@
    &&& a.LexemeCategory == b.LexemeCategory
    &&& a.pNFA.graphId == b.pNFA.graphId
    &&& a.pNFA.numOfStates == b.pNFA.numOfStates
    &&& a.pNFA.states() == b.pNFA.states()
    &&& a.pNFA.edges() == b.pNFA.edges()
}

impl RegularExpression {
    /// An entry with the given fields.
    pub fn new(
        regularId: i32,
        name: &str,
        operatorSymbol: char,
        operandId1: i32,
        operandId2: i32,
        type1: &str,
        type2: &str,
        resultType: &str,
        LexemeCategory: Option<LexemeCategory>,
        pNFA: Graph,
    ) -> (r: Self)
        ensures
            r.regularId == regularId,
            r.name@ == name@,
            r.operatorSymbol == operatorSymbol,
            r.operandId1 == operandId1,
            r.operandId2 == operandId2,
            r.type1@ == type1@,
            r.type2@ == type2@,
            r.resultType@ == resultType@,
            r.LexemeCategory == LexemeCategory,
            r.pNFA == pNFA,
    {
        RegularExpression {
            regularId,
            name: String::from_str(name),
            operatorSymbol,
            operandId1,
            operandId2,
            type1: String::from_str(type1),
            type2: String::from_str(type2),
            resultType: String::from_str(resultType),
            LexemeCategory,
            pNFA,
        }
    }

    /// A copy of the entry.
    pub fn copy(&self) -> (r: Self)
        ensures
            same_regex(r, *self),
    {
        RegularExpression {
            regularId: self.regularId,
            name: self.name.clone(),
            operatorSymbol: self.operatorSymbol,
            operandId1: self.operandId1,
            operandId2: self.operandId2,
            type1: self.type1.clone(),
            type2: self.type2.clone(),
            resultType: self.resultType.clone(),
            LexemeCategory: self.LexemeCategory,
            pNFA: self.pNFA.copyGraph(),
        }
    }
}

/// The table of regular expressions.
pub struct RegularTable {
    pub entries: Vec<RegularExpression>,
}

impl RegularTable {
    /// An empty table.
    pub fn new() -> (t: RegularTable)
        ensures
            t.entries@.len() == 0,
    {
        RegularTable { entries: Vec::new() }
    }
}

/// Appends `expr` to the table.
pub fn add_regular_expression(table: &mut RegularTable, expr: RegularExpression)
    ensures
        final(table).entries@ == old(table).entries@.push(expr),
{
    table.entries.push(expr);
}

/// A copy of the table's entries, in order.
pub fn regular_table_snapshot(table: &RegularTable) -> (res: Vec<RegularExpression>)
    ensures
        res@.len() == table.entries@.len(),
        forall|i: int| 0 <= i < res@.len() ==> same_regex(#[trigger] res@[i], table.entries@[i]),
{
    let mut res: Vec<RegularExpression> = Vec::new();
    let mut i: usize = 0;
    while i < table.entries.len()
        invariant
            i <= table.entries@.len(),
            res@.len() == i,
            forall|k: int| 0 <= k < i ==> same_regex(#[trigger] res@[k], table.entries@[k]),
        decreases table.entries@.len() - i,
    {
        res.push(table.entries[i].copy());
        i = i + 1;
    }
    res
}

/// Empties the table.
pub fn clear_regular_table(table: &mut RegularTable)
    ensures
        final(table).entries@.len() == 0,
{
    table.entries.clear();
}

} // verus!
