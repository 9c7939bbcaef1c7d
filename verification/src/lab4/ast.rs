//! Syntax trees of TINY programs, and their plain-value views.
use vstd::prelude::*;

verus! {

/// A TINY program: a sequence of statements.
#[derive(Debug)]
pub struct Program {
    pub stmts: Vec<Stmt>,
}

/// A statement.
#[derive(Debug)]
pub enum Stmt {
    If { cond: Expr, then_part: Vec<Stmt>, else_part: Option<Vec<Stmt>> },
    Repeat { body: Vec<Stmt>, until: Expr },
    Assign { name: String, expr: Expr },
    Read { name: String },
    Write { expr: Expr },
}

/// An expression.
#[derive(Debug)]
pub enum Expr {
    Num(i64),
    Id(String),
    Binary { op: BinOp, left: Box<Expr>, right: Box<Expr> },
}

/// Binary operators.
#[derive(Debug, Clone, Copy, PartialEq, Eq)]
pub enum BinOp {
    Plus,
    Minus,
    Times,
    Over,
    Lt,
    Eq,
}

/// An expression as plain values.
pub enum ExprV {
    Num(i64),
    Id(Seq<char>),
    Binary(BinOp, Box<ExprV>, Box<ExprV>),
}

/// A statement as plain values.
pub enum StmtV {
    If(ExprV, Seq<StmtV>, Option<Seq<StmtV>>),
    Repeat(Seq<StmtV>, ExprV),
    Assign(Seq<char>, ExprV),
    Read(Seq<char>),
    Write(ExprV),
}

/// The plain-value view of an expression.
pub open spec fn expr_view(e: Expr) -> ExprV
    decreases e,
{
    match e {
        Expr::Num(v) => ExprV::Num(v),
        Expr::Id(s) => ExprV::Id(s@),
        Expr::Binary { op, left, right } => ExprV::Binary(op, Box::new(expr_view(*left)), Box::new(expr_view(*right))),
    }
}

/// The plain-value view of a statement.
pub open spec fn stmt_view(s: Stmt) -> StmtV
    decreases s, 1nat,
{
    match s {
        Stmt::If { cond, then_part, else_part } => StmtV::If(
            expr_view(cond),
            stmts_view(then_part@),
            match else_part {
                Some(v) => Some(stmts_view(v@)),
                None => None,
            },
        ),
        Stmt::Repeat { body, until } => StmtV::Repeat(stmts_view(body@), expr_view(until)),
        Stmt::Assign { name, expr } => StmtV::Assign(name@, expr_view(expr)),
        Stmt::Read { name } => StmtV::Read(name@),
        Stmt::Write { expr } => StmtV::Write(expr_view(expr)),
    }
}

/// The plain-value view of a statement sequence.
pub open spec fn stmts_view(v: Seq<Stmt>) -> Seq<StmtV>
    decreases v, 0nat,
{
    if v.len() == 0 {
        Seq::empty()
    } else {
        stmts_view(v.drop_last()).push(stmt_view(v.last()))
    }
}

} // verus!
