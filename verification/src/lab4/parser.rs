//! Recursive-descent parser for TINY. Each parsing function is specified by
//! a spec function of the grammar rule it implements: the result it gives
//! from a position, with the position after it, or `None` for a syntax error.
use vstd::prelude::*;
use crate::lab4::ast::{expr_view, stmt_view, stmts_view, BinOp, Expr, ExprV, Program, Stmt, StmtV};
use crate::lab4::error::CompileError;
use crate::lab4::token::{kind_debug, kind_debug_text, TinyToken, TinyTokenKind};

verus! {

/// The token kind at position `p`; past the end, that of the last token.
pub open spec fn kind_at(t: Seq<TinyToken>, p: int) -> TinyTokenKind {
    if 0 <= p < t.len() {
        t[p].kind
    } else {
        t.last().kind
    }
}

/// The position after consuming the token at `p`; the end stays the end.
pub open spec fn adv(t: Seq<TinyToken>, p: int) -> int {
    if p < t.len() {
        p + 1
    } else {
        p
    }
}

/// The token lists the parser accepts: not empty, and not ending in `(` or
/// `repeat` (on those the grammar would recurse without consuming input).
pub open spec fn parsable(t: Seq<TinyToken>) -> bool {
    &&& t.len() > 0
    &&& !(t.last().kind is LParen)
    &&& !(t.last().kind is Repeat)
}

/// factor -> NUM | ID | ( exp )
pub open spec fn sp_factor(t: Seq<TinyToken>, p: int) -> Option<(ExprV, int)>
    decreases t.len() - p, 0nat,
{
    if p < 0 || p > t.len() {
        None
    } else {
        match kind_at(t, p) {
            TinyTokenKind::Num(v) => Some((ExprV::Num(v), adv(t, p))),
            TinyTokenKind::Id(s) => Some((ExprV::Id(s@), adv(t, p))),
            TinyTokenKind::LParen => if p < t.len() {
                match sp_expr(t, p + 1) {
                    Some((e, q)) => if p + 1 <= q <= t.len() && kind_at(t, q) is RParen {
                        Some((e, adv(t, q)))
                    } else {
                        None
                    },
                    None => None,
                }
            } else {
                None
            },
            _ => None,
        }
    }
}

/// The `(* | /) factor` repetitions of a term after `acc`, from `q`.
pub open spec fn sp_term_rest(t: Seq<TinyToken>, q: int, acc: ExprV) -> Option<(ExprV, int)>
    decreases t.len() - q, 1nat,
{
    if q < 0 || q > t.len() {
        None
    } else {
        let op = match kind_at(t, q) {
            TinyTokenKind::Times => Some(BinOp::Times),
            TinyTokenKind::Over => Some(BinOp::Over),
            _ => None,
        };
        match op {
            None => Some((acc, q)),
            Some(o) => match sp_factor(t, adv(t, q)) {
                Some((r, q2)) => if q < q2 <= t.len() {
                    sp_term_rest(t, q2, ExprV::Binary(o, Box::new(acc), Box::new(r)))
                } else {
                    None
                },
                None => None,
            },
        }
    }
}

/// term -> factor { (* | /) factor }, left associative.
pub open spec fn sp_term(t: Seq<TinyToken>, p: int) -> Option<(ExprV, int)>
    decreases t.len() - p, 2nat,
{
    if p < 0 || p > t.len() {
        None
    } else {
        match sp_factor(t, p) {
            Some((f, q)) => if p <= q <= t.len() {
                sp_term_rest(t, q, f)
            } else {
                None
            },
            None => None,
        }
    }
}

/// The `(+ | -) term` repetitions of a simple expression after `acc`.
pub open spec fn sp_simple_rest(t: Seq<TinyToken>, q: int, acc: ExprV) -> Option<(ExprV, int)>
    decreases t.len() - q, 3nat,
{
    if q < 0 || q > t.len() {
        None
    } else {
        let op = match kind_at(t, q) {
            TinyTokenKind::Plus => Some(BinOp::Plus),
            TinyTokenKind::Minus => Some(BinOp::Minus),
            _ => None,
        };
        match op {
            None => Some((acc, q)),
            Some(o) => match sp_term(t, adv(t, q)) {
                Some((r, q2)) => if q < q2 <= t.len() {
                    sp_simple_rest(t, q2, ExprV::Binary(o, Box::new(acc), Box::new(r)))
                } else {
                    None
                },
                None => None,
            },
        }
    }
}

/// simple-exp -> term { (+ | -) term }, left associative.
pub open spec fn sp_simple(t: Seq<TinyToken>, p: int) -> Option<(ExprV, int)>
    decreases t.len() - p, 4nat,
{
    if p < 0 || p > t.len() {
        None
    } else {
        match sp_term(t, p) {
            Some((f, q)) => if p <= q <= t.len() {
                sp_simple_rest(t, q, f)
            } else {
                None
            },
            None => None,
        }
    }
}

/// exp -> simple-exp [ (< | =) simple-exp ]
pub open spec fn sp_expr(t: Seq<TinyToken>, p: int) -> Option<(ExprV, int)>
    decreases t.len() - p, 5nat,
{
    if p < 0 || p > t.len() {
        None
    } else {
        match sp_simple(t, p) {
            Some((l, q)) => if p <= q <= t.len() {
                let op = match kind_at(t, q) {
                    TinyTokenKind::Lt => Some(BinOp::Lt),
                    TinyTokenKind::Eq => Some(BinOp::Eq),
                    _ => None,
                };
                match op {
                    None => Some((l, q)),
                    Some(o) => match sp_simple(t, adv(t, q)) {
                        Some((r, q2)) => Some((ExprV::Binary(o, Box::new(l), Box::new(r)), q2)),
                        None => None,
                    },
                }
            } else {
                None
            },
            None => None,
        }
    }
}

/// Kinds that close a statement sequence after a `;`.
pub open spec fn closes_seq(k: TinyTokenKind) -> bool {
    k is End || k is Else || k is Until || k is Eof
}

/// stmt-sequence -> statement { ; statement }, where a `;` before `end`,
/// `else`, `until` or the end of input is allowed.
pub open spec fn sp_stmt_seq(t: Seq<TinyToken>, p: int) -> Option<(Seq<StmtV>, int)>
    decreases t.len() - p, 10nat,
{
    if p < 0 || p > t.len() {
        None
    } else {
        match sp_stmt(t, p) {
            Some((s, q)) => if p <= q <= t.len() {
                sp_seq_rest(t, q, seq![s])
            } else {
                None
            },
            None => None,
        }
    }
}

/// The `; statement` repetitions of a statement sequence after `acc`.
pub open spec fn sp_seq_rest(t: Seq<TinyToken>, q: int, acc: Seq<StmtV>) -> Option<(Seq<StmtV>, int)>
    decreases t.len() - q, 9nat,
{
    if q < 0 || q > t.len() {
        None
    } else if kind_at(t, q) is Semi {
        let q1 = adv(t, q);
        if closes_seq(kind_at(t, q1)) {
            Some((acc, q1))
        } else {
            match sp_stmt(t, q1) {
                Some((s, q2)) => if q < q2 <= t.len() {
                    sp_seq_rest(t, q2, acc.push(s))
                } else {
                    None
                },
                None => None,
            }
        }
    } else {
        Some((acc, q))
    }
}

/// statement -> if-stmt | repeat-stmt | assign-stmt | read-stmt | write-stmt
pub open spec fn sp_stmt(t: Seq<TinyToken>, p: int) -> Option<(StmtV, int)>
    decreases t.len() - p, 8nat,
{
    if p < 0 || p > t.len() {
        None
    } else {
        match kind_at(t, p) {
            TinyTokenKind::If => sp_if(t, p),
            TinyTokenKind::Repeat => sp_repeat(t, p),
            TinyTokenKind::Read => sp_read(t, p),
            TinyTokenKind::Write => sp_write(t, p),
            TinyTokenKind::Id(_) => sp_assign(t, p),
            _ => None,
        }
    }
}

/// if-stmt -> if exp then stmt-sequence [ else stmt-sequence ] end
pub open spec fn sp_if(t: Seq<TinyToken>, p: int) -> Option<(StmtV, int)>
    decreases t.len() - p, 7nat,
{
    if p < 0 || p > t.len() || !(kind_at(t, p) is If) {
        None
    } else {
        let p1 = adv(t, p);
        match sp_expr(t, p1) {
            Some((c, q)) => if p1 <= q <= t.len() && kind_at(t, q) is Then && p < adv(t, q) {
                let q1 = adv(t, q);
                match sp_stmt_seq(t, q1) {
                    Some((th, q2)) => if q1 <= q2 <= t.len() {
                        if kind_at(t, q2) is Else {
                            let q3 = adv(t, q2);
                            match sp_stmt_seq(t, q3) {
                                Some((el, q4)) => if kind_at(t, q4) is End {
                                    Some((StmtV::If(c, th, Some(el)), adv(t, q4)))
                                } else {
                                    None
                                },
                                None => None,
                            }
                        } else if kind_at(t, q2) is End {
                            Some((StmtV::If(c, th, None), adv(t, q2)))
                        } else {
                            None
                        }
                    } else {
                        None
                    },
                    None => None,
                }
            } else {
                None
            },
            None => None,
        }
    }
}

/// repeat-stmt -> repeat stmt-sequence until exp
pub open spec fn sp_repeat(t: Seq<TinyToken>, p: int) -> Option<(StmtV, int)>
    decreases t.len() - p, 7nat,
{
    if p < 0 || p >= t.len() || !(kind_at(t, p) is Repeat) {
        None
    } else {
        match sp_stmt_seq(t, p + 1) {
            Some((b, q)) => if p + 1 <= q <= t.len() && kind_at(t, q) is Until {
                match sp_expr(t, adv(t, q)) {
                    Some((u, q2)) => Some((StmtV::Repeat(b, u), q2)),
                    None => None,
                }
            } else {
                None
            },
            None => None,
        }
    }
}

/// read-stmt -> read ID
pub open spec fn sp_read(t: Seq<TinyToken>, p: int) -> Option<(StmtV, int)> {
    if p < 0 || p > t.len() || !(kind_at(t, p) is Read) {
        None
    } else {
        match kind_at(t, adv(t, p)) {
            TinyTokenKind::Id(s) => Some((StmtV::Read(s@), adv(t, adv(t, p)))),
            _ => None,
        }
    }
}

/// write-stmt -> write exp
pub open spec fn sp_write(t: Seq<TinyToken>, p: int) -> Option<(StmtV, int)>
    decreases t.len() - p, 7nat,
{
    if p < 0 || p > t.len() || !(kind_at(t, p) is Write) {
        None
    } else {
        match sp_expr(t, adv(t, p)) {
            Some((e, q)) => Some((StmtV::Write(e), q)),
            None => None,
        }
    }
}

/// assign-stmt -> ID := exp
pub open spec fn sp_assign(t: Seq<TinyToken>, p: int) -> Option<(StmtV, int)>
    decreases t.len() - p, 7nat,
{
    if p < 0 || p > t.len() {
        None
    } else {
        match kind_at(t, p) {
            TinyTokenKind::Id(s) => {
                let p1 = adv(t, p);
                if kind_at(t, p1) is Assign {
                    match sp_expr(t, adv(t, p1)) {
                        Some((e, q)) => Some((StmtV::Assign(s@, e), q)),
                        None => None,
                    }
                } else {
                    None
                }
            },
            _ => None,
        }
    }
}

/// program -> stmt-sequence, then the end of input.
pub open spec fn sp_program(t: Seq<TinyToken>) -> Option<Seq<StmtV>> {
    match sp_stmt_seq(t, 0) {
        Some((s, q)) => if kind_at(t, q) is Eof {
            Some(s)
        } else {
            None
        },
        None => None,
    }
}

/// The token at `pos`; past the end, the last token.
fn peek(t: &[TinyToken], pos: usize) -> (tok: &TinyToken)
    requires
        t@.len() > 0,
    ensures
        tok.kind == kind_at(t@, pos as int),
        pos < t@.len() ==> *tok == t@[pos as int],
        pos >= t@.len() ==> *tok == t@.last(),
{
    if pos < t.len() {
        &t[pos]
    } else {
        &t[t.len() - 1]
    }
}

/// The position after the token at `pos`.
fn advance(t: &[TinyToken], pos: usize) -> (q: usize)
    ensures
        q == adv(t@, pos as int),
{
    if pos < t.len() {
        pos + 1
    } else {
        pos
    }
}

/// The token at `p`; past the end, the last one.
pub open spec fn tok_at(t: Seq<TinyToken>, p: int) -> TinyToken {
    if 0 <= p < t.len() {
        t[p]
    } else {
        t.last()
    }
}

/// The text of a parse error: `prefix`, the kind of the token at `p` and
/// its lexeme.
pub open spec fn found_text(prefix: Seq<char>, t: Seq<TinyToken>, p: int) -> Seq<char> {
    prefix + kind_debug_text(tok_at(t, p).kind@) + " (lexeme="@ + tok_at(t, p).lexeme@ + ")"@
}

/// A parse error: `prefix`, the kind found and its text.
fn found_error(prefix: &str, t: &[TinyToken], pos: usize) -> (e: CompileError)
    requires
        t@.len() > 0,
    ensures
        e matches CompileError::Parse(m) && m@ == found_text(prefix@, t@, pos as int),
{
    let tok = peek(t, pos);
    let mut m = String::from_str(prefix);
    m.append(kind_debug(&tok.kind).as_str());
    m.append(" (lexeme=");
    m.append(tok.lexeme.as_str());
    m.append(")");
    CompileError::Parse(m)
}

/// The error for a missing `want`.
fn expect_error(want: &TinyTokenKind, t: &[TinyToken], pos: usize) -> (e: CompileError)
    requires
        t@.len() > 0,
    ensures
        e matches CompileError::Parse(m) && m@ == "期望 "@ + kind_debug_text(want@) + "，但得到 "@ + found_text(""@, t@, pos as int),
{
    let mut m = String::from_str("期望 ");
    m.append(kind_debug(want).as_str());
    m.append("，但得到 ");
    let tail = found_error("", t, pos);
    match tail {
        CompileError::Parse(rest) => {
            m.append(rest.as_str());
        },
        _ => {},
    }
    proof {
        reveal_strlit("");
    }
    CompileError::Parse(m)
}

/// factor -> NUM | ID | ( exp )
fn parse_factor(t: &[TinyToken], pos: usize) -> (res: Result<(Expr, usize), CompileError>)
    requires
        parsable(t@),
        pos <= t@.len(),
    ensures
        match res {
            Ok((e, q)) => sp_factor(t@, pos as int) == Some((expr_view(e), q as int)) && pos <= q <= t@.len(),
            Err(err) => sp_factor(t@, pos as int) is None && err is Parse,
        },
    decreases t@.len() - pos, 0nat,
{
    let tok = peek(t, pos);
    match &tok.kind {
        TinyTokenKind::Num(v) => Ok((Expr::Num(*v), advance(t, pos))),
        TinyTokenKind::Id(s) => Ok((Expr::Id(s.clone()), advance(t, pos))),
        TinyTokenKind::LParen => {
            let p1 = advance(t, pos);
            let (e, q) = parse_expr(t, p1)?;
            if check_simple(t, q, 0) {
                Ok((e, advance(t, q)))
            } else {
                Err(expect_error(&TinyTokenKind::RParen, t, q))
            }
        },
        _ => Err(found_error("无法解析因子: ", t, pos)),
    }
}

/// Whether the kind at `pos` is the one `want` names (by variant).
fn check_simple(t: &[TinyToken], pos: usize, want: u8) -> (res: bool)
    requires
        t@.len() > 0,
    ensures
        want == 0 ==> res == (kind_at(t@, pos as int) is RParen),
        want == 1 ==> res == (kind_at(t@, pos as int) is Then),
        want == 2 ==> res == (kind_at(t@, pos as int) is Else),
        want == 3 ==> res == (kind_at(t@, pos as int) is End),
        want == 4 ==> res == (kind_at(t@, pos as int) is Until),
        want == 5 ==> res == (kind_at(t@, pos as int) is Assign),
        want == 6 ==> res == (kind_at(t@, pos as int) is Semi),
        want == 7 ==> res == (kind_at(t@, pos as int) is Eof),
{
    let k = &peek(t, pos).kind;
    match want {
        0 => matches!(k, TinyTokenKind::RParen),
        1 => matches!(k, TinyTokenKind::Then),
        2 => matches!(k, TinyTokenKind::Else),
        3 => matches!(k, TinyTokenKind::End),
        4 => matches!(k, TinyTokenKind::Until),
        5 => matches!(k, TinyTokenKind::Assign),
        6 => matches!(k, TinyTokenKind::Semi),
        _ => matches!(k, TinyTokenKind::Eof),
    }
}

/// The `(* | /) factor` repetitions of a term after `acc`.
fn parse_term_rest(t: &[TinyToken], pos: usize, acc: Expr) -> (res: Result<(Expr, usize), CompileError>)
    requires
        parsable(t@),
        pos <= t@.len(),
    ensures
        match res {
            Ok((e, q)) => sp_term_rest(t@, pos as int, expr_view(acc)) == Some((expr_view(e), q as int)) && pos <= q <= t@.len(),
            Err(err) => sp_term_rest(t@, pos as int, expr_view(acc)) is None && err is Parse,
        },
    decreases t@.len() - pos, 1nat,
{
    let op = match &peek(t, pos).kind {
        TinyTokenKind::Times => Some(BinOp::Times),
        TinyTokenKind::Over => Some(BinOp::Over),
        _ => None,
    };
    match op {
        None => Ok((acc, pos)),
        Some(o) => {
            let p1 = advance(t, pos);
            let (r, q2) = parse_factor(t, p1)?;
            if pos < q2 {
                let ghost accv = expr_view(acc);
                let combined = Expr::Binary { op: o, left: Box::new(acc), right: Box::new(r) };
                assert(expr_view(combined) == ExprV::Binary(o, Box::new(accv), Box::new(expr_view(r))));
                parse_term_rest(t, q2, combined)
            } else {
                proof {
                    lemma_factor_at_end(t@, pos as int);
                }
                Err(found_error("无法解析因子: ", t, p1))
            }
        },
    }
}

/// At the end of input, after an operator as last token, a factor fails.
proof fn lemma_factor_at_end(t: Seq<TinyToken>, p: int)
    requires
        parsable(t),
        p == t.len(),
        !(t.last().kind is Num),
        !(t.last().kind is Id),
    ensures
        sp_factor(t, p) is None,
        sp_term(t, p) is None,
        sp_simple(t, p) is None,
        sp_expr(t, p) is None,
{
}

/// term -> factor { (* | /) factor }
fn parse_term(t: &[TinyToken], pos: usize) -> (res: Result<(Expr, usize), CompileError>)
    requires
        parsable(t@),
        pos <= t@.len(),
    ensures
        match res {
            Ok((e, q)) => sp_term(t@, pos as int) == Some((expr_view(e), q as int)) && pos <= q <= t@.len(),
            Err(err) => sp_term(t@, pos as int) is None && err is Parse,
        },
    decreases t@.len() - pos, 2nat,
{
    let (f, q) = parse_factor(t, pos)?;
    parse_term_rest(t, q, f)
}

/// The `(+ | -) term` repetitions of a simple expression after `acc`.
fn parse_simple_rest(t: &[TinyToken], pos: usize, acc: Expr) -> (res: Result<(Expr, usize), CompileError>)
    requires
        parsable(t@),
        pos <= t@.len(),
    ensures
        match res {
            Ok((e, q)) => sp_simple_rest(t@, pos as int, expr_view(acc)) == Some((expr_view(e), q as int)) && pos <= q
                <= t@.len(),
            Err(err) => sp_simple_rest(t@, pos as int, expr_view(acc)) is None && err is Parse,
        },
    decreases t@.len() - pos, 3nat,
{
    let op = match &peek(t, pos).kind {
        TinyTokenKind::Plus => Some(BinOp::Plus),
        TinyTokenKind::Minus => Some(BinOp::Minus),
        _ => None,
    };
    match op {
        None => Ok((acc, pos)),
        Some(o) => {
            let p1 = advance(t, pos);
            let (r, q2) = parse_term(t, p1)?;
            if pos < q2 {
                let ghost accv = expr_view(acc);
                let combined = Expr::Binary { op: o, left: Box::new(acc), right: Box::new(r) };
                assert(expr_view(combined) == ExprV::Binary(o, Box::new(accv), Box::new(expr_view(r))));
                parse_simple_rest(t, q2, combined)
            } else {
                proof {
                    lemma_factor_at_end(t@, pos as int);
                }
                Err(found_error("无法解析因子: ", t, p1))
            }
        },
    }
}

/// simple-exp -> term { (+ | -) term }
fn parse_simple_expr(t: &[TinyToken], pos: usize) -> (res: Result<(Expr, usize), CompileError>)
    requires
        parsable(t@),
        pos <= t@.len(),
    ensures
        match res {
            Ok((e, q)) => sp_simple(t@, pos as int) == Some((expr_view(e), q as int)) && pos <= q <= t@.len(),
            Err(err) => sp_simple(t@, pos as int) is None && err is Parse,
        },
    decreases t@.len() - pos, 4nat,
{
    let (f, q) = parse_term(t, pos)?;
    parse_simple_rest(t, q, f)
}

/// exp -> simple-exp [ (< | =) simple-exp ]
fn parse_expr(t: &[TinyToken], pos: usize) -> (res: Result<(Expr, usize), CompileError>)
    requires
        parsable(t@),
        pos <= t@.len(),
    ensures
        match res {
            Ok((e, q)) => sp_expr(t@, pos as int) == Some((expr_view(e), q as int)) && pos <= q <= t@.len(),
            Err(err) => sp_expr(t@, pos as int) is None && err is Parse,
        },
    decreases t@.len() - pos, 5nat,
{
    let (l, q) = parse_simple_expr(t, pos)?;
    let op = match &peek(t, q).kind {
        TinyTokenKind::Lt => Some(BinOp::Lt),
        TinyTokenKind::Eq => Some(BinOp::Eq),
        _ => None,
    };
    match op {
        None => Ok((l, q)),
        Some(o) => {
            let p1 = advance(t, q);
            let (r, q2) = parse_simple_expr(t, p1)?;
            let ghost lv = expr_view(l);
            let combined = Expr::Binary { op: o, left: Box::new(l), right: Box::new(r) };
            assert(expr_view(combined) == ExprV::Binary(o, Box::new(lv), Box::new(expr_view(r))));
            Ok((combined, q2))
        },
    }
}

/// stmt-sequence -> statement { ; statement }
fn parse_stmt_seq(t: &[TinyToken], pos: usize) -> (res: Result<(Vec<Stmt>, usize), CompileError>)
    requires
        parsable(t@),
        pos <= t@.len(),
    ensures
        match res {
            Ok((v, q)) => sp_stmt_seq(t@, pos as int) == Some((stmts_view(v@), q as int)) && pos <= q <= t@.len(),
            Err(err) => sp_stmt_seq(t@, pos as int) is None && err is Parse,
        },
    decreases t@.len() - pos, 10nat,
{
    let (s0, q) = parse_stmt(t, pos)?;
    let mut stmts: Vec<Stmt> = Vec::new();
    let ghost sv0 = stmt_view(s0);
    stmts.push(s0);
    assert(stmts_view(stmts@) == seq![sv0]) by {
        assert(stmts@.drop_last() =~= Seq::<Stmt>::empty());
        assert(stmts_view(Seq::<Stmt>::empty()) =~= Seq::<StmtV>::empty());
    }
    parse_seq_rest(t, q, stmts)
}

/// The `; statement` repetitions of a statement sequence after `acc`.
fn parse_seq_rest(t: &[TinyToken], pos: usize, acc: Vec<Stmt>) -> (res: Result<(Vec<Stmt>, usize), CompileError>)
    requires
        parsable(t@),
        pos <= t@.len(),
    ensures
        match res {
            Ok((v, q)) => sp_seq_rest(t@, pos as int, stmts_view(acc@)) == Some((stmts_view(v@), q as int)) && pos <= q
                <= t@.len(),
            Err(err) => sp_seq_rest(t@, pos as int, stmts_view(acc@)) is None && err is Parse,
        },
    decreases t@.len() - pos, 9nat,
{
    if !check_simple(t, pos, 6) {
        return Ok((acc, pos));
    }
    let q1 = advance(t, pos);
    let closing = match &peek(t, q1).kind {
        TinyTokenKind::End | TinyTokenKind::Else | TinyTokenKind::Until | TinyTokenKind::Eof => true,
        _ => false,
    };
    if closing {
        return Ok((acc, q1));
    }
    let (s, q2) = parse_stmt(t, q1)?;
    if pos < q2 {
        let mut acc = acc;
        let ghost old_acc = acc@;
        acc.push(s);
        assert(stmts_view(acc@) == stmts_view(old_acc).push(stmt_view(s))) by {
            assert(acc@.drop_last() =~= old_acc);
        }
        parse_seq_rest(t, q2, acc)
    } else {
        proof {
            lemma_stmt_at_end(t@, pos as int);
        }
        Err(found_error("无法解析的语句起始 token: ", t, q1))
    }
}

/// At the end of input, after a `;` as last token, a statement fails.
proof fn lemma_stmt_at_end(t: Seq<TinyToken>, p: int)
    requires
        parsable(t),
        p == t.len(),
        t.last().kind is Semi,
    ensures
        sp_stmt(t, p) is None,
{
}

/// statement -> if-stmt | repeat-stmt | assign-stmt | read-stmt | write-stmt
fn parse_stmt(t: &[TinyToken], pos: usize) -> (res: Result<(Stmt, usize), CompileError>)
    requires
        parsable(t@),
        pos <= t@.len(),
    ensures
        match res {
            Ok((s, q)) => sp_stmt(t@, pos as int) == Some((stmt_view(s), q as int)) && pos <= q <= t@.len(),
            Err(err) => sp_stmt(t@, pos as int) is None && err is Parse,
        },
    decreases t@.len() - pos, 8nat,
{
    match &peek(t, pos).kind {
        TinyTokenKind::If => parse_if(t, pos),
        TinyTokenKind::Repeat => parse_repeat(t, pos),
        TinyTokenKind::Read => parse_read(t, pos),
        TinyTokenKind::Write => parse_write(t, pos),
        TinyTokenKind::Id(_) => parse_assign(t, pos),
        _ => Err(found_error("无法解析的语句起始 token: ", t, pos)),
    }
}

/// if-stmt -> if exp then stmt-sequence [ else stmt-sequence ] end
fn parse_if(t: &[TinyToken], pos: usize) -> (res: Result<(Stmt, usize), CompileError>)
    requires
        parsable(t@),
        pos <= t@.len(),
        kind_at(t@, pos as int) is If,
    ensures
        match res {
            Ok((s, q)) => sp_if(t@, pos as int) == Some((stmt_view(s), q as int)) && pos <= q <= t@.len(),
            Err(err) => sp_if(t@, pos as int) is None && err is Parse,
        },
    decreases t@.len() - pos, 7nat,
{
    let p1 = advance(t, pos);
    let (cond, q) = parse_expr(t, p1)?;
    if !check_simple(t, q, 1) {
        return Err(expect_error(&TinyTokenKind::Then, t, q));
    }
    let q1 = advance(t, q);
    if !(pos < q1) {
        proof {
            lemma_factor_at_end(t@, pos as int);
        }
        return Err(expect_error(&TinyTokenKind::Then, t, q));
    }
    let (then_part, q2) = parse_stmt_seq(t, q1)?;
    if check_simple(t, q2, 2) {
        let q3 = advance(t, q2);
        let (else_part, q4) = parse_stmt_seq(t, q3)?;
        if !check_simple(t, q4, 3) {
            return Err(expect_error(&TinyTokenKind::End, t, q4));
        }
        let ghost cv = expr_view(cond);
        let ghost tv = stmts_view(then_part@);
        let ghost ev = stmts_view(else_part@);
        let st = Stmt::If { cond, then_part, else_part: Some(else_part) };
        assert(stmt_view(st) == StmtV::If(cv, tv, Some(ev)));
        Ok((st, advance(t, q4)))
    } else {
        if !check_simple(t, q2, 3) {
            return Err(expect_error(&TinyTokenKind::End, t, q2));
        }
        let ghost cv = expr_view(cond);
        let ghost tv = stmts_view(then_part@);
        let st = Stmt::If { cond, then_part, else_part: None };
        assert(stmt_view(st) == StmtV::If(cv, tv, None));
        Ok((st, advance(t, q2)))
    }
}

/// repeat-stmt -> repeat stmt-sequence until exp
fn parse_repeat(t: &[TinyToken], pos: usize) -> (res: Result<(Stmt, usize), CompileError>)
    requires
        parsable(t@),
        pos <= t@.len(),
        kind_at(t@, pos as int) is Repeat,
    ensures
        match res {
            Ok((s, q)) => sp_repeat(t@, pos as int) == Some((stmt_view(s), q as int)) && pos <= q <= t@.len(),
            Err(err) => sp_repeat(t@, pos as int) is None && err is Parse,
        },
    decreases t@.len() - pos, 7nat,
{
    let p1 = advance(t, pos);
    let (body, q) = parse_stmt_seq(t, p1)?;
    if !check_simple(t, q, 4) {
        return Err(expect_error(&TinyTokenKind::Until, t, q));
    }
    let q1 = advance(t, q);
    let (until, q2) = parse_expr(t, q1)?;
    let ghost bv = stmts_view(body@);
    let ghost uv = expr_view(until);
    let st = Stmt::Repeat { body, until };
    assert(stmt_view(st) == StmtV::Repeat(bv, uv));
    Ok((st, q2))
}

/// read-stmt -> read ID
fn parse_read(t: &[TinyToken], pos: usize) -> (res: Result<(Stmt, usize), CompileError>)
    requires
        parsable(t@),
        pos <= t@.len(),
        kind_at(t@, pos as int) is Read,
    ensures
        match res {
            Ok((s, q)) => sp_read(t@, pos as int) == Some((stmt_view(s), q as int)) && pos <= q <= t@.len(),
            Err(err) => sp_read(t@, pos as int) is None && err is Parse,
        },
{
    let p1 = advance(t, pos);
    match &peek(t, p1).kind {
        TinyTokenKind::Id(s) => {
            let name = s.clone();
            Ok((Stmt::Read { name }, advance(t, p1)))
        },
        _ => {
            let mut m = String::from_str("read 后应为标识符，但得到 ");
            m.append(kind_debug(&peek(t, p1).kind).as_str());
            Err(CompileError::Parse(m))
        },
    }
}

/// write-stmt -> write exp
fn parse_write(t: &[TinyToken], pos: usize) -> (res: Result<(Stmt, usize), CompileError>)
    requires
        parsable(t@),
        pos <= t@.len(),
        kind_at(t@, pos as int) is Write,
    ensures
        match res {
            Ok((s, q)) => sp_write(t@, pos as int) == Some((stmt_view(s), q as int)) && pos <= q <= t@.len(),
            Err(err) => sp_write(t@, pos as int) is None && err is Parse,
        },
    decreases t@.len() - pos, 7nat,
{
    let p1 = advance(t, pos);
    let (expr, q) = parse_expr(t, p1)?;
    let ghost ev = expr_view(expr);
    let st = Stmt::Write { expr };
    assert(stmt_view(st) == StmtV::Write(ev));
    Ok((st, q))
}

/// assign-stmt -> ID := exp
fn parse_assign(t: &[TinyToken], pos: usize) -> (res: Result<(Stmt, usize), CompileError>)
    requires
        parsable(t@),
        pos <= t@.len(),
        kind_at(t@, pos as int) is Id,
    ensures
        match res {
            Ok((s, q)) => sp_assign(t@, pos as int) == Some((stmt_view(s), q as int)) && pos <= q <= t@.len(),
            Err(err) => sp_assign(t@, pos as int) is None && err is Parse,
        },
    decreases t@.len() - pos, 7nat,
{
    let name = match &peek(t, pos).kind {
        TinyTokenKind::Id(s) => s.clone(),
        _ => String::new(),
    };
    let p1 = advance(t, pos);
    if !check_simple(t, p1, 5) {
        return Err(expect_error(&TinyTokenKind::Assign, t, p1));
    }
    let (expr, q) = parse_expr(t, advance(t, p1))?;
    let ghost ev = expr_view(expr);
    let ghost nv = name@;
    let st = Stmt::Assign { name, expr };
    assert(stmt_view(st) == StmtV::Assign(nv, ev));
    Ok((st, q))
}

/// Parses a whole TINY program: a statement sequence and then `Eof`.
/// Succeeds exactly when the grammar (`sp_program`) accepts the tokens, with
/// the syntax tree it gives; otherwise fails with a parse error.
pub fn parse(tokens: &[TinyToken]) -> (res: Result<Program, CompileError>)
    requires
        parsable(tokens@),
    ensures
        match res {
            Ok(p) => sp_program(tokens@) == Some(stmts_view(p.stmts@)),
            Err(err) => sp_program(tokens@) is None && err is Parse,
        },
{
    let (stmts, q) = parse_stmt_seq(tokens, 0)?;
    if !check_simple(tokens, q, 7) {
        return Err(expect_error(&TinyTokenKind::Eof, tokens, q));
    }
    Ok(Program { stmts })
}

} // verus!
