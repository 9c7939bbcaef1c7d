//! TM code generation for TINY programs. The code of each construct is given
//! by a spec function over the syntax tree; the generator emits it with
//! forward jumps patched in place once their targets are known.
use vstd::prelude::*;
use crate::lab4::ast::{expr_view, stmt_view, stmts_view, BinOp, Expr, ExprV, Program, Stmt, StmtV};
use crate::lab4::error::CompileError;
use crate::text::{int_text, pad_left, pad_right};

verus! {

/// The accumulator register.
pub const AC: i32 = 0;
/// The second accumulator register.
pub const AC1: i32 = 1;
/// The global pointer register.
pub const GP: i32 = 5;
/// The memory pointer register (top of the temporary stack).
pub const MP: i32 = 6;
/// The program counter register.
pub const PC: i32 = 7;

/// The largest code size the generator handles: instruction locations are
/// `i32`, as in the TM machine, and a few are kept in reserve for the
/// back-patched jumps.
pub const CODE_LIMIT: i32 = 2_147_483_000;

/// A TM instruction as plain values: register-only form or not, opcode, the
/// three operands, comment.
pub type InstrV = (bool, Seq<char>, i32, i32, i32, Seq<char>);

/// A register-only instruction `op r,s,t`.
pub open spec fn ro(op: Seq<char>, r: i32, s: i32, t: i32, c: Seq<char>) -> InstrV {
    (true, op, r, s, t, c)
}

/// A register-memory instruction `op r,d(s)`.
pub open spec fn rm(op: Seq<char>, r: i32, d: i32, s: i32, c: Seq<char>) -> InstrV {
    (false, op, r, d, s, c)
}

/// Generator state: variables in order of first use, temporary-stack
/// offset, next code location.
pub type GenSt = (Seq<Seq<char>>, int, int);

/// Position of `name` among `vars`, or -1.
pub open spec fn name_pos(vars: Seq<Seq<char>>, name: Seq<char>) -> int
    decreases vars.len(),
{
    if vars.len() == 0 {
        -1
    } else if vars.last() == name {
        vars.len() - 1
    } else {
        name_pos(vars.drop_last(), name)
    }
}

/// The memory offset of `name`, adding it after the known variables on
/// first use.
pub open spec fn var_off(vars: Seq<Seq<char>>, name: Seq<char>) -> (int, Seq<Seq<char>>) {
    if name_pos(vars, name) >= 0 {
        (name_pos(vars, name), vars)
    } else {
        (vars.len() as int, vars.push(name))
    }
}

/// The comparison tail of a relational operator.
pub open spec fn relop_code(jump: Seq<char>, c: Seq<char>) -> Seq<InstrV> {
    seq![
        ro("SUB"@, AC, AC1, AC, "relop: left - right"@),
        rm(jump, AC, 2, PC, c),
        rm("LDC"@, AC, 0, 0, "relop: false"@),
        rm("LDA"@, PC, 1, PC, "relop: skip true"@),
        rm("LDC"@, AC, 1, 0, "relop: true"@),
    ]
}

/// The instructions that combine the two operands of `op`.
pub open spec fn op_code(op: BinOp) -> Seq<InstrV> {
    match op {
        BinOp::Plus => seq![ro("ADD"@, AC, AC1, AC, "op +"@)],
        BinOp::Minus => seq![ro("SUB"@, AC, AC1, AC, "op -"@)],
        BinOp::Times => seq![ro("MUL"@, AC, AC1, AC, "op *"@)],
        BinOp::Over => seq![ro("DIV"@, AC, AC1, AC, "op /"@)],
        BinOp::Lt => relop_code("JLT"@, "op <"@),
        BinOp::Eq => relop_code("JEQ"@, "op ="@),
    }
}

/// The code of an expression, leaving its value in `AC`, and the state after.
pub open spec fn gen_expr_spec(e: ExprV, g: GenSt) -> (Seq<InstrV>, GenSt)
    decreases e,
{
    match e {
        ExprV::Num(v) => (seq![rm("LDC"@, AC, v as i32, 0, "load const"@)], (g.0, g.1, g.2 + 1)),
        ExprV::Id(n) => {
            let (o, vars2) = var_off(g.0, n);
            (seq![rm("LD"@, AC, o as i32, GP, "load id "@ + n)], (vars2, g.1, g.2 + 1))
        },
        ExprV::Binary(op, l, r) => {
            let (cl, g1) = gen_expr_spec(*l, g);
            let push = rm("ST"@, AC, g1.1 as i32, MP, "op: push left"@);
            let (cr, g3) = gen_expr_spec(*r, (g1.0, g1.1 - 1, g1.2 + 1));
            let pop = rm("LD"@, AC1, (g3.1 + 1) as i32, MP, "op: pop left"@);
            let tail = op_code(op);
            (cl + seq![push] + cr + seq![pop] + tail, (g3.0, g3.1 + 1, g3.2 + 1 + tail.len()))
        },
    }
}

/// The code of a statement, and the state after.
pub open spec fn gen_stmt_spec(s: StmtV, g: GenSt) -> (Seq<InstrV>, GenSt)
    decreases s, 1nat,
{
    match s {
        StmtV::Read(n) => {
            let (o, vars2) = var_off(g.0, n);
            (
                seq![ro("IN"@, AC, 0, 0, "read integer"@), rm("ST"@, AC, o as i32, GP, "store to "@ + n)],
                (vars2, g.1, g.2 + 2),
            )
        },
        StmtV::Write(e) => {
            let (ce, g1) = gen_expr_spec(e, g);
            (ce + seq![ro("OUT"@, AC, 0, 0, "write integer"@)], (g1.0, g1.1, g1.2 + 1))
        },
        StmtV::Assign(n, e) => {
            let (o, vars2) = var_off(g.0, n);
            let (ce, g1) = gen_expr_spec(e, (vars2, g.1, g.2));
            (ce + seq![rm("ST"@, AC, o as i32, GP, "assign to "@ + n)], (g1.0, g1.1, g1.2 + 1))
        },
        StmtV::If(c, th, el) => {
            let (cc, g1) = gen_expr_spec(c, g);
            let saved = g1.2;
            let (ct, g2) = gen_stmts_spec(th, (g1.0, g1.1, saved + 1));
            match el {
                None => {
                    let jeq = rm("JEQ"@, AC, (g2.2 - (saved + 1)) as i32, PC, "if: jump to end"@);
                    (cc + seq![jeq] + ct, g2)
                },
                Some(es) => {
                    let saved2 = g2.2;
                    let (ce, g3) = gen_stmts_spec(es, (g2.0, g2.1, saved2 + 1));
                    let jeq = rm("JEQ"@, AC, (saved2 + 1 - (saved + 1)) as i32, PC, "if: jump to else"@);
                    let lda = rm("LDA"@, PC, (g3.2 - (saved2 + 1)) as i32, PC, "if: jump to end"@);
                    (cc + seq![jeq] + ct + seq![lda] + ce, g3)
                },
            }
        },
        StmtV::Repeat(body, u) => {
            let (cb, g1) = gen_stmts_spec(body, g);
            let (cu, g2) = gen_expr_spec(u, g1);
            let jeq = rm("JEQ"@, AC, (g.2 - (g2.2 + 1)) as i32, PC, "repeat: loop back if false"@);
            (cb + cu + seq![jeq], (g2.0, g2.1, g2.2 + 1))
        },
    }
}

/// The code of a statement sequence, and the state after.
pub open spec fn gen_stmts_spec(v: Seq<StmtV>, g: GenSt) -> (Seq<InstrV>, GenSt)
    decreases v, 0nat,
{
    if v.len() == 0 {
        (Seq::empty(), g)
    } else {
        let (c1, g1) = gen_stmts_spec(v.drop_last(), g);
        let (c2, g2) = gen_stmt_spec(v.last(), g1);
        (c1 + c2, g2)
    }
}

/// The whole TM program for a statement sequence: set-up, the statements,
/// `HALT`.
pub open spec fn program_code(v: Seq<StmtV>) -> Seq<InstrV> {
    let hdr = seq![
        rm("LD"@, MP, 0, 0, "load maxaddress from location 0"@),
        rm("LDC"@, GP, 0, 0, "set GP = 0"@),
        rm("ST"@, AC, 0, 0, "clear location 0"@),
    ];
    let (cs, g1) = gen_stmts_spec(v, (Seq::empty(), 0, 3));
    hdr + cs + seq![ro("HALT"@, 0, 0, 0, "done"@)]
}

/// The code of `e` is at least one instruction; the state moves on by its
/// length, the temporary stack is balanced, and variables are only added,
/// at most one per instruction, never twice.
proof fn lemma_gen_expr(e: ExprV, g: GenSt)
    ensures
        gen_expr_spec(e, g).1.2 == g.2 + gen_expr_spec(e, g).0.len(),
        gen_expr_spec(e, g).1.1 == g.1,
        gen_expr_spec(e, g).0.len() >= 1,
        g.0.len() <= gen_expr_spec(e, g).1.0.len() <= g.0.len() + gen_expr_spec(e, g).0.len(),
        forall|k: int| 0 <= k < g.0.len() ==> gen_expr_spec(e, g).1.0[k] == #[trigger] g.0[k],
        g.0.no_duplicates() ==> gen_expr_spec(e, g).1.0.no_duplicates(),
    decreases e,
{
    match e {
        ExprV::Num(v) => {},
        ExprV::Id(n) => {
            lemma_var_off(g.0, n);
        },
        ExprV::Binary(op, l, r) => {
            lemma_gen_expr(*l, g);
            let (cl, g1) = gen_expr_spec(*l, g);
            lemma_gen_expr(*r, (g1.0, g1.1 - 1, g1.2 + 1));
        },
    }
}

/// `var_off` gives the position of a known name, or appends a new one.
proof fn lemma_var_off(vars: Seq<Seq<char>>, name: Seq<char>)
    ensures
        vars.len() <= var_off(vars, name).1.len() <= vars.len() + 1,
        forall|k: int| 0 <= k < vars.len() ==> var_off(vars, name).1[k] == #[trigger] vars[k],
        vars.no_duplicates() ==> var_off(vars, name).1.no_duplicates(),
        0 <= var_off(vars, name).0 < var_off(vars, name).1.len(),
        var_off(vars, name).1[var_off(vars, name).0] == name,
{
    lemma_name_pos(vars, name);
    if name_pos(vars, name) < 0 {
        let v2 = vars.push(name);
        assert forall|a: int, b: int| vars.no_duplicates() && 0 <= a < b < v2.len() implies v2[a] != v2[b] by {
            if b == vars.len() {
                assert(vars.contains(vars[a]));
            }
        }
    }
}

/// `name_pos` finds a name exactly when it is there.
proof fn lemma_name_pos(vars: Seq<Seq<char>>, name: Seq<char>)
    ensures
        name_pos(vars, name) >= 0 ==> name_pos(vars, name) < vars.len() && vars[name_pos(vars, name)] == name,
        name_pos(vars, name) < 0 ==> !vars.contains(name) && name_pos(vars, name) == -1,
    decreases vars.len(),
{
    if vars.len() > 0 {
        lemma_name_pos(vars.drop_last(), name);
        if vars.last() != name && name_pos(vars, name) < 0 {
            if vars.contains(name) {
                let k = choose|k: int| 0 <= k < vars.len() && vars[k] == name;
                assert(vars.drop_last()[k] == name);
            }
        }
        if vars.last() == name {
            assert(vars[vars.len() - 1] == name);
        }
    }
}

/// The statement counterpart of `lemma_gen_expr` (a statement may be empty
/// only as an empty sequence).
proof fn lemma_gen_stmt(s: StmtV, g: GenSt)
    ensures
        gen_stmt_spec(s, g).1.2 == g.2 + gen_stmt_spec(s, g).0.len(),
        gen_stmt_spec(s, g).1.1 == g.1,
        g.0.len() <= gen_stmt_spec(s, g).1.0.len() <= g.0.len() + gen_stmt_spec(s, g).0.len(),
        forall|k: int| 0 <= k < g.0.len() ==> gen_stmt_spec(s, g).1.0[k] == #[trigger] g.0[k],
        g.0.no_duplicates() ==> gen_stmt_spec(s, g).1.0.no_duplicates(),
    decreases s, 1nat,
{
    match s {
        StmtV::Read(n) => {
            lemma_var_off(g.0, n);
        },
        StmtV::Write(e) => {
            lemma_gen_expr(e, g);
        },
        StmtV::Assign(n, e) => {
            lemma_var_off(g.0, n);
            let (o, vars2) = var_off(g.0, n);
            lemma_gen_expr(e, (vars2, g.1, g.2));
        },
        StmtV::If(c, th, el) => {
            lemma_gen_expr(c, g);
            let (cc, g1) = gen_expr_spec(c, g);
            let saved = g1.2;
            lemma_gen_stmts(th, (g1.0, g1.1, saved + 1));
            let (ct, g2) = gen_stmts_spec(th, (g1.0, g1.1, saved + 1));
            match el {
                None => {},
                Some(es) => {
                    lemma_gen_stmts(es, (g2.0, g2.1, g2.2 + 1));
                },
            }
        },
        StmtV::Repeat(body, u) => {
            lemma_gen_stmts(body, g);
            let (cb, g1) = gen_stmts_spec(body, g);
            lemma_gen_expr(u, g1);
        },
    }
}

proof fn lemma_gen_stmts(v: Seq<StmtV>, g: GenSt)
    ensures
        gen_stmts_spec(v, g).1.2 == g.2 + gen_stmts_spec(v, g).0.len(),
        gen_stmts_spec(v, g).1.1 == g.1,
        g.0.len() <= gen_stmts_spec(v, g).1.0.len() <= g.0.len() + gen_stmts_spec(v, g).0.len(),
        forall|k: int| 0 <= k < g.0.len() ==> gen_stmts_spec(v, g).1.0[k] == #[trigger] g.0[k],
        g.0.no_duplicates() ==> gen_stmts_spec(v, g).1.0.no_duplicates(),
    decreases v, 0nat,
{
    if v.len() > 0 {
        lemma_gen_stmts(v.drop_last(), g);
        let (c1, g1) = gen_stmts_spec(v.drop_last(), g);
        lemma_gen_stmt(v.last(), g1);
    }
}

/// One emitted TM instruction.
pub struct TmInstr {
    pub is_ro: bool,
    pub op: String,
    pub r: i32,
    pub s: i32,
    pub t: i32,
    pub comment: String,
}

impl View for TmInstr {
    type V = InstrV;

    open spec fn view(&self) -> InstrV {
        (self.is_ro, self.op@, self.r, self.s, self.t, self.comment@)
    }
}

/// An emitted slot: an instruction, or a hole left for a forward jump.
pub open spec fn slot_view(o: Option<TmInstr>) -> Option<InstrV> {
    match o {
        Some(i) => Some(i@),
        None => None,
    }
}

/// Instructions as filled slots.
pub open spec fn somes(c: Seq<InstrV>) -> Seq<Option<InstrV>> {
    Seq::new(c.len(), |k: int| Some(c[k]))
}

/// Bounds that keep every number the generator computes for code `n`
/// instructions long, from state `g`, inside `i32`.
pub open spec fn within_budget(g: GenSt, n: int) -> bool {
    &&& 0 <= g.2
    &&& g.2 + n <= CODE_LIMIT
    &&& g.0.len() + n <= CODE_LIMIT
    &&& -CODE_LIMIT <= g.1 - n
    &&& g.1 + n <= CODE_LIMIT
}

/// The code generator: emitted slots, the location written next and the
/// highest location reached, variables and the temporary-stack offset.
struct Generator {
    code: Vec<Option<TmInstr>>,
    emit_loc: i32,
    high_emit_loc: i32,
    vars: Vec<String>,
    next_global: i32,
    tmp_offset: i32,
}

impl Generator {
    /// The emitted slots up to the highest location, holes included.
    spec fn code_v(&self) -> Seq<Option<InstrV>> {
        Seq::new(
            self.high_emit_loc as nat,
            |k: int| if k < self.code@.len() { slot_view(self.code@[k]) } else { None },
        )
    }

    spec fn vars_v(&self) -> Seq<Seq<char>> {
        Seq::new(self.vars@.len(), |k: int| self.vars@[k]@)
    }

    /// The generator state as plain values.
    spec fn st(&self) -> GenSt {
        (self.vars_v(), self.tmp_offset as int, self.emit_loc as int)
    }

    spec fn wf(&self) -> bool {
        &&& 0 <= self.emit_loc <= self.high_emit_loc <= CODE_LIMIT
        &&& self.code@.len() <= self.high_emit_loc
        &&& self.next_global == self.vars@.len()
        &&& self.vars_v().no_duplicates()
    }

    /// Not inside a back-patch: writing goes to the end.
    spec fn normal(&self) -> bool {
        self.wf() && self.emit_loc == self.high_emit_loc
    }

    fn new() -> (g: Generator)
        ensures
            g.normal(),
            g.st() == (Seq::<Seq<char>>::empty(), 0int, 0int),
            g.code_v() == Seq::<Option<InstrV>>::empty(),
    {
        let g = Generator {
            code: Vec::new(),
            emit_loc: 0,
            high_emit_loc: 0,
            vars: Vec::new(),
            next_global: 0,
            tmp_offset: 0,
        };
        assert(g.vars_v() =~= Seq::<Seq<char>>::empty());
        assert(g.code_v() =~= Seq::<Option<InstrV>>::empty());
        g
    }

    /// Writes `i` at the current location, filling any gap with holes.
    fn write_line(&mut self, i: TmInstr)
        requires
            old(self).wf(),
            old(self).emit_loc < CODE_LIMIT,
        ensures
            final(self).wf(),
            final(self).code@.len() >= final(self).emit_loc,
            final(self).emit_loc == old(self).emit_loc + 1,
            final(self).vars_v() == old(self).vars_v(),
            final(self).tmp_offset == old(self).tmp_offset,
            old(self).emit_loc == old(self).high_emit_loc ==> final(self).high_emit_loc == old(self).high_emit_loc + 1
                && final(self).code_v() == old(self).code_v().push(Some(i@)),
            old(self).emit_loc < old(self).high_emit_loc ==> final(self).high_emit_loc == old(self).high_emit_loc
                && final(self).code_v() == old(self).code_v().update(old(self).emit_loc as int, Some(i@)),
    {
        let ghost v0 = self.code_v();
        let ghost iv = i@;
        let loc = self.emit_loc as usize;
        if loc == self.code.len() {
            self.code.push(Some(i));
        } else if loc < self.code.len() {
            self.code.set(loc, Some(i));
        } else {
            while self.code.len() < loc
                invariant
                    self.code@.len() <= loc,
                    loc == self.emit_loc,
                    loc <= self.high_emit_loc <= CODE_LIMIT,
                    0 <= self.emit_loc,
                    self.next_global == self.vars@.len(),
                    self.vars_v().no_duplicates(),
                    self.code_v() == v0,
                    self.vars@ == old(self).vars@,
                    self.tmp_offset == old(self).tmp_offset,
                    self.high_emit_loc == old(self).high_emit_loc,
                decreases loc - self.code@.len(),
            {
                self.code.push(None);
                assert(self.code_v() =~= v0);
            }
            self.code.push(Some(i));
        }
        self.emit_loc = self.emit_loc + 1;
        if self.high_emit_loc < self.emit_loc {
            self.high_emit_loc = self.emit_loc;
        }
        proof {
            if loc as int == v0.len() {
                assert(self.code_v() =~= v0.push(Some(iv)));
            } else {
                assert(self.code_v() =~= v0.update(loc as int, Some(iv)));
            }
        }
    }

    fn emit_ro(&mut self, op: &str, r: i32, s: i32, t: i32, comment: &str)
        requires
            old(self).wf(),
            old(self).emit_loc < CODE_LIMIT,
        ensures
            final(self).wf(),
            final(self).code@.len() >= final(self).emit_loc,
            final(self).emit_loc == old(self).emit_loc + 1,
            final(self).vars_v() == old(self).vars_v(),
            final(self).tmp_offset == old(self).tmp_offset,
            old(self).emit_loc == old(self).high_emit_loc ==> final(self).high_emit_loc == old(self).high_emit_loc + 1
                && final(self).code_v() == old(self).code_v().push(Some(ro(op@, r, s, t, comment@))),
            old(self).emit_loc < old(self).high_emit_loc ==> final(self).high_emit_loc == old(self).high_emit_loc
                && final(self).code_v() == old(self).code_v().update(old(self).emit_loc as int, Some(ro(op@, r, s, t, comment@))),
    {
        self.write_line(TmInstr { is_ro: true, op: String::from_str(op), r, s, t, comment: String::from_str(comment) });
    }

    fn emit_rm(&mut self, op: &str, r: i32, d: i32, s: i32, comment: &str)
        requires
            old(self).wf(),
            old(self).emit_loc < CODE_LIMIT,
        ensures
            final(self).wf(),
            final(self).emit_loc == old(self).emit_loc + 1,
            final(self).vars_v() == old(self).vars_v(),
            final(self).tmp_offset == old(self).tmp_offset,
            old(self).emit_loc == old(self).high_emit_loc ==> final(self).high_emit_loc == old(self).high_emit_loc + 1
                && final(self).code_v() == old(self).code_v().push(Some(rm(op@, r, d, s, comment@))),
            old(self).emit_loc < old(self).high_emit_loc ==> final(self).high_emit_loc == old(self).high_emit_loc
                && final(self).code_v() == old(self).code_v().update(old(self).emit_loc as int, Some(rm(op@, r, d, s, comment@))),
    {
        self.write_line(TmInstr { is_ro: false, op: String::from_str(op), r, s: d, t: s, comment: String::from_str(comment) });
    }

    /// A register-memory instruction addressing absolute location `a`
    /// relative to the program counter.
    fn emit_rm_abs(&mut self, op: &str, r: i32, a: i32, comment: &str)
        requires
            old(self).wf(),
            old(self).emit_loc < CODE_LIMIT,
            0 <= a <= CODE_LIMIT,
        ensures
            final(self).wf(),
            final(self).emit_loc == old(self).emit_loc + 1,
            final(self).vars_v() == old(self).vars_v(),
            final(self).tmp_offset == old(self).tmp_offset,
            old(self).emit_loc == old(self).high_emit_loc ==> final(self).high_emit_loc == old(self).high_emit_loc + 1
                && final(self).code_v() == old(self).code_v().push(
                Some(rm(op@, r, (a - (old(self).emit_loc + 1)) as i32, PC, comment@)),
            ),
            old(self).emit_loc < old(self).high_emit_loc ==> final(self).high_emit_loc == old(self).high_emit_loc
                && final(self).code_v() == old(self).code_v().update(
                old(self).emit_loc as int,
                Some(rm(op@, r, (a - (old(self).emit_loc + 1)) as i32, PC, comment@)),
            ),
    {
        let offset = a - (self.emit_loc + 1);
        self.emit_rm(op, r, offset, PC, comment);
    }

    /// Leaves one hole for a forward jump; returns its location.
    fn emit_skip(&mut self) -> (loc: i32)
        requires
            old(self).normal(),
            old(self).emit_loc < CODE_LIMIT,
        ensures
            final(self).normal(),
            loc == old(self).emit_loc,
            final(self).emit_loc == loc + 1,
            final(self).code_v() == old(self).code_v().push(None),
            final(self).vars_v() == old(self).vars_v(),
            final(self).tmp_offset == old(self).tmp_offset,
    {
        let i = self.emit_loc;
        self.emit_loc = self.emit_loc + 1;
        if self.high_emit_loc < self.emit_loc {
            self.high_emit_loc = self.emit_loc;
        }
        assert(self.code_v() =~= old(self).code_v().push(None));
        i
    }

    /// Moves back to `loc` to patch it.
    fn emit_backup(&mut self, loc: i32)
        requires
            old(self).wf(),
            0 <= loc <= old(self).high_emit_loc,
        ensures
            final(self).wf(),
            final(self).emit_loc == loc,
            final(self).high_emit_loc == old(self).high_emit_loc,
            final(self).code_v() == old(self).code_v(),
            final(self).vars_v() == old(self).vars_v(),
            final(self).tmp_offset == old(self).tmp_offset,
    {
        self.emit_loc = loc;
    }

    /// Returns to the highest location after a patch.
    fn emit_restore(&mut self)
        requires
            old(self).wf(),
        ensures
            final(self).normal(),
            final(self).emit_loc == old(self).high_emit_loc,
            final(self).high_emit_loc == old(self).high_emit_loc,
            final(self).code_v() == old(self).code_v(),
            final(self).vars_v() == old(self).vars_v(),
            final(self).tmp_offset == old(self).tmp_offset,
    {
        self.emit_loc = self.high_emit_loc;
    }

    /// The memory offset of variable `name`, allocating the next one on
    /// first use.
    fn var_offset(&mut self, name: &String) -> (o: i32)
        requires
            old(self).normal(),
            old(self).vars@.len() < CODE_LIMIT,
        ensures
            final(self).normal(),
            (o as int, final(self).vars_v()) == var_off(old(self).vars_v(), name@),
            final(self).code_v() == old(self).code_v(),
            final(self).emit_loc == old(self).emit_loc,
            final(self).tmp_offset == old(self).tmp_offset,
    {
        let ghost vv = self.vars_v();
        proof {
            lemma_name_pos(vv, name@);
            lemma_var_off(vv, name@);
        }
        let mut i: usize = 0;
        while i < self.vars.len()
            invariant
                i <= self.vars@.len(),
                vv == self.vars_v(),
                vv.no_duplicates(),
                forall|k: int| 0 <= k < i ==> vv[k] != name@,
                *self == *old(self),
                old(self).normal(),
                old(self).vars@.len() < CODE_LIMIT,
            decreases self.vars@.len() - i,
        {
            if self.vars[i] == *name {
                proof {
                    assert(vv[i as int] == name@);
                    lemma_name_pos_unique(vv, name@, i as int);
                    assert(self.normal());
                    assert(i < CODE_LIMIT);
                    assert(var_off(vv, name@) == (i as int, vv));
                }
                return i as i32;
            }
            i = i + 1;
        }
        proof {
            assert(!vv.contains(name@)) by {
                if vv.contains(name@) {
                    let k = choose|k: int| 0 <= k < vv.len() && vv[k] == name@;
                    assert(vv[k] != name@);
                }
            }
        }
        let o = self.next_global;
        self.next_global = self.next_global + 1;
        self.vars.push(name.clone());
        assert(self.vars_v() =~= vv.push(name@));
        o
    }
}

/// In a sequence without repeats, a name found at `i` is at `name_pos`.
proof fn lemma_name_pos_unique(vars: Seq<Seq<char>>, name: Seq<char>, i: int)
    requires
        vars.no_duplicates(),
        0 <= i < vars.len(),
        vars[i] == name,
    ensures
        name_pos(vars, name) == i,
{
    lemma_name_pos(vars, name);
}

/// The code of a prefix of a statement sequence is no longer than the code
/// of the whole sequence.
proof fn lemma_gen_stmts_mono(v: Seq<StmtV>, g: GenSt, i: int)
    requires
        0 <= i <= v.len(),
    ensures
        gen_stmts_spec(v.subrange(0, i), g).0.len() <= gen_stmts_spec(v, g).0.len(),
    decreases v.len(),
{
    if i < v.len() {
        lemma_gen_stmts_mono(v.drop_last(), g, i);
        assert(v.drop_last().subrange(0, i) =~= v.subrange(0, i));
        let (c1, g1) = gen_stmts_spec(v.drop_last(), g);
        lemma_gen_stmt(v.last(), g1);
    } else {
        assert(v.subrange(0, i) =~= v);
    }
}

/// Viewing a statement sequence extended by one statement.
proof fn lemma_stmts_view_push(v: Seq<Stmt>, s: Stmt)
    ensures
        stmts_view(v.push(s)) == stmts_view(v).push(stmt_view(s)),
{
    assert(v.push(s).drop_last() =~= v);
}

impl Generator {
    fn push_tmp(&mut self, cmt: &str)
        requires
            old(self).normal(),
            old(self).emit_loc < CODE_LIMIT,
            old(self).tmp_offset > -CODE_LIMIT,
        ensures
            final(self).normal(),
            final(self).emit_loc == old(self).emit_loc + 1,
            final(self).tmp_offset == old(self).tmp_offset - 1,
            final(self).vars_v() == old(self).vars_v(),
            final(self).code_v() == old(self).code_v().push(Some(rm("ST"@, AC, old(self).tmp_offset, MP, cmt@))),
    {
        let off = self.tmp_offset;
        self.emit_rm("ST", AC, off, MP, cmt);
        self.tmp_offset = self.tmp_offset - 1;
    }

    fn pop_to_ac1(&mut self, cmt: &str)
        requires
            old(self).normal(),
            old(self).emit_loc < CODE_LIMIT,
            old(self).tmp_offset < CODE_LIMIT,
        ensures
            final(self).normal(),
            final(self).emit_loc == old(self).emit_loc + 1,
            final(self).tmp_offset == old(self).tmp_offset + 1,
            final(self).vars_v() == old(self).vars_v(),
            final(self).code_v() == old(self).code_v().push(Some(rm("LD"@, AC1, (old(self).tmp_offset + 1) as i32, MP, cmt@))),
    {
        self.tmp_offset = self.tmp_offset + 1;
        let off = self.tmp_offset;
        self.emit_rm("LD", AC1, off, MP, cmt);
    }

    fn gen_relop(&mut self, jump_op: &str, cmt: &str)
        requires
            old(self).normal(),
            old(self).emit_loc + 5 <= CODE_LIMIT,
        ensures
            final(self).normal(),
            final(self).emit_loc == old(self).emit_loc + 5,
            final(self).tmp_offset == old(self).tmp_offset,
            final(self).vars_v() == old(self).vars_v(),
            final(self).code_v() == old(self).code_v() + somes(relop_code(jump_op@, cmt@)),
    {
        let ghost c0 = self.code_v();
        self.emit_ro("SUB", AC, AC1, AC, "relop: left - right");
        self.emit_rm(jump_op, AC, 2, PC, cmt);
        self.emit_rm("LDC", AC, 0, 0, "relop: false");
        self.emit_rm("LDA", PC, 1, PC, "relop: skip true");
        self.emit_rm("LDC", AC, 1, 0, "relop: true");
        assert(self.code_v() =~= c0 + somes(relop_code(jump_op@, cmt@)));
    }

    /// Emits the code of `expr`, which leaves its value in `AC`.
    fn gen_expr(&mut self, expr: &Expr)
        requires
            old(self).normal(),
            within_budget(old(self).st(), gen_expr_spec(expr_view(*expr), old(self).st()).0.len() as int),
        ensures
            final(self).normal(),
            final(self).st() == gen_expr_spec(expr_view(*expr), old(self).st()).1,
            final(self).code_v() == old(self).code_v() + somes(gen_expr_spec(expr_view(*expr), old(self).st()).0),
        decreases expr,
    {
        let ghost g = self.st();
        let ghost c0 = self.code_v();
        proof {
            lemma_gen_expr(expr_view(*expr), g);
        }
        match expr {
            Expr::Num(v) => {
                self.emit_rm("LDC", AC, *v as i32, 0, "load const");
                assert(self.code_v() =~= c0 + somes(gen_expr_spec(expr_view(*expr), g).0));
            },
            Expr::Id(name) => {
                let o = self.var_offset(name);
                let mut c = String::from_str("load id ");
                c.append(name.as_str());
                self.emit_rm("LD", AC, o, GP, c.as_str());
                assert(self.code_v() =~= c0 + somes(gen_expr_spec(expr_view(*expr), g).0));
            },
            Expr::Binary { op, left, right } => {
                let ghost lv = expr_view(**left);
                let ghost rv = expr_view(**right);
                proof {
                    lemma_gen_expr(lv, g);
                }
                self.gen_expr(left);
                let ghost g1 = self.st();
                let ghost c1 = self.code_v();
                self.push_tmp("op: push left");
                proof {
                    lemma_gen_expr(rv, (g1.0, g1.1 - 1, g1.2 + 1));
                }
                self.gen_expr(right);
                let ghost c3 = self.code_v();
                self.pop_to_ac1("op: pop left");
                let ghost c4 = self.code_v();
                match op {
                    BinOp::Plus => self.emit_ro("ADD", AC, AC1, AC, "op +"),
                    BinOp::Minus => self.emit_ro("SUB", AC, AC1, AC, "op -"),
                    BinOp::Times => self.emit_ro("MUL", AC, AC1, AC, "op *"),
                    BinOp::Over => self.emit_ro("DIV", AC, AC1, AC, "op /"),
                    BinOp::Lt => self.gen_relop("JLT", "op <"),
                    BinOp::Eq => self.gen_relop("JEQ", "op ="),
                }
                proof {
                    let (cl, gl) = gen_expr_spec(lv, g);
                    let (cr, gr) = gen_expr_spec(rv, (gl.0, gl.1 - 1, gl.2 + 1));
                    assert(self.code_v() =~= c4 + somes(op_code(*op)));
                    assert(self.code_v() =~= c0 + somes(gen_expr_spec(expr_view(*expr), g).0));
                }
            },
        }
    }
}

impl Generator {
    /// Emits the code of a statement sequence.
    fn gen_stmts(&mut self, v: &Vec<Stmt>)
        requires
            old(self).normal(),
            within_budget(old(self).st(), gen_stmts_spec(stmts_view(v@), old(self).st()).0.len() as int),
        ensures
            final(self).normal(),
            final(self).st() == gen_stmts_spec(stmts_view(v@), old(self).st()).1,
            final(self).code_v() == old(self).code_v() + somes(gen_stmts_spec(stmts_view(v@), old(self).st()).0),
        decreases v@, 0nat,
    {
        let ghost g0 = self.st();
        let ghost c0 = self.code_v();
        let ghost total = gen_stmts_spec(stmts_view(v@), g0).0.len();
        proof {
            assert(v@.subrange(0, 0) =~= Seq::<Stmt>::empty());
            assert(stmts_view(Seq::<Stmt>::empty()) =~= Seq::<StmtV>::empty());
            assert(c0 + somes(Seq::<InstrV>::empty()) =~= c0);
        }
        let mut i: usize = 0;
        while i < v.len()
            invariant
                i <= v@.len(),
                self.normal(),
                total == gen_stmts_spec(stmts_view(v@), g0).0.len(),
                within_budget(g0, total as int),
                self.st() == gen_stmts_spec(stmts_view(v@.subrange(0, i as int)), g0).1,
                self.code_v() == c0 + somes(gen_stmts_spec(stmts_view(v@.subrange(0, i as int)), g0).0),
            decreases v@.len() - i,
        {
            let ghost pre = stmts_view(v@.subrange(0, i as int));
            let ghost (cp, gp) = gen_stmts_spec(pre, g0);
            let ghost sv = stmt_view(v@[i as int]);
            proof {
                assert(v@.subrange(0, i + 1) =~= v@.subrange(0, i as int).push(v@[i as int]));
                lemma_stmts_view_push(v@.subrange(0, i as int), v@[i as int]);
                assert(stmts_view(v@.subrange(0, i + 1)).drop_last() =~= pre);
                lemma_gen_stmts(pre, g0);
                lemma_gen_stmt(sv, gp);
                lemma_stmts_view_prefix(v@, i + 1);
                lemma_gen_stmts_mono(stmts_view(v@), g0, i + 1);
            }
            self.gen_stmt(&v[i]);
            proof {
                let (cs, gs) = gen_stmt_spec(sv, gp);
                assert(self.code_v() =~= c0 + somes(cp + cs));
            }
            i = i + 1;
        }
        assert(v@.subrange(0, i as int) =~= v@);
    }

    /// Emits the code of a statement.
    fn gen_stmt(&mut self, stmt: &Stmt)
        requires
            old(self).normal(),
            within_budget(old(self).st(), gen_stmt_spec(stmt_view(*stmt), old(self).st()).0.len() as int),
        ensures
            final(self).normal(),
            final(self).st() == gen_stmt_spec(stmt_view(*stmt), old(self).st()).1,
            final(self).code_v() == old(self).code_v() + somes(gen_stmt_spec(stmt_view(*stmt), old(self).st()).0),
        decreases stmt, 1nat,
    {
        let ghost g = self.st();
        let ghost c0 = self.code_v();
        proof {
            lemma_gen_stmt(stmt_view(*stmt), g);
        }
        match stmt {
            Stmt::Read { name } => {
                let o = self.var_offset(name);
                self.emit_ro("IN", AC, 0, 0, "read integer");
                let mut c = String::from_str("store to ");
                c.append(name.as_str());
                self.emit_rm("ST", AC, o, GP, c.as_str());
                assert(self.code_v() =~= c0 + somes(gen_stmt_spec(stmt_view(*stmt), g).0));
            },
            Stmt::Write { expr } => {
                proof {
                    lemma_gen_expr(expr_view(*expr), g);
                }
                self.gen_expr(expr);
                let ghost c1 = self.code_v();
                self.emit_ro("OUT", AC, 0, 0, "write integer");
                assert(self.code_v() =~= c0 + somes(gen_stmt_spec(stmt_view(*stmt), g).0));
            },
            Stmt::Assign { name, expr } => {
                proof {
                    lemma_var_off(g.0, name@);
                }
                let o = self.var_offset(name);
                proof {
                    lemma_gen_expr(expr_view(*expr), self.st());
                }
                self.gen_expr(expr);
                let mut c = String::from_str("assign to ");
                c.append(name.as_str());
                self.emit_rm("ST", AC, o, GP, c.as_str());
                assert(self.code_v() =~= c0 + somes(gen_stmt_spec(stmt_view(*stmt), g).0));
            },
            Stmt::If { .. } => {
                self.gen_if(stmt);
            },
            Stmt::Repeat { .. } => {
                self.gen_repeat(stmt);
            },
        }
    }

    /// Emits `if`: the condition, a hole for the jump past the then-part,
    /// the then-part, and with an else-part a hole for the jump past it;
    /// the holes are patched once their targets are known.
    fn gen_if(&mut self, stmt: &Stmt)
        requires
            old(self).normal(),
            stmt is If,
            within_budget(old(self).st(), gen_stmt_spec(stmt_view(*stmt), old(self).st()).0.len() as int),
        ensures
            final(self).normal(),
            final(self).st() == gen_stmt_spec(stmt_view(*stmt), old(self).st()).1,
            final(self).code_v() == old(self).code_v() + somes(gen_stmt_spec(stmt_view(*stmt), old(self).st()).0),
        decreases stmt, 0nat,
    {
        let (cond, then_part, else_part) = match stmt {
            Stmt::If { cond, then_part, else_part } => (cond, then_part, else_part),
            _ => {
                return;
            },
        };
        let ghost g = self.st();
        let ghost c0 = self.code_v();
        let ghost cv = expr_view(*cond);
        let ghost tv = stmts_view(then_part@);
        proof {
            lemma_gen_expr(cv, g);
        }
        self.gen_expr(cond);
        let ghost g1 = self.st();
        let ghost c1 = self.code_v();
        let saved = self.emit_skip();
        proof {
            lemma_gen_stmts(tv, (g1.0, g1.1, saved + 1));
        }
        self.gen_stmts(then_part);
        let ghost g2 = self.st();
        let ghost c2 = self.code_v();
        match else_part {
            Some(else_stmts) => {
                let ghost ev = stmts_view(else_stmts@);
                let saved_end = self.emit_skip();
                let else_start = self.emit_loc;
                self.emit_backup(saved);
                self.emit_rm_abs("JEQ", AC, else_start, "if: jump to else");
                self.emit_restore();
                let ghost c3 = self.code_v();
                proof {
                    lemma_gen_stmts(ev, (g2.0, g2.1, g2.2 + 1));
                }
                self.gen_stmts(else_stmts);
                let end = self.emit_loc;
                self.emit_backup(saved_end);
                self.emit_rm_abs("LDA", PC, end, "if: jump to end");
                self.emit_restore();
                proof {
                    let (ct, gt) = gen_stmts_spec(tv, (g1.0, g1.1, saved + 1));
                    let (ce, ge) = gen_stmts_spec(ev, (gt.0, gt.1, gt.2 + 1));
                    let s = StmtV::If(cv, tv, Some(ev));
                    assert(self.code_v() =~= c0 + somes(gen_stmt_spec(s, g).0));
                }
            },
            None => {
                let end = self.emit_loc;
                self.emit_backup(saved);
                self.emit_rm_abs("JEQ", AC, end, "if: jump to end");
                self.emit_restore();
                proof {
                    let s = StmtV::If(cv, tv, None);
                    assert(self.code_v() =~= c0 + somes(gen_stmt_spec(s, g).0));
                }
            },
        }
    }

    /// Emits `repeat`: the body, the condition, and a jump back to the body
    /// while the condition is false.
    fn gen_repeat(&mut self, stmt: &Stmt)
        requires
            old(self).normal(),
            stmt is Repeat,
            within_budget(old(self).st(), gen_stmt_spec(stmt_view(*stmt), old(self).st()).0.len() as int),
        ensures
            final(self).normal(),
            final(self).st() == gen_stmt_spec(stmt_view(*stmt), old(self).st()).1,
            final(self).code_v() == old(self).code_v() + somes(gen_stmt_spec(stmt_view(*stmt), old(self).st()).0),
        decreases stmt, 0nat,
    {
        let (body, until) = match stmt {
            Stmt::Repeat { body, until } => (body, until),
            _ => {
                return;
            },
        };
        let ghost g = self.st();
        let ghost c0 = self.code_v();
        let ghost bv = stmts_view(body@);
        let ghost uv = expr_view(*until);
        let start = self.emit_loc;
        proof {
            lemma_gen_stmts(bv, g);
        }
        self.gen_stmts(body);
        let ghost g1 = self.st();
        proof {
            lemma_gen_expr(uv, g1);
        }
        self.gen_expr(until);
        self.emit_rm_abs("JEQ", AC, start, "repeat: loop back if false");
        assert(self.code_v() =~= c0 + somes(gen_stmt_spec(StmtV::Repeat(bv, uv), g).0));
    }
}

/// The view of a prefix of a statement sequence is the prefix of its view.
proof fn lemma_stmts_view_prefix(v: Seq<Stmt>, i: int)
    requires
        0 <= i <= v.len(),
    ensures
        stmts_view(v).subrange(0, i) == stmts_view(v.subrange(0, i)),
        stmts_view(v).len() == v.len(),
    decreases v.len(),
{
    if v.len() > 0 {
        lemma_stmts_view_prefix(v.drop_last(), if i < v.len() { i } else { v.len() - 1 });
        if i < v.len() {
            assert(v.drop_last().subrange(0, i) =~= v.subrange(0, i));
        } else {
            assert(v.subrange(0, i) =~= v);
            assert(v.drop_last().subrange(0, v.len() - 1) =~= v.drop_last());
        }
        assert(stmts_view(v).subrange(0, i) =~= stmts_view(v.subrange(0, i)));
    } else {
        assert(v.subrange(0, i) =~= v);
    }
}

/// The text of a register-only instruction line at location `loc`: the
/// location right-aligned to 3, `:  `, the opcode left-aligned to 5, the
/// registers, a tab and the comment.
pub open spec fn ro_line_text(loc: i32, op: Seq<char>, r: i32, s: i32, t: i32, comment: Seq<char>) -> Seq<char> {
    pad_left(int_text(loc as int), 3) + ":  "@ + pad_right(op, 5) + " "@ + int_text(r as int) + ","@ + int_text(s as int) + ","@
        + int_text(t as int) + "\t* "@ + comment
}

/// The text of a register-memory instruction line at location `loc`.
pub open spec fn rm_line_text(loc: i32, op: Seq<char>, r: i32, d: i32, s: i32, comment: Seq<char>) -> Seq<char> {
    pad_left(int_text(loc as int), 3) + ":  "@ + pad_right(op, 5) + " "@ + int_text(r as int) + ","@ + int_text(d as int) + "("@
        + int_text(s as int) + ")"@ + "\t* "@ + comment
}

/// `format!("{:>3}:  {:<5} {},{},{}\t* {}", ..)`: a register-only line.
#[verifier::external_body]
fn format_ro(loc: i32, op: &str, r: i32, s: i32, t: i32, comment: &str) -> (res: String)
    ensures
        res@ == ro_line_text(loc, op@, r, s, t, comment@),
{
    format!("{:>3}:  {:<5} {},{},{}\t* {}", loc, op, r, s, t, comment)
}

/// `format!("{:>3}:  {:<5} {},{}({})\t* {}", ..)`: a register-memory line.
#[verifier::external_body]
fn format_rm(loc: i32, op: &str, r: i32, d: i32, s: i32, comment: &str) -> (res: String)
    ensures
        res@ == rm_line_text(loc, op@, r, d, s, comment@),
{
    format!("{:>3}:  {:<5} {},{}({})\t* {}", loc, op, r, d, s, comment)
}

/// The text of instruction `i` at location `loc`.
pub open spec fn line_text(loc: int, i: InstrV) -> Seq<char> {
    if i.0 {
        ro_line_text(loc as i32, i.1, i.2, i.3, i.4, i.5)
    } else {
        rm_line_text(loc as i32, i.1, i.2, i.3, i.4, i.5)
    }
}

/// The lines of a code listing, each followed by a newline.
pub open spec fn listing(code: Seq<InstrV>, n: int) -> Seq<char>
    decreases n,
{
    if n <= 0 {
        Seq::empty()
    } else {
        listing(code, n - 1) + line_text(n - 1, code[n - 1]) + seq!['\n']
    }
}

/// The TM assembly text of a TINY program.
pub open spec fn tm_text(v: Seq<StmtV>) -> Seq<char> {
    listing(program_code(v), program_code(v).len() as int)
}

/// Generates TM assembly for `program`: the set-up instructions, the code of
/// each statement, `HALT`, one numbered line each. Fails with a code
/// generation error only for programs of more than `CODE_LIMIT`
/// instructions.
pub fn generate_tm(program: &Program) -> (res: Result<String, CompileError>)
    ensures
        program_code(stmts_view(program.stmts@)).len() <= CODE_LIMIT ==> (res matches Ok(text) && text@ == tm_text(
            stmts_view(program.stmts@),
        )),
        program_code(stmts_view(program.stmts@)).len() > CODE_LIMIT ==> (res matches Err(e) && e is Codegen && e->Codegen_0@
            == "program too large"@),
{
    let ghost sv = stmts_view(program.stmts@);
    let size = stmts_size_capped(&program.stmts);
    proof {
        lemma_stmts_size(sv, (Seq::empty(), 0, 3));
    }
    if size > (CODE_LIMIT - 4) as u64 {
        return Err(CompileError::Codegen(String::from_str("program too large")));
    }
    let mut generator = Generator::new();
    generator.emit_rm("LD", MP, 0, 0, "load maxaddress from location 0");
    generator.emit_rm("LDC", GP, 0, 0, "set GP = 0");
    generator.emit_rm("ST", AC, 0, 0, "clear location 0");
    proof {
        lemma_gen_stmts(sv, (Seq::empty(), 0, 3));
        assert(generator.vars_v() =~= Seq::<Seq<char>>::empty());
    }
    generator.gen_stmts(&program.stmts);
    generator.emit_ro("HALT", 0, 0, 0, "done");
    let ghost full = program_code(sv);
    assert(generator.code_v() =~= somes(full));
    Ok(generator.finish(Ghost(full)))
}

impl Generator {
    /// The listing of the emitted code.
    fn finish(self, Ghost(full): Ghost<Seq<InstrV>>) -> (text: String)
        requires
            self.normal(),
            self.code@.len() == self.high_emit_loc,
            self.code_v() == somes(full),
        ensures
            text@ == listing(full, full.len() as int),
    {
        let mut out = String::new();
        let n = self.code.len();
        assert(n == full.len()) by {
            assert(self.code_v().len() == self.high_emit_loc);
        }
        assert(out@ =~= listing(full, 0));
        let mut k: usize = 0;
        while k < n
            invariant
                k <= n,
                n == self.code@.len(),
                n == full.len(),
                n <= CODE_LIMIT,
                self.code_v() == somes(full),
                self.high_emit_loc == n,
                out@ == listing(full, k as int),
            decreases n - k,
        {
            assert(self.code_v()[k as int] == Some(full[k as int]));
            assert(slot_view(self.code@[k as int]) == Some(full[k as int]));
            let ghost before = out@;
            match &self.code[k] {
                Some(i) => {
                    let line = if i.is_ro {
                        format_ro(k as i32, i.op.as_str(), i.r, i.s, i.t, i.comment.as_str())
                    } else {
                        format_rm(k as i32, i.op.as_str(), i.r, i.s, i.t, i.comment.as_str())
                    };
                    out.append(line.as_str());
                },
                None => {},
            }
            out.append("\n");
            proof {
                reveal_strlit("\n");
                assert(out@ =~= listing(full, k + 1));
            }
            k = k + 1;
        }
        out
    }
}

/// The number of instructions of an expression's code.
pub open spec fn expr_size(e: ExprV) -> int
    decreases e,
{
    match e {
        ExprV::Num(_) => 1,
        ExprV::Id(_) => 1,
        ExprV::Binary(op, l, r) => expr_size(*l) + expr_size(*r) + 2 + op_code(op).len(),
    }
}

/// The number of instructions of a statement's code.
pub open spec fn stmt_size(s: StmtV) -> int
    decreases s, 1nat,
{
    match s {
        StmtV::Read(_) => 2,
        StmtV::Write(e) => expr_size(e) + 1,
        StmtV::Assign(_, e) => expr_size(e) + 1,
        StmtV::If(c, th, el) => expr_size(c) + 1 + stmts_size(th) + match el {
            Some(es) => 1 + stmts_size(es),
            None => 0,
        },
        StmtV::Repeat(b, u) => stmts_size(b) + expr_size(u) + 1,
    }
}

/// The number of instructions of a statement sequence's code.
pub open spec fn stmts_size(v: Seq<StmtV>) -> int
    decreases v, 0nat,
{
    if v.len() == 0 {
        0
    } else {
        stmts_size(v.drop_last()) + stmt_size(v.last())
    }
}

proof fn lemma_expr_size(e: ExprV, g: GenSt)
    ensures
        gen_expr_spec(e, g).0.len() == expr_size(e),
    decreases e,
{
    match e {
        ExprV::Binary(op, l, r) => {
            lemma_expr_size(*l, g);
            let (cl, g1) = gen_expr_spec(*l, g);
            lemma_expr_size(*r, (g1.0, g1.1 - 1, g1.2 + 1));
        },
        _ => {},
    }
}

proof fn lemma_stmt_size(s: StmtV, g: GenSt)
    ensures
        gen_stmt_spec(s, g).0.len() == stmt_size(s),
    decreases s, 1nat,
{
    match s {
        StmtV::Write(e) => {
            lemma_expr_size(e, g);
        },
        StmtV::Assign(n, e) => {
            let (o, vars2) = var_off(g.0, n);
            lemma_expr_size(e, (vars2, g.1, g.2));
        },
        StmtV::If(c, th, el) => {
            lemma_expr_size(c, g);
            let (cc, g1) = gen_expr_spec(c, g);
            lemma_stmts_size(th, (g1.0, g1.1, g1.2 + 1));
            let (ct, g2) = gen_stmts_spec(th, (g1.0, g1.1, g1.2 + 1));
            match el {
                Some(es) => {
                    lemma_stmts_size(es, (g2.0, g2.1, g2.2 + 1));
                },
                None => {},
            }
        },
        StmtV::Repeat(b, u) => {
            lemma_stmts_size(b, g);
            let (cb, g1) = gen_stmts_spec(b, g);
            lemma_expr_size(u, g1);
        },
        _ => {},
    }
}

proof fn lemma_stmts_size(v: Seq<StmtV>, g: GenSt)
    ensures
        gen_stmts_spec(v, g).0.len() == stmts_size(v),
    decreases v, 0nat,
{
    if v.len() > 0 {
        lemma_stmts_size(v.drop_last(), g);
        let (c1, g1) = gen_stmts_spec(v.drop_last(), g);
        lemma_stmt_size(v.last(), g1);
    }
}

/// The size of an expression's code, capped just above `CODE_LIMIT`.
fn expr_size_capped(e: &Expr) -> (n: u64)
    ensures
        n == if expr_size(expr_view(*e)) > CODE_LIMIT { CODE_LIMIT + 1 } else { expr_size(expr_view(*e)) },
        expr_size(expr_view(*e)) >= 1,
    decreases e,
{
    match e {
        Expr::Num(_) => 1,
        Expr::Id(_) => 1,
        Expr::Binary { op, left, right } => {
            let a = expr_size_capped(left);
            let b = expr_size_capped(right);
            let k: u64 = match op {
                BinOp::Lt => 5,
                BinOp::Eq => 5,
                _ => 1,
            };
            let total = a + b + 2 + k;
            if total > CODE_LIMIT as u64 {
                (CODE_LIMIT + 1) as u64
            } else {
                total
            }
        },
    }
}

/// The size of a statement's code, capped just above `CODE_LIMIT`.
fn stmt_size_capped(s: &Stmt) -> (n: u64)
    ensures
        n == if stmt_size(stmt_view(*s)) > CODE_LIMIT { CODE_LIMIT + 1 } else { stmt_size(stmt_view(*s)) },
        stmt_size(stmt_view(*s)) >= 0,
    decreases s, 1nat,
{
    let total: u64 = match s {
        Stmt::Read { .. } => 2,
        Stmt::Write { expr } => expr_size_capped(expr) + 1,
        Stmt::Assign { expr, .. } => expr_size_capped(expr) + 1,
        Stmt::If { cond, then_part, else_part } => {
            let a = expr_size_capped(cond);
            let b = stmts_size_capped(then_part);
            let c = match else_part {
                Some(es) => 1 + stmts_size_capped(es),
                None => 0,
            };
            a + 1 + b + c
        },
        Stmt::Repeat { body, until } => stmts_size_capped(body) + expr_size_capped(until) + 1,
    };
    if total > CODE_LIMIT as u64 {
        (CODE_LIMIT + 1) as u64
    } else {
        total
    }
}

/// The size of a statement sequence's code, capped just above `CODE_LIMIT`.
fn stmts_size_capped(v: &Vec<Stmt>) -> (n: u64)
    ensures
        n == if stmts_size(stmts_view(v@)) > CODE_LIMIT { CODE_LIMIT + 1 } else { stmts_size(stmts_view(v@)) },
        stmts_size(stmts_view(v@)) >= 0,
    decreases v@, 0nat,
{
    let mut total: u64 = 0;
    let mut i: usize = 0;
    proof {
        assert(v@.subrange(0, 0) =~= Seq::<Stmt>::empty());
        assert(stmts_view(Seq::<Stmt>::empty()) =~= Seq::<StmtV>::empty());
    }
    while i < v.len()
        invariant
            i <= v@.len(),
            total == if stmts_size(stmts_view(v@.subrange(0, i as int))) > CODE_LIMIT {
                CODE_LIMIT + 1
            } else {
                stmts_size(stmts_view(v@.subrange(0, i as int)))
            },
            stmts_size(stmts_view(v@.subrange(0, i as int))) >= 0,
        decreases v@.len() - i,
    {
        proof {
            assert(v@.subrange(0, i + 1) =~= v@.subrange(0, i as int).push(v@[i as int]));
            lemma_stmts_view_push(v@.subrange(0, i as int), v@[i as int]);
            assert(stmts_view(v@.subrange(0, i + 1)).drop_last() =~= stmts_view(v@.subrange(0, i as int)));
        }
        let k = stmt_size_capped(&v[i]);
        let sum = total + k;
        total = if sum > CODE_LIMIT as u64 {
            (CODE_LIMIT + 1) as u64
        } else {
            sum
        };
        i = i + 1;
    }
    assert(v@.subrange(0, i as int) =~= v@);
    total
}

} // verus!
