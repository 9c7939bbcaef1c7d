//! The meaning of TM code: a model of the TM machine's registers and data
//! memory, and what the code generated for an arithmetic expression computes
//! when the machine runs it.
use vstd::prelude::*;
use crate::lab4::ast::{BinOp, ExprV, StmtV};
use crate::lab4::codegen::{gen_expr_spec, gen_stmt_spec, gen_stmts_spec, name_pos, op_code, relop_code, ro, rm, var_off, GenSt, InstrV, AC, AC1, GP, MP, PC};

verus! {

/// Integer division rounding towards zero, as the TM machine divides.
pub open spec fn trunc_div(a: int, b: int) -> int {
    let q = (if a < 0 { -a } else { a }) / (if b < 0 { -b } else { b });
    if (a < 0) != (b < 0) {
        -q
    } else {
        q
    }
}

/// The data memory after writing `v` at address `addr`.
pub open spec fn mem_write(mem: spec_fn(int) -> int, addr: int, v: int) -> spec_fn(int) -> int {
    |x: int| if x == addr { v } else { mem(x) }
}

/// One TM instruction on registers `regs` and data memory `mem`:
/// `ADD`/`SUB`/`MUL`/`DIV r,s,t` set `reg[r]` to `reg[s] op reg[t]`;
/// `LD r,d(s)` loads `mem[d + reg[s]]`, `ST r,d(s)` stores `reg[r]` there,
/// `LDA r,d(s)` sets `reg[r]` to `d + reg[s]`, `LDC r,d(s)` sets it to `d`.
/// Other instructions leave both as they are.
pub open spec fn tm_step(i: InstrV, regs: Seq<int>, mem: spec_fn(int) -> int) -> (Seq<int>, spec_fn(int) -> int) {
    if i.0 {
        let a = regs[i.3 as int];
        let b = regs[i.4 as int];
        if i.1 == "ADD"@ {
            (regs.update(i.2 as int, a + b), mem)
        } else if i.1 == "SUB"@ {
            (regs.update(i.2 as int, a - b), mem)
        } else if i.1 == "MUL"@ {
            (regs.update(i.2 as int, a * b), mem)
        } else if i.1 == "DIV"@ {
            (regs.update(i.2 as int, trunc_div(a, b)), mem)
        } else {
            (regs, mem)
        }
    } else {
        let addr = i.3 + regs[i.4 as int];
        if i.1 == "LD"@ {
            (regs.update(i.2 as int, mem(addr)), mem)
        } else if i.1 == "ST"@ {
            (regs, mem_write(mem, addr, regs[i.2 as int]))
        } else if i.1 == "LDA"@ {
            (regs.update(i.2 as int, addr), mem)
        } else if i.1 == "LDC"@ {
            (regs.update(i.2 as int, i.3 as int), mem)
        } else {
            (regs, mem)
        }
    }
}

/// Straight-line code run from the first instruction to the last.
pub open spec fn tm_run(code: Seq<InstrV>, regs: Seq<int>, mem: spec_fn(int) -> int) -> (Seq<int>, spec_fn(int) -> int)
    decreases code.len(),
{
    if code.len() == 0 {
        (regs, mem)
    } else {
        let s = tm_run(code.drop_last(), regs, mem);
        tm_step(code.last(), s.0, s.1)
    }
}

/// Built from numbers, variables, `+`, `-`, `*` and `/` only.
pub open spec fn arith(e: ExprV) -> bool
    decreases e,
{
    match e {
        ExprV::Num(_) => true,
        ExprV::Id(_) => true,
        ExprV::Binary(op, l, r) => (op is Plus || op is Minus || op is Times || op is Over) && arith(*l) && arith(*r),
    }
}

/// Every variable of `e` is among `vars`.
pub open spec fn ids_known(e: ExprV, vars: Seq<Seq<char>>) -> bool
    decreases e,
{
    match e {
        ExprV::Num(_) => true,
        ExprV::Id(n) => name_pos(vars, n) >= 0,
        ExprV::Binary(_, l, r) => ids_known(*l, vars) && ids_known(*r, vars),
    }
}

/// The number of operators in `e`.
pub open spec fn expr_size(e: ExprV) -> int
    decreases e,
{
    match e {
        ExprV::Num(_) => 0,
        ExprV::Id(_) => 0,
        ExprV::Binary(_, l, r) => 1 + expr_size(*l) + expr_size(*r),
    }
}

/// The value of an arithmetic expression, variable `vars[k]` being held at
/// address `gp + k`: a number is itself (as a TM constant, 32 bits), and
/// `l op r` is the value of `l` combined with the value of `r`, left first.
pub open spec fn expr_value(e: ExprV, vars: Seq<Seq<char>>, gp: int, mem: spec_fn(int) -> int) -> int
    decreases e,
{
    match e {
        ExprV::Num(v) => (v as i32) as int,
        ExprV::Id(n) => mem(gp + name_pos(vars, n)),
        ExprV::Binary(op, l, r) => {
            let a = expr_value(*l, vars, gp, mem);
            let b = expr_value(*r, vars, gp, mem);
            match op {
                BinOp::Plus => a + b,
                BinOp::Minus => a - b,
                BinOp::Times => a * b,
                BinOp::Over => trunc_div(a, b),
                _ => 0,
            }
        },
    }
}

/// No division in `e` divides by zero.
pub open spec fn divisions_defined(e: ExprV, vars: Seq<Seq<char>>, gp: int, mem: spec_fn(int) -> int) -> bool
    decreases e,
{
    match e {
        ExprV::Num(_) => true,
        ExprV::Id(_) => true,
        ExprV::Binary(op, l, r) => divisions_defined(*l, vars, gp, mem) && divisions_defined(*r, vars, gp, mem) && (op is Over
            ==> expr_value(*r, vars, gp, mem) != 0),
    }
}

proof fn lemma_run_concat(a: Seq<InstrV>, b: Seq<InstrV>, regs: Seq<int>, mem: spec_fn(int) -> int)
    ensures
        tm_run(a + b, regs, mem) == tm_run(b, tm_run(a, regs, mem).0, tm_run(a, regs, mem).1),
    decreases b.len(),
{
    if b.len() == 0 {
        assert(a + b =~= a);
    } else {
        assert((a + b).drop_last() =~= a + b.drop_last());
        assert((a + b).last() == b.last());
        lemma_run_concat(a, b.drop_last(), regs, mem);
    }
}

proof fn lemma_run_one(i: InstrV, regs: Seq<int>, mem: spec_fn(int) -> int)
    ensures
        tm_run(seq![i], regs, mem) == tm_step(i, regs, mem),
{
    assert(seq![i].drop_last() =~= Seq::<InstrV>::empty());
    assert(tm_run(Seq::<InstrV>::empty(), regs, mem) == (regs, mem));
    assert(seq![i].last() == i);
}

proof fn lemma_size_nonneg(e: ExprV)
    ensures
        expr_size(e) >= 0,
    decreases e,
{
    match e {
        ExprV::Binary(_, l, r) => {
            lemma_size_nonneg(*l);
            lemma_size_nonneg(*r);
        },
        _ => {},
    }
}

/// Values read only the variables' memory.
proof fn lemma_value_frame(e: ExprV, vars: Seq<Seq<char>>, gp: int, m1: spec_fn(int) -> int, m2: spec_fn(int) -> int)
    requires
        ids_known(e, vars),
        forall|x: int| gp <= x < gp + vars.len() ==> #[trigger] m1(x) == m2(x),
    ensures
        expr_value(e, vars, gp, m1) == expr_value(e, vars, gp, m2),
        divisions_defined(e, vars, gp, m1) == divisions_defined(e, vars, gp, m2),
    decreases e,
{
    match e {
        ExprV::Num(_) => {},
        ExprV::Id(n) => {
            lemma_name_pos_below(vars, n);
        },
        ExprV::Binary(_, l, r) => {
            lemma_value_frame(*l, vars, gp, m1, m2);
            lemma_value_frame(*r, vars, gp, m1, m2);
        },
    }
}

proof fn lemma_name_pos_below(vars: Seq<Seq<char>>, n: Seq<char>)
    ensures
        name_pos(vars, n) < vars.len(),
    decreases vars.len(),
{
    if vars.len() > 0 {
        lemma_name_pos_below(vars.drop_last(), n);
    }
}

proof fn lemma_opcodes_distinct()
    ensures
        "SUB"@ != "ADD"@,
        "MUL"@ != "ADD"@ && "MUL"@ != "SUB"@,
        "DIV"@ != "ADD"@ && "DIV"@ != "SUB"@ && "DIV"@ != "MUL"@,
        "ST"@ != "LD"@,
        "LDC"@ != "LDA"@,
        "LDC"@ != "LD"@ && "LDC"@ != "ST"@,
        "LDA"@ != "LD"@ && "LDA"@ != "ST"@,
        "LD"@ != "ST"@,
{
    reveal_strlit("ADD");
    reveal_strlit("SUB");
    reveal_strlit("MUL");
    reveal_strlit("DIV");
    reveal_strlit("LD");
    reveal_strlit("ST");
    reveal_strlit("LDA");
    reveal_strlit("LDC");
    assert("SUB"@[0] != "ADD"@[0]);
    assert("MUL"@[0] != "ADD"@[0] && "MUL"@[0] != "SUB"@[0]);
    assert("DIV"@[0] != "ADD"@[0] && "DIV"@[0] != "SUB"@[0] && "DIV"@[0] != "MUL"@[0]);
    assert("ST"@[0] != "LD"@[0]);
    assert("LDC"@[2] != "LDA"@[2]);
    assert("LDC"@.len() != "LD"@.len() && "LDC"@.len() != "ST"@.len());
    assert("LDA"@.len() != "LD"@.len() && "LDA"@.len() != "ST"@.len());
}

/// The code generated for an arithmetic expression computes its value: run
/// on the TM machine, with every variable in its memory cell (`vars[k]` at
/// `reg[GP] + k`) and the temporary stack (growing down from `reg[MP] +
/// g.1`) clear of the variables, it leaves in `AC` the value of the
/// expression, left operand before right (`l - r` is `l` minus `r`, `l / r`
/// is `l` divided by `r`). `GP` and `MP` are kept, and memory changes only in
/// the temporary cells the expression needs.
pub proof fn lemma_expr_code_computes(e: ExprV, g: GenSt, regs: Seq<int>, mem: spec_fn(int) -> int)
    requires
        arith(e),
        ids_known(e, g.0),
        divisions_defined(e, g.0, regs[GP as int], mem),
        regs.len() == 8,
        g.0.len() < i32::MAX,
        i32::MIN + expr_size(e) + 1 <= g.1 <= 0,
        regs[GP as int] + g.0.len() <= regs[MP as int] + g.1 - expr_size(e),
    ensures
        ({
            let (code, g2) = gen_expr_spec(e, g);
            let (regs2, mem2) = tm_run(code, regs, mem);
            &&& regs2.len() == 8
            &&& regs2[AC as int] == expr_value(e, g.0, regs[GP as int], mem)
            &&& regs2[GP as int] == regs[GP as int]
            &&& regs2[MP as int] == regs[MP as int]
            &&& forall|x: int|
                !(regs[MP as int] + g.1 - expr_size(e) < x <= regs[MP as int] + g.1) ==> #[trigger] mem2(x) == mem(x)
            &&& g2.0 == g.0
            &&& g2.1 == g.1
        }),
    decreases e, 1nat,
{
    lemma_opcodes_distinct();
    let gp = regs[GP as int];
    let mp = regs[MP as int];
    match e {
        ExprV::Num(v) => {
            lemma_run_one(rm("LDC"@, AC, v as i32, 0, "load const"@), regs, mem);
        },
        ExprV::Id(n) => {
            let (o, vars2) = var_off(g.0, n);
            lemma_name_pos_below(g.0, n);
            lemma_run_one(rm("LD"@, AC, o as i32, GP, "load id "@ + n), regs, mem);
        },
        ExprV::Binary(op, l, r) => {
            lemma_operands(e, g, regs, mem);
            let code = gen_expr_spec(e, g).0;
            let tail = op_code(op);
            let k = code.len() - 1;
            assert(tail.len() == 1);
            let (regs4, mem4) = tm_run(code.take(k), regs, mem);
            assert(code.take(k) + tail =~= code);
            lemma_run_concat(code.take(k), tail, regs, mem);
            assert(tail =~= seq![tail[0]]);
            lemma_run_one(tail[0], regs4, mem4);
        },
    }
}

/// Both operands of a binary expression evaluated: the code before the
/// operator leaves the left value in `AC1` and the right value in `AC`.
proof fn lemma_operands(e: ExprV, g: GenSt, regs: Seq<int>, mem: spec_fn(int) -> int)
    requires
        e is Binary,
        arith(*e->Binary_1) && arith(*e->Binary_2),
        ids_known(e, g.0),
        divisions_defined(*e->Binary_1, g.0, regs[GP as int], mem),
        divisions_defined(*e->Binary_2, g.0, regs[GP as int], mem),
        regs.len() == 8,
        g.0.len() < i32::MAX,
        i32::MIN + expr_size(e) + 1 <= g.1 <= 0,
        regs[GP as int] + g.0.len() <= regs[MP as int] + g.1 - expr_size(e),
    ensures
        ({
            let (code, g2) = gen_expr_spec(e, g);
            let k = code.len() - op_code(e->Binary_0).len();
            let (regs2, mem2) = tm_run(code.take(k), regs, mem);
            &&& 0 <= k <= code.len()
            &&& code.skip(k) == op_code(e->Binary_0)
            &&& regs2.len() == 8
            &&& regs2[AC1 as int] == expr_value(*e->Binary_1, g.0, regs[GP as int], mem)
            &&& regs2[AC as int] == expr_value(*e->Binary_2, g.0, regs[GP as int], mem)
            &&& regs2[GP as int] == regs[GP as int]
            &&& regs2[MP as int] == regs[MP as int]
            &&& forall|x: int|
                !(regs[MP as int] + g.1 - expr_size(e) < x <= regs[MP as int] + g.1) ==> #[trigger] mem2(x) == mem(x)
            &&& g2.0 == g.0
            &&& g2.1 == g.1
        }),
    decreases e, 0nat,
{
    lemma_opcodes_distinct();
    let gp = regs[GP as int];
    let mp = regs[MP as int];
    let op = e->Binary_0;
    let l = e->Binary_1;
    let r = e->Binary_2;
    assert(e == ExprV::Binary(op, l, r));
    lemma_size_nonneg(*l);
    lemma_size_nonneg(*r);
    let (cl, g1) = gen_expr_spec(*l, g);
    lemma_expr_code_computes(*l, g, regs, mem);
    let (regs1, mem1) = tm_run(cl, regs, mem);
    let vl = expr_value(*l, g.0, gp, mem);
    let push = rm("ST"@, AC, g1.1 as i32, MP, "op: push left"@);
    assert(g1.1 == g.1 && (g1.1 as i32) as int == g.1);
    assert(regs1[AC as int] == vl && regs1[MP as int] == mp);
    let (regs1p, mem1p) = tm_step(push, regs1, mem1);
    assert(regs1p == regs1);
    assert(mem1p == mem_write(mem1, mp + g.1, vl));
    let gr = (g1.0, g1.1 - 1, g1.2 + 1);
    assert forall|x: int| gp <= x < gp + g.0.len() implies #[trigger] mem1p(x) == mem(x) by {
        assert(mem1(x) == mem(x));
    }
    lemma_value_frame(*r, g.0, gp, mem1p, mem);
    lemma_expr_code_computes(*r, gr, regs1p, mem1p);
    let (cr, g3) = gen_expr_spec(*r, gr);
    let (regs3, mem3) = tm_run(cr, regs1p, mem1p);
    let vr = expr_value(*r, g.0, gp, mem);
    assert(regs3[AC as int] == vr);
    assert(mem3(mp + g.1) == vl);
    let pop = rm("LD"@, AC1, (g3.1 + 1) as i32, MP, "op: pop left"@);
    let (regs4, mem4) = tm_step(pop, regs3, mem3);
    assert(regs4 == regs3.update(AC1 as int, vl));
    assert(mem4 == mem3);
    let tail = op_code(op);
    let pre = cl + seq![push] + cr + seq![pop];
    let code = pre + tail;
    assert(gen_expr_spec(e, g).0 == code);
    let k = code.len() - tail.len();
    assert(code.take(k) =~= pre);
    assert(code.skip(k) =~= tail);
    lemma_run_concat(cl, seq![push], regs, mem);
    lemma_run_one(push, regs1, mem1);
    lemma_run_concat(cl + seq![push], cr, regs, mem);
    lemma_run_concat(cl + seq![push] + cr, seq![pop], regs, mem);
    lemma_run_one(pop, regs3, mem3);
    assert(tm_run(pre, regs, mem) == (regs4, mem4));
    assert forall|x: int| !(mp + g.1 - expr_size(e) < x <= mp + g.1) implies #[trigger] mem4(x) == mem(x) by {
        assert(mem3(x) == mem1p(x));
        assert(mem1p(x) == mem1(x));
    }
}

/// The condition of a TM jump `op r,d(s)` on `reg[r] = v`: `JLT` jumps when
/// `v < 0`, `JLE` when `v <= 0`, `JGT` when `v > 0`, `JGE` when `v >= 0`,
/// `JEQ` when `v == 0`, `JNE` when `v != 0`; `None` for other opcodes.
pub open spec fn jump_cond(op: Seq<char>, v: int) -> Option<bool> {
    if op == "JLT"@ {
        Some(v < 0)
    } else if op == "JLE"@ {
        Some(v <= 0)
    } else if op == "JGT"@ {
        Some(v > 0)
    } else if op == "JGE"@ {
        Some(v >= 0)
    } else if op == "JEQ"@ {
        Some(v == 0)
    } else if op == "JNE"@ {
        Some(v != 0)
    } else {
        None
    }
}

/// One cycle of the TM machine at location `pc`: `reg[PC]` becomes `pc +
/// 1`, then the instruction runs (a jump taken sets `reg[PC]` to `d +
/// reg[s]`), and the next location is `reg[PC]`.
pub open spec fn tm_cycle(code: Seq<InstrV>, pc: int, regs: Seq<int>, mem: spec_fn(int) -> int) -> (int, Seq<int>, spec_fn(int) -> int) {
    let i = code[pc];
    let r1 = regs.update(PC as int, pc + 1);
    let (r2, m2) = if !i.0 && jump_cond(i.1, r1[i.2 as int]) is Some {
        if jump_cond(i.1, r1[i.2 as int])->0 {
            (r1.update(PC as int, i.3 + r1[i.4 as int]), mem)
        } else {
            (r1, mem)
        }
    } else {
        tm_step(i, r1, mem)
    };
    (r2[PC as int], r2, m2)
}

/// `n` cycles of the TM machine from location `pc`, stopping early once the
/// location leaves the code.
pub open spec fn tm_steps(code: Seq<InstrV>, pc: int, regs: Seq<int>, mem: spec_fn(int) -> int, n: nat) -> (int, Seq<int>, spec_fn(int) -> int)
    decreases n,
{
    if n == 0 || !(0 <= pc < code.len()) {
        (pc, regs, mem)
    } else {
        let s = tm_cycle(code, pc, regs, mem);
        tm_steps(code, s.0, s.1, s.2, (n - 1) as nat)
    }
}

proof fn lemma_steps_split(code: Seq<InstrV>, pc: int, regs: Seq<int>, mem: spec_fn(int) -> int, n: nat, m: nat)
    ensures
        tm_steps(code, pc, regs, mem, n + m) == ({
            let s = tm_steps(code, pc, regs, mem, n);
            tm_steps(code, s.0, s.1, s.2, m)
        }),
    decreases n,
{
    if n > 0 && 0 <= pc < code.len() {
        let s = tm_cycle(code, pc, regs, mem);
        lemma_steps_split(code, s.0, s.1, s.2, (n - 1) as nat, m);
        assert((n + m - 1) as nat == ((n - 1) as nat + m) as nat);
    } else if n == 0 {
    } else {
        if m > 0 {
        }
    }
}

/// An instruction that neither jumps nor reads or writes `PC`, on registers
/// of the machine.
pub open spec fn plain(i: InstrV) -> bool {
    &&& jump_cond(i.1, 0) is None
    &&& 0 <= i.2 < 8 && i.2 != PC
    &&& i.0 ==> (0 <= i.3 < 8 && i.3 != PC && 0 <= i.4 < 8 && i.4 != PC)
    &&& !i.0 ==> (0 <= i.4 < 8 && i.4 != PC)
}

/// Registers equal but for `PC`.
pub open spec fn same_but_pc(r1: Seq<int>, r2: Seq<int>) -> bool {
    &&& r1.len() == 8
    &&& r2.len() == 8
    &&& forall|j: int| 0 <= j < 8 && j != PC ==> #[trigger] r1[j] == r2[j]
}

proof fn lemma_plain_step(i: InstrV, r1: Seq<int>, r2: Seq<int>, mem: spec_fn(int) -> int)
    requires
        plain(i),
        same_but_pc(r1, r2),
    ensures
        same_but_pc(tm_step(i, r1, mem).0, tm_step(i, r2, mem).0),
        tm_step(i, r1, mem).1 == tm_step(i, r2, mem).1,
        tm_step(i, r1, mem).0[PC as int] == r1[PC as int],
{
    assert(r1[i.2 as int] == r2[i.2 as int]);
    if i.0 {
        assert(r1[i.3 as int] == r2[i.3 as int] && r1[i.4 as int] == r2[i.4 as int]);
    } else {
        assert(r1[i.4 as int] == r2[i.4 as int]);
    }
}

/// Plain code run cycle by cycle does what the straight-line run does.
proof fn lemma_plain_prefix(code: Seq<InstrV>, p: Seq<InstrV>, regs: Seq<int>, mem: spec_fn(int) -> int, n: nat)
    requires
        n <= p.len() <= code.len(),
        forall|k: int| 0 <= k < p.len() ==> code[k] == p[k] && plain(#[trigger] p[k]),
        regs.len() == 8,
    ensures
        ({
            let s = tm_steps(code, 0, regs, mem, n);
            let t = tm_run(p.take(n as int), regs, mem);
            &&& s.0 == n
            &&& same_but_pc(s.1, t.0)
            &&& s.2 == t.1
        }),
    decreases n,
{
    if n == 0 {
        assert(p.take(0) =~= Seq::<InstrV>::empty());
    } else {
        let m = (n - 1) as nat;
        lemma_plain_prefix(code, p, regs, mem, m);
        lemma_steps_split(code, 0, regs, mem, m, 1);
        let s = tm_steps(code, 0, regs, mem, m);
        let t = tm_run(p.take(m as int), regs, mem);
        assert(p.take(n as int).drop_last() =~= p.take(m as int));
        assert(p.take(n as int).last() == p[m as int]);
        let i = p[m as int];
        assert(plain(i));
        let r1 = s.1.update(PC as int, (m + 1) as int);
        assert(same_but_pc(r1, t.0));
        lemma_plain_step(i, r1, t.0, s.2);
        assert(tm_steps(code, 0, regs, mem, n) == tm_steps(code, s.0, s.1, s.2, 1));
        assert(tm_steps(code, s.0, s.1, s.2, 1) == tm_steps(code, tm_cycle(code, m as int, s.1, s.2).0, tm_cycle(code, m as int, s.1, s.2).1, tm_cycle(code, m as int, s.1, s.2).2, 0));
    }
}

proof fn lemma_jumps_distinct()
    ensures
        jump_cond("LDC"@, 0) is None,
        jump_cond("LD"@, 0) is None,
        jump_cond("ST"@, 0) is None,
        jump_cond("LDA"@, 0) is None,
        jump_cond("ADD"@, 0) is None,
        jump_cond("SUB"@, 0) is None,
        jump_cond("MUL"@, 0) is None,
        jump_cond("DIV"@, 0) is None,
        forall|v: int| jump_cond("JLT"@, v) == Some(v < 0),
        forall|v: int| jump_cond("JEQ"@, v) == Some(v == 0),
{
    reveal_strlit("JLT");
    reveal_strlit("JLE");
    reveal_strlit("JGT");
    reveal_strlit("JGE");
    reveal_strlit("JEQ");
    reveal_strlit("JNE");
    reveal_strlit("ADD");
    reveal_strlit("SUB");
    reveal_strlit("MUL");
    reveal_strlit("DIV");
    reveal_strlit("LD");
    reveal_strlit("ST");
    reveal_strlit("LDA");
    reveal_strlit("LDC");
    assert("JEQ"@[1] != "JLT"@[1] && "JEQ"@[1] != "JLE"@[1] && "JEQ"@[1] != "JGT"@[1] && "JEQ"@[1] != "JGE"@[1]);
    let js = seq!["JLT"@, "JLE"@, "JGT"@, "JGE"@, "JEQ"@, "JNE"@];
    let others = seq!["LDC"@, "LD"@, "ST"@, "LDA"@, "ADD"@, "SUB"@, "MUL"@, "DIV"@];
    assert forall|a: int, b: int| 0 <= a < 8 && 0 <= b < 6 implies #[trigger] others[a] != #[trigger] js[b] by {
        assert(js[b][0] == 'J');
        assert(others[a][0] != 'J');
    }
    assert(js[0] == "JLT"@ && js[1] == "JLE"@ && js[2] == "JGT"@ && js[3] == "JGE"@ && js[4] == "JEQ"@ && js[5] == "JNE"@);
    assert(others[0] == "LDC"@ && others[1] == "LD"@ && others[2] == "ST"@ && others[3] == "LDA"@);
    assert(others[4] == "ADD"@ && others[5] == "SUB"@ && others[6] == "MUL"@ && others[7] == "DIV"@);
}

/// The code of an arithmetic expression is plain.
proof fn lemma_expr_code_plain(e: ExprV, g: GenSt)
    requires
        arith(e),
    ensures
        forall|k: int| 0 <= k < gen_expr_spec(e, g).0.len() ==> plain(#[trigger] gen_expr_spec(e, g).0[k]),
    decreases e,
{
    lemma_jumps_distinct();
    match e {
        ExprV::Binary(op, l, r) => {
            let (cl, g1) = gen_expr_spec(*l, g);
            let gr = (g1.0, g1.1 - 1, g1.2 + 1);
            let (cr, g3) = gen_expr_spec(*r, gr);
            lemma_expr_code_plain(*l, g);
            lemma_expr_code_plain(*r, gr);
            let push = rm("ST"@, AC, g1.1 as i32, MP, "op: push left"@);
            let pop = rm("LD"@, AC1, (g3.1 + 1) as i32, MP, "op: pop left"@);
            let code = cl + seq![push] + cr + seq![pop] + op_code(op);
            assert(gen_expr_spec(e, g).0 == code);
            assert forall|k: int| 0 <= k < code.len() implies plain(#[trigger] code[k]) by {
                if k < cl.len() {
                    assert(code[k] == cl[k]);
                } else if k == cl.len() {
                } else if k < cl.len() + 1 + cr.len() {
                    assert(code[k] == cr[k - cl.len() - 1]);
                } else if k == cl.len() + 1 + cr.len() {
                } else {
                    assert(code[k] == op_code(op)[k - cl.len() - 2 - cr.len()]);
                }
            }
        },
        _ => {},
    }
}

/// The code of a comparison `l < r` or `l = r` of arithmetic expressions,
/// run on the TM machine (jumps and all) from its first instruction, leaves
/// it at its end after one cycle fewer than it has instructions, with `AC`
/// holding 1 where the comparison holds of the values of `l` and `r` (left
/// first) and 0 where it does not. `GP` and `MP` are kept.
pub proof fn lemma_compare_code_computes(e: ExprV, g: GenSt, regs: Seq<int>, mem: spec_fn(int) -> int)
    requires
        e matches ExprV::Binary(op, l, r) && (op is Lt || op is Eq) && arith(*l) && arith(*r),
        ids_known(e, g.0),
        divisions_defined(*e->Binary_1, g.0, regs[GP as int], mem),
        divisions_defined(*e->Binary_2, g.0, regs[GP as int], mem),
        regs.len() == 8,
        g.0.len() < i32::MAX,
        i32::MIN + expr_size(e) + 1 <= g.1 <= 0,
        regs[GP as int] + g.0.len() <= regs[MP as int] + g.1 - expr_size(e),
    ensures
        ({
            let code = gen_expr_spec(e, g).0;
            let a = expr_value(*e->Binary_1, g.0, regs[GP as int], mem);
            let b = expr_value(*e->Binary_2, g.0, regs[GP as int], mem);
            let holds = if e->Binary_0 is Lt { a < b } else { a == b };
            let s = tm_steps(code, 0, regs, mem, (code.len() - 1) as nat);
            &&& s.0 == code.len()
            &&& s.1[AC as int] == (if holds { 1int } else { 0int })
            &&& s.1[GP as int] == regs[GP as int]
            &&& s.1[MP as int] == regs[MP as int]
        }),
{
    lemma_opcodes_distinct();
    lemma_jumps_distinct();
    reveal_strlit("JLT");
    reveal_strlit("JEQ");
    let op = e->Binary_0;
    let l = *e->Binary_1;
    let r = *e->Binary_2;
    lemma_operands(e, g, regs, mem);
    let code = gen_expr_spec(e, g).0;
    let tail = op_code(op);
    let jump = if op is Lt { "JLT"@ } else { "JEQ"@ };
    let cmt = if op is Lt { "op <"@ } else { "op ="@ };
    assert(tail == relop_code(jump, cmt));
    assert(tail.len() == 5);
    let k = code.len() - 5;
    let pre = code.take(k);
    let (rp, mp_) = tm_run(pre, regs, mem);
    // The operands are loaded by plain code.
    lemma_expr_code_plain(l, g);
    let (cl, g1) = gen_expr_spec(l, g);
    let gr = (g1.0, g1.1 - 1, g1.2 + 1);
    lemma_expr_code_plain(r, gr);
    let (cr, g3) = gen_expr_spec(r, gr);
    let push = rm("ST"@, AC, g1.1 as i32, MP, "op: push left"@);
    let pop = rm("LD"@, AC1, (g3.1 + 1) as i32, MP, "op: pop left"@);
    assert(code == cl + seq![push] + cr + seq![pop] + tail);
    assert(pre =~= cl + seq![push] + cr + seq![pop]);
    assert forall|j: int| 0 <= j < pre.len() implies code[j] == pre[j] && plain(#[trigger] pre[j]) by {
        if j < cl.len() {
            assert(pre[j] == cl[j]);
        } else if j == cl.len() {
        } else if j < cl.len() + 1 + cr.len() {
            assert(pre[j] == cr[j - cl.len() - 1]);
        } else {
        }
    }
    lemma_plain_prefix(code, pre, regs, mem, k as nat);
    assert(pre.take(k) =~= pre);
    let s0 = tm_steps(code, 0, regs, mem, k as nat);
    assert(s0.0 == k && same_but_pc(s0.1, rp) && s0.2 == mp_);
    let a = expr_value(l, g.0, regs[GP as int], mem);
    let b = expr_value(r, g.0, regs[GP as int], mem);
    assert(s0.1[AC1 as int] == a && s0.1[AC as int] == b);
    lemma_steps_split(code, 0, regs, mem, k as nat, 4);
    assert((code.len() - 1) as nat == (k + 4) as nat);
    // The comparison tail, cycle by cycle.
    assert(code[k] == tail[0] && code[k + 1] == tail[1] && code[k + 2] == tail[2] && code[k + 3] == tail[3] && code[k + 4] == tail[4]);
    let c1 = tm_cycle(code, k, s0.1, s0.2);
    assert(c1.0 == k + 1 && c1.1[AC as int] == a - b);
    let c2 = tm_cycle(code, c1.0, c1.1, c1.2);
    if jump_cond(jump, a - b)->0 {
        assert(c2.0 == k + 4);
        let c3 = tm_cycle(code, c2.0, c2.1, c2.2);
        assert(c3.0 == k + 5 && c3.1[AC as int] == 1);
        reveal_with_fuel(tm_steps, 4);
        assert(tm_steps(code, k, s0.1, s0.2, 4) == tm_steps(code, c3.0, c3.1, c3.2, 2));
    } else {
        assert(c2.0 == k + 2);
        let c3 = tm_cycle(code, c2.0, c2.1, c2.2);
        assert(c3.0 == k + 3 && c3.1[AC as int] == 0);
        let c4 = tm_cycle(code, c3.0, c3.1, c3.2);
        assert(c4.0 == k + 5 && c4.1[AC as int] == 0);
        reveal_with_fuel(tm_steps, 5);
        assert(tm_steps(code, k, s0.1, s0.2, 4) == tm_steps(code, c4.0, c4.1, c4.2, 1));
    }
}

/// The machine with its input and output: registers, data memory, the
/// integers still to be read, the integers written so far.
pub type TmIo = (Seq<int>, spec_fn(int) -> int, Seq<int>, Seq<int>);

/// One instruction with input and output: `IN r` takes the next input into
/// `reg[r]`, `OUT r` writes `reg[r]`; others as in [`tm_step`].
pub open spec fn io_step(i: InstrV, s: TmIo) -> TmIo {
    if i.0 && i.1 == "IN"@ {
        (s.0.update(i.2 as int, s.2[0]), s.1, s.2.drop_first(), s.3)
    } else if i.0 && i.1 == "OUT"@ {
        (s.0, s.1, s.2, s.3.push(s.0[i.2 as int]))
    } else {
        let r = tm_step(i, s.0, s.1);
        (r.0, r.1, s.2, s.3)
    }
}

/// Straight-line code run with input and output.
pub open spec fn io_run(code: Seq<InstrV>, s: TmIo) -> TmIo
    decreases code.len(),
{
    if code.len() == 0 {
        s
    } else {
        io_step(code.last(), io_run(code.drop_last(), s))
    }
}

proof fn lemma_io_concat(a: Seq<InstrV>, b: Seq<InstrV>, s: TmIo)
    ensures
        io_run(a + b, s) == io_run(b, io_run(a, s)),
    decreases b.len(),
{
    if b.len() == 0 {
        assert(a + b =~= a);
    } else {
        assert((a + b).drop_last() =~= a + b.drop_last());
        assert((a + b).last() == b.last());
        lemma_io_concat(a, b.drop_last(), s);
    }
}

proof fn lemma_io_one(i: InstrV, s: TmIo)
    ensures
        io_run(seq![i], s) == io_step(i, s),
{
    assert(seq![i].drop_last() =~= Seq::<InstrV>::empty());
    assert(io_run(Seq::<InstrV>::empty(), s) == s);
    assert(seq![i].last() == i);
}

/// No input or output instruction.
pub open spec fn quiet(i: InstrV) -> bool {
    i.1 != "IN"@ && i.1 != "OUT"@
}

proof fn lemma_io_quiet(code: Seq<InstrV>, s: TmIo)
    requires
        forall|k: int| 0 <= k < code.len() ==> quiet(#[trigger] code[k]),
    ensures
        io_run(code, s) == ({
            let r = tm_run(code, s.0, s.1);
            (r.0, r.1, s.2, s.3)
        }),
    decreases code.len(),
{
    if code.len() > 0 {
        let d = code.drop_last();
        assert forall|k: int| 0 <= k < d.len() implies quiet(#[trigger] d[k]) by {
            assert(d[k] == code[k]);
        }
        lemma_io_quiet(d, s);
        assert(quiet(code[code.len() - 1]));
    }
}

proof fn lemma_io_ops()
    ensures
        quiet(rm("LDC"@, 0, 0, 0, Seq::empty())) && quiet(rm("LD"@, 0, 0, 0, Seq::empty())),
        forall|i: InstrV| i.1 == "LDC"@ || i.1 == "LD"@ || i.1 == "ST"@ || i.1 == "ADD"@ || i.1 == "SUB"@ || i.1 == "MUL"@ || i.1
            == "DIV"@ ==> #[trigger] quiet(i),
        "OUT"@ != "IN"@,
        "ST"@ != "IN"@ && "ST"@ != "OUT"@,
{
    reveal_strlit("IN");
    reveal_strlit("OUT");
    reveal_strlit("ADD");
    reveal_strlit("SUB");
    reveal_strlit("MUL");
    reveal_strlit("DIV");
    reveal_strlit("LD");
    reveal_strlit("ST");
    reveal_strlit("LDC");
    let others = seq!["LDC"@, "LD"@, "ST"@, "ADD"@, "SUB"@, "MUL"@, "DIV"@];
    assert forall|a: int| 0 <= a < 7 implies #[trigger] others[a] != "IN"@ && others[a] != "OUT"@ by {
        assert(others[a][0] != 'I' && others[a][0] != 'O');
        assert("IN"@[0] == 'I' && "OUT"@[0] == 'O');
    }
    assert(others[0] == "LDC"@ && others[1] == "LD"@ && others[2] == "ST"@ && others[3] == "ADD"@);
    assert(others[4] == "SUB"@ && others[5] == "MUL"@ && others[6] == "DIV"@);
    assert("OUT"@.len() != "IN"@.len());
}

/// The code of an arithmetic expression does no input or output.
proof fn lemma_expr_code_quiet(e: ExprV, g: GenSt)
    requires
        arith(e),
    ensures
        forall|k: int| 0 <= k < gen_expr_spec(e, g).0.len() ==> quiet(#[trigger] gen_expr_spec(e, g).0[k]),
    decreases e,
{
    lemma_io_ops();
    match e {
        ExprV::Binary(op, l, r) => {
            let (cl, g1) = gen_expr_spec(*l, g);
            let gr = (g1.0, g1.1 - 1, g1.2 + 1);
            let (cr, g3) = gen_expr_spec(*r, gr);
            lemma_expr_code_quiet(*l, g);
            lemma_expr_code_quiet(*r, gr);
            let push = rm("ST"@, AC, g1.1 as i32, MP, "op: push left"@);
            let pop = rm("LD"@, AC1, (g3.1 + 1) as i32, MP, "op: pop left"@);
            let code = cl + seq![push] + cr + seq![pop] + op_code(op);
            assert(gen_expr_spec(e, g).0 == code);
            assert(quiet(push) && quiet(pop));
            assert(quiet(op_code(op)[0]));
            assert forall|k: int| 0 <= k < code.len() implies quiet(#[trigger] code[k]) by {
                if k < cl.len() {
                    assert(code[k] == cl[k]);
                } else if k == cl.len() {
                } else if k < cl.len() + 1 + cr.len() {
                    assert(code[k] == cr[k - cl.len() - 1]);
                } else if k == cl.len() + 1 + cr.len() {
                } else {
                    assert(code[k] == op_code(op)[k - cl.len() - 2 - cr.len()]);
                }
            }
        },
        ExprV::Num(v) => {
            assert(quiet(rm("LDC"@, AC, v as i32, 0, "load const"@)));
        },
        ExprV::Id(n) => {
            let (o, vars2) = var_off(g.0, n);
            assert(quiet(rm("LD"@, AC, o as i32, GP, "load id "@ + n)));
        },
    }
}

/// What a read, write or assignment does to memory (variable `vars[k]` at
/// `gp + k`), the input left and the output: a read stores the next input
/// in its variable; a write appends the value of its expression; an
/// assignment stores that value in its variable.
pub open spec fn stmt_effect(s: StmtV, vars: Seq<Seq<char>>, gp: int, m: spec_fn(int) -> int, inp: Seq<int>, out: Seq<int>) -> (
    spec_fn(int) -> int,
    Seq<int>,
    Seq<int>,
) {
    match s {
        StmtV::Read(n) => (mem_write(m, gp + name_pos(vars, n), inp[0]), inp.drop_first(), out),
        StmtV::Write(e) => (m, inp, out.push(expr_value(e, vars, gp, m))),
        StmtV::Assign(n, e) => (mem_write(m, gp + name_pos(vars, n), expr_value(e, vars, gp, m)), inp, out),
        _ => (m, inp, out),
    }
}

/// A read, write or assignment whose variables are among `vars`, whose
/// expression is arithmetic, of at most `bound` operators, and divides by
/// no zero, and that has input left to read.
pub open spec fn stmt_fine(s: StmtV, vars: Seq<Seq<char>>, gp: int, m: spec_fn(int) -> int, inp: Seq<int>, bound: int) -> bool {
    match s {
        StmtV::Read(n) => name_pos(vars, n) >= 0 && inp.len() > 0,
        StmtV::Write(e) => arith(e) && ids_known(e, vars) && divisions_defined(e, vars, gp, m) && expr_size(e) <= bound,
        StmtV::Assign(n, e) => name_pos(vars, n) >= 0 && arith(e) && ids_known(e, vars) && divisions_defined(e, vars, gp, m)
            && expr_size(e) <= bound,
        _ => false,
    }
}

/// The effect of a sequence of reads, writes and assignments, in order.
pub open spec fn stmts_effect(v: Seq<StmtV>, vars: Seq<Seq<char>>, gp: int, m: spec_fn(int) -> int, inp: Seq<int>, out: Seq<int>) -> (
    spec_fn(int) -> int,
    Seq<int>,
    Seq<int>,
)
    decreases v.len(),
{
    if v.len() == 0 {
        (m, inp, out)
    } else {
        let p = stmts_effect(v.drop_last(), vars, gp, m, inp, out);
        stmt_effect(v.last(), vars, gp, p.0, p.1, p.2)
    }
}

/// Each statement of `v` is fine where it runs.
pub open spec fn stmts_fine(v: Seq<StmtV>, vars: Seq<Seq<char>>, gp: int, m: spec_fn(int) -> int, inp: Seq<int>, out: Seq<int>, bound: int) -> bool
    decreases v.len(),
{
    if v.len() == 0 {
        true
    } else {
        let p = stmts_effect(v.drop_last(), vars, gp, m, inp, out);
        stmts_fine(v.drop_last(), vars, gp, m, inp, out, bound) && stmt_fine(v.last(), vars, gp, p.0, p.1, bound)
    }
}

/// Memories equal outside the cells `(lo, hi]`.
pub open spec fn same_outside(m1: spec_fn(int) -> int, m2: spec_fn(int) -> int, lo: int, hi: int) -> bool {
    forall|x: int| !(lo < x <= hi) ==> #[trigger] m1(x) == m2(x)
}

/// The machine set-up the statement laws assume: eight registers, the
/// variables below the temporary stack, numbers within `i32`.
pub open spec fn frame_ok(g: GenSt, regs: Seq<int>, bound: int) -> bool {
    &&& regs.len() == 8
    &&& bound >= 0
    &&& g.0.len() < i32::MAX
    &&& i32::MIN + bound + 1 <= g.1 <= 0
    &&& regs[GP as int] + g.0.len() <= regs[MP as int] + g.1 - bound
}

proof fn lemma_effect_frame(s: StmtV, vars: Seq<Seq<char>>, gp: int, m1: spec_fn(int) -> int, m2: spec_fn(int) -> int, inp: Seq<int>, out: Seq<int>, bound: int, lo: int, hi: int)
    requires
        stmt_fine(s, vars, gp, m1, inp, bound),
        same_outside(m1, m2, lo, hi),
        gp + vars.len() <= lo + 1,
    ensures
        stmt_fine(s, vars, gp, m2, inp, bound),
        same_outside(stmt_effect(s, vars, gp, m1, inp, out).0, stmt_effect(s, vars, gp, m2, inp, out).0, lo, hi),
        stmt_effect(s, vars, gp, m1, inp, out).1 == stmt_effect(s, vars, gp, m2, inp, out).1,
        stmt_effect(s, vars, gp, m1, inp, out).2 == stmt_effect(s, vars, gp, m2, inp, out).2,
{
    assert forall|x: int| gp <= x < gp + vars.len() implies #[trigger] m1(x) == m2(x) by {
        assert(!(lo < x <= hi));
    }
    match s {
        StmtV::Write(e) => {
            lemma_value_frame(e, vars, gp, m1, m2);
        },
        StmtV::Assign(n, e) => {
            lemma_value_frame(e, vars, gp, m1, m2);
            lemma_name_pos_below(vars, n);
        },
        StmtV::Read(n) => {
            lemma_name_pos_below(vars, n);
        },
        _ => {},
    }
}

/// The code generated for a read, write or assignment does what the
/// statement means: run with input and output, it reads, writes and stores
/// as [`stmt_effect`] says (memory equal but for the temporary cells), and
/// keeps `GP` and `MP`.
pub proof fn lemma_stmt_code_runs(s: StmtV, g: GenSt, regs: Seq<int>, m: spec_fn(int) -> int, inp: Seq<int>, out: Seq<int>, bound: int)
    requires
        stmt_fine(s, g.0, regs[GP as int], m, inp, bound),
        frame_ok(g, regs, bound),
    ensures
        ({
            let (code, g2) = gen_stmt_spec(s, g);
            let r = io_run(code, (regs, m, inp, out));
            let eff = stmt_effect(s, g.0, regs[GP as int], m, inp, out);
            &&& r.0.len() == 8
            &&& r.0[GP as int] == regs[GP as int]
            &&& r.0[MP as int] == regs[MP as int]
            &&& same_outside(r.1, eff.0, regs[MP as int] + g.1 - bound, regs[MP as int] + g.1)
            &&& r.2 == eff.1
            &&& r.3 == eff.2
            &&& g2.0 == g.0
            &&& g2.1 == g.1
        }),
{
    lemma_io_ops();
    lemma_opcodes_distinct();
    let gp = regs[GP as int];
    let mp = regs[MP as int];
    let lo = mp + g.1 - bound;
    let hi = mp + g.1;
    let st0: TmIo = (regs, m, inp, out);
    match s {
        StmtV::Read(n) => {
            let (o, vars2) = var_off(g.0, n);
            lemma_name_pos_below(g.0, n);
            let i1 = ro("IN"@, AC, 0, 0, "read integer"@);
            let i2 = rm("ST"@, AC, o as i32, GP, "store to "@ + n);
            assert(gen_stmt_spec(s, g).0 == seq![i1, i2]);
            assert(seq![i1, i2] =~= seq![i1] + seq![i2]);
            lemma_io_concat(seq![i1], seq![i2], st0);
            lemma_io_one(i1, st0);
            let st1 = io_step(i1, st0);
            lemma_io_one(i2, st1);
            assert(st1.0[AC as int] == inp[0]);
        },
        StmtV::Write(e) => {
            lemma_expr_code_computes(e, g, regs, m);
            lemma_expr_code_quiet(e, g);
            let (ce, g1) = gen_expr_spec(e, g);
            lemma_io_quiet(ce, st0);
            let i1 = ro("OUT"@, AC, 0, 0, "write integer"@);
            assert(gen_stmt_spec(s, g).0 == ce + seq![i1]);
            lemma_io_concat(ce, seq![i1], st0);
            lemma_io_one(i1, io_run(ce, st0));
            let r = io_run(ce + seq![i1], st0);
            assert forall|x: int| !(lo < x <= hi) implies #[trigger] r.1(x) == m(x) by {
                assert(!(mp + g.1 - expr_size(e) < x <= mp + g.1));
            }
        },
        StmtV::Assign(n, e) => {
            let (o, vars2) = var_off(g.0, n);
            lemma_name_pos_below(g.0, n);
            assert(vars2 == g.0);
            lemma_expr_code_computes(e, (vars2, g.1, g.2), regs, m);
            lemma_expr_code_quiet(e, (vars2, g.1, g.2));
            let (ce, g1) = gen_expr_spec(e, (vars2, g.1, g.2));
            lemma_io_quiet(ce, st0);
            let i1 = rm("ST"@, AC, o as i32, GP, "assign to "@ + n);
            assert(gen_stmt_spec(s, g).0 == ce + seq![i1]);
            lemma_io_concat(ce, seq![i1], st0);
            lemma_io_one(i1, io_run(ce, st0));
            let r = io_run(ce + seq![i1], st0);
            let eff = stmt_effect(s, g.0, gp, m, inp, out);
            assert forall|x: int| !(lo < x <= hi) implies #[trigger] r.1(x) == eff.0(x) by {
                assert(!(mp + g.1 - expr_size(e) < x <= mp + g.1));
            }
        },
        _ => {},
    }
}

/// The code generated for a sequence of reads, writes and assignments does
/// what the sequence means: run with input and output, it consumes the
/// input, writes the output and leaves every variable as [`stmts_effect`]
/// says, memory equal but for the temporary cells; `GP` and `MP` are kept.
pub proof fn lemma_stmts_code_runs(v: Seq<StmtV>, g: GenSt, regs: Seq<int>, m: spec_fn(int) -> int, inp: Seq<int>, out: Seq<int>, bound: int)
    requires
        stmts_fine(v, g.0, regs[GP as int], m, inp, out, bound),
        frame_ok(g, regs, bound),
    ensures
        ({
            let (code, g2) = gen_stmts_spec(v, g);
            let r = io_run(code, (regs, m, inp, out));
            let eff = stmts_effect(v, g.0, regs[GP as int], m, inp, out);
            &&& r.0.len() == 8
            &&& r.0[GP as int] == regs[GP as int]
            &&& r.0[MP as int] == regs[MP as int]
            &&& same_outside(r.1, eff.0, regs[MP as int] + g.1 - bound, regs[MP as int] + g.1)
            &&& r.2 == eff.1
            &&& r.3 == eff.2
            &&& g2.0 == g.0
            &&& g2.1 == g.1
        }),
    decreases v.len(),
{
    if v.len() > 0 {
        let gp = regs[GP as int];
        let lo = regs[MP as int] + g.1 - bound;
        let hi = regs[MP as int] + g.1;
        let d = v.drop_last();
        lemma_stmts_code_runs(d, g, regs, m, inp, out, bound);
        let (c1, g1) = gen_stmts_spec(d, g);
        let r1 = io_run(c1, (regs, m, inp, out));
        let p = stmts_effect(d, g.0, gp, m, inp, out);
        lemma_effect_frame(v.last(), g.0, gp, p.0, r1.1, p.1, p.2, bound, lo, hi);
        assert(frame_ok(g1, r1.0, bound));
        lemma_stmt_code_runs(v.last(), g1, r1.0, r1.1, r1.2, r1.3, bound);
        let (c2, g2) = gen_stmt_spec(v.last(), g1);
        lemma_io_concat(c1, c2, (regs, m, inp, out));
        let r = io_run(c1 + c2, (regs, m, inp, out));
        let e1 = stmt_effect(v.last(), g.0, gp, r1.1, r1.2, r1.3);
        let e0 = stmt_effect(v.last(), g.0, gp, p.0, p.1, p.2);
        assert forall|x: int| !(lo < x <= hi) implies #[trigger] r.1(x) == e0.0(x) by {
            assert(r.1(x) == e1.0(x));
            assert(e1.0(x) == e0.0(x));
        }
    }
}

} // verus!
