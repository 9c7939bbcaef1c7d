//! FIRST sets: of a symbol sequence, and of every production and symbol of a
//! grammar as the least sets closed under the FIRST rules.
use vstd::prelude::*;
use crate::lab2::str_set::{ascending, is_str_set, members, new_set, set_contains, set_insert, set_union_into, strs};
use crate::lab2::types::{body_of, eps, sym_names, Grammar, GrammarSymbol, Production};
use crate::text::{lex_less, str_eq};

verus! {

/// The position of the name `n` in a list of names.
pub open spec fn name_idx(names: Seq<Seq<char>>, n: Seq<char>) -> int {
    choose|i: int| 0 <= i < names.len() && names[i] == n
}

/// The set kept for the name `n`; empty for an unknown name.
pub open spec fn fl(names: Seq<Seq<char>>, fs: Seq<Set<Seq<char>>>, n: Seq<char>) -> Set<Seq<char>> {
    if names.contains(n) {
        fs[name_idx(names, n)]
    } else {
        Set::empty()
    }
}

/// FIRST of a symbol sequence, given the FIRST set of each named symbol:
/// `{ε}` for the empty sequence; else FIRST of the first symbol without `ε`,
/// and, where that symbol derives `ε`, FIRST of the rest.
pub open spec fn fos(names: Seq<Seq<char>>, fs: Seq<Set<Seq<char>>>, s: Seq<Seq<char>>) -> Set<Seq<char>>
    decreases s.len(),
{
    if s.len() == 0 {
        set![eps()]
    } else {
        let f = fl(names, fs, s[0]);
        f.remove(eps()).union(if f.contains(eps()) { fos(names, fs, s.drop_first()) } else { Set::empty() })
    }
}

/// The FIRST sets of a symbol table.
pub open spec fn sf(s: Seq<GrammarSymbol>) -> Seq<Set<Seq<char>>> {
    s.map_values(|x: GrammarSymbol| members(x.first_set@))
}

/// The FIRST sets of a production table.
pub open spec fn pf(p: Seq<Production>) -> Seq<Set<Seq<char>>> {
    p.map_values(|x: Production| members(x.first_set@))
}

/// The heads of a production table.
pub open spec fn heads(p: Seq<Production>) -> Seq<Seq<char>> {
    p.map_values(|x: Production| x.head@)
}

/// The bodies of a production table.
pub open spec fn bodies(p: Seq<Production>) -> Seq<Seq<Seq<char>>> {
    p.map_values(|x: Production| body_of(x))
}

/// Pointwise inclusion: `a` holds all of `b`.
pub open spec fn covers(a: Seq<Set<Seq<char>>>, b: Seq<Set<Seq<char>>>) -> bool {
    a.len() == b.len() && forall|i: int| 0 <= i < a.len() ==> b[i].subset_of(#[trigger] a[i])
}

/// The FIRST rules hold of production sets `pfs` and symbol sets `sfs`: FIRST
/// of each body is in FIRST of its production and of its head.
pub open spec fn first_closed(
    names: Seq<Seq<char>>,
    hs: Seq<Seq<char>>,
    bs: Seq<Seq<Seq<char>>>,
    pfs: Seq<Set<Seq<char>>>,
    sfs: Seq<Set<Seq<char>>>,
) -> bool {
    &&& pfs.len() == hs.len()
    &&& sfs.len() == names.len()
    &&& forall|p: int| 0 <= p < hs.len() ==> fos(names, sfs, #[trigger] bs[p]).subset_of(pfs[p])
    &&& forall|p: int, j: int| 0 <= p < hs.len() && 0 <= j < names.len() && #[trigger] names[j] == #[trigger] hs[p]
        ==> fos(names, sfs, bs[p]).subset_of(sfs[j])
}

/// In an ascending list the position of `names[i]` is `i`.
pub proof fn lemma_name_idx(names: Seq<Seq<char>>, i: int)
    requires
        ascending(names),
        0 <= i < names.len(),
    ensures
        names.contains(names[i]),
        name_idx(names, names[i]) == i,
{
    assert(names[i] == names[i]);
    let j = name_idx(names, names[i]);
    if j < i {
        assert(lex_less(names[j], names[i]));
        crate::text::lemma_lex_irreflexive(names[i]);
    } else if j > i {
        assert(lex_less(names[i], names[j]));
        crate::text::lemma_lex_irreflexive(names[i]);
    }
}

/// FIRST of a sequence grows with the FIRST sets of the symbols.
pub proof fn lemma_fos_monotone(names: Seq<Seq<char>>, a: Seq<Set<Seq<char>>>, b: Seq<Set<Seq<char>>>, s: Seq<Seq<char>>)
    requires
        covers(b, a),
        a.len() == names.len(),
    ensures
        fos(names, a, s).subset_of(fos(names, b, s)),
    decreases s.len(),
{
    if s.len() > 0 {
        lemma_fos_monotone(names, a, b, s.drop_first());
        if names.contains(s[0]) {
            let k = name_idx(names, s[0]);
            assert(a[k].subset_of(b[k]));
        }
    }
}

/// FIRST of `s[i..]` unfolds by one symbol.
proof fn lemma_fos_step(names: Seq<Seq<char>>, fs: Seq<Set<Seq<char>>>, s: Seq<Seq<char>>, i: int)
    requires
        0 <= i < s.len(),
    ensures
        fos(names, fs, s.subrange(i, s.len() as int)) == fl(names, fs, s[i]).remove(eps()).union(
            if fl(names, fs, s[i]).contains(eps()) { fos(names, fs, s.subrange(i + 1, s.len() as int)) } else { Set::empty() }),
{
    let t = s.subrange(i, s.len() as int);
    assert(t[0] == s[i]);
    assert(t.drop_first() =~= s.subrange(i + 1, s.len() as int));
}

/// FIRST of the symbol sequence `seq` under the grammar's current FIRST sets.
pub fn first_of_sequence(grammar: &Grammar, seq: &[String]) -> (res: Vec<String>)
    requires
        grammar.wf(),
    ensures
        is_str_set(res@),
        members(res@) == fos(sym_names(grammar.symbols@), sf(grammar.symbols@), strs(seq@)),
{
    let ghost names = sym_names(grammar.symbols@);
    let ghost fs = sf(grammar.symbols@);
    let ghost s = strs(seq@);
    let mut result = new_set();
    proof {
        reveal_strlit("ε");
        assert("ε"@ =~= eps());
    }
    if seq.len() == 0 {
        set_insert(&mut result, "ε");
        assert(members(result@) =~= fos(names, fs, s));
        return result;
    }
    let mut all_can_eps = true;
    let mut i: usize = 0;
    assert(s.subrange(0, s.len() as int) =~= s);
    while i < seq.len() && all_can_eps
        invariant
            grammar.wf(),
            names == sym_names(grammar.symbols@),
            fs == sf(grammar.symbols@),
            s == strs(seq@),
            "ε"@ == eps(),
            i <= seq@.len(),
            is_str_set(result@),
            !members(result@).contains(eps()),
            all_can_eps ==> fos(names, fs, s) == members(result@).union(fos(names, fs, s.subrange(i as int, s.len() as int))),
            !all_can_eps ==> fos(names, fs, s) == members(result@),
        decreases seq@.len() - i,
    {
        proof {
            lemma_fos_step(names, fs, s, i as int);
        }
        assert(s[i as int] == seq@[i as int]@);
        let ghost before = members(result@);
        let ghost f = fl(names, fs, s[i as int]);
        let found = grammar.find_symbol(seq[i].as_str());
        let mut has_eps = false;
        match found {
            Some(j) => {
                proof {
                    crate::lab2::first::lemma_name_idx(names, j as int);
                    assert(names[j as int] == s[i as int]);
                    assert(f == members(grammar.symbols@[j as int].first_set@));
                }
                let fset = &grammar.symbols[j].first_set;
                let mut k: usize = 0;
                while k < fset.len()
                    invariant
                        k <= fset@.len(),
                        "ε"@ == eps(),
                        f == members(fset@),
                        is_str_set(result@),
                        !members(result@).contains(eps()),
                        members(result@) == before.union(strs(fset@).subrange(0, k as int).to_set().remove(eps())),
                        has_eps == strs(fset@).subrange(0, k as int).contains(eps()),
                    decreases fset@.len() - k,
                {
                    let ghost sub = strs(fset@).subrange(0, k as int);
                    let ghost sub2 = strs(fset@).subrange(0, k + 1);
                    assert(sub2 =~= sub.push(strs(fset@)[k as int]));
                    proof {
                        sub.lemma_push_to_set_commute(strs(fset@)[k as int]);
                        assert(sub2.contains(eps()) == (sub.contains(eps()) || strs(fset@)[k as int] == eps())) by {
                            if sub2.contains(eps()) {
                                let q = choose|q: int| 0 <= q < sub2.len() && sub2[q] == eps();
                                if q < k {
                                    assert(sub[q] == eps());
                                }
                            }
                            if sub.contains(eps()) {
                                let q = choose|q: int| 0 <= q < sub.len() && sub[q] == eps();
                                assert(sub2[q] == eps());
                            }
                            if strs(fset@)[k as int] == eps() {
                                assert(sub2[k as int] == eps());
                            }
                        }
                    }
                    assert(strs(fset@)[k as int] == fset@[k as int]@);
                    if str_eq(fset[k].as_str(), "ε") {
                        has_eps = true;
                    } else {
                        set_insert(&mut result, fset[k].as_str());
                    }
                    k = k + 1;
                    proof {
                        assert(sub2.to_set() =~= sub.to_set().insert(strs(fset@)[k - 1]));
                        assert(members(result@) =~= before.union(sub2.to_set().remove(eps())));
                    }
                }
                proof {
                    assert(strs(fset@).subrange(0, k as int) =~= strs(fset@));
                }
            },
            None => {
                proof {
                    assert(!names.contains(s[i as int])) by {
                        if names.contains(s[i as int]) {
                            let j = choose|j: int| 0 <= j < names.len() && names[j] == s[i as int];
                            assert(grammar.symbols@[j].name@ == s[i as int]);
                        }
                    }
                    assert(members(result@) =~= before.union(f.remove(eps())));
                }
            },
        }
        if !has_eps {
            all_can_eps = false;
        }
        i = i + 1;
    }
    if all_can_eps {
        set_insert(&mut result, "ε");
        assert(s.subrange(i as int, s.len() as int) =~= Seq::<Seq<char>>::empty());
        assert(members(result@) =~= fos(names, fs, s));
    }
    result
}


/// The sum of a list of numbers.
pub open spec fn sum_ints(s: Seq<int>) -> int
    decreases s.len(),
{
    if s.len() == 0 {
        0
    } else {
        sum_ints(s.drop_last()) + s.last()
    }
}

/// Replacing one number changes the sum by the difference.
pub proof fn lemma_sum_update(s: Seq<int>, i: int, v: int)
    requires
        0 <= i < s.len(),
    ensures
        sum_ints(s.update(i, v)) == sum_ints(s) - s[i] + v,
    decreases s.len(),
{
    let t = s.update(i, v);
    if i == s.len() - 1 {
        assert(t.drop_last() =~= s.drop_last());
    } else {
        assert(t.drop_last() =~= s.drop_last().update(i, v));
        lemma_sum_update(s.drop_last(), i, v);
    }
}

/// A sum of numbers each at most `b` is at most `len * b`.
pub proof fn lemma_sum_bound(s: Seq<int>, b: int)
    requires
        b >= 0,
        forall|i: int| 0 <= i < s.len() ==> 0 <= #[trigger] s[i] <= b,
    ensures
        0 <= sum_ints(s) <= s.len() * b,
    decreases s.len(),
{
    if s.len() > 0 {
        lemma_sum_bound(s.drop_last(), b);
        assert(s.drop_last().len() * b + b == s.len() * b) by (nonlinear_arith)
            requires
                s.drop_last().len() + 1 == s.len(),
        ;
    }
}

/// The sizes of the production FIRST sets.
pub open spec fn plens(p: Seq<Production>) -> Seq<int> {
    p.map_values(|x: Production| x.first_set@.len() as int)
}

/// The sizes of the symbol FIRST sets.
pub open spec fn slens(s: Seq<GrammarSymbol>) -> Seq<int> {
    s.map_values(|x: GrammarSymbol| x.first_set@.len() as int)
}

/// How many members the FIRST sets of the grammar hold in all.
pub open spec fn first_total(g: Grammar) -> int {
    sum_ints(plens(g.productions@)) + sum_ints(slens(g.symbols@))
}

/// The grammars differ at most in their FIRST sets.
pub open spec fn same_but_first(a: Grammar, b: Grammar) -> bool {
    &&& a.symbols@.len() == b.symbols@.len()
    &&& a.productions@.len() == b.productions@.len()
    &&& forall|j: int| 0 <= j < a.symbols@.len() ==> {
        let x = #[trigger] a.symbols@[j];
        let y = b.symbols@[j];
        &&& x.name@ == y.name@
        &&& x.sym_type == y.sym_type
        &&& x.productions@ == y.productions@
        &&& x.follow_set@ == y.follow_set@
        &&& x.dependent_in_follow@ == y.dependent_in_follow@
    }
    &&& forall|p: int| 0 <= p < a.productions@.len() ==> {
        let x = #[trigger] a.productions@[p];
        let y = b.productions@[p];
        &&& x.production_id == y.production_id
        &&& x.head@ == y.head@
        &&& x.body@ == y.body@
    }
    &&& a.root_symbol@ == b.root_symbol@
    &&& a.aug_root@ == b.aug_root@
    &&& a.terminals@ == b.terminals@
    &&& a.non_terminals@ == b.non_terminals@
}

/// Sets `p` and `s` lie within every closed pair that holds `p0` and `s0`.
pub open spec fn below_closed(
    names: Seq<Seq<char>>,
    hs: Seq<Seq<char>>,
    bs: Seq<Seq<Seq<char>>>,
    p0: Seq<Set<Seq<char>>>,
    s0: Seq<Set<Seq<char>>>,
    p: Seq<Set<Seq<char>>>,
    s: Seq<Set<Seq<char>>>,
) -> bool {
    forall|gp: Seq<Set<Seq<char>>>, gs: Seq<Set<Seq<char>>>|
        #[trigger] first_closed(names, hs, bs, gp, gs) && covers(gp, p0) && covers(gs, s0) ==> covers(gp, p) && covers(gs, s)
}

/// Adding to FIRST of production `q` a member of FIRST of its body, under
/// sets no larger than the current ones, stays within every closed pair.
proof fn lemma_below_add_prod(
    names: Seq<Seq<char>>,
    hs: Seq<Seq<char>>,
    bs: Seq<Seq<Seq<char>>>,
    p0: Seq<Set<Seq<char>>>,
    s0: Seq<Set<Seq<char>>>,
    p: Seq<Set<Seq<char>>>,
    s: Seq<Set<Seq<char>>>,
    sp: Seq<Set<Seq<char>>>,
    q: int,
    x: Seq<char>,
)
    requires
        below_closed(names, hs, bs, p0, s0, p, s),
        covers(s, sp),
        sp.len() == names.len(),
        0 <= q < p.len(),
        fos(names, sp, bs[q]).contains(x),
    ensures
        below_closed(names, hs, bs, p0, s0, p.update(q, p[q].insert(x)), s),
{
    assert forall|gp: Seq<Set<Seq<char>>>, gs: Seq<Set<Seq<char>>>|
        #[trigger] first_closed(names, hs, bs, gp, gs) && covers(gp, p0) && covers(gs, s0) implies
        covers(gp, p.update(q, p[q].insert(x))) && covers(gs, s) by {
        assert(covers(gp, p) && covers(gs, s));
        lemma_fos_monotone(names, sp, gs, bs[q]);
        assert(fos(names, gs, bs[q]).subset_of(gp[q]));
    }
}

/// The same for FIRST of symbol `j`, the head of production `q`.
proof fn lemma_below_add_sym(
    names: Seq<Seq<char>>,
    hs: Seq<Seq<char>>,
    bs: Seq<Seq<Seq<char>>>,
    p0: Seq<Set<Seq<char>>>,
    s0: Seq<Set<Seq<char>>>,
    p: Seq<Set<Seq<char>>>,
    s: Seq<Set<Seq<char>>>,
    sp: Seq<Set<Seq<char>>>,
    q: int,
    j: int,
    x: Seq<char>,
)
    requires
        below_closed(names, hs, bs, p0, s0, p, s),
        covers(s, sp),
        sp.len() == names.len(),
        0 <= q < hs.len(),
        0 <= j < s.len(),
        names[j] == hs[q],
        fos(names, sp, bs[q]).contains(x),
    ensures
        below_closed(names, hs, bs, p0, s0, p, s.update(j, s[j].insert(x))),
{
    assert forall|gp: Seq<Set<Seq<char>>>, gs: Seq<Set<Seq<char>>>|
        #[trigger] first_closed(names, hs, bs, gp, gs) && covers(gp, p0) && covers(gs, s0) implies
        covers(gp, p) && covers(gs, s.update(j, s[j].insert(x))) by {
        assert(covers(gp, p) && covers(gs, s));
        lemma_fos_monotone(names, sp, gs, bs[q]);
        assert(fos(names, gs, bs[q]).subset_of(gs[j]));
    }
}

/// FIRST of a sequence stays within any set holding `ε` and all the FIRST
/// sets.
pub proof fn lemma_fos_within(names: Seq<Seq<char>>, fs: Seq<Set<Seq<char>>>, s: Seq<Seq<char>>, u: Set<Seq<char>>)
    requires
        u.contains(eps()),
        fs.len() == names.len(),
        forall|i: int| 0 <= i < fs.len() ==> (#[trigger] fs[i]).subset_of(u),
    ensures
        fos(names, fs, s).subset_of(u),
    decreases s.len(),
{
    if s.len() > 0 {
        lemma_fos_within(names, fs, s.drop_first(), u);
        if names.contains(s[0]) {
            let k = name_idx(names, s[0]);
            assert(fs[k].subset_of(u));
        }
    }
}

/// Equal grammars but for FIRST sets have the same names, heads and bodies.
pub proof fn lemma_same_but_first_views(a: Grammar, b: Grammar)
    requires
        same_but_first(a, b),
    ensures
        sym_names(a.symbols@) == sym_names(b.symbols@),
        heads(a.productions@) == heads(b.productions@),
        bodies(a.productions@) == bodies(b.productions@),
{
    assert(sym_names(a.symbols@) =~= sym_names(b.symbols@));
    assert(heads(a.productions@) =~= heads(b.productions@));
    assert forall|p: int| 0 <= p < a.productions@.len() implies bodies(a.productions@)[p] == bodies(b.productions@)[p] by {
        assert(a.productions@[p].body@ == b.productions@[p].body@);
    }
    assert(bodies(a.productions@) =~= bodies(b.productions@));
}

/// `ε` and every member of the grammar's FIRST sets.
fn first_universe(g: &Grammar) -> (res: Vec<String>)
    ensures
        is_str_set(res@),
        members(res@).contains(eps()),
        forall|j: int| 0 <= j < g.symbols@.len() ==> (#[trigger] sf(g.symbols@)[j]).subset_of(members(res@)),
        forall|p: int| 0 <= p < g.productions@.len() ==> (#[trigger] pf(g.productions@)[p]).subset_of(members(res@)),
{
    let mut u = new_set();
    proof {
        reveal_strlit("ε");
        assert("ε"@ =~= eps());
    }
    set_insert(&mut u, "ε");
    let mut j: usize = 0;
    while j < g.symbols.len()
        invariant
            j <= g.symbols@.len(),
            is_str_set(u@),
            members(u@).contains(eps()),
            forall|k: int| 0 <= k < j ==> (#[trigger] sf(g.symbols@)[k]).subset_of(members(u@)),
        decreases g.symbols@.len() - j,
    {
        set_union_into(&mut u, &g.symbols[j].first_set);
        j = j + 1;
    }
    let mut p: usize = 0;
    while p < g.productions.len()
        invariant
            p <= g.productions@.len(),
            is_str_set(u@),
            members(u@).contains(eps()),
            forall|k: int| 0 <= k < g.symbols@.len() ==> (#[trigger] sf(g.symbols@)[k]).subset_of(members(u@)),
            forall|k: int| 0 <= k < p ==> (#[trigger] pf(g.productions@)[k]).subset_of(members(u@)),
        decreases g.productions@.len() - p,
    {
        set_union_into(&mut u, &g.productions[p].first_set);
        p = p + 1;
    }
    u
}

/// What computing FIRST keeps: the grammar but for FIRST sets, sets that only
/// grow, stay within every closed pair above the start, and within `u`.
pub open spec fn first_inv(g0: Grammar, g: Grammar, u: Set<Seq<char>>) -> bool {
    let names = sym_names(g0.symbols@);
    let hs = heads(g0.productions@);
    let bs = bodies(g0.productions@);
    &&& g.wf()
    &&& same_but_first(g0, g)
    &&& covers(pf(g.productions@), pf(g0.productions@))
    &&& covers(sf(g.symbols@), sf(g0.symbols@))
    &&& below_closed(names, hs, bs, pf(g0.productions@), sf(g0.symbols@), pf(g.productions@), sf(g.symbols@))
    &&& forall|p: int| 0 <= p < g.productions@.len() ==> (#[trigger] pf(g.productions@)[p]).subset_of(u)
    &&& forall|j: int| 0 <= j < g.symbols@.len() ==> (#[trigger] sf(g.symbols@)[j]).subset_of(u)
}

/// Sets within `u` hold at most `|u|` members each.
proof fn lemma_first_total_bound(g0: Grammar, g: Grammar, u: Set<Seq<char>>)
    requires
        first_inv(g0, g, u),
        u.finite(),
    ensures
        0 <= first_total(g) <= (g.productions@.len() + g.symbols@.len()) * u.len(),
{
    let pl = plens(g.productions@);
    let sl = slens(g.symbols@);
    assert forall|p: int| 0 <= p < pl.len() implies 0 <= #[trigger] pl[p] <= u.len() by {
        crate::lab2::str_set::lemma_set_len(g.productions@[p].first_set@);
        assert(pf(g.productions@)[p].subset_of(u));
        vstd::set_lib::lemma_len_subset(pf(g.productions@)[p], u);
    }
    assert forall|j: int| 0 <= j < sl.len() implies 0 <= #[trigger] sl[j] <= u.len() by {
        assert(crate::lab2::types::sym_wf(g.symbols@[j]));
        crate::lab2::str_set::lemma_set_len(g.symbols@[j].first_set@);
        assert(sf(g.symbols@)[j].subset_of(u));
        vstd::set_lib::lemma_len_subset(sf(g.symbols@)[j], u);
    }
    lemma_sum_bound(pl, u.len() as int);
    lemma_sum_bound(sl, u.len() as int);
    assert(pl.len() * u.len() + sl.len() * u.len() == (pl.len() + sl.len()) * u.len()) by (nonlinear_arith);
}

/// Computes FIRST of every production and every symbol: the least sets,
/// holding the current ones, such that FIRST of each body lies in FIRST of
/// its production and of its head. Nothing else of the grammar changes.
pub fn compute_first_sets(grammar: &mut Grammar)
    requires
        old(grammar).wf(),
    ensures
        final(grammar).wf(),
        same_but_first(*old(grammar), *final(grammar)),
        first_closed(
            sym_names(old(grammar).symbols@),
            heads(old(grammar).productions@),
            bodies(old(grammar).productions@),
            pf(final(grammar).productions@),
            sf(final(grammar).symbols@),
        ),
        covers(pf(final(grammar).productions@), pf(old(grammar).productions@)),
        covers(sf(final(grammar).symbols@), sf(old(grammar).symbols@)),
        below_closed(
            sym_names(old(grammar).symbols@),
            heads(old(grammar).productions@),
            bodies(old(grammar).productions@),
            pf(old(grammar).productions@),
            sf(old(grammar).symbols@),
            pf(final(grammar).productions@),
            sf(final(grammar).symbols@),
        ),
{
    let ghost g0 = *grammar;
    let ghost names = sym_names(g0.symbols@);
    let ghost hs = heads(g0.productions@);
    let ghost bs = bodies(g0.productions@);
    let universe = first_universe(grammar);
    let ghost u = members(universe@);
    proof {
        crate::lab2::str_set::lemma_set_len(universe@);
        assert(covers(pf(g0.productions@), pf(g0.productions@)));
        assert(covers(sf(g0.symbols@), sf(g0.symbols@)));
        assert(same_but_first(g0, g0));
        lemma_first_total_bound(g0, g0, u);
    }
    let ghost bound = (g0.productions@.len() + g0.symbols@.len()) * u.len();
    let mut changed = true;
    while changed
        invariant
            first_inv(g0, *grammar, u),
            u.finite(),
            u.contains(eps()),
            names == sym_names(g0.symbols@),
            hs == heads(g0.productions@),
            bs == bodies(g0.productions@),
            bound == (g0.productions@.len() + g0.symbols@.len()) * u.len(),
            0 <= first_total(*grammar) <= bound,
            !changed ==> first_closed(names, hs, bs, pf(grammar.productions@), sf(grammar.symbols@)),
        decreases bound - first_total(*grammar) + (if changed { 1int } else { 0int }),
    {
        let ghost t0 = first_total(*grammar);
        let ghost pp0 = pf(grammar.productions@);
        let ghost ss0 = sf(grammar.symbols@);
        changed = false;
        let np = grammar.productions.len();
        let mut p: usize = 0;
        while p < np
            invariant
                first_inv(g0, *grammar, u),
                u.contains(eps()),
                names == sym_names(g0.symbols@),
                hs == heads(g0.productions@),
                bs == bodies(g0.productions@),
                np == grammar.productions@.len(),
                p <= np,
                first_total(*grammar) >= t0,
                changed ==> first_total(*grammar) > t0,
                !changed ==> pf(grammar.productions@) == pp0 && sf(grammar.symbols@) == ss0,
                !changed ==> forall|q: int| 0 <= q < p ==> fos(names, ss0, #[trigger] bs[q]).subset_of(pp0[q]),
                !changed ==> forall|q: int, j: int| 0 <= q < p && 0 <= j < names.len() && #[trigger] names[j] == #[trigger] hs[q]
                    ==> fos(names, ss0, bs[q]).subset_of(ss0[j]),
            decreases np - p,
        {
            proof {
                lemma_same_but_first_views(g0, *grammar);
                assert(bs[p as int] == strs(grammar.productions@[p as int].body@));
            }
            let new_fs = first_of_sequence(grammar, grammar.productions[p].body.as_slice());
            let h = grammar.find_symbol(grammar.productions[p].head.as_str());
            let ghost sp = sf(grammar.symbols@);
            let ghost pp1 = pf(grammar.productions@);
            proof {
                assert(hs[p as int] == grammar.productions@[p as int].head@);
                if let Some(j) = h {
                    assert(names[j as int] == grammar.symbols@[j as int].name@);
                }
                assert(members(new_fs@) == fos(names, sp, bs[p as int]));
            }
            let mut k: usize = 0;
            while k < new_fs.len()
                invariant
                    first_inv(g0, *grammar, u),
                    u.contains(eps()),
                u.contains(eps()),
                    names == sym_names(g0.symbols@),
                    hs == heads(g0.productions@),
                    bs == bodies(g0.productions@),
                    np == grammar.productions@.len(),
                    p < np,
                    k <= new_fs@.len(),
                    sp.len() == names.len(),
                    forall|j: int| 0 <= j < sp.len() ==> (#[trigger] sp[j]).subset_of(u),
                    members(new_fs@) == fos(names, sp, bs[p as int]),
                    covers(sf(grammar.symbols@), sp),
                    match h {
                        Some(j) => j < names.len() && names[j as int] == hs[p as int],
                        None => !names.contains(hs[p as int]),
                    },
                    forall|q: int| 0 <= q < k ==> pf(grammar.productions@)[p as int].contains(#[trigger] new_fs@[q]@),
                    forall|q: int| 0 <= q < k ==> match h {
                        Some(j) => sf(grammar.symbols@)[j as int].contains(#[trigger] new_fs@[q]@),
                        None => true,
                    },
                    first_total(*grammar) >= t0,
                    changed ==> first_total(*grammar) > t0,
                    !changed ==> pf(grammar.productions@) == pp0 && sf(grammar.symbols@) == ss0,
                    !changed ==> pp1 == pp0 && sp == ss0,
                    !changed ==> forall|q: int| 0 <= q < p ==> fos(names, ss0, #[trigger] bs[q]).subset_of(pp0[q]),
                    !changed ==> forall|q: int, j: int| 0 <= q < p && 0 <= j < names.len() && #[trigger] names[j] == #[trigger] hs[q]
                        ==> fos(names, ss0, bs[q]).subset_of(ss0[j]),
                decreases new_fs@.len() - k,
            {
                let ghost x = new_fs@[k as int]@;
                proof {
                    assert(strs(new_fs@)[k as int] == x);
                    assert(members(new_fs@).contains(x));
                }
                let ghost ga = *grammar;
                if set_insert(&mut grammar.productions[p].first_set, new_fs[k].as_str()) {
                    changed = true;
                }
                proof {
                    let gb = *grammar;
                    assert(pf(gb.productions@) =~= pf(ga.productions@).update(p as int, pf(ga.productions@)[p as int].insert(x)));
                    lemma_below_add_prod(names, hs, bs, pf(g0.productions@), sf(g0.symbols@), pf(ga.productions@),
                        sf(ga.symbols@), sp, p as int, x);
                    if gb.productions@[p as int].first_set@.len() > ga.productions@[p as int].first_set@.len() {
                        assert(plens(gb.productions@) =~= plens(ga.productions@).update(p as int,
                            gb.productions@[p as int].first_set@.len() as int));
                        lemma_sum_update(plens(ga.productions@), p as int, gb.productions@[p as int].first_set@.len() as int);
                    } else {
                        assert(plens(gb.productions@) =~= plens(ga.productions@));
                    }
                    assert(sf(gb.symbols@) =~= sf(ga.symbols@));
                    assert(slens(gb.symbols@) =~= slens(ga.symbols@));
                    lemma_fos_within(names, sp, bs[p as int], u);
                    assert(same_but_first(g0, gb));
                }
                match h {
                    Some(j) => {
                        let ghost gc = *grammar;
                        if set_insert(&mut grammar.symbols[j].first_set, new_fs[k].as_str()) {
                            changed = true;
                        }
                        proof {
                            let gd = *grammar;
                            assert(sf(gd.symbols@) =~= sf(gc.symbols@).update(j as int, sf(gc.symbols@)[j as int].insert(x)));
                            lemma_below_add_sym(names, hs, bs, pf(g0.productions@), sf(g0.symbols@), pf(gc.productions@),
                                sf(gc.symbols@), sp, p as int, j as int, x);
                            if gd.symbols@[j as int].first_set@.len() > gc.symbols@[j as int].first_set@.len() {
                                assert(slens(gd.symbols@) =~= slens(gc.symbols@).update(j as int,
                                    gd.symbols@[j as int].first_set@.len() as int));
                                lemma_sum_update(slens(gc.symbols@), j as int, gd.symbols@[j as int].first_set@.len() as int);
                            } else {
                                assert(slens(gd.symbols@) =~= slens(gc.symbols@));
                            }
                            assert(pf(gd.productions@) =~= pf(gc.productions@));
                            assert(plens(gd.productions@) =~= plens(gc.productions@));
                            assert(sym_names(gd.symbols@) =~= sym_names(gc.symbols@));
                            assert(same_but_first(g0, gd));
                        }
                    },
                    None => {},
                }
                k = k + 1;
            }
            proof {
                assert forall|y: Seq<char>| fos(names, sp, bs[p as int]).contains(y) implies pf(grammar.productions@)[p as int].contains(y) by {
                    let q = choose|q: int| 0 <= q < strs(new_fs@).len() && strs(new_fs@)[q] == y;
                    assert(new_fs@[q]@ == y);
                }
                if !changed {
                    assert forall|q: int, j: int| 0 <= q <= p && 0 <= j < names.len() && #[trigger] names[j] == #[trigger] hs[q]
                        implies fos(names, ss0, bs[q]).subset_of(ss0[j]) by {
                        if q == p {
                            match h {
                                Some(jj) => {
                                    crate::lab2::first::lemma_name_idx(names, j);
                                    crate::lab2::first::lemma_name_idx(names, jj as int);
                                    assert forall|y: Seq<char>| fos(names, sp, bs[p as int]).contains(y) implies ss0[j].contains(y) by {
                                        let q2 = choose|q2: int| 0 <= q2 < strs(new_fs@).len() && strs(new_fs@)[q2] == y;
                                        assert(new_fs@[q2]@ == y);
                                    }
                                },
                                None => {
                                    assert(names.contains(hs[p as int]));
                                },
                            }
                        }
                    }
                }
            }
            p = p + 1;
        }
        proof {
            lemma_first_total_bound(g0, *grammar, u);
        }
    }
    proof {
        lemma_same_but_first_views(g0, *grammar);
    }
}
} // verus!
