//! FOLLOW sets of the grammar's symbols: the least sets, holding `$` for the
//! start symbols, closed under the FOLLOW rules.
use vstd::prelude::*;
use crate::lab2::first::{
    covers, first_of_sequence, fl, fos, heads, bodies, lemma_fos_within, lemma_name_idx, lemma_sum_bound,
    lemma_sum_update, name_idx, sf, sum_ints,
};
use crate::lab2::str_set::{is_str_set, members, new_set, set_contains, set_copy, set_insert, set_union_into, strs};
use crate::lab2::types::{end_marker, eps, sym_names, sym_wf, Grammar, GrammarSymbol, SymbolType};
use crate::text::str_eq;

verus! {

/// The FOLLOW sets of a symbol table.
pub open spec fn flw(s: Seq<GrammarSymbol>) -> Seq<Set<Seq<char>>> {
    s.map_values(|x: GrammarSymbol| members(x.follow_set@))
}

/// The recorded FOLLOW dependencies of a symbol table.
pub open spec fn dps(s: Seq<GrammarSymbol>) -> Seq<Set<Seq<char>>> {
    s.map_values(|x: GrammarSymbol| members(x.dependent_in_follow@))
}

/// The kinds of the symbols of a table.
pub open spec fn kinds(s: Seq<GrammarSymbol>) -> Seq<SymbolType> {
    s.map_values(|x: GrammarSymbol| x.sym_type)
}

/// What follows position `i` of a body.
pub open spec fn beta(b: Seq<Seq<char>>, i: int) -> Seq<Seq<char>> {
    b.subrange(i + 1, b.len() as int)
}

/// Position `i` of body `p` holds non-terminal `j`.
pub open spec fn follow_site(names: Seq<Seq<char>>, ks: Seq<SymbolType>, bs: Seq<Seq<Seq<char>>>, p: int, i: int, j: int) -> bool {
    &&& 0 <= p < bs.len()
    &&& 0 <= i < bs[p].len()
    &&& 0 <= j < names.len()
    &&& j < ks.len()
    &&& names[j] == bs[p][i]
    &&& ks[j] == SymbolType::NonTerminal
}

/// Position `i` of body `p` holds non-terminal `j` and what follows derives `ε`.
pub open spec fn dep_site(
    names: Seq<Seq<char>>,
    ks: Seq<SymbolType>,
    fs: Seq<Set<Seq<char>>>,
    bs: Seq<Seq<Seq<char>>>,
    p: int,
    i: int,
    j: int,
) -> bool {
    follow_site(names, ks, bs, p, i, j) && fos(names, fs, beta(bs[p], i)).contains(eps())
}

/// The FOLLOW rules hold of `fo`: at each non-terminal `B` of a body
/// `A → α B β`, FIRST(β) without `ε` is in FOLLOW(B), and FOLLOW(A) is too
/// where β derives `ε`.
pub open spec fn follow_closed(
    names: Seq<Seq<char>>,
    ks: Seq<SymbolType>,
    fs: Seq<Set<Seq<char>>>,
    hs: Seq<Seq<char>>,
    bs: Seq<Seq<Seq<char>>>,
    fo: Seq<Set<Seq<char>>>,
) -> bool {
    &&& fo.len() == names.len()
    &&& forall|p: int, i: int, j: int| #[trigger] follow_site(names, ks, bs, p, i, j) ==> {
        &&& fos(names, fs, beta(bs[p], i)).remove(eps()).subset_of(fo[j])
        &&& (fos(names, fs, beta(bs[p], i)).contains(eps()) ==> fl(names, fo, hs[p]).subset_of(fo[j]))
    }
}

/// `fo` lies within every closed assignment that holds `seed`.
pub open spec fn below_follow(
    names: Seq<Seq<char>>,
    ks: Seq<SymbolType>,
    fs: Seq<Set<Seq<char>>>,
    hs: Seq<Seq<char>>,
    bs: Seq<Seq<Seq<char>>>,
    seed: Seq<Set<Seq<char>>>,
    fo: Seq<Set<Seq<char>>>,
) -> bool {
    forall|g: Seq<Set<Seq<char>>>| #[trigger] follow_closed(names, ks, fs, hs, bs, g) && covers(g, seed) ==> covers(g, fo)
}

/// The starting FOLLOW sets: the current ones with `$` added for the
/// augmented start symbol `a` and the start symbol `r`.
pub open spec fn follow_seed(names: Seq<Seq<char>>, fo: Seq<Set<Seq<char>>>, a: Seq<char>, r: Seq<char>) -> Seq<Set<Seq<char>>> {
    let s1 = fo.update(name_idx(names, a), fo[name_idx(names, a)].insert(end_marker()));
    s1.update(name_idx(names, r), s1[name_idx(names, r)].insert(end_marker()))
}

/// The grammars differ at most in FOLLOW sets and FOLLOW dependencies.
pub open spec fn same_but_follow(a: Grammar, b: Grammar) -> bool {
    &&& a.symbols@.len() == b.symbols@.len()
    &&& a.productions@.len() == b.productions@.len()
    &&& forall|j: int| 0 <= j < a.symbols@.len() ==> {
        let x = #[trigger] a.symbols@[j];
        let y = b.symbols@[j];
        &&& x.name@ == y.name@
        &&& x.sym_type == y.sym_type
        &&& x.productions@ == y.productions@
        &&& x.first_set@ == y.first_set@
    }
    &&& a.productions@ == b.productions@
    &&& a.root_symbol@ == b.root_symbol@
    &&& a.aug_root@ == b.aug_root@
    &&& a.terminals@ == b.terminals@
    &&& a.non_terminals@ == b.non_terminals@
}

/// Grammars equal but for FOLLOW have the same names, kinds and FIRST sets.
pub proof fn lemma_same_but_follow_views(a: Grammar, b: Grammar)
    requires
        same_but_follow(a, b),
    ensures
        sym_names(a.symbols@) == sym_names(b.symbols@),
        kinds(a.symbols@) == kinds(b.symbols@),
        sf(a.symbols@) == sf(b.symbols@),
{
    assert(sym_names(a.symbols@) =~= sym_names(b.symbols@));
    assert(kinds(a.symbols@) =~= kinds(b.symbols@));
    assert forall|j: int| 0 <= j < a.symbols@.len() implies sf(a.symbols@)[j] == sf(b.symbols@)[j] by {
        assert(a.symbols@[j].first_set@ == b.symbols@[j].first_set@);
    }
    assert(sf(a.symbols@) =~= sf(b.symbols@));
}

/// Adding a member of FIRST(β) to FOLLOW(B) stays within every closed
/// assignment.
proof fn lemma_below_r2(
    names: Seq<Seq<char>>,
    ks: Seq<SymbolType>,
    fs: Seq<Set<Seq<char>>>,
    hs: Seq<Seq<char>>,
    bs: Seq<Seq<Seq<char>>>,
    seed: Seq<Set<Seq<char>>>,
    fo: Seq<Set<Seq<char>>>,
    p: int,
    i: int,
    j: int,
    x: Seq<char>,
)
    requires
        below_follow(names, ks, fs, hs, bs, seed, fo),
        follow_site(names, ks, bs, p, i, j),
        j < fo.len(),
        fos(names, fs, beta(bs[p], i)).remove(eps()).contains(x),
    ensures
        below_follow(names, ks, fs, hs, bs, seed, fo.update(j, fo[j].insert(x))),
{
    assert forall|g: Seq<Set<Seq<char>>>| #[trigger] follow_closed(names, ks, fs, hs, bs, g) && covers(g, seed)
        implies covers(g, fo.update(j, fo[j].insert(x))) by {
        assert(covers(g, fo));
        assert(follow_site(names, ks, bs, p, i, j));
    }
}

/// Adding a member of FOLLOW(A), as it was a moment ago, to FOLLOW(B) where
/// β derives `ε` stays within every closed assignment.
proof fn lemma_below_r3(
    names: Seq<Seq<char>>,
    ks: Seq<SymbolType>,
    fs: Seq<Set<Seq<char>>>,
    hs: Seq<Seq<char>>,
    bs: Seq<Seq<Seq<char>>>,
    seed: Seq<Set<Seq<char>>>,
    fo: Seq<Set<Seq<char>>>,
    snap: Seq<Set<Seq<char>>>,
    p: int,
    i: int,
    j: int,
    x: Seq<char>,
)
    requires
        below_follow(names, ks, fs, hs, bs, seed, fo),
        covers(fo, snap),
        fo.len() == names.len(),
        follow_site(names, ks, bs, p, i, j),
        fos(names, fs, beta(bs[p], i)).contains(eps()),
        fl(names, snap, hs[p]).contains(x),
    ensures
        below_follow(names, ks, fs, hs, bs, seed, fo.update(j, fo[j].insert(x))),
{
    assert forall|g: Seq<Set<Seq<char>>>| #[trigger] follow_closed(names, ks, fs, hs, bs, g) && covers(g, seed)
        implies covers(g, fo.update(j, fo[j].insert(x))) by {
        assert(covers(g, fo));
        assert(follow_site(names, ks, bs, p, i, j));
        let k = name_idx(names, hs[p]);
        assert(snap[k].subset_of(fo[k]));
        assert(fo[k].subset_of(g[k]));
    }
}

/// The strings of `v` from position `start` on.
pub fn suffix_of(v: &Vec<String>, start: usize) -> (res: Vec<String>)
    requires
        start <= v@.len(),
    ensures
        strs(res@) == strs(v@).subrange(start as int, v@.len() as int),
{
    let mut res: Vec<String> = Vec::new();
    let mut i: usize = start;
    while i < v.len()
        invariant
            start <= i <= v@.len(),
            res@.len() == i - start,
            strs(res@) == strs(v@).subrange(start as int, i as int),
        decreases v@.len() - i,
    {
        let c = v[i].clone();
        let ghost before = res@;
        res.push(c);
        proof {
            assert forall|k: int| 0 <= k < res@.len() implies #[trigger] strs(res@)[k] == strs(v@).subrange(start as int, i + 1)[k] by {
                if k < before.len() {
                    assert(strs(before)[k] == strs(v@).subrange(start as int, i as int)[k]);
                }
            }
        }
        i = i + 1;
        assert(strs(res@) =~= strs(v@).subrange(start as int, i as int));
    }
    res
}


/// The sizes of the FOLLOW sets.
pub open spec fn flens(s: Seq<GrammarSymbol>) -> Seq<int> {
    s.map_values(|x: GrammarSymbol| x.follow_set@.len() as int)
}

/// What computing FOLLOW keeps: the grammar but for FOLLOW and its
/// dependencies, FOLLOW sets that hold the seed, lie within every closed
/// assignment holding it and within `u`, and dependencies that only grow,
/// each one recorded at a site where what follows derives `ε`.
pub open spec fn follow_inv(g0: Grammar, g: Grammar, seed: Seq<Set<Seq<char>>>, u: Set<Seq<char>>) -> bool {
    let names = sym_names(g0.symbols@);
    let ks = kinds(g0.symbols@);
    let fs = sf(g0.symbols@);
    let hs = heads(g0.productions@);
    let bs = bodies(g0.productions@);
    &&& g.wf()
    &&& same_but_follow(g0, g)
    &&& covers(flw(g.symbols@), seed)
    &&& below_follow(names, ks, fs, hs, bs, seed, flw(g.symbols@))
    &&& forall|j: int| 0 <= j < g.symbols@.len() ==> (#[trigger] flw(g.symbols@)[j]).subset_of(u)
    &&& forall|j: int| 0 <= j < fs.len() ==> (#[trigger] fs[j]).subset_of(u)
    &&& fs.len() == names.len()
    &&& covers(dps(g.symbols@), dps(g0.symbols@))
    &&& forall|j: int, h: Seq<char>| 0 <= j < g.symbols@.len() && (#[trigger] dps(g.symbols@)[j].contains(h))
        ==> dps(g0.symbols@)[j].contains(h) || exists|p: int, i: int| #[trigger] dep_site(names, ks, fs, bs, p, i, j) && hs[p] == h
}

/// Adds to FOLLOW(B), for the non-terminal `B` at position `i` of production
/// `p` (head `head`), FIRST of what follows without `ε`, and, where that
/// derives `ε`, records the dependency on `head` and adds `head_follow`,
/// FOLLOW(head) as it was a moment ago. Says whether a FOLLOW set grew.
fn follow_at(
    grammar: &mut Grammar,
    p: usize,
    i: usize,
    head: &str,
    head_follow: &Vec<String>,
    Ghost(g0): Ghost<Grammar>,
    Ghost(seed): Ghost<Seq<Set<Seq<char>>>>,
    Ghost(u): Ghost<Set<Seq<char>>>,
    Ghost(snap): Ghost<Seq<Set<Seq<char>>>>,
) -> (grew: bool)
    requires
        follow_inv(g0, *old(grammar), seed, u),
        u.contains(eps()),
        p < g0.productions@.len(),
        i < bodies(g0.productions@)[p as int].len(),
        head@ == heads(g0.productions@)[p as int],
        snap.len() == g0.symbols@.len(),
        covers(flw(old(grammar).symbols@), snap),
        members(head_follow@) == fl(sym_names(g0.symbols@), snap, head@),
        forall|j: int| 0 <= j < snap.len() ==> (#[trigger] snap[j]).subset_of(u),
    ensures
        follow_inv(g0, *final(grammar), seed, u),
        covers(flw(final(grammar).symbols@), flw(old(grammar).symbols@)),
        covers(dps(final(grammar).symbols@), dps(old(grammar).symbols@)),
        sum_ints(flens(final(grammar).symbols@)) >= sum_ints(flens(old(grammar).symbols@)),
        grew ==> sum_ints(flens(final(grammar).symbols@)) > sum_ints(flens(old(grammar).symbols@)),
        !grew ==> flw(final(grammar).symbols@) == flw(old(grammar).symbols@),
        forall|j: int| #[trigger] follow_site(sym_names(g0.symbols@), kinds(g0.symbols@), bodies(g0.productions@), p as int, i as int, j) ==> {
            let fb = fos(sym_names(g0.symbols@), sf(g0.symbols@), beta(bodies(g0.productions@)[p as int], i as int));
            &&& fb.remove(eps()).subset_of(flw(final(grammar).symbols@)[j])
            &&& (fb.contains(eps()) ==> fl(sym_names(g0.symbols@), snap, head@).subset_of(flw(final(grammar).symbols@)[j]))
        },
        forall|j: int| #[trigger] dep_site(sym_names(g0.symbols@), kinds(g0.symbols@), sf(g0.symbols@), bodies(g0.productions@), p as int, i as int, j)
            ==> dps(final(grammar).symbols@)[j].contains(heads(g0.productions@)[p as int]),
{
    let ghost names = sym_names(g0.symbols@);
    let ghost ks = kinds(g0.symbols@);
    let ghost fs = sf(g0.symbols@);
    let ghost hs = heads(g0.productions@);
    let ghost bs = bodies(g0.productions@);
    let ghost start = *grammar;
    proof {
        lemma_same_but_follow_views(g0, *grammar);
        reveal_strlit("ε");
        assert("ε"@ =~= eps());
        assert(grammar.productions@ == g0.productions@);
        assert(bs[p as int] == strs(grammar.productions@[p as int].body@));
    }
    let yi = grammar.productions[p].body[i].clone();
    assert(yi@ == bs[p as int][i as int]);
    if !grammar.is_nonterminal(yi.as_str()) {
        proof {
            assert forall|j: int| #[trigger] follow_site(names, ks, bs, p as int, i as int, j) implies false by {
                assert(names[j] == grammar.symbols@[j].name@);
                crate::lab2::types::lemma_sym_at(grammar.symbols@, j);
            }
            assert forall|j: int| #[trigger] dep_site(names, ks, fs, bs, p as int, i as int, j) implies false by {
                assert(follow_site(names, ks, bs, p as int, i as int, j));
            }
        }
        return false;
    }
    let b = match grammar.find_symbol(yi.as_str()) {
        Some(b) => b,
        None => {
            return false;
        },
    };
    proof {
        assert(names[b as int] == yi@);
        lemma_name_idx(names, b as int);
        assert(ks[b as int] == SymbolType::NonTerminal);
        assert(follow_site(names, ks, bs, p as int, i as int, b as int));
    }
    let blen = grammar.productions[p].body.len();
    assert(i < blen);
    let rest = suffix_of(&grammar.productions[p].body, i + 1);
    assert(strs(rest@) == beta(bs[p as int], i as int));
    let first_beta = first_of_sequence(grammar, rest.as_slice());
    let ghost fb = fos(names, fs, beta(bs[p as int], i as int));
    assert(members(first_beta@) == fb);
    let mut grew = false;
    let mut k: usize = 0;
    while k < first_beta.len()
        invariant
            follow_inv(g0, *grammar, seed, u),
            u.contains(eps()),
            "ε"@ == eps(),
            names == sym_names(g0.symbols@),
            ks == kinds(g0.symbols@),
            fs == sf(g0.symbols@),
            hs == heads(g0.productions@),
            bs == bodies(g0.productions@),
            follow_site(names, ks, bs, p as int, i as int, b as int),
            b < grammar.symbols@.len(),
            k <= first_beta@.len(),
            members(first_beta@) == fb,
            fb == fos(names, fs, beta(bs[p as int], i as int)),
            covers(flw(grammar.symbols@), flw(start.symbols@)),
            covers(dps(grammar.symbols@), dps(start.symbols@)),
            sum_ints(flens(grammar.symbols@)) >= sum_ints(flens(start.symbols@)),
            grew ==> sum_ints(flens(grammar.symbols@)) > sum_ints(flens(start.symbols@)),
            !grew ==> flw(grammar.symbols@) == flw(start.symbols@),
            forall|q: int| 0 <= q < k && first_beta@[q]@ != eps() ==> flw(grammar.symbols@)[b as int].contains(#[trigger] first_beta@[q]@),
        decreases first_beta@.len() - k,
    {
        let ghost x = first_beta@[k as int]@;
        proof {
            assert(strs(first_beta@)[k as int] == x);
            assert(fb.contains(x));
        }
        if !str_eq(first_beta[k].as_str(), "ε") {
            let ghost ga = *grammar;
            if set_insert(&mut grammar.symbols[b].follow_set, first_beta[k].as_str()) {
                grew = true;
            }
            proof {
                let gb = *grammar;
                assert(flw(gb.symbols@) =~= flw(ga.symbols@).update(b as int, flw(ga.symbols@)[b as int].insert(x)));
                lemma_below_r2(names, ks, fs, hs, bs, seed, flw(ga.symbols@), p as int, i as int, b as int, x);
                if gb.symbols@[b as int].follow_set@.len() > ga.symbols@[b as int].follow_set@.len() {
                    assert(flens(gb.symbols@) =~= flens(ga.symbols@).update(b as int, gb.symbols@[b as int].follow_set@.len() as int));
                    lemma_sum_update(flens(ga.symbols@), b as int, gb.symbols@[b as int].follow_set@.len() as int);
                } else {
                    assert(flens(gb.symbols@) =~= flens(ga.symbols@));
                }
                assert(dps(gb.symbols@) =~= dps(ga.symbols@));
                assert(sym_names(gb.symbols@) =~= sym_names(ga.symbols@));
                lemma_fos_within(names, fs, beta(bs[p as int], i as int), u);
                assert(same_but_follow(g0, gb));
                assert(sym_wf(gb.symbols@[b as int]));
            }
        }
        k = k + 1;
    }
    proof {
        assert forall|y: Seq<char>| fb.remove(eps()).contains(y) implies flw(grammar.symbols@)[b as int].contains(y) by {
            let q = choose|q: int| 0 <= q < strs(first_beta@).len() && strs(first_beta@)[q] == y;
            assert(first_beta@[q]@ == y);
        }
    }
    let has_eps = set_contains(&first_beta, "ε");
    if has_eps || rest.len() == 0 {
        proof {
            if rest.len() == 0 {
                assert(beta(bs[p as int], i as int) =~= Seq::<Seq<char>>::empty());
            }
            assert(fb.contains(eps()));
        }
        let ghost gc = *grammar;
        set_insert(&mut grammar.symbols[b].dependent_in_follow, head);
        proof {
            let gd = *grammar;
            assert(dps(gd.symbols@) =~= dps(gc.symbols@).update(b as int, dps(gc.symbols@)[b as int].insert(head@)));
            assert(flw(gd.symbols@) =~= flw(gc.symbols@));
            assert(flens(gd.symbols@) =~= flens(gc.symbols@));
            assert(sym_names(gd.symbols@) =~= sym_names(gc.symbols@));
            assert(dep_site(names, ks, fs, bs, p as int, i as int, b as int));
            assert forall|j: int, h: Seq<char>| 0 <= j < gd.symbols@.len() && (#[trigger] dps(gd.symbols@)[j].contains(h))
                implies dps(g0.symbols@)[j].contains(h) || exists|p2: int, i2: int| #[trigger] dep_site(names, ks, fs, bs, p2, i2, j) && hs[p2] == h by {
                if j == b && h == head@ {
                    assert(dep_site(names, ks, fs, bs, p as int, i as int, j) && hs[p as int] == h);
                } else {
                    assert(dps(gc.symbols@)[j].contains(h));
                }
            }
            assert(same_but_follow(g0, gd));
            assert(sym_wf(gd.symbols@[b as int]));
        }
        let mut m: usize = 0;
        while m < head_follow.len()
            invariant
                follow_inv(g0, *grammar, seed, u),
                names == sym_names(g0.symbols@),
                ks == kinds(g0.symbols@),
                fs == sf(g0.symbols@),
                hs == heads(g0.productions@),
                bs == bodies(g0.productions@),
                follow_site(names, ks, bs, p as int, i as int, b as int),
                fb == fos(names, fs, beta(bs[p as int], i as int)),
                fb.contains(eps()),
                b < grammar.symbols@.len(),
                m <= head_follow@.len(),
                snap.len() == names.len(),
                covers(flw(start.symbols@), snap),
                members(head_follow@) == fl(names, snap, head@),
                head@ == hs[p as int],
                forall|j: int| 0 <= j < snap.len() ==> (#[trigger] snap[j]).subset_of(u),
                covers(flw(grammar.symbols@), flw(start.symbols@)),
                covers(dps(grammar.symbols@), dps(start.symbols@)),
                dps(grammar.symbols@)[b as int].contains(head@),
                sum_ints(flens(grammar.symbols@)) >= sum_ints(flens(start.symbols@)),
                grew ==> sum_ints(flens(grammar.symbols@)) > sum_ints(flens(start.symbols@)),
                !grew ==> flw(grammar.symbols@) == flw(start.symbols@),
                fb.remove(eps()).subset_of(flw(grammar.symbols@)[b as int]),
                forall|q: int| 0 <= q < m ==> flw(grammar.symbols@)[b as int].contains(#[trigger] head_follow@[q]@),
            decreases head_follow@.len() - m,
        {
            let ghost x = head_follow@[m as int]@;
            proof {
                assert(strs(head_follow@)[m as int] == x);
                assert(fl(names, snap, head@).contains(x));
                if names.contains(head@) {
                    let kk = name_idx(names, head@);
                    assert(snap[kk].subset_of(u));
                }
            }
            let ghost ga = *grammar;
            if set_insert(&mut grammar.symbols[b].follow_set, head_follow[m].as_str()) {
                grew = true;
            }
            proof {
                let gb = *grammar;
                assert(flw(gb.symbols@) =~= flw(ga.symbols@).update(b as int, flw(ga.symbols@)[b as int].insert(x)));
                lemma_below_r3(names, ks, fs, hs, bs, seed, flw(ga.symbols@), snap, p as int, i as int, b as int, x);
                if gb.symbols@[b as int].follow_set@.len() > ga.symbols@[b as int].follow_set@.len() {
                    assert(flens(gb.symbols@) =~= flens(ga.symbols@).update(b as int, gb.symbols@[b as int].follow_set@.len() as int));
                    lemma_sum_update(flens(ga.symbols@), b as int, gb.symbols@[b as int].follow_set@.len() as int);
                } else {
                    assert(flens(gb.symbols@) =~= flens(ga.symbols@));
                }
                assert(dps(gb.symbols@) =~= dps(ga.symbols@));
                assert(sym_names(gb.symbols@) =~= sym_names(ga.symbols@));
                assert(same_but_follow(g0, gb));
                assert(sym_wf(gb.symbols@[b as int]));
            }
            m = m + 1;
        }
        proof {
            assert forall|j: int| #[trigger] follow_site(names, ks, bs, p as int, i as int, j) implies
                fl(names, snap, head@).subset_of(flw(grammar.symbols@)[j]) by {
                lemma_name_idx(names, j);
                assert forall|y: Seq<char>| fl(names, snap, head@).contains(y) implies flw(grammar.symbols@)[j].contains(y) by {
                    let q = choose|q: int| 0 <= q < strs(head_follow@).len() && strs(head_follow@)[q] == y;
                    assert(head_follow@[q]@ == y);
                }
            }
            assert forall|j: int| #[trigger] dep_site(names, ks, fs, bs, p as int, i as int, j)
                implies dps(grammar.symbols@)[j].contains(hs[p as int]) by {
                lemma_name_idx(names, j);
            }
        }
    } else {
        proof {
            if rest.len() == 0 {
                assert(beta(bs[p as int], i as int) =~= Seq::<Seq<char>>::empty());
            }
            assert(!fb.contains(eps()));
            assert forall|j: int| #[trigger] dep_site(names, ks, fs, bs, p as int, i as int, j) implies false by {}
        }
    }
    proof {
        assert forall|j: int| #[trigger] follow_site(names, ks, bs, p as int, i as int, j) implies
            fb.remove(eps()).subset_of(flw(grammar.symbols@)[j]) by {
            lemma_name_idx(names, j);
            lemma_name_idx(names, b as int);
        }
    }
    grew
}

/// `ε`, `$`, and every member of the grammar's FIRST and FOLLOW sets.
fn follow_universe(g: &Grammar) -> (res: Vec<String>)
    ensures
        is_str_set(res@),
        members(res@).contains(eps()),
        members(res@).contains(end_marker()),
        forall|j: int| 0 <= j < g.symbols@.len() ==> (#[trigger] sf(g.symbols@)[j]).subset_of(members(res@)),
        forall|j: int| 0 <= j < g.symbols@.len() ==> (#[trigger] flw(g.symbols@)[j]).subset_of(members(res@)),
{
    let mut u = new_set();
    proof {
        reveal_strlit("ε");
        assert("ε"@ =~= eps());
        reveal_strlit("$");
        assert("$"@ =~= end_marker());
    }
    set_insert(&mut u, "ε");
    set_insert(&mut u, "$");
    let mut j: usize = 0;
    while j < g.symbols.len()
        invariant
            j <= g.symbols@.len(),
            is_str_set(u@),
            members(u@).contains(eps()),
            members(u@).contains(end_marker()),
            forall|k: int| 0 <= k < j ==> (#[trigger] sf(g.symbols@)[k]).subset_of(members(u@)),
            forall|k: int| 0 <= k < j ==> (#[trigger] flw(g.symbols@)[k]).subset_of(members(u@)),
        decreases g.symbols@.len() - j,
    {
        set_union_into(&mut u, &g.symbols[j].first_set);
        set_union_into(&mut u, &g.symbols[j].follow_set);
        j = j + 1;
    }
    u
}

/// FOLLOW sets within `u` hold at most `|u|` members each.
proof fn lemma_follow_total_bound(g0: Grammar, g: Grammar, seed: Seq<Set<Seq<char>>>, u: Set<Seq<char>>)
    requires
        follow_inv(g0, g, seed, u),
        u.finite(),
    ensures
        0 <= sum_ints(flens(g.symbols@)) <= g.symbols@.len() * u.len(),
{
    let fl_ = flens(g.symbols@);
    assert forall|j: int| 0 <= j < fl_.len() implies 0 <= #[trigger] fl_[j] <= u.len() by {
        assert(sym_wf(g.symbols@[j]));
        crate::lab2::str_set::lemma_set_len(g.symbols@[j].follow_set@);
        assert(flw(g.symbols@)[j].subset_of(u));
        vstd::set_lib::lemma_len_subset(flw(g.symbols@)[j], u);
    }
    lemma_sum_bound(fl_, u.len() as int);
}

/// Computes FOLLOW of every symbol: the least sets, holding the current
/// ones and `$` for the start symbol and the augmented start symbol, such
/// that at each non-terminal `B` of a body `A → α B β`, FIRST(β) without `ε`
/// is in FOLLOW(B) and, where β derives `ε`, FOLLOW(A) is too. Each such
/// `A` is recorded among the dependencies of `B`. Nothing else changes; the
/// FIRST sets are taken as they stand.
pub fn compute_follow_sets(grammar: &mut Grammar)
    requires
        old(grammar).wf(),
        old(grammar).has_sym(old(grammar).aug_root@),
        old(grammar).has_sym(old(grammar).root_symbol@),
    ensures
        final(grammar).wf(),
        same_but_follow(*old(grammar), *final(grammar)),
        ({
            let names = sym_names(old(grammar).symbols@);
            let ks = kinds(old(grammar).symbols@);
            let fs = sf(old(grammar).symbols@);
            let hs = heads(old(grammar).productions@);
            let bs = bodies(old(grammar).productions@);
            let seed = follow_seed(names, flw(old(grammar).symbols@), old(grammar).aug_root@, old(grammar).root_symbol@);
            &&& follow_closed(names, ks, fs, hs, bs, flw(final(grammar).symbols@))
            &&& covers(flw(final(grammar).symbols@), seed)
            &&& below_follow(names, ks, fs, hs, bs, seed, flw(final(grammar).symbols@))
            &&& forall|j: int, h: Seq<char>| 0 <= j < names.len() ==> (#[trigger] dps(final(grammar).symbols@)[j].contains(h)
                <==> dps(old(grammar).symbols@)[j].contains(h)
                || exists|p: int, i: int| #[trigger] dep_site(names, ks, fs, bs, p, i, j) && hs[p] == h)
        }),
{
    let ghost g0 = *grammar;
    let ghost names = sym_names(g0.symbols@);
    let ghost ks = kinds(g0.symbols@);
    let ghost fs = sf(g0.symbols@);
    let ghost hs = heads(g0.productions@);
    let ghost bs = bodies(g0.productions@);
    let ghost seed = follow_seed(names, flw(g0.symbols@), g0.aug_root@, g0.root_symbol@);
    proof {
        reveal_strlit("$");
        assert("$"@ =~= end_marker());
    }
    let aug = grammar.aug_root.clone();
    let ai = match grammar.find_symbol(aug.as_str()) {
        Some(a) => a,
        None => {
            return;
        },
    };
    let root = grammar.root_symbol.clone();
    let ri = match grammar.find_symbol(root.as_str()) {
        Some(r) => r,
        None => {
            return;
        },
    };
    proof {
        lemma_name_idx(names, ai as int);
        lemma_name_idx(names, ri as int);
        assert(names[ai as int] == aug@);
        assert(names[ri as int] == root@);
    }
    set_insert(&mut grammar.symbols[ai].follow_set, "$");
    set_insert(&mut grammar.symbols[ri].follow_set, "$");
    proof {
        assert(flw(grammar.symbols@) =~= seed);
        assert(sym_wf(grammar.symbols@[ai as int]));
        assert(sym_names(grammar.symbols@) =~= names);
        assert(same_but_follow(g0, *grammar));
        assert(dps(grammar.symbols@) =~= dps(g0.symbols@));
    }
    let universe = follow_universe(grammar);
    let ghost u = members(universe@);
    proof {
        crate::lab2::str_set::lemma_set_len(universe@);
        lemma_same_but_follow_views(g0, *grammar);
        assert(covers(flw(grammar.symbols@), seed));
        assert(covers(dps(grammar.symbols@), dps(g0.symbols@)));
        assert(follow_inv(g0, *grammar, seed, u));
        lemma_follow_total_bound(g0, *grammar, seed, u);
    }
    let ghost bound = g0.symbols@.len() * u.len();
    let mut changed = true;
    let ghost mut passed = false;
    while changed
        invariant
            follow_inv(g0, *grammar, seed, u),
            u.finite(),
            u.contains(eps()),
            names == sym_names(g0.symbols@),
            ks == kinds(g0.symbols@),
            fs == sf(g0.symbols@),
            hs == heads(g0.productions@),
            bs == bodies(g0.productions@),
            bound == g0.symbols@.len() * u.len(),
            0 <= sum_ints(flens(grammar.symbols@)) <= bound,
            !changed ==> passed,
            !changed ==> follow_closed(names, ks, fs, hs, bs, flw(grammar.symbols@)),
            passed ==> forall|p: int, i: int, j: int| #[trigger] dep_site(names, ks, fs, bs, p, i, j)
                ==> dps(grammar.symbols@)[j].contains(hs[p]),
        decreases bound - sum_ints(flens(grammar.symbols@)) + (if changed { 1int } else { 0int }),
    {
        let ghost t0 = sum_ints(flens(grammar.symbols@));
        let ghost fo0 = flw(grammar.symbols@);
        changed = false;
        let np = grammar.productions.len();
        let mut p: usize = 0;
        while p < np
            invariant
                follow_inv(g0, *grammar, seed, u),
                u.contains(eps()),
                names == sym_names(g0.symbols@),
                ks == kinds(g0.symbols@),
                fs == sf(g0.symbols@),
                hs == heads(g0.productions@),
                bs == bodies(g0.productions@),
                np == g0.productions@.len(),
                p <= np,
                sum_ints(flens(grammar.symbols@)) >= t0,
                changed ==> sum_ints(flens(grammar.symbols@)) > t0,
                !changed ==> flw(grammar.symbols@) == fo0,
                fo0.len() == names.len(),
                !changed ==> forall|q: int, i: int, j: int| #[trigger] follow_site(names, ks, bs, q, i, j) && q < p ==> {
                    &&& fos(names, fs, beta(bs[q], i)).remove(eps()).subset_of(fo0[j])
                    &&& (fos(names, fs, beta(bs[q], i)).contains(eps()) ==> fl(names, fo0, hs[q]).subset_of(fo0[j]))
                },
                forall|q: int, i: int, j: int| #[trigger] dep_site(names, ks, fs, bs, q, i, j) && q < p
                    ==> dps(grammar.symbols@)[j].contains(hs[q]),
            decreases np - p,
        {
            proof {
                lemma_same_but_follow_views(g0, *grammar);
                assert(grammar.productions@ == g0.productions@);
            }
            let head = grammar.productions[p].head.clone();
            assert(head@ == hs[p as int]);
            let ghost snap = flw(grammar.symbols@);
            let head_follow = match grammar.find_symbol(head.as_str()) {
                Some(h) => {
                    let c = set_copy(&grammar.symbols[h].follow_set);
                    proof {
                        assert(names[h as int] == head@);
                        lemma_name_idx(names, h as int);
                    }
                    c
                },
                None => {
                    let c = new_set();
                    proof {
                        if names.contains(head@) {
                            let h = name_idx(names, head@);
                            assert(names[h] == grammar.symbols@[h].name@);
                        }
                    }
                    c
                },
            };
            proof {
                assert(members(head_follow@) == fl(names, snap, head@));
                assert(covers(flw(grammar.symbols@), snap));
            }
            let blen = grammar.productions[p].body.len();
            assert(blen == bs[p as int].len());
            let mut i: usize = 0;
            while i < blen
                invariant
                    follow_inv(g0, *grammar, seed, u),
                    u.contains(eps()),
                    names == sym_names(g0.symbols@),
                    ks == kinds(g0.symbols@),
                    fs == sf(g0.symbols@),
                    hs == heads(g0.productions@),
                    bs == bodies(g0.productions@),
                    np == g0.productions@.len(),
                    p < np,
                    blen == bs[p as int].len(),
                    i <= blen,
                    head@ == hs[p as int],
                    snap.len() == names.len(),
                    covers(flw(grammar.symbols@), snap),
                    members(head_follow@) == fl(names, snap, head@),
                    forall|j: int| 0 <= j < snap.len() ==> (#[trigger] snap[j]).subset_of(u),
                    !changed ==> snap == fo0,
                    sum_ints(flens(grammar.symbols@)) >= t0,
                    changed ==> sum_ints(flens(grammar.symbols@)) > t0,
                    !changed ==> flw(grammar.symbols@) == fo0,
                    fo0.len() == names.len(),
                    !changed ==> forall|q: int, i2: int, j: int| #[trigger] follow_site(names, ks, bs, q, i2, j)
                        && (q < p || (q == p && i2 < i)) ==> {
                        &&& fos(names, fs, beta(bs[q], i2)).remove(eps()).subset_of(fo0[j])
                        &&& (fos(names, fs, beta(bs[q], i2)).contains(eps()) ==> fl(names, fo0, hs[q]).subset_of(fo0[j]))
                    },
                    forall|q: int, i2: int, j: int| #[trigger] dep_site(names, ks, fs, bs, q, i2, j)
                        && (q < p || (q == p && i2 < i)) ==> dps(grammar.symbols@)[j].contains(hs[q]),
                decreases blen - i,
            {
                let ghost before = *grammar;
                let grew = follow_at(grammar, p, i, head.as_str(), &head_follow, Ghost(g0), Ghost(seed), Ghost(u), Ghost(snap));
                if grew {
                    changed = true;
                }
                proof {
                    assert(covers(flw(grammar.symbols@), snap));
                    assert forall|q: int, i2: int, j: int| #[trigger] dep_site(names, ks, fs, bs, q, i2, j)
                        && (q < p || (q == p && i2 < i + 1)) implies dps(grammar.symbols@)[j].contains(hs[q]) by {
                        if q == p && i2 == i {
                        } else {
                            assert(dps(before.symbols@)[j].contains(hs[q]));
                            assert(dps(before.symbols@)[j].subset_of(dps(grammar.symbols@)[j]));
                        }
                    }
                }
                i = i + 1;
            }
            p = p + 1;
        }
        proof {
            passed = true;
            lemma_follow_total_bound(g0, *grammar, seed, u);
            if !changed {
                assert forall|q: int, i: int, j: int| #[trigger] follow_site(names, ks, bs, q, i, j) implies {
                    &&& fos(names, fs, beta(bs[q], i)).remove(eps()).subset_of(flw(grammar.symbols@)[j])
                    &&& (fos(names, fs, beta(bs[q], i)).contains(eps()) ==> fl(names, flw(grammar.symbols@), hs[q]).subset_of(flw(grammar.symbols@)[j]))
                } by {
                    assert(q < np);
                }
            }
        }
    }
    proof {
        assert forall|j: int, h: Seq<char>| 0 <= j < names.len() implies (#[trigger] dps(grammar.symbols@)[j].contains(h)
            <==> dps(g0.symbols@)[j].contains(h)
            || exists|p: int, i: int| #[trigger] dep_site(names, ks, fs, bs, p, i, j) && hs[p] == h) by {
            if dps(g0.symbols@)[j].contains(h) {
                assert(dps(g0.symbols@)[j].subset_of(dps(grammar.symbols@)[j]));
            }
            if exists|p: int, i: int| #[trigger] dep_site(names, ks, fs, bs, p, i, j) && hs[p] == h {
                let (p, i) = choose|p: int, i: int| #[trigger] dep_site(names, ks, fs, bs, p, i, j) && hs[p] == h;
                assert(dps(grammar.symbols@)[j].contains(hs[p]));
            }
        }
    }
}
} // verus!
