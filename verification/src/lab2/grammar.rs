//! Building an augmented grammar from its declared symbols and productions,
//! and looking its symbols up.
use vstd::prelude::*;
use crate::lab2::str_set::{ascending, is_str_set, members, new_set, set_insert, strs};
use crate::lab2::types::{sym_wf, Production, body_of, eps, end_marker, has_name, index_of_name, lemma_sym_at, sym_map, sym_names, Grammar, GrammarSymbol, SymbolType};
use crate::text::{lemma_lex_irreflexive, lemma_lex_total, lemma_lex_transitive, lex_less, push_char, str_eq, str_less};

verus! {

/// The characters of a list of `&str`.
pub open spec fn strs_of(v: Seq<&str>) -> Seq<Seq<char>> {
    v.map_values(|s: &str| s@)
}

/// The augmented start symbol: the start symbol with `'` appended.
pub open spec fn aug_of(root: Seq<char>) -> Seq<char> {
    root.push('\'')
}

/// The non-terminals of the grammar: the augmented start symbol first,
/// unless it was declared.
pub open spec fn nt_list_of(nts: Seq<Seq<char>>, root: Seq<char>) -> Seq<Seq<char>> {
    if nts.contains(aug_of(root)) {
        nts
    } else {
        seq![aug_of(root)] + nts
    }
}

/// The terminals of the grammar: `$` last, unless it was declared.
pub open spec fn t_list_of(ts: Seq<Seq<char>>) -> Seq<Seq<char>> {
    if ts.contains(end_marker()) {
        ts
    } else {
        ts.push(end_marker())
    }
}

/// A declared body: the single symbol `ε` stands for the empty body.
pub open spec fn body_from(b: Seq<Seq<char>>) -> Seq<Seq<char>> {
    if b.len() == 1 && b[0] == eps() {
        Seq::empty()
    } else {
        b
    }
}

/// The heads of the productions, production 0 (`S' → S`) first.
pub open spec fn heads_of(prods: Seq<(&str, &[&str])>, root: Seq<char>) -> Seq<Seq<char>> {
    seq![aug_of(root)] + prods.map_values(|p: (&str, &[&str])| p.0@)
}

/// The bodies of the productions, production 0 (`S' → S`) first.
pub open spec fn bodies_of(prods: Seq<(&str, &[&str])>, root: Seq<char>) -> Seq<Seq<Seq<char>>> {
    seq![seq![root]] + prods.map_values(|p: (&str, &[&str])| body_from(strs_of(p.1@)))
}

/// The numbers, ascending, of the first `k` productions whose head is `n`.
pub open spec fn ids_with_head(heads: Seq<Seq<char>>, n: Seq<char>, k: int) -> Seq<usize>
    decreases k,
{
    if k <= 0 {
        Seq::empty()
    } else {
        ids_with_head(heads, n, k - 1) + (if heads[k - 1] == n { seq![(k - 1) as usize] } else { Seq::empty() })
    }
}

/// The symbol table with `x` put under its name, replacing an entry of that
/// name.
pub fn upsert_symbol(syms: &mut Vec<GrammarSymbol>, x: GrammarSymbol)
    requires
        ascending(sym_names(old(syms)@)),
    ensures
        ascending(sym_names(final(syms)@)),
        sym_map(final(syms)@) == sym_map(old(syms)@).insert(x.name@, x),
        forall|i: int| 0 <= i < final(syms)@.len() ==> (#[trigger] final(syms)@[i] == x
            || exists|j: int| 0 <= j < old(syms)@.len() && old(syms)@[j] == final(syms)@[i]),
{
    let ghost s0 = syms@;
    let ghost n0 = sym_names(s0);
    let mut p: usize = 0;
    while p < syms.len() && str_less(syms[p].name.as_str(), x.name.as_str())
        invariant
            p <= syms.len(),
            syms@ == s0,
            n0 == sym_names(s0),
            forall|k: int| 0 <= k < p ==> lex_less(#[trigger] n0[k], x.name@),
        decreases syms.len() - p,
    {
        assert(n0[p as int] == syms@[p as int].name@);
        p = p + 1;
    }
    if p < syms.len() && str_eq(syms[p].name.as_str(), x.name.as_str()) {
        let ghost xv = x;
        syms.set(p, x);
        proof {
            let s1 = syms@;
            assert(s1 == s0.update(p as int, xv));
            assert(sym_names(s1) =~= n0.update(p as int, xv.name@));
            assert(n0[p as int] == xv.name@);
            assert(sym_names(s1) =~= n0);
            assert forall|n: Seq<char>| has_name(s1, n) <==> (has_name(s0, n) || n == xv.name@) by {
                if has_name(s1, n) {
                    let i = choose|i: int| 0 <= i < s1.len() && (#[trigger] s1[i]).name@ == n;
                    assert(sym_names(s1)[i] == n0[i]);
                    assert(s0[i].name@ == n);
                }
                if has_name(s0, n) {
                    let i = choose|i: int| 0 <= i < s0.len() && (#[trigger] s0[i]).name@ == n;
                    assert(sym_names(s1)[i] == n0[i]);
                    assert(s1[i].name@ == n);
                }
                if n == xv.name@ {
                    assert(s1[p as int].name@ == n);
                }
            }
            assert forall|n: Seq<char>| #[trigger] sym_map(s1).dom().contains(n) implies sym_map(s1)[n]
                == sym_map(s0).insert(xv.name@, xv)[n] by {
                let i = index_of_name(s1, n);
                lemma_sym_at(s1, i);
                lemma_sym_at(s1, p as int);
                if i == p {
                } else {
                    assert(n != xv.name@);
                    assert(s1[i] == s0[i]);
                    lemma_sym_at(s0, i);
                }
            }
            assert(sym_map(s1) =~= sym_map(s0).insert(xv.name@, xv));
        }
        return;
    }
    proof {
        if p < syms.len() {
            assert(n0[p as int] == syms@[p as int].name@);
            lemma_lex_total(n0[p as int], x.name@);
        }
    }
    let ghost xv = x;
    syms.insert(p, x);
    proof {
        let s1 = syms@;
        let n1 = sym_names(s1);
        assert(n1 =~= n0.insert(p as int, xv.name@));
        assert forall|i: int, j: int| 0 <= i < j < n1.len() implies lex_less(#[trigger] n1[i], #[trigger] n1[j]) by {
            if j < p {
                assert(n1[i] == n0[i] && n1[j] == n0[j]);
            } else if j == p {
                assert(n1[i] == n0[i]);
            } else if i < p {
                assert(n1[i] == n0[i] && n1[j] == n0[j - 1]);
                if j - 1 > p {
                    assert(lex_less(n0[p as int], n0[j - 1]));
                    lemma_lex_transitive(xv.name@, n0[p as int], n0[j - 1]);
                }
                lemma_lex_transitive(n0[i], xv.name@, n0[j - 1]);
            } else if i == p {
                assert(n1[j] == n0[j - 1]);
                if j - 1 > p {
                    assert(lex_less(n0[p as int], n0[j - 1]));
                    lemma_lex_transitive(xv.name@, n0[p as int], n0[j - 1]);
                }
            } else {
                assert(n1[i] == n0[i - 1] && n1[j] == n0[j - 1]);
            }
        }
        assert forall|n: Seq<char>| has_name(s1, n) <==> (has_name(s0, n) || n == xv.name@) by {
            if has_name(s1, n) {
                let i = choose|i: int| 0 <= i < s1.len() && (#[trigger] s1[i]).name@ == n;
                if i < p {
                    assert(s0[i].name@ == n);
                } else if i > p {
                    assert(s0[i - 1].name@ == n);
                }
            }
            if has_name(s0, n) {
                let i = choose|i: int| 0 <= i < s0.len() && (#[trigger] s0[i]).name@ == n;
                if i < p {
                    assert(s1[i].name@ == n);
                } else {
                    assert(s1[i + 1].name@ == n);
                }
            }
            if n == xv.name@ {
                assert(s1[p as int].name@ == n);
            }
        }
        assert forall|n: Seq<char>| #[trigger] sym_map(s1).dom().contains(n) implies sym_map(s1)[n]
            == sym_map(s0).insert(xv.name@, xv)[n] by {
            let i = index_of_name(s1, n);
            lemma_sym_at(s1, i);
            if i == p {
            } else if i < p {
                assert(s1[i] == s0[i]);
                lemma_sym_at(s0, i);
                assert(n0[i] == s0[i].name@);
                assert(lex_less(n0[i], xv.name@));
                lemma_lex_irreflexive(n);
            } else {
                assert(s1[i] == s0[i - 1]);
                lemma_sym_at(s0, i - 1);
                assert(n1[i] == n);
                assert(n1[p as int] == xv.name@);
                assert(lex_less(n1[p as int], n1[i]));
                lemma_lex_irreflexive(n);
            }
        }
        assert(sym_map(s1) =~= sym_map(s0).insert(xv.name@, xv));
        assert forall|i: int| 0 <= i < s1.len() implies (#[trigger] s1[i] == xv
            || exists|j: int| 0 <= j < s0.len() && s0[j] == s1[i]) by {
            if i < p {
                assert(s0[i] == s1[i]);
            } else if i > p {
                assert(s0[i - 1] == s1[i]);
            }
        }
    }
}

/// The strings of a list of `&str`.
pub fn strings_of(v: &[&str]) -> (res: Vec<String>)
    ensures
        strs(res@) == strs_of(v@),
{
    let mut res: Vec<String> = Vec::new();
    let mut i: usize = 0;
    while i < v.len()
        invariant
            i <= v@.len(),
            res@.len() == i,
            strs(res@) == strs_of(v@).subrange(0, i as int),
        decreases v@.len() - i,
    {
        let s = String::from_str(v[i]);
        let ghost before = res@;
        res.push(s);
        proof {
            assert forall|k: int| 0 <= k <= i implies #[trigger] strs(res@)[k] == strs_of(v@)[k] by {
                if k < i {
                    assert(strs(before)[k] == strs_of(v@).subrange(0, i as int)[k]);
                }
            }
        }
        i = i + 1;
        assert(strs(res@) =~= strs_of(v@).subrange(0, i as int));
    }
    assert(strs_of(v@).subrange(0, i as int) =~= strs_of(v@));
    res
}

/// Whether the list holds `x`.
pub fn list_contains(v: &Vec<String>, x: &str) -> (res: bool)
    ensures
        res == strs(v@).contains(x@),
{
    let mut i: usize = 0;
    while i < v.len()
        invariant
            i <= v@.len(),
            forall|k: int| 0 <= k < i ==> (#[trigger] v@[k])@ != x@,
        decreases v@.len() - i,
    {
        if str_eq(v[i].as_str(), x) {
            assert(strs(v@)[i as int] == x@);
            return true;
        }
        i = i + 1;
    }
    proof {
        if strs(v@).contains(x@) {
            let sv = strs(v@);
            let k = choose|k: int| 0 <= k < sv.len() && sv[k] == x@;
            assert(v@[k]@ == x@);
        }
    }
    false
}

/// The numbers of the productions whose head is `n`, ascending.
pub fn ids_for(heads: &Vec<String>, n: &str) -> (res: Vec<usize>)
    ensures
        res@ == ids_with_head(strs(heads@), n@, heads@.len() as int),
{
    let mut res: Vec<usize> = Vec::new();
    let mut k: usize = 0;
    while k < heads.len()
        invariant
            k <= heads@.len(),
            res@ == ids_with_head(strs(heads@), n@, k as int),
        decreases heads@.len() - k,
    {
        assert(strs(heads@)[k as int] == heads@[k as int]@);
        if str_eq(heads[k].as_str(), n) {
            res.push(k);
        }
        k = k + 1;
        assert(res@ =~= ids_with_head(strs(heads@), n@, k as int));
    }
    res
}

/// A declared body as a production body: `[ε]` becomes the empty body.
pub fn body_vec(b: &[&str]) -> (res: Vec<String>)
    ensures
        strs(res@) == body_from(strs_of(b@)),
{
    proof {
        reveal_strlit("ε");
        assert("ε"@ =~= eps());
        if b@.len() > 0 {
            assert(strs_of(b@)[0] == b@[0]@);
        }
    }
    if b.len() == 1 && str_eq(b[0], "ε") {
        let res: Vec<String> = Vec::new();
        assert(strs(res@) =~= Seq::<Seq<char>>::empty());
        res
    } else {
        strings_of(b)
    }
}

/// The entry that a declared non-terminal `n` gets.
pub open spec fn nt_entry(x: GrammarSymbol, n: Seq<char>, heads: Seq<Seq<char>>) -> bool {
    &&& x.name@ == n
    &&& x.sym_type == SymbolType::NonTerminal
    &&& x.productions@ == ids_with_head(heads, n, heads.len() as int)
    &&& x.first_set@.len() == 0
    &&& x.follow_set@.len() == 0
    &&& x.dependent_in_follow@.len() == 0
    &&& sym_wf(x)
}

/// The entry that a declared terminal `n` gets: FIRST is `{n}`.
pub open spec fn t_entry(x: GrammarSymbol, n: Seq<char>, heads: Seq<Seq<char>>) -> bool {
    &&& x.name@ == n
    &&& x.sym_type == SymbolType::Terminal
    &&& x.productions@ == ids_with_head(heads, n, heads.len() as int)
    &&& strs(x.first_set@) == seq![n]
    &&& x.follow_set@.len() == 0
    &&& x.dependent_in_follow@.len() == 0
    &&& sym_wf(x)
}

/// Every production whose head is a declared non-terminal meets what
/// `Grammar::new` asks of its heads.
pub proof fn lemma_heads_declared(nts: Seq<&str>, ts: Seq<&str>, prods: Seq<(&str, &[&str])>, root: Seq<char>)
    requires
        forall|i: int| 0 <= i < prods.len() ==> exists|j: int| 0 <= j < nts.len() && (#[trigger] prods[i]).0@ == nts[j]@,
    ensures
        forall|i: int| 0 <= i < prods.len() ==> ({
            let h = (#[trigger] prods[i]).0@;
            nt_list_of(strs_of(nts), root).contains(h) || t_list_of(strs_of(ts)).contains(h)
        }),
{
    assert forall|i: int| 0 <= i < prods.len() implies nt_list_of(strs_of(nts), root).contains((#[trigger] prods[i]).0@) by {
        let j = choose|j: int| 0 <= j < nts.len() && prods[i].0@ == nts[j]@;
        let s = strs_of(nts);
        assert(s[j] == prods[i].0@);
        if !s.contains(aug_of(root)) {
            assert((seq![aug_of(root)] + s)[j + 1] == s[j]);
        }
    }
}

impl Grammar {
    /// The augmented grammar of the declared non-terminals, terminals and
    /// productions with start symbol `root`: production 0 is `root' → root`,
    /// the declared productions follow numbered from 1 (a body `[ε]` is
    /// empty), `root'` is put first among the non-terminals and `$` last
    /// among the terminals where they are not declared, and each declared
    /// symbol gets an entry (a name declared as both is a terminal) listing
    /// the productions it heads; a terminal's FIRST is itself. Every head
    /// must be declared.
    pub fn new(
        non_terminals: &[&str],
        terminals: &[&str],
        productions: &[(&str, &[&str])],
        root: &str,
    ) -> (res: Self)
        requires
            forall|i: int| 0 <= i < productions@.len() ==> ({
                let h = (#[trigger] productions@[i]).0@;
                nt_list_of(strs_of(non_terminals@), root@).contains(h) || t_list_of(strs_of(terminals@)).contains(h)
            }),
        ensures
            res.wf(),
            res.root_symbol@ == root@,
            res.aug_root@ == aug_of(root@),
            strs(res.non_terminals@) == nt_list_of(strs_of(non_terminals@), root@),
            strs(res.terminals@) == t_list_of(strs_of(terminals@)),
            res.productions@.len() == productions@.len() + 1,
            forall|p: int| 0 <= p < res.productions@.len() ==> {
                let x = #[trigger] res.productions@[p];
                &&& x.head@ == heads_of(productions@, root@)[p]
                &&& body_of(x) == bodies_of(productions@, root@)[p]
                &&& x.first_set@.len() == 0
            },
            forall|n: Seq<char>| res.has_sym(n) <==> (nt_list_of(strs_of(non_terminals@), root@).contains(n)
                || t_list_of(strs_of(terminals@)).contains(n)),
            forall|n: Seq<char>| #[trigger] res.has_sym(n) ==> if t_list_of(strs_of(terminals@)).contains(n) {
                t_entry(res.sym(n), n, heads_of(productions@, root@))
            } else {
                nt_entry(res.sym(n), n, heads_of(productions@, root@))
            },
    {
        let ghost nt_l = nt_list_of(strs_of(non_terminals@), root@);
        let ghost t_l = t_list_of(strs_of(terminals@));
        let ghost hs = heads_of(productions@, root@);
        let ghost bs = bodies_of(productions@, root@);
        let mut nt_list = strings_of(non_terminals);
        let mut t_list = strings_of(terminals);
        let mut aug = String::from_str(root);
        push_char(&mut aug, '\'');
        if !list_contains(&nt_list, aug.as_str()) {
            let a = aug.clone();
            nt_list.insert(0, a);
            assert(strs(nt_list@) =~= nt_l);
        }
        proof {
            reveal_strlit("$");
            assert("$"@ =~= end_marker());
        }
        if !list_contains(&t_list, "$") {
            t_list.push(String::from_str("$"));
            assert(strs(t_list@) =~= t_l);
        }
        assert(strs(nt_list@) == nt_l);
        assert(strs(t_list@) == t_l);

        let mut heads: Vec<String> = Vec::new();
        heads.push(aug.clone());
        let mut prods: Vec<Production> = Vec::new();
        let mut b0: Vec<String> = Vec::new();
        b0.push(String::from_str(root));
        assert(strs(b0@) =~= seq![root@]);
        prods.push(Production { production_id: 0, head: aug.clone(), body: b0, first_set: new_set() });
        let mut i: usize = 0;
        while i < productions.len()
            invariant
                i <= productions@.len(),
                hs == heads_of(productions@, root@),
                bs == bodies_of(productions@, root@),
                heads@.len() == i + 1,
                prods@.len() == i + 1,
                strs(heads@) == hs.subrange(0, i + 1),
                forall|p: int| 0 <= p <= i ==> {
                    let x = #[trigger] prods@[p];
                    &&& x.production_id == p
                    &&& x.head@ == hs[p]
                    &&& body_of(x) == bs[p]
                    &&& x.first_set@.len() == 0
                },
            decreases productions@.len() - i,
        {
            let (h, b) = productions[i];
            let ghost hb = heads@;
            heads.push(String::from_str(h));
            proof {
                assert forall|k: int| 0 <= k <= i + 1 implies #[trigger] strs(heads@)[k] == hs[k] by {
                    if k <= i {
                        assert(strs(hb)[k] == hs.subrange(0, i + 1)[k]);
                    }
                }
                assert(strs(heads@) =~= hs.subrange(0, i + 2));
            }
            let body = body_vec(b);
            let e = new_set();
            prods.push(Production { production_id: i + 1, head: String::from_str(h), body, first_set: e });
            i = i + 1;
        }
        assert(hs.subrange(0, i + 1) =~= hs);

        let mut symbols: Vec<GrammarSymbol> = Vec::new();
        assert(sym_map(symbols@) =~= Map::<Seq<char>, GrammarSymbol>::empty());
        let mut k: usize = 0;
        while k < nt_list.len()
            invariant
                k <= nt_list@.len(),
                strs(nt_list@) == nt_l,
                strs(heads@) == hs,
                ascending(sym_names(symbols@)),
                forall|n: Seq<char>| #[trigger] sym_map(symbols@).dom().contains(n) <==> nt_l.subrange(0, k as int).contains(n),
                forall|n: Seq<char>| #[trigger] sym_map(symbols@).dom().contains(n) ==> nt_entry(sym_map(symbols@)[n], n, hs),
            decreases nt_list@.len() - k,
        {
            let x = GrammarSymbol {
                name: nt_list[k].clone(),
                sym_type: SymbolType::NonTerminal,
                productions: ids_for(&heads, nt_list[k].as_str()),
                first_set: new_set(),
                follow_set: new_set(),
                dependent_in_follow: new_set(),
            };
            assert(x.name@ == nt_l[k as int]);
            upsert_symbol(&mut symbols, x);
            k = k + 1;
            proof {
                let tk = nt_l.subrange(0, k as int);
                let tp = nt_l.subrange(0, k - 1);
                assert forall|n: Seq<char>| tk.contains(n) <==> (tp.contains(n) || n == nt_l[k - 1]) by {
                    if tk.contains(n) {
                        let j = choose|j: int| 0 <= j < k && tk[j] == n;
                        if j < k - 1 {
                            assert(tp[j] == n);
                        }
                    }
                    if tp.contains(n) {
                        let j = choose|j: int| 0 <= j < k - 1 && tp[j] == n;
                        assert(tk[j] == n);
                    }
                    assert(tk[k - 1] == nt_l[k - 1]);
                }
            }
        }
        assert(nt_l.subrange(0, k as int) =~= nt_l);

        let mut k2: usize = 0;
        while k2 < t_list.len()
            invariant
                k2 <= t_list@.len(),
                strs(t_list@) == t_l,
                strs(heads@) == hs,
                ascending(sym_names(symbols@)),
                forall|n: Seq<char>| #[trigger] sym_map(symbols@).dom().contains(n) <==> (nt_l.contains(n)
                    || t_l.subrange(0, k2 as int).contains(n)),
                forall|n: Seq<char>| #[trigger] sym_map(symbols@).dom().contains(n) ==> if t_l.subrange(0, k2 as int).contains(n) {
                    t_entry(sym_map(symbols@)[n], n, hs)
                } else {
                    nt_entry(sym_map(symbols@)[n], n, hs)
                },
            decreases t_list@.len() - k2,
        {
            let mut fs = new_set();
            set_insert(&mut fs, t_list[k2].as_str());
            assert(strs(fs@) =~= seq![t_l[k2 as int]]) by {
                assert(fs@.len() == 1);
                assert(members(fs@).contains(t_l[k2 as int]));
                assert(strs(fs@).contains(t_l[k2 as int]));
            }
            let x = GrammarSymbol {
                name: t_list[k2].clone(),
                sym_type: SymbolType::Terminal,
                productions: ids_for(&heads, t_list[k2].as_str()),
                first_set: fs,
                follow_set: new_set(),
                dependent_in_follow: new_set(),
            };
            assert(x.name@ == t_l[k2 as int]);
            let ghost m0 = sym_map(symbols@);
            upsert_symbol(&mut symbols, x);
            k2 = k2 + 1;
            proof {
                let tk = t_l.subrange(0, k2 as int);
                let tp = t_l.subrange(0, k2 - 1);
                assert forall|n: Seq<char>| tk.contains(n) <==> (tp.contains(n) || n == t_l[k2 - 1]) by {
                    if tk.contains(n) {
                        let j = choose|j: int| 0 <= j < k2 && tk[j] == n;
                        if j < k2 - 1 {
                            assert(tp[j] == n);
                        }
                    }
                    if tp.contains(n) {
                        let j = choose|j: int| 0 <= j < k2 - 1 && tp[j] == n;
                        assert(tk[j] == n);
                    }
                    assert(tk[k2 - 1] == t_l[k2 - 1]);
                }
            }
        }
        assert(t_l.subrange(0, k2 as int) =~= t_l);

        let res = Grammar {
            symbols,
            productions: prods,
            root_symbol: String::from_str(root),
            aug_root: aug,
            terminals: t_list,
            non_terminals: nt_list,
        };
        proof {
            assert forall|j: int| 0 <= j < res.symbols@.len() implies sym_wf(#[trigger] res.symbols@[j]) by {
                lemma_sym_at(res.symbols@, j);
                let n = res.symbols@[j].name@;
                assert(sym_map(res.symbols@).dom().contains(n));
            }
            assert forall|n: Seq<char>| res.has_sym(n) <==> (nt_l.contains(n) || t_l.contains(n)) by {
                assert(sym_map(res.symbols@).dom().contains(n) == res.has_sym(n));
            }
            assert forall|n: Seq<char>| #[trigger] res.has_sym(n) implies if t_l.contains(n) {
                t_entry(res.sym(n), n, hs)
            } else {
                nt_entry(res.sym(n), n, hs)
            } by {
                assert(sym_map(res.symbols@).dom().contains(n));
                assert(sym_map(res.symbols@)[n] == res.sym(n));
            }
        }
        res
    }

    /// The position of the symbol named `name`, if any.
    pub fn find_symbol(&self, name: &str) -> (res: Option<usize>)
        requires
            self.wf(),
        ensures
            res.is_some() <==> self.has_sym(name@),
            res matches Some(i) ==> i < self.symbols@.len() && i == index_of_name(self.symbols@, name@)
                && self.symbols@[i as int].name@ == name@,
    {
        let mut i: usize = 0;
        while i < self.symbols.len()
            invariant
                i <= self.symbols@.len(),
                self.wf(),
                forall|k: int| 0 <= k < i ==> (#[trigger] self.symbols@[k]).name@ != name@,
            decreases self.symbols@.len() - i,
        {
            if str_eq(self.symbols[i].name.as_str(), name) {
                proof {
                    lemma_sym_at(self.symbols@, i as int);
                }
                return Some(i);
            }
            i = i + 1;
        }
        None
    }

    /// Whether `name` is a non-terminal of the grammar.
    pub fn is_nonterminal(&self, name: &str) -> (res: bool)
        requires
            self.wf(),
        ensures
            res == self.is_nt(name@),
    {
        match self.find_symbol(name) {
            Some(i) => self.symbols[i].sym_type == SymbolType::NonTerminal,
            None => false,
        }
    }

    /// Whether `name` is a terminal of the grammar.
    pub fn is_terminal(&self, name: &str) -> (res: bool)
        requires
            self.wf(),
        ensures
            res == self.is_t(name@),
    {
        match self.find_symbol(name) {
            Some(i) => self.symbols[i].sym_type == SymbolType::Terminal,
            None => false,
        }
    }
}

} // verus!
