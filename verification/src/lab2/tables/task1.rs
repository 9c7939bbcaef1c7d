//! FIRST and FOLLOW over the shared tables: FIRST of every non-terminal and
//! production, FOLLOW of every non-terminal, by fixed-point iteration.
use vstd::prelude::*;
use crate::lab2::first::{lemma_sum_bound, lemma_sum_update, sum_ints};
use crate::lab2::tables::supplementary::{sfind, skeys_unique, smap, sput, ts_null, Lab2Tables};
use crate::lab2::tables::symbols::{
    copy_body, tkey, tset, ts_contains, ts_extend, ts_insert, ts_remove, tunique, GrammarSymbol, NonTerminalSymbol, Production,
    TerminalSymbol,
};
use crate::lab2::tables::declare::{
    add_production, analyse, analysed, empties, n_, nt, ntviews, null_, pfirsts, production, pviews, sview, t_, term, tsmap,
};
use crate::lab2::tables::supplementary::{register_non_terminal, register_terminal, tables_wf};
use crate::lab2::tables::symbols::copy_ts;
use crate::text::str_eq;

verus! {

/// The key of the empty terminal `null`.
pub open spec fn null_key() -> (Seq<char>, Seq<char>) {
    ("NULL"@, "null"@)
}

/// The names of the non-terminals.
pub open spec fn nts_names(a: Seq<NonTerminalSymbol>) -> Seq<Seq<char>> {
    a.map_values(|x: NonTerminalSymbol| x.name@)
}

/// The first position of the name `n`.
pub open spec fn first_idx(names: Seq<Seq<char>>, n: Seq<char>) -> int {
    choose|i: int| 0 <= i < names.len() && names[i] == n && forall|j: int| 0 <= j < i ==> names[j] != n
}

/// A name that occurs has a first position.
pub proof fn lemma_first_idx(names: Seq<Seq<char>>, n: Seq<char>)
    requires
        names.contains(n),
    ensures
        0 <= first_idx(names, n) < names.len(),
        names[first_idx(names, n)] == n,
        forall|j: int| 0 <= j < first_idx(names, n) ==> names[j] != n,
{
    let k = choose|k: int| 0 <= k < names.len() && names[k] == n;
    lemma_min_idx(names, n, k);
}

/// From any position of `n` there is a first one.
proof fn lemma_min_idx(names: Seq<Seq<char>>, n: Seq<char>, k: int)
    requires
        0 <= k < names.len(),
        names[k] == n,
    ensures
        exists|i: int| 0 <= i < names.len() && names[i] == n && forall|j: int| 0 <= j < i ==> names[j] != n,
    decreases k,
{
    if exists|j: int| 0 <= j < k && names[j] == n {
        let j = choose|j: int| 0 <= j < k && names[j] == n;
        lemma_min_idx(names, n, j);
    } else {
        assert(names[k] == n && forall|j: int| 0 <= j < k ==> names[j] != n);
    }
}

/// What a body symbol contributes to FIRST, given the non-terminals' FIRST
/// sets `f`: the set, and whether everything so far can vanish.
pub open spec fn fseq(
    names: Seq<Seq<char>>,
    f: Seq<Set<(Seq<char>, Seq<char>)>>,
    body: Seq<GrammarSymbol>,
) -> (Set<(Seq<char>, Seq<char>)>, bool)
    decreases body.len(),
{
    if body.len() == 0 {
        (Set::empty(), true)
    } else {
        match body[0] {
            GrammarSymbol::Terminal(ts) => (set![tkey(ts)], false),
            GrammarSymbol::Null => (set![null_key()], false),
            GrammarSymbol::NonTerminal(n) => if names.contains(n@) {
                let d = f[first_idx(names, n@)];
                let r = fseq(names, f, body.drop_first());
                (d.remove(null_key()).union(if d.contains(null_key()) { r.0 } else { Set::empty() }), d.contains(null_key()) && r.1)
            } else {
                (Set::empty(), false)
            },
        }
    }
}

/// FIRST of a body: `{null}` for the empty body; else what its symbols
/// contribute, with `null` where they can all vanish.
pub open spec fn prod_first(
    names: Seq<Seq<char>>,
    f: Seq<Set<(Seq<char>, Seq<char>)>>,
    body: Seq<GrammarSymbol>,
) -> Set<(Seq<char>, Seq<char>)> {
    if body.len() == 0 {
        set![null_key()]
    } else if fseq(names, f, body).1 {
        fseq(names, f, body).0.insert(null_key())
    } else {
        fseq(names, f, body).0
    }
}

/// The body of production `p` of non-terminal `i`.
pub open spec fn nt_body(a: Seq<NonTerminalSymbol>, i: int, p: int) -> Seq<GrammarSymbol> {
    a[i].pProductionTable@[p].pBodySymbolTable@
}

/// The FIRST sets of the non-terminals.
pub open spec fn nfirst(a: Seq<NonTerminalSymbol>) -> Seq<Set<(Seq<char>, Seq<char>)>> {
    a.map_values(|x: NonTerminalSymbol| tset(x.pFirstSet@))
}

/// The FOLLOW sets of the non-terminals.
pub open spec fn nfollow(a: Seq<NonTerminalSymbol>) -> Seq<Set<(Seq<char>, Seq<char>)>> {
    a.map_values(|x: NonTerminalSymbol| tset(x.pFollowSet@))
}

/// The FIRST rule holds of `f`: FIRST of each body of a non-terminal is in
/// its FIRST set.
pub open spec fn nfirst_closed(a: Seq<NonTerminalSymbol>, f: Seq<Set<(Seq<char>, Seq<char>)>>) -> bool {
    &&& f.len() == a.len()
    &&& forall|i: int, p: int| 0 <= i < a.len() && 0 <= p < a[i].pProductionTable@.len()
        ==> #[trigger] prod_first(nts_names(a), f, nt_body(a, i, p)).subset_of(f[i])
}

/// Pointwise inclusion of set lists.
pub open spec fn tcovers(a: Seq<Set<(Seq<char>, Seq<char>)>>, b: Seq<Set<(Seq<char>, Seq<char>)>>) -> bool {
    a.len() == b.len() && forall|i: int| 0 <= i < a.len() ==> b[i].subset_of(#[trigger] a[i])
}

/// `f` lies within every closed assignment holding `f0`.
pub open spec fn nfirst_least(a: Seq<NonTerminalSymbol>, f0: Seq<Set<(Seq<char>, Seq<char>)>>, f: Seq<Set<(Seq<char>, Seq<char>)>>) -> bool {
    forall|g: Seq<Set<(Seq<char>, Seq<char>)>>| #[trigger] nfirst_closed(a, g) && tcovers(g, f0) ==> tcovers(g, f)
}

/// The non-terminal tables differ at most in FIRST sets.
pub open spec fn same_but_nfirst(a: Seq<NonTerminalSymbol>, b: Seq<NonTerminalSymbol>) -> bool {
    &&& a.len() == b.len()
    &&& forall|i: int| 0 <= i < a.len() ==> {
        let x = #[trigger] a[i];
        let y = b[i];
        &&& x.name@ == y.name@
        &&& x.symbolType@ == y.symbolType@
        &&& x.pProductionTable@ == y.pProductionTable@
        &&& x.numOfProduction == y.numOfProduction
        &&& x.pFollowSet@ == y.pFollowSet@
        &&& x.pDependentSetInFollow@ == y.pDependentSetInFollow@
    }
}

/// Every FIRST and FOLLOW set holds each terminal once.
pub open spec fn nts_wf(a: Seq<NonTerminalSymbol>) -> bool {
    forall|i: int| 0 <= i < a.len() ==> tunique((#[trigger] a[i]).pFirstSet@) && tunique(a[i].pFollowSet@)
}

/// Grows with the FIRST sets.
pub proof fn lemma_fseq_monotone(
    names: Seq<Seq<char>>,
    f: Seq<Set<(Seq<char>, Seq<char>)>>,
    g: Seq<Set<(Seq<char>, Seq<char>)>>,
    body: Seq<GrammarSymbol>,
)
    requires
        tcovers(g, f),
        f.len() == names.len(),
    ensures
        fseq(names, f, body).0.subset_of(fseq(names, g, body).0),
        fseq(names, f, body).1 ==> fseq(names, g, body).1,
    decreases body.len(),
{
    if body.len() > 0 {
        lemma_fseq_monotone(names, f, g, body.drop_first());
        if let GrammarSymbol::NonTerminal(n) = body[0] {
            if names.contains(n@) {
                lemma_first_idx(names, n@);
                let k = first_idx(names, n@);
                assert(f[k].subset_of(g[k]));
            }
        }
    }
}

/// A terminal or `null` met after a prefix of vanishing non-terminals is in
/// FIRST of the body.
pub proof fn lemma_fseq_reach(
    names: Seq<Seq<char>>,
    g: Seq<Set<(Seq<char>, Seq<char>)>>,
    body: Seq<GrammarSymbol>,
    k: int,
    x: (Seq<char>, Seq<char>),
)
    requires
        0 <= k < body.len(),
        g.len() == names.len(),
        forall|j: int| 0 <= j < k ==> (#[trigger] body[j] matches GrammarSymbol::NonTerminal(n)
            && names.contains(n@) && g[first_idx(names, n@)].contains(null_key())),
        match body[k] {
            GrammarSymbol::Terminal(ts) => x == tkey(ts),
            GrammarSymbol::Null => x == null_key(),
            GrammarSymbol::NonTerminal(n) => names.contains(n@) && g[first_idx(names, n@)].contains(x) && x != null_key(),
        },
    ensures
        fseq(names, g, body).0.contains(x),
    decreases k,
{
    if k > 0 {
        assert forall|j: int| 0 <= j < k - 1 implies (#[trigger] body.drop_first()[j] matches GrammarSymbol::NonTerminal(n)
            && names.contains(n@) && g[first_idx(names, n@)].contains(null_key())) by {
            assert(body.drop_first()[j] == body[j + 1]);
        }
        lemma_fseq_reach(names, g, body.drop_first(), k - 1, x);
        assert(body[0] matches GrammarSymbol::NonTerminal(n) && names.contains(n@) && g[first_idx(names, n@)].contains(null_key()));
    }
}

/// A body of vanishing non-terminals vanishes.
pub proof fn lemma_fseq_all_null(names: Seq<Seq<char>>, g: Seq<Set<(Seq<char>, Seq<char>)>>, body: Seq<GrammarSymbol>)
    requires
        g.len() == names.len(),
        forall|j: int| 0 <= j < body.len() ==> (#[trigger] body[j] matches GrammarSymbol::NonTerminal(n)
            && names.contains(n@) && g[first_idx(names, n@)].contains(null_key())),
    ensures
        fseq(names, g, body).1,
    decreases body.len(),
{
    if body.len() > 0 {
        assert forall|j: int| 0 <= j < body.len() - 1 implies (#[trigger] body.drop_first()[j] matches GrammarSymbol::NonTerminal(n)
            && names.contains(n@) && g[first_idx(names, n@)].contains(null_key())) by {
            assert(body.drop_first()[j] == body[j + 1]);
        }
        lemma_fseq_all_null(names, g, body.drop_first());
        assert(body[0] matches GrammarSymbol::NonTerminal(n) && names.contains(n@) && g[first_idx(names, n@)].contains(null_key()));
    }
}


/// Every symbol of `body` before `k` is a registered non-terminal whose FIRST
/// set holds `null`.
pub open spec fn pref_null(names: Seq<Seq<char>>, f: Seq<Set<(Seq<char>, Seq<char>)>>, body: Seq<GrammarSymbol>, k: int) -> bool {
    forall|j: int| 0 <= j < k ==> (#[trigger] body[j] matches GrammarSymbol::NonTerminal(n)
        && names.contains(n@) && f[first_idx(names, n@)].contains(null_key()))
}

/// What `body` from position `k` on contributes.
pub open spec fn fsuf(names: Seq<Seq<char>>, f: Seq<Set<(Seq<char>, Seq<char>)>>, body: Seq<GrammarSymbol>, k: int) -> (Set<(Seq<char>, Seq<char>)>, bool) {
    fseq(names, f, body.subrange(k, body.len() as int))
}

/// `fsuf` unfolds by one symbol.
pub proof fn lemma_fsuf_step(names: Seq<Seq<char>>, f: Seq<Set<(Seq<char>, Seq<char>)>>, body: Seq<GrammarSymbol>, k: int)
    requires
        0 <= k < body.len(),
    ensures
        fsuf(names, f, body, k) == (match body[k] {
            GrammarSymbol::Terminal(ts) => (set![tkey(ts)], false),
            GrammarSymbol::Null => (set![null_key()], false),
            GrammarSymbol::NonTerminal(n) => if names.contains(n@) {
                let d = f[first_idx(names, n@)];
                let r = fsuf(names, f, body, k + 1);
                (d.remove(null_key()).union(if d.contains(null_key()) { r.0 } else { Set::empty() }), d.contains(null_key()) && r.1)
            } else {
                (Set::empty(), false)
            },
        }),
{
    let s = body.subrange(k, body.len() as int);
    assert(s[0] == body[k]);
    assert(s.drop_first() =~= body.subrange(k + 1, body.len() as int));
}

/// The position of the first non-terminal named `name`, if any.
pub fn find_nts_index(all_nts: &Vec<NonTerminalSymbol>, name: &str) -> (res: Option<usize>)
    ensures
        res is Some <==> nts_names(all_nts@).contains(name@),
        res matches Some(i) ==> i < all_nts@.len() && i == first_idx(nts_names(all_nts@), name@),
{
    let mut i: usize = 0;
    while i < all_nts.len()
        invariant
            i <= all_nts@.len(),
            forall|j: int| 0 <= j < i ==> nts_names(all_nts@)[j] != name@,
        decreases all_nts@.len() - i,
    {
        if str_eq(all_nts[i].name.as_str(), name) {
            proof {
                let names = nts_names(all_nts@);
                assert(names[i as int] == name@);
                lemma_first_idx(names, name@);
                let f = first_idx(names, name@);
                if f < i {
                    assert(names[f] != name@);
                }
                if f > i {
                    assert(names[i as int] != name@);
                }
            }
            return Some(i);
        }
        i = i + 1;
    }
    proof {
        let names = nts_names(all_nts@);
        if names.contains(name@) {
            let j = choose|j: int| 0 <= j < names.len() && names[j] == name@;
        }
    }
    None
}

/// All the tables but the non-terminals are as they were.
pub open spec fn others_same(a: Lab2Tables, b: Lab2Tables) -> bool {
    &&& a.get_nts@ == b.get_nts@
    &&& a.get_ts@ == b.get_ts@
    &&& a.parse_table_of_ll@ == b.parse_table_of_ll@
    &&& a.item_sets@ == b.item_sets@
    &&& a.transition_edges@ == b.transition_edges@
    &&& a.action_cells@ == b.action_cells@
    &&& a.goto_cells@ == b.goto_cells@
    &&& a.production_infos@ == b.production_infos@
    &&& a.all_productions@ == b.all_productions@
    &&& a.relative_id@ == b.relative_id@
}

/// The sizes of the FIRST sets.
pub open spec fn nflens(a: Seq<NonTerminalSymbol>) -> Seq<int> {
    a.map_values(|x: NonTerminalSymbol| x.pFirstSet@.len() as int)
}

/// What computing FIRST keeps, from the non-terminals `a0` at the start.
pub open spec fn nfirst_inv(a0: Seq<NonTerminalSymbol>, t0: Lab2Tables, t: Lab2Tables, u: Set<(Seq<char>, Seq<char>)>) -> bool {
    &&& nts_wf(t.all_nts@)
    &&& same_but_nfirst(a0, t.all_nts@)
    &&& others_same(t0, t)
    &&& tcovers(nfirst(t.all_nts@), nfirst(a0))
    &&& nfirst_least(a0, nfirst(a0), nfirst(t.all_nts@))
    &&& forall|i: int| 0 <= i < t.all_nts@.len() ==> (#[trigger] nfirst(t.all_nts@)[i]).subset_of(u)
}

/// Adding to FIRST of `i` members that every closed assignment above the
/// current one has there stays within every closed assignment.
proof fn lemma_nfirst_add(
    a0: Seq<NonTerminalSymbol>,
    f: Seq<Set<(Seq<char>, Seq<char>)>>,
    i: int,
    s: Set<(Seq<char>, Seq<char>)>,
)
    requires
        nfirst_least(a0, nfirst(a0), f),
        0 <= i < f.len(),
        forall|g: Seq<Set<(Seq<char>, Seq<char>)>>, x: (Seq<char>, Seq<char>)| #[trigger] nfirst_closed(a0, g) && tcovers(g, f) && #[trigger] s.contains(x) ==> g[i].contains(x),
    ensures
        nfirst_least(a0, nfirst(a0), f.update(i, f[i].union(s))),
{
    assert forall|g: Seq<Set<(Seq<char>, Seq<char>)>>| #[trigger] nfirst_closed(a0, g) && tcovers(g, nfirst(a0))
        implies tcovers(g, f.update(i, f[i].union(s))) by {
        assert(tcovers(g, f));
        assert forall|x: (Seq<char>, Seq<char>)| s.contains(x) implies g[i].contains(x) by {
            assert(nfirst_closed(a0, g) && tcovers(g, f) && s.contains(x));
        }
    }
}

/// A symbol met after a vanishing prefix of production `p` of `i`, or `null`
/// where the whole non-empty body vanishes, is in FIRST of `i` under every
/// closed assignment above `f`.
proof fn lemma_first_reach_closed(
    a0: Seq<NonTerminalSymbol>,
    f: Seq<Set<(Seq<char>, Seq<char>)>>,
    i: int,
    p: int,
    k: int,
    s: Set<(Seq<char>, Seq<char>)>,
)
    requires
        f.len() == a0.len(),
        0 <= i < a0.len(),
        0 <= p < a0[i].pProductionTable@.len(),
        0 <= k <= nt_body(a0, i, p).len(),
        nt_body(a0, i, p).len() > 0,
        pref_null(nts_names(a0), f, nt_body(a0, i, p), k),
        forall|x: (Seq<char>, Seq<char>)| #[trigger] s.contains(x) ==> if k < nt_body(a0, i, p).len() {
            match nt_body(a0, i, p)[k] {
                GrammarSymbol::Terminal(ts) => x == tkey(ts),
                GrammarSymbol::Null => x == null_key(),
                GrammarSymbol::NonTerminal(n) => nts_names(a0).contains(n@) && f[first_idx(nts_names(a0), n@)].contains(x) && x != null_key(),
            }
        } else {
            x == null_key()
        },
    ensures
        forall|g: Seq<Set<(Seq<char>, Seq<char>)>>, x: (Seq<char>, Seq<char>)| #[trigger] nfirst_closed(a0, g) && tcovers(g, f) && #[trigger] s.contains(x) ==> g[i].contains(x),
{
    let names = nts_names(a0);
    let body = nt_body(a0, i, p);
    assert forall|g: Seq<Set<(Seq<char>, Seq<char>)>>, x: (Seq<char>, Seq<char>)| #[trigger] nfirst_closed(a0, g) && tcovers(g, f) && #[trigger] s.contains(x)
        implies g[i].contains(x) by {
        assert forall|j: int| 0 <= j < k implies (#[trigger] body[j] matches GrammarSymbol::NonTerminal(n)
            && names.contains(n@) && g[first_idx(names, n@)].contains(null_key())) by {
            if let GrammarSymbol::NonTerminal(n) = body[j] {
                lemma_first_idx(names, n@);
                assert(f[first_idx(names, n@)].subset_of(g[first_idx(names, n@)]));
            }
        }
        if k < body.len() {
            if let GrammarSymbol::NonTerminal(n) = body[k] {
                lemma_first_idx(names, n@);
                assert(f[first_idx(names, n@)].subset_of(g[first_idx(names, n@)]));
            }
            lemma_fseq_reach(names, g, body, k, x);
        } else {
            lemma_fseq_all_null(names, g, body);
        }
        assert(prod_first(names, g, body).subset_of(g[i]));
    }
}

/// `u` holds `null` and every terminal of every body.
pub open spec fn u_has_terms(a: Seq<NonTerminalSymbol>, u: Set<(Seq<char>, Seq<char>)>) -> bool {
    &&& u.contains(null_key())
    &&& forall|i: int, p: int, k: int| 0 <= i < a.len() && 0 <= p < a[i].pProductionTable@.len()
        && 0 <= k < nt_body(a, i, p).len() ==> match #[trigger] nt_body(a, i, p)[k] {
            GrammarSymbol::Terminal(ts) => u.contains(tkey(ts)),
            _ => true,
        }
}

/// `null`, every terminal of every body, and the members of the FIRST and
/// FOLLOW sets.
fn first_universe(a: &Vec<NonTerminalSymbol>) -> (res: Vec<TerminalSymbol>)
    requires
        nts_wf(a@),
    ensures
        tunique(res@),
        u_has_terms(a@, tset(res@)),
        forall|i: int| 0 <= i < a@.len() ==> (#[trigger] nfirst(a@)[i]).subset_of(tset(res@)),
        forall|i: int| 0 <= i < a@.len() ==> (#[trigger] nfollow(a@)[i]).subset_of(tset(res@)),
{
    let mut u: Vec<TerminalSymbol> = Vec::new();
    let null = ts_null();
    proof {
        assert(tset(u@) =~= Set::<(Seq<char>, Seq<char>)>::empty());
    }
    ts_insert(&mut u, &null);
    let mut i: usize = 0;
    while i < a.len()
        invariant
            i <= a@.len(),
            nts_wf(a@),
            tunique(u@),
            tset(u@).contains(null_key()),
            forall|i2: int, p: int, k: int| 0 <= i2 < i && 0 <= p < a@[i2].pProductionTable@.len()
                && 0 <= k < nt_body(a@, i2, p).len() ==> match #[trigger] nt_body(a@, i2, p)[k] {
                    GrammarSymbol::Terminal(ts) => tset(u@).contains(tkey(ts)),
                    _ => true,
                },
            forall|i2: int| 0 <= i2 < i ==> (#[trigger] nfirst(a@)[i2]).subset_of(tset(u@)),
            forall|i2: int| 0 <= i2 < i ==> (#[trigger] nfollow(a@)[i2]).subset_of(tset(u@)),
        decreases a@.len() - i,
    {
        ts_extend(&mut u, &a[i].pFirstSet);
        ts_extend(&mut u, &a[i].pFollowSet);
        let mut p: usize = 0;
        while p < a[i].pProductionTable.len()
            invariant
                i < a@.len(),
                p <= a@[i as int].pProductionTable@.len(),
                tunique(u@),
                tset(u@).contains(null_key()),
                forall|i2: int, p2: int, k: int| 0 <= i2 < i && 0 <= p2 < a@[i2].pProductionTable@.len()
                    && 0 <= k < nt_body(a@, i2, p2).len() ==> match #[trigger] nt_body(a@, i2, p2)[k] {
                        GrammarSymbol::Terminal(ts) => tset(u@).contains(tkey(ts)),
                        _ => true,
                    },
                forall|p2: int, k: int| 0 <= p2 < p && 0 <= k < nt_body(a@, i as int, p2).len() ==> match #[trigger] nt_body(a@, i as int, p2)[k] {
                    GrammarSymbol::Terminal(ts) => tset(u@).contains(tkey(ts)),
                    _ => true,
                },
                forall|i2: int| 0 <= i2 <= i ==> (#[trigger] nfirst(a@)[i2]).subset_of(tset(u@)),
                forall|i2: int| 0 <= i2 <= i ==> (#[trigger] nfollow(a@)[i2]).subset_of(tset(u@)),
            decreases a@[i as int].pProductionTable@.len() - p,
        {
            let mut k: usize = 0;
            while k < a[i].pProductionTable[p].pBodySymbolTable.len()
                invariant
                    i < a@.len(),
                    p < a@[i as int].pProductionTable@.len(),
                    k <= nt_body(a@, i as int, p as int).len(),
                    tunique(u@),
                    tset(u@).contains(null_key()),
                    forall|i2: int, p2: int, k2: int| 0 <= i2 < i && 0 <= p2 < a@[i2].pProductionTable@.len()
                        && 0 <= k2 < nt_body(a@, i2, p2).len() ==> match #[trigger] nt_body(a@, i2, p2)[k2] {
                            GrammarSymbol::Terminal(ts) => tset(u@).contains(tkey(ts)),
                            _ => true,
                        },
                    forall|p2: int, k2: int| 0 <= p2 < p && 0 <= k2 < nt_body(a@, i as int, p2).len() ==> match #[trigger] nt_body(a@, i as int, p2)[k2] {
                        GrammarSymbol::Terminal(ts) => tset(u@).contains(tkey(ts)),
                        _ => true,
                    },
                    forall|k2: int| 0 <= k2 < k ==> match #[trigger] nt_body(a@, i as int, p as int)[k2] {
                        GrammarSymbol::Terminal(ts) => tset(u@).contains(tkey(ts)),
                        _ => true,
                    },
                    forall|i2: int| 0 <= i2 <= i ==> (#[trigger] nfirst(a@)[i2]).subset_of(tset(u@)),
                    forall|i2: int| 0 <= i2 <= i ==> (#[trigger] nfollow(a@)[i2]).subset_of(tset(u@)),
                decreases nt_body(a@, i as int, p as int).len() - k,
            {
                match &a[i].pProductionTable[p].pBodySymbolTable[k] {
                    GrammarSymbol::Terminal(ts) => {
                        ts_insert(&mut u, ts);
                    },
                    _ => {},
                }
                k = k + 1;
            }
            p = p + 1;
        }
        i = i + 1;
    }
    u
}

/// Enters FIRST of production `p` of non-terminal `idx` into its FIRST set,
/// reading the FIRST sets as they stand; says whether the set grew. Where it
/// did not, FIRST of the body was in it already.
#[verifier::rlimit(80)]
#[verifier::spinoff_prover]
fn first_of_production(
    tables: &mut Lab2Tables,
    idx: usize,
    p: usize,
    Ghost(a0): Ghost<Seq<NonTerminalSymbol>>,
    Ghost(t0): Ghost<Lab2Tables>,
    Ghost(u): Ghost<Set<(Seq<char>, Seq<char>)>>,
) -> (grew: bool)
    requires
        nfirst_inv(a0, t0, *old(tables), u),
        u_has_terms(a0, u),
        idx < a0.len(),
        p < a0[idx as int].pProductionTable@.len(),
    ensures
        nfirst_inv(a0, t0, *final(tables), u),
        tcovers(nfirst(final(tables).all_nts@), nfirst(old(tables).all_nts@)),
        sum_ints(nflens(final(tables).all_nts@)) >= sum_ints(nflens(old(tables).all_nts@)),
        grew ==> sum_ints(nflens(final(tables).all_nts@)) > sum_ints(nflens(old(tables).all_nts@)),
        !grew ==> nfirst(final(tables).all_nts@) == nfirst(old(tables).all_nts@),
        !grew ==> prod_first(nts_names(a0), nfirst(final(tables).all_nts@), nt_body(a0, idx as int, p as int)).subset_of(
            nfirst(final(tables).all_nts@)[idx as int]),
{
    let ghost names = nts_names(a0);
    let ghost f0 = nfirst(tables.all_nts@);
    let ghost s0 = sum_ints(nflens(tables.all_nts@));
    let null = ts_null();
    assert(tkey(null) == null_key());
    assert(tables.all_nts@[idx as int].pProductionTable@ == a0[idx as int].pProductionTable@);
    let body = copy_body(&tables.all_nts[idx].pProductionTable[p].pBodySymbolTable);
    assert(body@ == nt_body(a0, idx as int, p as int));
    assert(nts_names(tables.all_nts@) =~= names);
    if body.len() == 0 {
        let ghost tb = *tables;
        let g = ts_insert(&mut tables.all_nts[idx].pFirstSet, &null);
        proof {
            let ta = *tables;
            assert(nfirst(ta.all_nts@)[idx as int] =~= nfirst(tb.all_nts@)[idx as int].union(set![null_key()]));
            assert(nfirst(ta.all_nts@) =~= nfirst(tb.all_nts@).update(idx as int, nfirst(tb.all_nts@)[idx as int].union(set![null_key()])));
            assert forall|g2: Seq<Set<(Seq<char>, Seq<char>)>>, x: (Seq<char>, Seq<char>)| #[trigger] nfirst_closed(a0, g2)
                && tcovers(g2, f0) && #[trigger] set![null_key()].contains(x) implies g2[idx as int].contains(x) by {
                assert(prod_first(names, g2, nt_body(a0, idx as int, p as int)).subset_of(g2[idx as int]));
            }
            lemma_nfirst_add(a0, f0, idx as int, set![null_key()]);
            if g {
                assert(nflens(ta.all_nts@) =~= nflens(tb.all_nts@).update(idx as int, ta.all_nts@[idx as int].pFirstSet@.len() as int));
                lemma_sum_update(nflens(tb.all_nts@), idx as int, ta.all_nts@[idx as int].pFirstSet@.len() as int);
            } else {
                assert(nflens(ta.all_nts@) =~= nflens(tb.all_nts@));
            }
            assert(same_but_nfirst(a0, ta.all_nts@));
        }
        return g;
    }
    let mut grew = false;
    let mut stop = false;
    let mut k: usize = 0;
    let ghost mut pre: Set<(Seq<char>, Seq<char>)> = Set::empty();
    assert(body@.subrange(0, body@.len() as int) =~= body@);
    assert(pre.union(fsuf(names, f0, body@, 0).0) =~= fsuf(names, f0, body@, 0).0);
    while k < body.len() && !stop
        invariant
            nfirst_inv(a0, t0, *tables, u),
            u_has_terms(a0, u),
            names == nts_names(a0),
            idx < a0.len(),
            p < a0[idx as int].pProductionTable@.len(),
            body@ == nt_body(a0, idx as int, p as int),
            body@.len() > 0,
            tkey(null) == null_key(),
            k <= body@.len(),
            tcovers(nfirst(tables.all_nts@), f0),
            f0.len() == a0.len(),
            sum_ints(nflens(tables.all_nts@)) >= s0,
            grew ==> sum_ints(nflens(tables.all_nts@)) > s0,
            !grew ==> nfirst(tables.all_nts@) == f0,
            !stop ==> pref_null(names, nfirst(tables.all_nts@), body@, k as int),
            !grew ==> pre.subset_of(f0[idx as int]),
            !grew && !stop ==> fseq(names, f0, body@).0 == pre.union(fsuf(names, f0, body@, k as int).0)
                && fseq(names, f0, body@).1 == fsuf(names, f0, body@, k as int).1,
            !grew && stop ==> fseq(names, f0, body@).0 == pre && !fseq(names, f0, body@).1,
        decreases body@.len() - k,
    {
        let ghost tb = *tables;
        let ghost fb = nfirst(tb.all_nts@);
        proof {
            lemma_fsuf_step(names, f0, body@, k as int);
            assert(nts_names(tb.all_nts@) =~= names);
            assert(nt_body(a0, idx as int, p as int)[k as int] == body@[k as int]);
        }
        match &body[k] {
            GrammarSymbol::Terminal(ts) => {
                if ts_insert(&mut tables.all_nts[idx].pFirstSet, ts) {
                    grew = true;
                }
                proof {
                    let ta = *tables;
                    let s = set![tkey(*ts)];
                    assert(nfirst(ta.all_nts@)[idx as int] =~= fb[idx as int].union(s));
                    assert(nfirst(ta.all_nts@) =~= fb.update(idx as int, fb[idx as int].union(s)));
                    lemma_first_reach_closed(a0, fb, idx as int, p as int, k as int, s);
                    lemma_nfirst_add(a0, fb, idx as int, s);
                    if ta.all_nts@[idx as int].pFirstSet@.len() > tb.all_nts@[idx as int].pFirstSet@.len() {
                        assert(nflens(ta.all_nts@) =~= nflens(tb.all_nts@).update(idx as int, ta.all_nts@[idx as int].pFirstSet@.len() as int));
                        lemma_sum_update(nflens(tb.all_nts@), idx as int, ta.all_nts@[idx as int].pFirstSet@.len() as int);
                    } else {
                        assert(nflens(ta.all_nts@) =~= nflens(tb.all_nts@));
                    }
                    assert(same_but_nfirst(a0, ta.all_nts@));
                    assert(nt_body(a0, idx as int, p as int)[k as int] == body@[k as int]);
                    assert(u.contains(tkey(*ts)));
                    pre = pre.union(s);
                }
                stop = true;
            },
            GrammarSymbol::Null => {
                if ts_insert(&mut tables.all_nts[idx].pFirstSet, &null) {
                    grew = true;
                }
                proof {
                    let ta = *tables;
                    let s = set![null_key()];
                    assert(nfirst(ta.all_nts@)[idx as int] =~= fb[idx as int].union(s));
                    assert(nfirst(ta.all_nts@) =~= fb.update(idx as int, fb[idx as int].union(s)));
                    lemma_first_reach_closed(a0, fb, idx as int, p as int, k as int, s);
                    lemma_nfirst_add(a0, fb, idx as int, s);
                    if ta.all_nts@[idx as int].pFirstSet@.len() > tb.all_nts@[idx as int].pFirstSet@.len() {
                        assert(nflens(ta.all_nts@) =~= nflens(tb.all_nts@).update(idx as int, ta.all_nts@[idx as int].pFirstSet@.len() as int));
                        lemma_sum_update(nflens(tb.all_nts@), idx as int, ta.all_nts@[idx as int].pFirstSet@.len() as int);
                    } else {
                        assert(nflens(ta.all_nts@) =~= nflens(tb.all_nts@));
                    }
                    assert(same_but_nfirst(a0, ta.all_nts@));
                    pre = pre.union(s);
                }
                stop = true;
            },
            GrammarSymbol::NonTerminal(name) => {
                match find_nts_index(&tables.all_nts, name.as_str()) {
                    Some(dep) => {
                        let mut dep_first = crate::lab2::tables::symbols::copy_tset(&tables.all_nts[dep].pFirstSet);
                        assert(tunique(dep_first@));
                        let has_null = ts_remove(&mut dep_first, &null);
                        if ts_extend(&mut tables.all_nts[idx].pFirstSet, &dep_first) {
                            grew = true;
                        }
                        proof {
                            let ta = *tables;
                            let s = tset(dep_first@);
                            assert(dep as int == first_idx(names, name@));
                            assert(s == fb[dep as int].remove(null_key()));
                            assert(nfirst(ta.all_nts@)[idx as int] =~= fb[idx as int].union(s));
                    assert(nfirst(ta.all_nts@) =~= fb.update(idx as int, fb[idx as int].union(s)));
                            lemma_first_reach_closed(a0, fb, idx as int, p as int, k as int, s);
                            lemma_nfirst_add(a0, fb, idx as int, s);
                            if ta.all_nts@[idx as int].pFirstSet@.len() > tb.all_nts@[idx as int].pFirstSet@.len() {
                                assert(nflens(ta.all_nts@) =~= nflens(tb.all_nts@).update(idx as int, ta.all_nts@[idx as int].pFirstSet@.len() as int));
                                lemma_sum_update(nflens(tb.all_nts@), idx as int, ta.all_nts@[idx as int].pFirstSet@.len() as int);
                            } else {
                                assert(nflens(ta.all_nts@) =~= nflens(tb.all_nts@));
                            }
                            assert(same_but_nfirst(a0, ta.all_nts@));
                            assert(nfirst(tb.all_nts@)[dep as int].subset_of(u));
                            pre = pre.union(s);
                            if has_null {
                                assert forall|j: int| 0 <= j < k + 1 implies (#[trigger] body@[j] matches GrammarSymbol::NonTerminal(n)
                                    && names.contains(n@) && nfirst(ta.all_nts@)[first_idx(names, n@)].contains(null_key())) by {
                                    if let GrammarSymbol::NonTerminal(n) = body@[j] {
                                        lemma_first_idx(names, n@);
                                        let q = first_idx(names, n@);
                                        assert(fb[q].subset_of(nfirst(ta.all_nts@)[q]));
                                    }
                                }
                            }
                        }
                        if !has_null {
                            stop = true;
                        }
                    },
                    None => {
                        stop = true;
                    },
                }
            },
        }
        k = k + 1;
    }
    if !stop {
        let ghost tb = *tables;
        let ghost fb = nfirst(tb.all_nts@);
        if ts_insert(&mut tables.all_nts[idx].pFirstSet, &null) {
            grew = true;
        }
        proof {
            let ta = *tables;
            let s = set![null_key()];
            assert(nfirst(ta.all_nts@)[idx as int] =~= fb[idx as int].union(s));
                    assert(nfirst(ta.all_nts@) =~= fb.update(idx as int, fb[idx as int].union(s)));
            lemma_first_reach_closed(a0, fb, idx as int, p as int, body@.len() as int, s);
            lemma_nfirst_add(a0, fb, idx as int, s);
            if ta.all_nts@[idx as int].pFirstSet@.len() > tb.all_nts@[idx as int].pFirstSet@.len() {
                assert(nflens(ta.all_nts@) =~= nflens(tb.all_nts@).update(idx as int, ta.all_nts@[idx as int].pFirstSet@.len() as int));
                lemma_sum_update(nflens(tb.all_nts@), idx as int, ta.all_nts@[idx as int].pFirstSet@.len() as int);
            } else {
                assert(nflens(ta.all_nts@) =~= nflens(tb.all_nts@));
            }
            assert(same_but_nfirst(a0, ta.all_nts@));
        }
    }
    proof {
        if !grew {
            let fs = fseq(names, f0, body@);
            if !stop {
                assert(k == body@.len());
                assert(body@.subrange(body@.len() as int, body@.len() as int) =~= Seq::<GrammarSymbol>::empty());
                assert(fsuf(names, f0, body@, k as int) == (Set::<(Seq<char>, Seq<char>)>::empty(), true));
                assert(fs.0 =~= pre);
                assert(prod_first(names, f0, body@) == fs.0.insert(null_key()));
            } else {
                assert(prod_first(names, f0, body@) == fs.0);
            }
        }
    }
    grew
}

/// A set of terminals held each once has as many members as entries.
pub proof fn lemma_tset_len(v: Seq<TerminalSymbol>)
    requires
        tunique(v),
    ensures
        tset(v).finite(),
        tset(v).len() == v.len(),
{
    let m = v.map_values(|t: TerminalSymbol| tkey(t));
    assert forall|i: int, j: int| 0 <= i < m.len() && 0 <= j < m.len() && i != j implies m[i] != m[j] by {
        assert(tkey(v[i]) != tkey(v[j]));
    }
    assert(m.no_duplicates());
    m.unique_seq_to_set();
    vstd::seq_lib::seq_to_set_is_finite(m);
}

/// Each FIRST set within `u` is no larger than `u`, so their sizes add up to
/// at most `len * |u|`.
proof fn lemma_nflens_bound(a: Seq<NonTerminalSymbol>, uv: Seq<TerminalSymbol>)
    requires
        nts_wf(a),
        tunique(uv),
        forall|i: int| 0 <= i < a.len() ==> (#[trigger] nfirst(a)[i]).subset_of(tset(uv)),
    ensures
        0 <= sum_ints(nflens(a)) <= a.len() * uv.len(),
{
    lemma_tset_len(uv);
    assert forall|i: int| 0 <= i < nflens(a).len() implies 0 <= #[trigger] nflens(a)[i] <= uv.len() by {
        lemma_tset_len(a[i].pFirstSet@);
        assert(nfirst(a)[i] == tset(a[i].pFirstSet@));
        vstd::set_lib::lemma_len_subset(tset(a[i].pFirstSet@), tset(uv));
    }
    lemma_sum_bound(nflens(a), uv.len() as int);
}

/// Computes the FIRST set of every non-terminal: applies the FIRST rule to
/// each production of each non-terminal, reading the sets as they stand, and
/// repeats the pass until one changes nothing. The sets come out as the least
/// ones that hold what they held and are closed under the rule.
pub fn get_All_NTS_FIRST(tables: &mut Lab2Tables)
    requires
        nts_wf(old(tables).all_nts@),
    ensures
        nts_wf(final(tables).all_nts@),
        same_but_nfirst(old(tables).all_nts@, final(tables).all_nts@),
        others_same(*old(tables), *final(tables)),
        tcovers(nfirst(final(tables).all_nts@), nfirst(old(tables).all_nts@)),
        nfirst_closed(old(tables).all_nts@, nfirst(final(tables).all_nts@)),
        nfirst_least(old(tables).all_nts@, nfirst(old(tables).all_nts@), nfirst(final(tables).all_nts@)),
        nfirst_closed(final(tables).all_nts@, nfirst(final(tables).all_nts@)),
        nfirst_least(final(tables).all_nts@, nfirst(old(tables).all_nts@), nfirst(final(tables).all_nts@)),
{
    let ghost a0 = tables.all_nts@;
    let ghost t0 = *tables;
    let uv = first_universe(&tables.all_nts);
    let ghost u = tset(uv@);
    proof {
        assert(same_but_nfirst(a0, tables.all_nts@));
        assert(tcovers(nfirst(a0), nfirst(a0)));
    }
    let n = tables.all_nts.len();
    let mut changed = true;
    proof {
        lemma_nflens_bound(tables.all_nts@, uv@);
    }
    while changed
        invariant
            nfirst_inv(a0, t0, *tables, u),
            u_has_terms(a0, u),
            u == tset(uv@),
            tunique(uv@),
            n == a0.len(),
            0 <= sum_ints(nflens(tables.all_nts@)) <= n * uv@.len(),
            !changed ==> nfirst_closed(a0, nfirst(tables.all_nts@)),
        decreases n * uv@.len() - sum_ints(nflens(tables.all_nts@)) + (if changed { 1int } else { 0int }),
    {
        changed = false;
        let ghost s_start = sum_ints(nflens(tables.all_nts@));
        let ghost f_start = nfirst(tables.all_nts@);
        let mut idx: usize = 0;
        while idx < n
            invariant
                nfirst_inv(a0, t0, *tables, u),
                u_has_terms(a0, u),
                n == a0.len(),
                idx <= n,
                sum_ints(nflens(tables.all_nts@)) >= s_start,
                changed ==> sum_ints(nflens(tables.all_nts@)) > s_start,
                !changed ==> nfirst(tables.all_nts@) == f_start,
                !changed ==> forall|i2: int, p2: int| 0 <= i2 < idx && 0 <= p2 < a0[i2].pProductionTable@.len()
                    ==> #[trigger] prod_first(nts_names(a0), f_start, nt_body(a0, i2, p2)).subset_of(f_start[i2]),
            decreases n - idx,
        {
            assert(tables.all_nts@[idx as int].pProductionTable@ == a0[idx as int].pProductionTable@);
            let np = tables.all_nts[idx].pProductionTable.len();
            let mut p: usize = 0;
            while p < np
                invariant
                    nfirst_inv(a0, t0, *tables, u),
                    u_has_terms(a0, u),
                    n == a0.len(),
                    idx < n,
                    np == a0[idx as int].pProductionTable@.len(),
                    p <= np,
                    sum_ints(nflens(tables.all_nts@)) >= s_start,
                    changed ==> sum_ints(nflens(tables.all_nts@)) > s_start,
                    !changed ==> nfirst(tables.all_nts@) == f_start,
                    !changed ==> forall|i2: int, p2: int| 0 <= i2 < idx && 0 <= p2 < a0[i2].pProductionTable@.len()
                        ==> #[trigger] prod_first(nts_names(a0), f_start, nt_body(a0, i2, p2)).subset_of(f_start[i2]),
                    !changed ==> forall|p2: int| 0 <= p2 < p
                        ==> #[trigger] prod_first(nts_names(a0), f_start, nt_body(a0, idx as int, p2)).subset_of(f_start[idx as int]),
                decreases np - p,
            {
                if first_of_production(tables, idx, p, Ghost(a0), Ghost(t0), Ghost(u)) {
                    changed = true;
                }
                p = p + 1;
            }
            idx = idx + 1;
        }
        proof {
            lemma_nflens_bound(tables.all_nts@, uv@);
            if !changed {
                let f = nfirst(tables.all_nts@);
                assert forall|i: int, p: int| 0 <= i < a0.len() && 0 <= p < a0[i].pProductionTable@.len()
                    implies #[trigger] prod_first(nts_names(a0), f, nt_body(a0, i, p)).subset_of(f[i]) by {
                    assert(prod_first(nts_names(a0), f_start, nt_body(a0, i, p)).subset_of(f_start[i]));
                }
            }
        }
    }
    proof {
        let fa = tables.all_nts@;
        lemma_first_closed_same(a0, fa);
        assert forall|g: Seq<Set<(Seq<char>, Seq<char>)>>| #[trigger] nfirst_closed(fa, g) && tcovers(g, nfirst(a0))
            implies tcovers(g, nfirst(fa)) by {
            assert(nfirst_closed(a0, g));
        }
    }
}

/// Whether the FIRST rule holds depends only on the names and productions.
pub proof fn lemma_first_closed_same(a: Seq<NonTerminalSymbol>, b: Seq<NonTerminalSymbol>)
    requires
        a.len() == b.len(),
        forall|i: int| 0 <= i < a.len() ==> (#[trigger] a[i]).name@ == b[i].name@ && a[i].pProductionTable@ == b[i].pProductionTable@,
    ensures
        forall|g: Seq<Set<(Seq<char>, Seq<char>)>>| #[trigger] nfirst_closed(a, g) == nfirst_closed(b, g),
{
    assert(nts_names(a) =~= nts_names(b));
    assert forall|g: Seq<Set<(Seq<char>, Seq<char>)>>| #[trigger] nfirst_closed(a, g) == nfirst_closed(b, g) by {
        if nfirst_closed(a, g) {
            assert forall|i: int, p: int| 0 <= i < b.len() && 0 <= p < b[i].pProductionTable@.len()
                implies #[trigger] prod_first(nts_names(b), g, nt_body(b, i, p)).subset_of(g[i]) by {
                assert(prod_first(nts_names(a), g, nt_body(a, i, p)).subset_of(g[i]));
            }
        }
        if nfirst_closed(b, g) {
            assert forall|i: int, p: int| 0 <= i < a.len() && 0 <= p < a[i].pProductionTable@.len()
                implies #[trigger] prod_first(nts_names(a), g, nt_body(a, i, p)).subset_of(g[i]) by {
                assert(prod_first(nts_names(b), g, nt_body(b, i, p)).subset_of(g[i]));
            }
        }
    }
}

/// Whether the FOLLOW rule holds depends only on the names, productions and
/// FIRST sets.
pub proof fn lemma_follow_closed_same(a: Seq<NonTerminalSymbol>, b: Seq<NonTerminalSymbol>)
    requires
        a.len() == b.len(),
        forall|i: int| 0 <= i < a.len() ==> (#[trigger] a[i]).name@ == b[i].name@ && a[i].pProductionTable@ == b[i].pProductionTable@
            && a[i].pFirstSet@ == b[i].pFirstSet@,
    ensures
        forall|g: Seq<Set<(Seq<char>, Seq<char>)>>| #[trigger] nfollow_closed(a, g) == nfollow_closed(b, g),
{
    assert(nts_names(a) =~= nts_names(b));
    assert(nfirst(a) =~= nfirst(b));
    assert forall|g: Seq<Set<(Seq<char>, Seq<char>)>>| #[trigger] nfollow_closed(a, g) == nfollow_closed(b, g) by {
        if nfollow_closed(a, g) {
            assert forall|h: int, p: int, i: int| 0 <= h < b.len() && 0 <= p < b[h].pProductionTable@.len() && 0 <= i < nt_body(b, h, p).len()
                implies #[trigger] follow_rule(b, g, g, h, p, i) by {
                assert(follow_rule(a, g, g, h, p, i));
            }
        }
        if nfollow_closed(b, g) {
            assert forall|h: int, p: int, i: int| 0 <= h < a.len() && 0 <= p < a[h].pProductionTable@.len() && 0 <= i < nt_body(a, h, p).len()
                implies #[trigger] follow_rule(a, g, g, h, p, i) by {
                assert(follow_rule(b, g, g, h, p, i));
            }
        }
    }
}

/// FIRST of a production as the single pass over its body finds it, from
/// position `k` with the set `acc` so far and `ns` saying whether all before
/// `k` could vanish: a terminal is added and ends the pass; a registered
/// non-terminal adds its FIRST set, after which `null` is taken out, and the
/// pass goes on only where that set holds `null`; an unregistered one adds
/// nothing; the empty symbol adds `null`. Where the pass runs off the end of
/// the body, `null` is added.
pub open spec fn pstep(
    names: Seq<Seq<char>>,
    f: Seq<Set<(Seq<char>, Seq<char>)>>,
    body: Seq<GrammarSymbol>,
    k: int,
    acc: Set<(Seq<char>, Seq<char>)>,
    ns: bool,
) -> Set<(Seq<char>, Seq<char>)>
    decreases body.len() - k,
{
    if k < 0 || !ns || k >= body.len() {
        if ns && k == body.len() {
            acc.insert(null_key())
        } else {
            acc
        }
    } else {
        match body[k] {
            GrammarSymbol::Terminal(ts) => pstep(names, f, body, k + 1, acc.insert(tkey(ts)), false),
            GrammarSymbol::NonTerminal(n) => if names.contains(n@) {
                let d = f[first_idx(names, n@)];
                pstep(names, f, body, k + 1, acc.union(d).remove(null_key()), d.contains(null_key()))
            } else {
                pstep(names, f, body, k + 1, acc, true)
            },
            GrammarSymbol::Null => pstep(names, f, body, k + 1, acc.insert(null_key()), true),
        }
    }
}

/// FIRST of a production, with the set it held before, over the
/// non-terminals `a`.
pub open spec fn production_first(a: Seq<NonTerminalSymbol>, pr: Production) -> Set<(Seq<char>, Seq<char>)> {
    pstep(nts_names(a), nfirst(a), pr.pBodySymbolTable@, 0, tset(pr.pFirstSet@), true)
}

/// Adds to the FIRST set of `production` what one pass over its body finds,
/// with the non-terminals' FIRST sets as they stand in `all_nts`.
pub fn get_Production_FIRST(all_nts: &Vec<NonTerminalSymbol>, production: &mut Production)
    requires
        tunique(old(production).pFirstSet@),
    ensures
        tunique(final(production).pFirstSet@),
        tset(final(production).pFirstSet@) == production_first(all_nts@, *old(production)),
        final(production).productionId == old(production).productionId,
        final(production).bodySize == old(production).bodySize,
        final(production).pBodySymbolTable@ == old(production).pBodySymbolTable@,
{
    let ghost names = nts_names(all_nts@);
    let ghost f = nfirst(all_nts@);
    let ghost body = production.pBodySymbolTable@;
    let ghost goal = production_first(all_nts@, *production);
    let null = ts_null();
    assert(tkey(null) == null_key());
    let mut null_stand = true;
    let mut i: usize = 0;
    while null_stand && i < production.pBodySymbolTable.len()
        invariant
            i <= body.len(),
            body == production.pBodySymbolTable@,
            names == nts_names(all_nts@),
            f == nfirst(all_nts@),
            tkey(null) == null_key(),
            tunique(production.pFirstSet@),
            production.productionId == old(production).productionId,
            production.bodySize == old(production).bodySize,
            goal == pstep(names, f, body, i as int, tset(production.pFirstSet@), null_stand),
        decreases body.len() - i,
    {
        match &production.pBodySymbolTable[i] {
            GrammarSymbol::Terminal(ts) => {
                let t = crate::lab2::tables::symbols::copy_ts(ts);
                null_stand = false;
                ts_insert(&mut production.pFirstSet, &t);
            },
            GrammarSymbol::NonTerminal(name) => {
                let nm = name.clone();
                match find_nts_index(all_nts, nm.as_str()) {
                    Some(idx) => {
                        ts_extend(&mut production.pFirstSet, &all_nts[idx].pFirstSet);
                        ts_remove(&mut production.pFirstSet, &null);
                        if !ts_contains(&all_nts[idx].pFirstSet, &null) {
                            null_stand = false;
                        }
                    },
                    None => {},
                }
            },
            GrammarSymbol::Null => {
                ts_insert(&mut production.pFirstSet, &null);
            },
        }
        i = i + 1;
    }
    if null_stand && i == production.pBodySymbolTable.len() {
        ts_insert(&mut production.pFirstSet, &null);
    }
}

/// A copy of a production.
pub fn copy_production(pr: &Production) -> (res: Production)
    ensures
        res.productionId == pr.productionId,
        res.bodySize == pr.bodySize,
        res.pBodySymbolTable@ == pr.pBodySymbolTable@,
        res.pFirstSet@ == pr.pFirstSet@,
{
    Production {
        productionId: pr.productionId,
        bodySize: pr.bodySize,
        pBodySymbolTable: copy_body(&pr.pBodySymbolTable),
        pFirstSet: crate::lab2::tables::symbols::copy_tset(&pr.pFirstSet),
    }
}

/// Every production's FIRST set holds each terminal once.
pub open spec fn prods_wf(ps: Seq<Production>) -> bool {
    forall|i: int| 0 <= i < ps.len() ==> tunique((#[trigger] ps[i]).pFirstSet@)
}

/// Computes the FIRST set of every production in the production list, with
/// the non-terminals' FIRST sets as they stand.
pub fn get_All_Production_FIRST(tables: &mut Lab2Tables)
    requires
        prods_wf(old(tables).all_productions@),
    ensures
        prods_wf(final(tables).all_productions@),
        final(tables).all_productions@.len() == old(tables).all_productions@.len(),
        forall|i: int| 0 <= i < final(tables).all_productions@.len() ==> {
            let x = #[trigger] final(tables).all_productions@[i];
            let y = old(tables).all_productions@[i];
            &&& x.productionId == y.productionId
            &&& x.bodySize == y.bodySize
            &&& x.pBodySymbolTable@ == y.pBodySymbolTable@
            &&& tset(x.pFirstSet@) == production_first(old(tables).all_nts@, y)
        },
        final(tables).all_nts@ == old(tables).all_nts@,
        final(tables).get_nts@ == old(tables).get_nts@,
        final(tables).get_ts@ == old(tables).get_ts@,
        final(tables).parse_table_of_ll@ == old(tables).parse_table_of_ll@,
        final(tables).item_sets@ == old(tables).item_sets@,
        final(tables).transition_edges@ == old(tables).transition_edges@,
        final(tables).action_cells@ == old(tables).action_cells@,
        final(tables).goto_cells@ == old(tables).goto_cells@,
        final(tables).production_infos@ == old(tables).production_infos@,
        final(tables).relative_id@ == old(tables).relative_id@,
{
    let ghost ps0 = tables.all_productions@;
    let mut i: usize = 0;
    while i < tables.all_productions.len()
        invariant
            i <= tables.all_productions@.len(),
            tables.all_productions@.len() == ps0.len(),
            prods_wf(tables.all_productions@),
            tables.all_nts@ == old(tables).all_nts@,
            tables.get_nts@ == old(tables).get_nts@,
            tables.get_ts@ == old(tables).get_ts@,
            tables.parse_table_of_ll@ == old(tables).parse_table_of_ll@,
            tables.item_sets@ == old(tables).item_sets@,
            tables.transition_edges@ == old(tables).transition_edges@,
            tables.action_cells@ == old(tables).action_cells@,
            tables.goto_cells@ == old(tables).goto_cells@,
            tables.production_infos@ == old(tables).production_infos@,
            tables.relative_id@ == old(tables).relative_id@,
            ps0 == old(tables).all_productions@,
            forall|j: int| i <= j < ps0.len() ==> #[trigger] tables.all_productions@[j] == ps0[j],
            forall|j: int| 0 <= j < i ==> {
                let x = #[trigger] tables.all_productions@[j];
                let y = ps0[j];
                &&& x.productionId == y.productionId
                &&& x.bodySize == y.bodySize
                &&& x.pBodySymbolTable@ == y.pBodySymbolTable@
                &&& tset(x.pFirstSet@) == production_first(old(tables).all_nts@, y)
            },
        decreases ps0.len() - i,
    {
        let mut pr = copy_production(&tables.all_productions[i]);
        assert(tables.all_productions@[i as int] == ps0[i as int]);
        assert(tunique(ps0[i as int].pFirstSet@));
        proof {
            assert(production_first(tables.all_nts@, pr) == production_first(tables.all_nts@, ps0[i as int]));
        }
        get_Production_FIRST(&tables.all_nts, &mut pr);
        tables.all_productions.set(i, pr);
        i = i + 1;
    }
}

/// Each name mapped to the last position at which it occurs.
pub open spec fn last_pos_map(names: Seq<Seq<char>>) -> Map<Seq<char>, usize>
    decreases names.len(),
{
    if names.len() == 0 {
        Map::empty()
    } else {
        last_pos_map(names.drop_last()).insert(names.last(), (names.len() - 1) as usize)
    }
}

/// The positions in `last_pos_map` are positions of the list.
pub proof fn lemma_last_pos_bound(names: Seq<Seq<char>>)
    requires
        names.len() <= usize::MAX,
    ensures
        forall|k: Seq<char>| #[trigger] last_pos_map(names).contains_key(k) ==> last_pos_map(names)[k] < names.len(),
    decreases names.len(),
{
    if names.len() > 0 {
        let d = names.drop_last();
        lemma_last_pos_bound(d);
        assert forall|k: Seq<char>| #[trigger] last_pos_map(names).contains_key(k) implies last_pos_map(names)[k] < names.len() by {
            if k != names.last() {
                assert(last_pos_map(d).contains_key(k));
            }
        }
    }
}

/// The sets of a list of terminal sets.
pub open spec fn fsets(v: Seq<Vec<TerminalSymbol>>) -> Seq<Set<(Seq<char>, Seq<char>)>> {
    v.map_values(|x: Vec<TerminalSymbol>| tset(x@))
}

/// What FIRST of the body from position `k` on contributes to FOLLOW, with
/// names looked up in `nm` and FIRST sets taken from `fs`, and whether that
/// part of the body can vanish.
pub open spec fn ffirst(
    nm: Map<Seq<char>, usize>,
    fs: Seq<Set<(Seq<char>, Seq<char>)>>,
    body: Seq<GrammarSymbol>,
    k: int,
) -> (Set<(Seq<char>, Seq<char>)>, bool)
    decreases body.len() - k,
{
    if k < 0 || k >= body.len() {
        (Set::empty(), true)
    } else {
        match body[k] {
            GrammarSymbol::Terminal(ts) => (set![tkey(ts)], false),
            GrammarSymbol::Null => (set![null_key()], false),
            GrammarSymbol::NonTerminal(n) => if nm.contains_key(n@) {
                let d = fs[nm[n@] as int];
                let r = ffirst(nm, fs, body, k + 1);
                (d.remove(null_key()).union(if d.contains(null_key()) { r.0 } else { Set::empty() }), d.contains(null_key()) && r.1)
            } else {
                (Set::empty(), false)
            },
        }
    }
}

/// Maps each non-terminal's name to its last position.
fn name_positions(a: &Vec<NonTerminalSymbol>) -> (res: Vec<(String, usize)>)
    ensures
        skeys_unique(res@),
        smap(res@) == last_pos_map(nts_names(a@)),
{
    let mut v: Vec<(String, usize)> = Vec::new();
    let ghost names = nts_names(a@);
    proof {
        assert(smap(v@) =~= Map::<Seq<char>, usize>::empty());
        assert(names.take(0).len() == 0);
    }
    let mut i: usize = 0;
    while i < a.len()
        invariant
            i <= a@.len(),
            names == nts_names(a@),
            skeys_unique(v@),
            smap(v@) == last_pos_map(names.take(i as int)),
        decreases a@.len() - i,
    {
        sput(&mut v, a[i].name.as_str(), i);
        proof {
            let t = names.take(i + 1);
            assert(t.drop_last() =~= names.take(i as int));
            assert(t.last() == a@[i as int].name@);
        }
        i = i + 1;
    }
    assert(names.take(a@.len() as int) =~= names);
    v
}

/// Copies of the FIRST sets of the non-terminals.
fn first_snapshot(a: &Vec<NonTerminalSymbol>) -> (res: Vec<Vec<TerminalSymbol>>)
    ensures
        res@.len() == a@.len(),
        forall|j: int| 0 <= j < a@.len() ==> (#[trigger] res@[j])@ == a@[j].pFirstSet@,
{
    let mut v: Vec<Vec<TerminalSymbol>> = Vec::new();
    let mut i: usize = 0;
    while i < a.len()
        invariant
            i <= a@.len(),
            v@.len() == i,
            forall|j: int| 0 <= j < i ==> (#[trigger] v@[j])@ == a@[j].pFirstSet@,
        decreases a@.len() - i,
    {
        v.push(crate::lab2::tables::symbols::copy_tset(&a[i].pFirstSet));
        i = i + 1;
    }
    v
}

/// Copies of the FOLLOW sets of the non-terminals.
fn follow_snapshot(a: &Vec<NonTerminalSymbol>) -> (res: Vec<Vec<TerminalSymbol>>)
    ensures
        res@.len() == a@.len(),
        forall|j: int| 0 <= j < a@.len() ==> (#[trigger] res@[j])@ == a@[j].pFollowSet@,
{
    let mut v: Vec<Vec<TerminalSymbol>> = Vec::new();
    let mut i: usize = 0;
    while i < a.len()
        invariant
            i <= a@.len(),
            v@.len() == i,
            forall|j: int| 0 <= j < i ==> (#[trigger] v@[j])@ == a@[j].pFollowSet@,
        decreases a@.len() - i,
    {
        v.push(crate::lab2::tables::symbols::copy_tset(&a[i].pFollowSet));
        i = i + 1;
    }
    v
}

/// What FIRST of `body` from `start` on contributes, and whether that part
/// can vanish.
fn suffix_first(
    name_map: &Vec<(String, usize)>,
    fsnap: &Vec<Vec<TerminalSymbol>>,
    body: &Vec<GrammarSymbol>,
    start: usize,
) -> (res: (Vec<TerminalSymbol>, bool))
    requires
        skeys_unique(name_map@),
        forall|k: Seq<char>| #[trigger] smap(name_map@).contains_key(k) ==> smap(name_map@)[k] < fsnap@.len(),
        forall|j: int| 0 <= j < fsnap@.len() ==> tunique((#[trigger] fsnap@[j])@),
        start <= body@.len(),
    ensures
        tunique(res.0@),
        tset(res.0@) == ffirst(smap(name_map@), fsets(fsnap@), body@, start as int).0,
        res.1 == ffirst(smap(name_map@), fsets(fsnap@), body@, start as int).1,
{
    let ghost nm = smap(name_map@);
    let ghost fs = fsets(fsnap@);
    let null = ts_null();
    assert(tkey(null) == null_key());
    let mut acc: Vec<TerminalSymbol> = Vec::new();
    let mut k: usize = start;
    assert(tset(acc@) =~= Set::<(Seq<char>, Seq<char>)>::empty());
    assert(ffirst(nm, fs, body@, start as int).0 =~= tset(acc@).union(ffirst(nm, fs, body@, k as int).0));
    while k < body.len()
        invariant
            start <= k <= body@.len(),
            nm == smap(name_map@),
            fs == fsets(fsnap@),
            tkey(null) == null_key(),
            skeys_unique(name_map@),
            forall|q: Seq<char>| #[trigger] smap(name_map@).contains_key(q) ==> smap(name_map@)[q] < fsnap@.len(),
            forall|j: int| 0 <= j < fsnap@.len() ==> tunique((#[trigger] fsnap@[j])@),
            tunique(acc@),
            ffirst(nm, fs, body@, start as int).0 == tset(acc@).union(ffirst(nm, fs, body@, k as int).0),
            ffirst(nm, fs, body@, start as int).1 == ffirst(nm, fs, body@, k as int).1,
        decreases body@.len() - k,
    {
        let ghost a0 = tset(acc@);
        match &body[k] {
            GrammarSymbol::Terminal(ts) => {
                ts_insert(&mut acc, ts);
                assert(tset(acc@) =~= a0.union(ffirst(nm, fs, body@, k as int).0));
                return (acc, false);
            },
            GrammarSymbol::Null => {
                ts_insert(&mut acc, &null);
                assert(tset(acc@) =~= a0.union(ffirst(nm, fs, body@, k as int).0));
                return (acc, false);
            },
            GrammarSymbol::NonTerminal(name) => {
                match sfind(name_map, name.as_str()) {
                    Some(pos) => {
                        let idx = name_map[pos].1;
                        let mut fset = crate::lab2::tables::symbols::copy_tset(&fsnap[idx]);
                        let has_null = ts_remove(&mut fset, &null);
                        ts_extend(&mut acc, &fset);
                        assert(fs[idx as int] == tset(fsnap@[idx as int]@));
                        if !has_null {
                            assert(tset(acc@) =~= a0.union(ffirst(nm, fs, body@, k as int).0));
                            return (acc, false);
                        }
                        assert(tset(acc@).union(ffirst(nm, fs, body@, k + 1).0) =~= a0.union(ffirst(nm, fs, body@, k as int).0));
                    },
                    None => {
                        assert(tset(acc@) =~= a0.union(ffirst(nm, fs, body@, k as int).0));
                        return (acc, false);
                    },
                }
            },
        }
        k = k + 1;
    }
    assert(tset(acc@) =~= tset(acc@).union(ffirst(nm, fs, body@, k as int).0));
    (acc, true)
}

/// The non-terminal tables differ at most in FOLLOW sets.
pub open spec fn same_but_nfollow(a: Seq<NonTerminalSymbol>, b: Seq<NonTerminalSymbol>) -> bool {
    &&& a.len() == b.len()
    &&& forall|i: int| 0 <= i < a.len() ==> {
        let x = #[trigger] a[i];
        let y = b[i];
        &&& x.name@ == y.name@
        &&& x.symbolType@ == y.symbolType@
        &&& x.pProductionTable@ == y.pProductionTable@
        &&& x.numOfProduction == y.numOfProduction
        &&& x.pFirstSet@ == y.pFirstSet@
        &&& x.pDependentSetInFollow@ == y.pDependentSetInFollow@
    }
}

/// The FOLLOW rule at symbol `i` of production `p` of non-terminal `h`, over
/// the FOLLOW sets `g`, with the head's FOLLOW set read from `gh`: where the
/// symbol is a registered non-terminal `B`, FIRST of what follows it, less
/// `null`, is in FOLLOW of `B`, and where what follows can vanish, so is
/// FOLLOW of the head, less `null`. Names resolve to their last position,
/// FIRST sets are those of `a`.
pub open spec fn follow_rule(
    a: Seq<NonTerminalSymbol>,
    gh: Seq<Set<(Seq<char>, Seq<char>)>>,
    g: Seq<Set<(Seq<char>, Seq<char>)>>,
    h: int,
    p: int,
    i: int,
) -> bool {
    let nm = last_pos_map(nts_names(a));
    let body = nt_body(a, h, p);
    match body[i] {
        GrammarSymbol::NonTerminal(b) => nm.contains_key(b@) ==> {
            &&& ffirst(nm, nfirst(a), body, i + 1).0.remove(null_key()).subset_of(g[nm[b@] as int])
            &&& (ffirst(nm, nfirst(a), body, i + 1).1 ==> gh[h].remove(null_key()).subset_of(g[nm[b@] as int]))
        },
        _ => true,
    }
}

/// The FOLLOW rule holds of `g` at every symbol of every production.
pub open spec fn nfollow_closed(a: Seq<NonTerminalSymbol>, g: Seq<Set<(Seq<char>, Seq<char>)>>) -> bool {
    &&& g.len() == a.len()
    &&& forall|h: int, p: int, i: int| 0 <= h < a.len() && 0 <= p < a[h].pProductionTable@.len() && 0 <= i < nt_body(a, h, p).len()
        ==> #[trigger] follow_rule(a, g, g, h, p, i)
}

/// `f` lies within every closed assignment that holds the FOLLOW sets of `a`.
pub open spec fn nfollow_least(a: Seq<NonTerminalSymbol>, f: Seq<Set<(Seq<char>, Seq<char>)>>) -> bool {
    forall|g: Seq<Set<(Seq<char>, Seq<char>)>>| #[trigger] nfollow_closed(a, g) && tcovers(g, nfollow(a)) ==> tcovers(g, f)
}

/// The sizes of the FOLLOW sets.
pub open spec fn nfllens(a: Seq<NonTerminalSymbol>) -> Seq<int> {
    a.map_values(|x: NonTerminalSymbol| x.pFollowSet@.len() as int)
}

/// `u` holds `null`, every terminal of every body, and the FIRST sets.
pub open spec fn u_has_follow(a: Seq<NonTerminalSymbol>, u: Set<(Seq<char>, Seq<char>)>) -> bool {
    &&& u_has_terms(a, u)
    &&& forall|i: int| 0 <= i < a.len() ==> (#[trigger] nfirst(a)[i]).subset_of(u)
}

/// What computing FOLLOW keeps, from the non-terminals `a0` at the start.
pub open spec fn nfollow_inv(a0: Seq<NonTerminalSymbol>, t0: Lab2Tables, t: Lab2Tables, u: Set<(Seq<char>, Seq<char>)>) -> bool {
    &&& nts_wf(t.all_nts@)
    &&& same_but_nfollow(a0, t.all_nts@)
    &&& others_same(t0, t)
    &&& tcovers(nfollow(t.all_nts@), nfollow(a0))
    &&& nfollow_least(a0, nfollow(t.all_nts@))
    &&& forall|i: int| 0 <= i < t.all_nts@.len() ==> (#[trigger] nfollow(t.all_nts@)[i]).subset_of(u)
}

/// What FIRST of a suffix contributes lies within `u`.
proof fn lemma_ffirst_within(
    nm: Map<Seq<char>, usize>,
    fs: Seq<Set<(Seq<char>, Seq<char>)>>,
    body: Seq<GrammarSymbol>,
    k: int,
    u: Set<(Seq<char>, Seq<char>)>,
)
    requires
        u.contains(null_key()),
        forall|j: int| 0 <= j < body.len() ==> match #[trigger] body[j] {
            GrammarSymbol::Terminal(ts) => u.contains(tkey(ts)),
            _ => true,
        },
        forall|q: Seq<char>| #[trigger] nm.contains_key(q) ==> nm[q] < fs.len(),
        forall|j: int| 0 <= j < fs.len() ==> (#[trigger] fs[j]).subset_of(u),
    ensures
        ffirst(nm, fs, body, k).0.subset_of(u),
    decreases body.len() - k,
{
    if 0 <= k < body.len() {
        lemma_ffirst_within(nm, fs, body, k + 1, u);
        if let GrammarSymbol::NonTerminal(n) = body[k] {
            if nm.contains_key(n@) {
                assert(fs[nm[n@] as int].subset_of(u));
            }
        }
    }
}

/// Adding to FOLLOW of `i` members that every closed assignment holding the
/// initial sets has there keeps the sets within every such assignment.
proof fn lemma_nfollow_add(
    a0: Seq<NonTerminalSymbol>,
    f: Seq<Set<(Seq<char>, Seq<char>)>>,
    i: int,
    s: Set<(Seq<char>, Seq<char>)>,
)
    requires
        nfollow_least(a0, f),
        0 <= i < f.len(),
        forall|g: Seq<Set<(Seq<char>, Seq<char>)>>, x: (Seq<char>, Seq<char>)| #[trigger] nfollow_closed(a0, g)
            && tcovers(g, nfollow(a0)) && #[trigger] s.contains(x) ==> g[i].contains(x),
    ensures
        nfollow_least(a0, f.update(i, f[i].union(s))),
{
    assert forall|g: Seq<Set<(Seq<char>, Seq<char>)>>| #[trigger] nfollow_closed(a0, g) && tcovers(g, nfollow(a0))
        implies tcovers(g, f.update(i, f[i].union(s))) by {
        assert(tcovers(g, f));
        assert forall|x: (Seq<char>, Seq<char>)| s.contains(x) implies g[i].contains(x) by {
            assert(nfollow_closed(a0, g) && tcovers(g, nfollow(a0)) && s.contains(x));
        }
    }
}

/// Growing FOLLOW of `b` by `s`, where every closed assignment holding the
/// initial sets has `s` there, keeps what computing FOLLOW keeps.
proof fn lemma_follow_extend(
    a0: Seq<NonTerminalSymbol>,
    t0: Lab2Tables,
    u: Set<(Seq<char>, Seq<char>)>,
    tb: Lab2Tables,
    ta: Lab2Tables,
    b: int,
    s: Set<(Seq<char>, Seq<char>)>,
)
    requires
        nfollow_inv(a0, t0, tb, u),
        0 <= b < tb.all_nts@.len(),
        ta.all_nts@ == tb.all_nts@.update(b, ta.all_nts@[b]),
        ta.all_nts@[b].name@ == tb.all_nts@[b].name@,
        ta.all_nts@[b].symbolType@ == tb.all_nts@[b].symbolType@,
        ta.all_nts@[b].pProductionTable@ == tb.all_nts@[b].pProductionTable@,
        ta.all_nts@[b].numOfProduction == tb.all_nts@[b].numOfProduction,
        ta.all_nts@[b].pFirstSet@ == tb.all_nts@[b].pFirstSet@,
        ta.all_nts@[b].pDependentSetInFollow@ == tb.all_nts@[b].pDependentSetInFollow@,
        tunique(ta.all_nts@[b].pFollowSet@),
        tset(ta.all_nts@[b].pFollowSet@) == tset(tb.all_nts@[b].pFollowSet@).union(s),
        ta.all_nts@[b].pFollowSet@.len() >= tb.all_nts@[b].pFollowSet@.len(),
        others_same(tb, ta),
        s.subset_of(u),
        forall|g: Seq<Set<(Seq<char>, Seq<char>)>>, x: (Seq<char>, Seq<char>)| #[trigger] nfollow_closed(a0, g)
            && tcovers(g, nfollow(a0)) && #[trigger] s.contains(x) ==> g[b].contains(x),
    ensures
        nfollow_inv(a0, t0, ta, u),
        tcovers(nfollow(ta.all_nts@), nfollow(tb.all_nts@)),
        sum_ints(nfllens(ta.all_nts@)) >= sum_ints(nfllens(tb.all_nts@)),
        ta.all_nts@[b].pFollowSet@.len() > tb.all_nts@[b].pFollowSet@.len()
            ==> sum_ints(nfllens(ta.all_nts@)) > sum_ints(nfllens(tb.all_nts@)),
        ta.all_nts@[b].pFollowSet@.len() == tb.all_nts@[b].pFollowSet@.len()
            ==> sum_ints(nfllens(ta.all_nts@)) == sum_ints(nfllens(tb.all_nts@)),
{
    let fb = nfollow(tb.all_nts@);
    assert(nfollow(ta.all_nts@) =~= fb.update(b, fb[b].union(s)));
    lemma_nfollow_add(a0, fb, b, s);
    assert(nfllens(ta.all_nts@) =~= nfllens(tb.all_nts@).update(b, ta.all_nts@[b].pFollowSet@.len() as int));
    lemma_sum_update(nfllens(tb.all_nts@), b, ta.all_nts@[b].pFollowSet@.len() as int);
    assert forall|i: int| 0 <= i < a0.len() implies {
        let x = #[trigger] a0[i];
        let y = ta.all_nts@[i];
        &&& x.name@ == y.name@
        &&& x.symbolType@ == y.symbolType@
        &&& x.pProductionTable@ == y.pProductionTable@
        &&& x.numOfProduction == y.numOfProduction
        &&& x.pFirstSet@ == y.pFirstSet@
        &&& x.pDependentSetInFollow@ == y.pDependentSetInFollow@
    } by {
        assert(same_but_nfollow(a0, tb.all_nts@));
        let _ = tb.all_nts@[i];
    }
    assert forall|i: int| 0 <= i < ta.all_nts@.len() implies tunique((#[trigger] ta.all_nts@[i]).pFirstSet@) && tunique(ta.all_nts@[i].pFollowSet@) by {
        assert(tunique(tb.all_nts@[i].pFirstSet@) && tunique(tb.all_nts@[i].pFollowSet@));
    }
    assert forall|i: int| 0 <= i < ta.all_nts@.len() implies (#[trigger] nfollow(ta.all_nts@)[i]).subset_of(u) by {
        assert(fb[i].subset_of(u));
    }
}

/// What the FOLLOW pass reads: the name map, the FIRST sets of `a0` and the
/// FOLLOW sets `fstart` at the start of the pass.
pub open spec fn follow_reads(
    a0: Seq<NonTerminalSymbol>,
    name_map: Seq<(String, usize)>,
    fsnap: Seq<Vec<TerminalSymbol>>,
    flsnap: Seq<Vec<TerminalSymbol>>,
    fstart: Seq<Set<(Seq<char>, Seq<char>)>>,
) -> bool {
    &&& skeys_unique(name_map)
    &&& smap(name_map) == last_pos_map(nts_names(a0))
    &&& fsnap.len() == a0.len()
    &&& forall|j: int| 0 <= j < a0.len() ==> (#[trigger] fsnap[j])@ == a0[j].pFirstSet@
    &&& flsnap.len() == a0.len()
    &&& forall|j: int| 0 <= j < a0.len() ==> tunique((#[trigger] flsnap[j])@)
    &&& fsets(flsnap) == fstart
}

/// Applies the FOLLOW rule at symbol `i` of the body of production `p` of
/// non-terminal `h`; says whether a FOLLOW set grew. Where none did, the rule
/// holds at that symbol.
#[verifier::rlimit(60)]
#[verifier::spinoff_prover]
fn follow_at(
    tables: &mut Lab2Tables,
    name_map: &Vec<(String, usize)>,
    fsnap: &Vec<Vec<TerminalSymbol>>,
    flsnap: &Vec<Vec<TerminalSymbol>>,
    body: &Vec<GrammarSymbol>,
    h: usize,
    p: usize,
    i: usize,
    Ghost(a0): Ghost<Seq<NonTerminalSymbol>>,
    Ghost(t0): Ghost<Lab2Tables>,
    Ghost(u): Ghost<Set<(Seq<char>, Seq<char>)>>,
    Ghost(fstart): Ghost<Seq<Set<(Seq<char>, Seq<char>)>>>,
) -> (grew: bool)
    requires
        nfollow_inv(a0, t0, *old(tables), u),
        u_has_follow(a0, u),
        follow_reads(a0, name_map@, fsnap@, flsnap@, fstart),
        tcovers(nfollow(old(tables).all_nts@), fstart),
        h < a0.len(),
        p < a0[h as int].pProductionTable@.len(),
        body@ == nt_body(a0, h as int, p as int),
        i < body@.len(),
    ensures
        nfollow_inv(a0, t0, *final(tables), u),
        tcovers(nfollow(final(tables).all_nts@), nfollow(old(tables).all_nts@)),
        sum_ints(nfllens(final(tables).all_nts@)) >= sum_ints(nfllens(old(tables).all_nts@)),
        grew ==> sum_ints(nfllens(final(tables).all_nts@)) > sum_ints(nfllens(old(tables).all_nts@)),
        !grew ==> nfollow(final(tables).all_nts@) == nfollow(old(tables).all_nts@),
        !grew ==> follow_rule(a0, fstart, nfollow(final(tables).all_nts@), h as int, p as int, i as int),
{
    let ghost names = nts_names(a0);
    let ghost nm = last_pos_map(names);
    let ghost fs = nfirst(a0);
    let _nn = tables.all_nts.len();
    let _bl = body.len();
    proof {
        assert(names.len() == tables.all_nts@.len());
        lemma_last_pos_bound(names);
        assert(fsets(fsnap@) =~= fs);
        assert forall|j: int| 0 <= j < fsnap@.len() implies tunique((#[trigger] fsnap@[j])@) by {
            assert(same_but_nfollow(a0, tables.all_nts@));
            assert(tables.all_nts@[j].pFirstSet@ == a0[j].pFirstSet@);
            assert(tunique(tables.all_nts@[j].pFirstSet@));
        }
        assert(tcovers(nfollow(tables.all_nts@), nfollow(tables.all_nts@)));
    }
    match &body[i] {
        GrammarSymbol::NonTerminal(b_name) => {
            match sfind(name_map, b_name.as_str()) {
                Some(pos) => {
                    let b_idx = name_map[pos].1;
                    assert(b_idx == nm[b_name@]);
                    assert(b_idx < a0.len());
                    let r = suffix_first(name_map, fsnap, body, i + 1);
                    let mut add_set = r.0;
                    let nullable = r.1;
                    let null = ts_null();
                    assert(tkey(null) == null_key());
                    ts_remove(&mut add_set, &null);
                    let ghost s1 = tset(add_set@);
                    assert(s1 == ffirst(nm, fs, body@, i + 1).0.remove(null_key()));
                    let ghost tb = *tables;
                    let mut grew = ts_extend(&mut tables.all_nts[b_idx].pFollowSet, &add_set);
                    proof {
                        assert forall|g: Seq<Set<(Seq<char>, Seq<char>)>>, x: (Seq<char>, Seq<char>)| #[trigger] nfollow_closed(a0, g)
                            && tcovers(g, nfollow(a0)) && #[trigger] s1.contains(x) implies g[b_idx as int].contains(x) by {
                            assert(follow_rule(a0, g, g, h as int, p as int, i as int));
                        }
                        assert forall|j: int| 0 <= j < body@.len() implies match #[trigger] body@[j] {
                            GrammarSymbol::Terminal(ts) => u.contains(tkey(ts)),
                            _ => true,
                        } by {
                            assert(nt_body(a0, h as int, p as int)[j] == body@[j]);
                        }
                        assert forall|j: int| 0 <= j < fs.len() implies (#[trigger] fs[j]).subset_of(u) by {
                            assert(nfirst(a0)[j].subset_of(u));
                        }
                        lemma_ffirst_within(nm, fs, body@, i + 1, u);
                        lemma_follow_extend(a0, t0, u, tb, *tables, b_idx as int, s1);
                    }
                    if nullable {
                        let mut hf = crate::lab2::tables::symbols::copy_tset(&flsnap[h]);
                        ts_remove(&mut hf, &null);
                        let ghost s2 = tset(hf@);
                        assert(s2 == fstart[h as int].remove(null_key()));
                        let ghost tc = *tables;
                        if ts_extend(&mut tables.all_nts[b_idx].pFollowSet, &hf) {
                            grew = true;
                        }
                        proof {
                            assert forall|g: Seq<Set<(Seq<char>, Seq<char>)>>, x: (Seq<char>, Seq<char>)| #[trigger] nfollow_closed(a0, g)
                                && tcovers(g, nfollow(a0)) && #[trigger] s2.contains(x) implies g[b_idx as int].contains(x) by {
                                assert(follow_rule(a0, g, g, h as int, p as int, i as int));
                                assert(tcovers(g, nfollow(tc.all_nts@)));
                                assert(fstart[h as int].subset_of(nfollow(tb.all_nts@)[h as int]));
                                assert(nfollow(tb.all_nts@)[h as int].subset_of(nfollow(tc.all_nts@)[h as int]));
                                assert(nfollow(tc.all_nts@)[h as int].subset_of(g[h as int]));
                            }
                            assert(fstart[h as int].subset_of(nfollow(tb.all_nts@)[h as int]));
                            assert(nfollow(tb.all_nts@)[h as int].subset_of(u));
                            lemma_follow_extend(a0, t0, u, tc, *tables, b_idx as int, s2);
                            if !grew {
                                assert(s2.subset_of(nfollow(tables.all_nts@)[b_idx as int]));
                            }
                        }
                    }
                    proof {
                        if !grew {
                            assert(s1.subset_of(nfollow(tables.all_nts@)[b_idx as int]));
                        }
                    }
                    grew
                },
                None => false,
            }
        },
        _ => false,
    }
}

/// Applies the FOLLOW rule at every symbol of production `p` of `h`; says
/// whether a FOLLOW set grew. Where none did, the rule holds at each symbol.
fn follow_of_production(
    tables: &mut Lab2Tables,
    name_map: &Vec<(String, usize)>,
    fsnap: &Vec<Vec<TerminalSymbol>>,
    flsnap: &Vec<Vec<TerminalSymbol>>,
    h: usize,
    p: usize,
    Ghost(a0): Ghost<Seq<NonTerminalSymbol>>,
    Ghost(t0): Ghost<Lab2Tables>,
    Ghost(u): Ghost<Set<(Seq<char>, Seq<char>)>>,
    Ghost(fstart): Ghost<Seq<Set<(Seq<char>, Seq<char>)>>>,
) -> (grew: bool)
    requires
        nfollow_inv(a0, t0, *old(tables), u),
        u_has_follow(a0, u),
        follow_reads(a0, name_map@, fsnap@, flsnap@, fstart),
        tcovers(nfollow(old(tables).all_nts@), fstart),
        h < a0.len(),
        p < a0[h as int].pProductionTable@.len(),
    ensures
        nfollow_inv(a0, t0, *final(tables), u),
        tcovers(nfollow(final(tables).all_nts@), nfollow(old(tables).all_nts@)),
        sum_ints(nfllens(final(tables).all_nts@)) >= sum_ints(nfllens(old(tables).all_nts@)),
        grew ==> sum_ints(nfllens(final(tables).all_nts@)) > sum_ints(nfllens(old(tables).all_nts@)),
        !grew ==> nfollow(final(tables).all_nts@) == nfollow(old(tables).all_nts@),
        !grew ==> forall|i: int| 0 <= i < nt_body(a0, h as int, p as int).len()
            ==> #[trigger] follow_rule(a0, fstart, nfollow(final(tables).all_nts@), h as int, p as int, i),
{
    let ghost f0 = nfollow(tables.all_nts@);
    let ghost s0 = sum_ints(nfllens(tables.all_nts@));
    assert(tables.all_nts@[h as int].pProductionTable@ == a0[h as int].pProductionTable@);
    let body = copy_body(&tables.all_nts[h].pProductionTable[p].pBodySymbolTable);
    let mut grew = false;
    let mut i: usize = 0;
    while i < body.len()
        invariant
            nfollow_inv(a0, t0, *tables, u),
            u_has_follow(a0, u),
            follow_reads(a0, name_map@, fsnap@, flsnap@, fstart),
            tcovers(nfollow(tables.all_nts@), f0),
            tcovers(f0, fstart),
            h < a0.len(),
            p < a0[h as int].pProductionTable@.len(),
            body@ == nt_body(a0, h as int, p as int),
            i <= body@.len(),
            sum_ints(nfllens(tables.all_nts@)) >= s0,
            grew ==> sum_ints(nfllens(tables.all_nts@)) > s0,
            !grew ==> nfollow(tables.all_nts@) == f0,
            !grew ==> forall|i2: int| 0 <= i2 < i ==> #[trigger] follow_rule(a0, fstart, nfollow(tables.all_nts@), h as int, p as int, i2),
        decreases body@.len() - i,
    {
        let ghost fb = nfollow(tables.all_nts@);
        proof {
            assert forall|j: int| 0 <= j < fb.len() implies fstart[j].subset_of(#[trigger] fb[j]) by {
                assert(fstart[j].subset_of(f0[j]));
                assert(f0[j].subset_of(fb[j]));
            }
        }
        if follow_at(tables, name_map, fsnap, flsnap, &body, h, p, i, Ghost(a0), Ghost(t0), Ghost(u), Ghost(fstart)) {
            grew = true;
        }
        proof {
            assert forall|j: int| 0 <= j < f0.len() implies f0[j].subset_of(#[trigger] nfollow(tables.all_nts@)[j]) by {
                assert(f0[j].subset_of(fb[j]));
                assert(fb[j].subset_of(nfollow(tables.all_nts@)[j]));
            }
        }
        i = i + 1;
    }
    grew
}

/// The FOLLOW sets within `u` add up to at most `len * |u|`.
proof fn lemma_nfllens_bound(a: Seq<NonTerminalSymbol>, uv: Seq<TerminalSymbol>)
    requires
        nts_wf(a),
        tunique(uv),
        forall|i: int| 0 <= i < a.len() ==> (#[trigger] nfollow(a)[i]).subset_of(tset(uv)),
    ensures
        0 <= sum_ints(nfllens(a)) <= a.len() * uv.len(),
{
    lemma_tset_len(uv);
    assert forall|i: int| 0 <= i < nfllens(a).len() implies 0 <= #[trigger] nfllens(a)[i] <= uv.len() by {
        lemma_tset_len(a[i].pFollowSet@);
        assert(nfollow(a)[i] == tset(a[i].pFollowSet@));
        vstd::set_lib::lemma_len_subset(tset(a[i].pFollowSet@), tset(uv));
    }
    lemma_sum_bound(nfllens(a), uv.len() as int);
}

/// Computes the FOLLOW set of every non-terminal: in each pass applies the
/// FOLLOW rule at every non-terminal of every body, with the FIRST sets as
/// they stood at the start and the heads' FOLLOW sets as they stood at the
/// start of the pass, until a pass changes nothing. Names resolve to the last
/// non-terminal that carries them. The sets come out as the least ones that
/// hold what they held and are closed under the rule.
pub fn get_All_NTS_FOLLOW(tables: &mut Lab2Tables)
    requires
        nts_wf(old(tables).all_nts@),
    ensures
        nts_wf(final(tables).all_nts@),
        same_but_nfollow(old(tables).all_nts@, final(tables).all_nts@),
        others_same(*old(tables), *final(tables)),
        tcovers(nfollow(final(tables).all_nts@), nfollow(old(tables).all_nts@)),
        nfollow_closed(old(tables).all_nts@, nfollow(final(tables).all_nts@)),
        nfollow_least(old(tables).all_nts@, nfollow(final(tables).all_nts@)),
        nfollow_closed(final(tables).all_nts@, nfollow(final(tables).all_nts@)),
        forall|g: Seq<Set<(Seq<char>, Seq<char>)>>| #[trigger] nfollow_closed(final(tables).all_nts@, g)
            && tcovers(g, nfollow(old(tables).all_nts@)) ==> tcovers(g, nfollow(final(tables).all_nts@)),
{
    let ghost a0 = tables.all_nts@;
    let ghost t0 = *tables;
    let uv = first_universe(&tables.all_nts);
    let ghost u = tset(uv@);
    let name_map = name_positions(&tables.all_nts);
    let fsnap = first_snapshot(&tables.all_nts);
    proof {
        assert(same_but_nfollow(a0, tables.all_nts@));
        assert(tcovers(nfollow(a0), nfollow(a0)));
        lemma_nfllens_bound(tables.all_nts@, uv@);
    }
    let n = tables.all_nts.len();
    let mut changed = true;
    while changed
        invariant
            nfollow_inv(a0, t0, *tables, u),
            u_has_follow(a0, u),
            u == tset(uv@),
            tunique(uv@),
            n == a0.len(),
            skeys_unique(name_map@),
            smap(name_map@) == last_pos_map(nts_names(a0)),
            fsnap@.len() == a0.len(),
            forall|j: int| 0 <= j < a0.len() ==> (#[trigger] fsnap@[j])@ == a0[j].pFirstSet@,
            0 <= sum_ints(nfllens(tables.all_nts@)) <= n * uv@.len(),
            !changed ==> nfollow_closed(a0, nfollow(tables.all_nts@)),
        decreases n * uv@.len() - sum_ints(nfllens(tables.all_nts@)) + (if changed { 1int } else { 0int }),
    {
        changed = false;
        let flsnap = follow_snapshot(&tables.all_nts);
        let ghost fstart = nfollow(tables.all_nts@);
        let ghost s_start = sum_ints(nfllens(tables.all_nts@));
        proof {
            assert(fsets(flsnap@) =~= fstart);
            assert forall|j: int| 0 <= j < a0.len() implies tunique((#[trigger] flsnap@[j])@) by {
                assert(tunique(tables.all_nts@[j].pFollowSet@));
            }
            assert(tcovers(fstart, fstart));
        }
        let mut h: usize = 0;
        while h < n
            invariant
                nfollow_inv(a0, t0, *tables, u),
                u_has_follow(a0, u),
                follow_reads(a0, name_map@, fsnap@, flsnap@, fstart),
                tcovers(nfollow(tables.all_nts@), fstart),
                n == a0.len(),
                h <= n,
                sum_ints(nfllens(tables.all_nts@)) >= s_start,
                changed ==> sum_ints(nfllens(tables.all_nts@)) > s_start,
                !changed ==> nfollow(tables.all_nts@) == fstart,
                !changed ==> forall|h2: int, p2: int, i2: int| 0 <= h2 < h && 0 <= p2 < a0[h2].pProductionTable@.len()
                    && 0 <= i2 < nt_body(a0, h2, p2).len() ==> #[trigger] follow_rule(a0, fstart, fstart, h2, p2, i2),
            decreases n - h,
        {
            assert(tables.all_nts@[h as int].pProductionTable@ == a0[h as int].pProductionTable@);
            let np = tables.all_nts[h].pProductionTable.len();
            let mut p: usize = 0;
            while p < np
                invariant
                    nfollow_inv(a0, t0, *tables, u),
                    u_has_follow(a0, u),
                    follow_reads(a0, name_map@, fsnap@, flsnap@, fstart),
                    tcovers(nfollow(tables.all_nts@), fstart),
                    n == a0.len(),
                    h < n,
                    np == a0[h as int].pProductionTable@.len(),
                    p <= np,
                    sum_ints(nfllens(tables.all_nts@)) >= s_start,
                    changed ==> sum_ints(nfllens(tables.all_nts@)) > s_start,
                    !changed ==> nfollow(tables.all_nts@) == fstart,
                    !changed ==> forall|h2: int, p2: int, i2: int| 0 <= h2 < h && 0 <= p2 < a0[h2].pProductionTable@.len()
                        && 0 <= i2 < nt_body(a0, h2, p2).len() ==> #[trigger] follow_rule(a0, fstart, fstart, h2, p2, i2),
                    !changed ==> forall|p2: int, i2: int| 0 <= p2 < p && 0 <= i2 < nt_body(a0, h as int, p2).len()
                        ==> #[trigger] follow_rule(a0, fstart, fstart, h as int, p2, i2),
                decreases np - p,
            {
                let ghost fb = nfollow(tables.all_nts@);
                if follow_of_production(tables, &name_map, &fsnap, &flsnap, h, p, Ghost(a0), Ghost(t0), Ghost(u), Ghost(fstart)) {
                    changed = true;
                }
                proof {
                    assert forall|j: int| 0 <= j < fstart.len() implies fstart[j].subset_of(#[trigger] nfollow(tables.all_nts@)[j]) by {
                        assert(fstart[j].subset_of(fb[j]));
                        assert(fb[j].subset_of(nfollow(tables.all_nts@)[j]));
                    }
                }
                p = p + 1;
            }
            h = h + 1;
        }
        proof {
            lemma_nfllens_bound(tables.all_nts@, uv@);
            if !changed {
                let f = nfollow(tables.all_nts@);
                assert forall|h2: int, p2: int, i2: int| 0 <= h2 < a0.len() && 0 <= p2 < a0[h2].pProductionTable@.len()
                    && 0 <= i2 < nt_body(a0, h2, p2).len() implies #[trigger] follow_rule(a0, f, f, h2, p2, i2) by {
                    assert(follow_rule(a0, fstart, fstart, h2, p2, i2));
                }
            }
        }
    }
    proof {
        let fa = tables.all_nts@;
        lemma_follow_closed_same(a0, fa);
        assert forall|g: Seq<Set<(Seq<char>, Seq<char>)>>| #[trigger] nfollow_closed(fa, g) && tcovers(g, nfollow(a0))
            implies tcovers(g, nfollow(fa)) by {
            assert(nfollow_closed(a0, g));
        }
    }
}

/// The declarations of the non-terminals that `test1` adds.
pub open spec fn test1_nts() -> Seq<(Seq<char>, i64, Seq<(i64, i64, Seq<(u8, Seq<char>, Seq<char>)>)>)> {
    seq![("S"@, 1i64, seq![(1i64, 2i64, seq![n_("T"@), n_("B"@)])]), ("B"@, 2i64, seq![(2i64, 2i64, seq![n_("S'"@), n_("B"@)]), (3i64, 1i64, seq![null_()])]), ("T"@, 2i64, seq![(6i64, 3i64, seq![t_("("@), n_("S"@), t_(")"@)]), (7i64, 1i64, seq![t_("a"@)])]), ("S'"@, 2i64, seq![(4i64, 2i64, seq![t_("+"@), n_("S"@)]), (5i64, 2i64, seq![n_("T"@), n_("B"@)])])]
}

/// The productions that `test1` lists.
pub open spec fn test1_prods() -> Seq<(i64, i64, Seq<(u8, Seq<char>, Seq<char>)>)> {
    seq![(1i64, 2i64, seq![n_("T"@), n_("B"@)]), (2i64, 2i64, seq![n_("S'"@), n_("B"@)]), (3i64, 1i64, seq![null_()]), (4i64, 2i64, seq![t_("+"@), n_("S"@)]), (5i64, 2i64, seq![n_("T"@), n_("B"@)]), (6i64, 3i64, seq![t_("("@), n_("S"@), t_(")"@)]), (7i64, 1i64, seq![t_("a"@)])]
}

/// Declares the grammar S -> T B, B -> S' B | null, S' -> + S | T B,
/// T -> ( S ) | a in the tables, with `$` in FOLLOW of S, and computes the
/// FIRST and FOLLOW sets.
pub fn test1(tables: &mut Lab2Tables)
    requires
        tables_wf(*old(tables)),
        nts_wf(old(tables).all_nts@),
        prods_wf(old(tables).all_productions@),
    ensures
        tables_wf(*final(tables)),
        ntviews(final(tables).all_nts@) == ntviews(old(tables).all_nts@) + test1_nts(),
        pviews(final(tables).all_productions@) == pviews(old(tables).all_productions@) + test1_prods(),
        final(tables).relative_id@ == old(tables).relative_id@,
        smap(final(tables).get_nts@) == smap(old(tables).get_nts@).insert("S"@, (old(tables).all_nts@.len() + 0) as usize).insert("B"@, (old(tables).all_nts@.len() + 1) as usize).insert("T"@, (old(tables).all_nts@.len() + 2) as usize).insert("S'"@, (old(tables).all_nts@.len() + 3) as usize),
        tsmap(final(tables).get_ts@) == tsmap(old(tables).get_ts@).insert("+"@, ("TERMINAL"@, "+"@)).insert("("@, ("TERMINAL"@, "("@)).insert(")"@, ("TERMINAL"@, ")"@)).insert("*"@, ("TERMINAL"@, "*"@)).insert("a"@, ("TERMINAL"@, "a"@)).insert("$"@, ("TERMINAL"@, "$"@)),
        analysed(*final(tables), nfirst(old(tables).all_nts@) + empties(4), pfirsts(old(tables).all_productions@) + empties(7),
            nfollow(old(tables).all_nts@) + seq![set![("TERMINAL"@, "$"@)], Set::empty(), Set::empty(), Set::empty()]),
{
    let ghost a_old = tables.all_nts@;
    let ghost p_old = tables.all_productions@;
    let ghost r_old = tables.relative_id@;
    let ghost g_old = tables.get_nts@;
    let ghost gt_old = tables.get_ts@;
    let tsnull = ts_null();
    let ts_plus = TerminalSymbol::new("+", "TERMINAL", "OPERATOR+");
    let ts_left_bracket = TerminalSymbol::new("(", "TERMINAL", "LEFT BRACKET");
    let ts_right_bracket = TerminalSymbol::new(")", "TERMINAL", "RIGHT BRACKET");
    let ts_multiple = TerminalSymbol::new("*", "TERMINAL", "OPERATOR*");
    let ts_a = TerminalSymbol::new("a", "TERMINAL", "ID");
    let ts_shut = TerminalSymbol::new("$", "TERMINAL", "$");
    let nts_S_idx = register_non_terminal(tables, NonTerminalSymbol::new("S", "NONTERMINAL"));
    let nts_B_idx = register_non_terminal(tables, NonTerminalSymbol::new("B", "NONTERMINAL"));
    let nts_T_idx = register_non_terminal(tables, NonTerminalSymbol::new("T", "NONTERMINAL"));
    let nts_S1_idx = register_non_terminal(tables, NonTerminalSymbol::new("S'", "NONTERMINAL"));
    proof {
        assert(ntviews(tables.all_nts@) =~~= ntviews(a_old) + seq![("S"@, 0i64, seq![]), ("B"@, 0i64, seq![]), ("T"@, 0i64, seq![]), ("S'"@, 0i64, seq![])]);
        assert(nfirst(tables.all_nts@) =~~= nfirst(a_old) + empties(4));
        assert(nfollow(tables.all_nts@) =~~= nfollow(a_old) + empties(4));
    }
    register_terminal(tables, copy_ts(&ts_plus));
    register_terminal(tables, copy_ts(&ts_left_bracket));
    register_terminal(tables, copy_ts(&ts_right_bracket));
    register_terminal(tables, copy_ts(&ts_multiple));
    register_terminal(tables, copy_ts(&ts_a));
    register_terminal(tables, copy_ts(&ts_shut));
    assert(tsmap(tables.get_ts@) =~= tsmap(gt_old).insert("+"@, ("TERMINAL"@, "+"@)).insert("("@, ("TERMINAL"@, "("@)).insert(")"@, ("TERMINAL"@, ")"@)).insert("*"@, ("TERMINAL"@, "*"@)).insert("a"@, ("TERMINAL"@, "a"@)).insert("$"@, ("TERMINAL"@, "$"@)));
    let ghost before_follow = tables.all_nts@;
    ts_insert(&mut tables.all_nts[nts_S_idx].pFollowSet, &ts_shut);
    proof {
        assert(ntviews(tables.all_nts@) =~= ntviews(before_follow));
        assert(nfirst(tables.all_nts@) =~= nfirst(before_follow));
        assert(tset(before_follow[nts_S_idx as int].pFollowSet@) =~= Set::<(Seq<char>, Seq<char>)>::empty());
        assert(nfollow(tables.all_nts@) =~~= nfollow(a_old) + seq![set![("TERMINAL"@, "$"@)], Set::empty(), Set::empty(), Set::empty()]);
        assert(nts_wf(tables.all_nts@));
    }
    let mut body: Vec<GrammarSymbol> = Vec::new();
    body.push(nt("T"));
    body.push(nt("B"));
    let ghost bv = body@;
    let pr = production(1i64, 2i64, body);
    assert(bv.map_values(|s: GrammarSymbol| sview(s)) =~= seq![n_("T"@), n_("B"@)]);
    add_production(tables, nts_S_idx, pr, Some(1i64), None);
    assert(ntviews(tables.all_nts@) =~~= ntviews(a_old) + seq![("S"@, 1i64, seq![(1i64, 2i64, seq![n_("T"@), n_("B"@)])]), ("B"@, 0i64, seq![]), ("T"@, 0i64, seq![]), ("S'"@, 0i64, seq![])]);
    assert(pviews(tables.all_productions@) =~~= pviews(p_old) + seq![(1i64, 2i64, seq![n_("T"@), n_("B"@)])]);
    let mut body: Vec<GrammarSymbol> = Vec::new();
    body.push(nt("S'"));
    body.push(nt("B"));
    let ghost bv = body@;
    let pr = production(2i64, 2i64, body);
    assert(bv.map_values(|s: GrammarSymbol| sview(s)) =~= seq![n_("S'"@), n_("B"@)]);
    add_production(tables, nts_B_idx, pr, Some(2i64), None);
    assert(ntviews(tables.all_nts@) =~~= ntviews(a_old) + seq![("S"@, 1i64, seq![(1i64, 2i64, seq![n_("T"@), n_("B"@)])]), ("B"@, 2i64, seq![(2i64, 2i64, seq![n_("S'"@), n_("B"@)])]), ("T"@, 0i64, seq![]), ("S'"@, 0i64, seq![])]);
    assert(pviews(tables.all_productions@) =~~= pviews(p_old) + seq![(1i64, 2i64, seq![n_("T"@), n_("B"@)]), (2i64, 2i64, seq![n_("S'"@), n_("B"@)])]);
    let mut body: Vec<GrammarSymbol> = Vec::new();
    body.push(term(&tsnull));
    let ghost bv = body@;
    let pr = production(3i64, 1i64, body);
    assert(bv.map_values(|s: GrammarSymbol| sview(s)) =~= seq![null_()]);
    add_production(tables, nts_B_idx, pr, Some(2i64), None);
    assert(ntviews(tables.all_nts@) =~~= ntviews(a_old) + seq![("S"@, 1i64, seq![(1i64, 2i64, seq![n_("T"@), n_("B"@)])]), ("B"@, 2i64, seq![(2i64, 2i64, seq![n_("S'"@), n_("B"@)]), (3i64, 1i64, seq![null_()])]), ("T"@, 0i64, seq![]), ("S'"@, 0i64, seq![])]);
    assert(pviews(tables.all_productions@) =~~= pviews(p_old) + seq![(1i64, 2i64, seq![n_("T"@), n_("B"@)]), (2i64, 2i64, seq![n_("S'"@), n_("B"@)]), (3i64, 1i64, seq![null_()])]);
    let mut body: Vec<GrammarSymbol> = Vec::new();
    body.push(term(&ts_plus));
    body.push(nt("S"));
    let ghost bv = body@;
    let pr = production(4i64, 2i64, body);
    assert(bv.map_values(|s: GrammarSymbol| sview(s)) =~= seq![t_("+"@), n_("S"@)]);
    add_production(tables, nts_S1_idx, pr, Some(2i64), None);
    assert(ntviews(tables.all_nts@) =~~= ntviews(a_old) + seq![("S"@, 1i64, seq![(1i64, 2i64, seq![n_("T"@), n_("B"@)])]), ("B"@, 2i64, seq![(2i64, 2i64, seq![n_("S'"@), n_("B"@)]), (3i64, 1i64, seq![null_()])]), ("T"@, 0i64, seq![]), ("S'"@, 2i64, seq![(4i64, 2i64, seq![t_("+"@), n_("S"@)])])]);
    assert(pviews(tables.all_productions@) =~~= pviews(p_old) + seq![(1i64, 2i64, seq![n_("T"@), n_("B"@)]), (2i64, 2i64, seq![n_("S'"@), n_("B"@)]), (3i64, 1i64, seq![null_()]), (4i64, 2i64, seq![t_("+"@), n_("S"@)])]);
    let mut body: Vec<GrammarSymbol> = Vec::new();
    body.push(nt("T"));
    body.push(nt("B"));
    let ghost bv = body@;
    let pr = production(5i64, 2i64, body);
    assert(bv.map_values(|s: GrammarSymbol| sview(s)) =~= seq![n_("T"@), n_("B"@)]);
    add_production(tables, nts_S1_idx, pr, Some(2i64), None);
    assert(ntviews(tables.all_nts@) =~~= ntviews(a_old) + seq![("S"@, 1i64, seq![(1i64, 2i64, seq![n_("T"@), n_("B"@)])]), ("B"@, 2i64, seq![(2i64, 2i64, seq![n_("S'"@), n_("B"@)]), (3i64, 1i64, seq![null_()])]), ("T"@, 0i64, seq![]), ("S'"@, 2i64, seq![(4i64, 2i64, seq![t_("+"@), n_("S"@)]), (5i64, 2i64, seq![n_("T"@), n_("B"@)])])]);
    assert(pviews(tables.all_productions@) =~~= pviews(p_old) + seq![(1i64, 2i64, seq![n_("T"@), n_("B"@)]), (2i64, 2i64, seq![n_("S'"@), n_("B"@)]), (3i64, 1i64, seq![null_()]), (4i64, 2i64, seq![t_("+"@), n_("S"@)]), (5i64, 2i64, seq![n_("T"@), n_("B"@)])]);
    let mut body: Vec<GrammarSymbol> = Vec::new();
    body.push(term(&ts_left_bracket));
    body.push(nt("S"));
    body.push(term(&ts_right_bracket));
    let ghost bv = body@;
    let pr = production(6i64, 3i64, body);
    assert(bv.map_values(|s: GrammarSymbol| sview(s)) =~= seq![t_("("@), n_("S"@), t_(")"@)]);
    add_production(tables, nts_T_idx, pr, Some(2i64), None);
    assert(ntviews(tables.all_nts@) =~~= ntviews(a_old) + seq![("S"@, 1i64, seq![(1i64, 2i64, seq![n_("T"@), n_("B"@)])]), ("B"@, 2i64, seq![(2i64, 2i64, seq![n_("S'"@), n_("B"@)]), (3i64, 1i64, seq![null_()])]), ("T"@, 2i64, seq![(6i64, 3i64, seq![t_("("@), n_("S"@), t_(")"@)])]), ("S'"@, 2i64, seq![(4i64, 2i64, seq![t_("+"@), n_("S"@)]), (5i64, 2i64, seq![n_("T"@), n_("B"@)])])]);
    assert(pviews(tables.all_productions@) =~~= pviews(p_old) + seq![(1i64, 2i64, seq![n_("T"@), n_("B"@)]), (2i64, 2i64, seq![n_("S'"@), n_("B"@)]), (3i64, 1i64, seq![null_()]), (4i64, 2i64, seq![t_("+"@), n_("S"@)]), (5i64, 2i64, seq![n_("T"@), n_("B"@)]), (6i64, 3i64, seq![t_("("@), n_("S"@), t_(")"@)])]);
    let mut body: Vec<GrammarSymbol> = Vec::new();
    body.push(term(&ts_a));
    let ghost bv = body@;
    let pr = production(7i64, 1i64, body);
    assert(bv.map_values(|s: GrammarSymbol| sview(s)) =~= seq![t_("a"@)]);
    add_production(tables, nts_T_idx, pr, Some(2i64), None);
    assert(ntviews(tables.all_nts@) =~~= ntviews(a_old) + seq![("S"@, 1i64, seq![(1i64, 2i64, seq![n_("T"@), n_("B"@)])]), ("B"@, 2i64, seq![(2i64, 2i64, seq![n_("S'"@), n_("B"@)]), (3i64, 1i64, seq![null_()])]), ("T"@, 2i64, seq![(6i64, 3i64, seq![t_("("@), n_("S"@), t_(")"@)]), (7i64, 1i64, seq![t_("a"@)])]), ("S'"@, 2i64, seq![(4i64, 2i64, seq![t_("+"@), n_("S"@)]), (5i64, 2i64, seq![n_("T"@), n_("B"@)])])]);
    assert(pviews(tables.all_productions@) =~~= pviews(p_old) + seq![(1i64, 2i64, seq![n_("T"@), n_("B"@)]), (2i64, 2i64, seq![n_("S'"@), n_("B"@)]), (3i64, 1i64, seq![null_()]), (4i64, 2i64, seq![t_("+"@), n_("S"@)]), (5i64, 2i64, seq![n_("T"@), n_("B"@)]), (6i64, 3i64, seq![t_("("@), n_("S"@), t_(")"@)]), (7i64, 1i64, seq![t_("a"@)])]);
    proof {
        assert(pfirsts(tables.all_productions@) =~= pfirsts(p_old) + empties(7));
    }
    analyse(tables);
}
} // verus!
