//! LR(0) over the shared tables: the closure of an item set, the automaton
//! built by exhausting transitions, the SLR(1) check, and the ACTION and GOTO
//! tables.
use vstd::prelude::*;
use crate::lab2::str_set::{is_str_set, lemma_set_len, members, new_set, set_insert};
use crate::lab2::tables::items::{core_keys, item_sets_same, same_state, ActionCell, GotoCell, ItemSet, ItemType, LR0Item, TransitionEdge};
use crate::lab2::tables::parse_table::{action_row_reset, action_write, amap, arows_wf, gmap, goto_row_reset, goto_write, grows_wf, put2};
use crate::lab2::tables::symbols::{Production};
use crate::lab2::tables::task1::{copy_production, find_nts_index, first_idx, lemma_first_idx, nts_names};
use crate::lab2::tables::declare::{
    add_production, analyse, analysed, empties, n_, nt, ntviews, null_, pfirsts, production, pviews, sview, t_, term, tsmap,
};
use crate::lab2::tables::supplementary::{register_non_terminal, register_terminal, smap, tables_wf, ts_null, Lab2Tables};
use crate::lab2::tables::symbols::{copy_ts, tkey, tset, ts_insert, GrammarSymbol, NonTerminalSymbol, TerminalSymbol};
use crate::lab2::tables::task1::{nfirst, nfollow, nts_wf, prods_wf};
use crate::lab2::tables::symbols::ts_contains;


verus! {

/// The non-terminal right after the dot of an item, if any.
pub open spec fn dot_nt(it: LR0Item) -> Option<Seq<char>> {
    let body = it.production.pBodySymbolTable@;
    if 0 <= it.dotPosition < body.len() {
        match body[it.dotPosition as int] {
            GrammarSymbol::NonTerminal(n) => Some(n@),
            _ => None,
        }
    } else {
        None
    }
}

/// The non-terminal a production's body starts with, if any.
pub open spec fn first_nt(pr: Production) -> Option<Seq<char>> {
    let body = pr.pBodySymbolTable@;
    if body.len() > 0 {
        match body[0] {
            GrammarSymbol::NonTerminal(n) => Some(n@),
            _ => None,
        }
    } else {
        None
    }
}

/// The non-terminals right after the dots of the items.
pub open spec fn init_names(items: Seq<LR0Item>) -> Set<Seq<char>>
    decreases items.len(),
{
    if items.len() == 0 {
        Set::empty()
    } else {
        match dot_nt(items.last()) {
            Some(n) => init_names(items.drop_last()).insert(n),
            None => init_names(items.drop_last()),
        }
    }
}

/// Production `q` of the non-terminal named `n` (its first registration).
pub open spec fn prod_of(a: Seq<NonTerminalSymbol>, n: Seq<char>, q: int) -> Production {
    a[first_idx(nts_names(a), n)].pProductionTable@[q]
}

/// The number of productions of the non-terminal named `n`.
pub open spec fn nprods(a: Seq<NonTerminalSymbol>, n: Seq<char>) -> int {
    a[first_idx(nts_names(a), n)].pProductionTable@.len() as int
}

/// A set of names holds, with each registered name, the non-terminal that
/// each of its productions starts with.
pub open spec fn cl_closed(a: Seq<NonTerminalSymbol>, s: Set<Seq<char>>) -> bool {
    forall|n: Seq<char>, q: int| #[trigger] s.contains(n) && nts_names(a).contains(n) && 0 <= q < nprods(a, n)
        ==> match #[trigger] first_nt(prod_of(a, n, q)) {
            Some(m) => s.contains(m),
            None => true,
        }
}

/// `s` lies within every closed set that holds `init`.
pub open spec fn cl_least(a: Seq<NonTerminalSymbol>, init: Set<Seq<char>>, s: Set<Seq<char>>) -> bool {
    forall|t: Set<Seq<char>>| init.subset_of(t) && #[trigger] cl_closed(a, t) ==> s.subset_of(t)
}

/// `it` is the closure item of production `q` of `n`: dot at the start, not
/// a core item.
pub open spec fn closure_item(a: Seq<NonTerminalSymbol>, it: LR0Item, n: Seq<char>, q: int) -> bool {
    let pr = prod_of(a, n, q);
    &&& it.nonTerminalSymbol@ == n
    &&& it.dotPosition == 0
    &&& it.itemType == ItemType::NonCore
    &&& it.production.productionId == pr.productionId
    &&& it.production.bodySize == pr.bodySize
    &&& it.production.pBodySymbolTable@ == pr.pBodySymbolTable@
    &&& it.production.pFirstSet@ == pr.pFirstSet@
}

/// `added` holds, each once and in some order, the closure item of every
/// production of every registered name of `m`.
pub open spec fn closure_items(a: Seq<NonTerminalSymbol>, m: Set<Seq<char>>, added: Seq<LR0Item>) -> bool {
    exists|tags: Seq<(Seq<char>, int)>| {
        &&& tags.len() == added.len()
        &&& tags.no_duplicates()
        &&& forall|j: int| 0 <= j < tags.len() ==> closure_item(a, #[trigger] added[j], tags[j].0, tags[j].1)
        &&& forall|n: Seq<char>, q: int| #[trigger] tags.contains((n, q))
            <==> (m.contains(n) && nts_names(a).contains(n) && 0 <= q < nprods(a, n))
    }
}

/// `items` is `core` followed by its closure items: those of the least set
/// of names that holds the names after the dots of `core` and is closed.
pub open spec fn is_closure_of(a: Seq<NonTerminalSymbol>, core: Seq<LR0Item>, items: Seq<LR0Item>) -> bool {
    &&& items.len() >= core.len()
    &&& items.subrange(0, core.len() as int) == core
    &&& exists|m: Set<Seq<char>>| {
        &&& init_names(core).subset_of(m)
        &&& cl_closed(a, m)
        &&& cl_least(a, init_names(core), m)
        &&& closure_items(a, m, items.subrange(core.len() as int, items.len() as int))
    }
}


/// Popping the last of a list without repeats takes it out of the list's set.
proof fn lemma_pop_set(s: Seq<Seq<char>>)
    requires
        s.no_duplicates(),
        s.len() > 0,
    ensures
        s.drop_last().no_duplicates(),
        s.drop_last().to_set() == s.to_set().remove(s.last()),
        !s.drop_last().contains(s.last()),
{
    let d = s.drop_last();
    assert forall|x: Seq<char>| #[trigger] d.to_set().contains(x) <==> s.to_set().remove(s.last()).contains(x) by {
        if d.to_set().contains(x) {
            let i = choose|i: int| 0 <= i < d.len() && d[i] == x;
            assert(s[i] == x);
            assert(i != s.len() - 1);
        }
        if s.to_set().remove(s.last()).contains(x) {
            let i = choose|i: int| 0 <= i < s.len() && s[i] == x;
            assert(i != s.len() - 1);
            assert(d[i] == x);
        }
    }
    assert(d.to_set() =~= s.to_set().remove(s.last()));
    if d.contains(s.last()) {
        let i = choose|i: int| 0 <= i < d.len() && d[i] == s.last();
        assert(s[i] == s[s.len() - 1]);
    }
}

/// Pushing a new member onto a list without repeats adds it to the set.
proof fn lemma_push_set<A>(s: Seq<A>, x: A)
    requires
        s.no_duplicates(),
        !s.contains(x),
    ensures
        s.push(x).no_duplicates(),
        s.push(x).to_set() == s.to_set().insert(x),
{
    let t = s.push(x);
    assert forall|i: int, j: int| 0 <= i < t.len() && 0 <= j < t.len() && i != j implies t[i] != t[j] by {
        if i < s.len() && j < s.len() {
            assert(t[i] == s[i] && t[j] == s[j]);
        } else if i < s.len() {
            assert(t[i] == s[i]);
        } else {
            assert(t[j] == s[j]);
        }
    }
    s.lemma_push_to_set_commute(x);
}

/// Taking a registered name out of what is left to do shrinks it by one.
proof fn lemma_diff_insert(s: Set<Seq<char>>, p: Set<Seq<char>>, n: Seq<char>)
    requires
        s.finite(),
        s.contains(n),
        !p.contains(n),
    ensures
        s.difference(p.insert(n)).len() + 1 == s.difference(p).len(),
{
    assert(s.difference(p.insert(n)) =~= s.difference(p).remove(n));
}

/// Adds to the item set the closure items of every production of every
/// non-terminal that stands right after a dot, and, in turn, of every
/// non-terminal that such a production starts with. Each non-terminal is
/// taken once, its productions from its first registration; names that are
/// not registered add nothing. The items already there stay in front.
pub fn getClosure(all_nts: &Vec<NonTerminalSymbol>, itemSet: &mut ItemSet)
    ensures
        final(itemSet).stateId == old(itemSet).stateId,
        is_closure_of(all_nts@, old(itemSet).pItemTable@, final(itemSet).pItemTable@),
{
    let ghost a = all_nts@;
    let ghost names = nts_names(a);
    let ghost core = itemSet.pItemTable@;
    let ghost init = init_names(core);
    let mut seen = new_set();
    let mut queue: Vec<String> = Vec::new();
    let n0 = itemSet.pItemTable.len();
    let mut j: usize = 0;
    proof {
        assert(core.subrange(0, 0).len() == 0);
        assert(crate::lab2::str_set::strs(queue@).to_set() =~= members(seen@));
        assert(members(seen@) =~= init_names(core.subrange(0, 0)));
    }
    while j < n0
        invariant
            j <= n0,
            n0 == core.len(),
            itemSet.pItemTable@ == core,
            itemSet.stateId == old(itemSet).stateId,
            core == old(itemSet).pItemTable@,
            is_str_set(seen@),
            members(seen@) == init_names(core.subrange(0, j as int)),
            crate::lab2::str_set::strs(queue@).to_set() == members(seen@),
            crate::lab2::str_set::strs(queue@).no_duplicates(),
        decreases n0 - j,
    {
        let ghost sub = core.subrange(0, j + 1);
        proof {
            assert(sub.drop_last() =~= core.subrange(0, j as int));
            assert(sub.last() == core[j as int]);
        }
        let it = &itemSet.pItemTable[j];
        let len = it.production.pBodySymbolTable.len();
        if it.dotPosition >= 0 && (it.dotPosition as u64) < (len as u64) {
            let d = it.dotPosition as usize;
            match &it.production.pBodySymbolTable[d] {
                GrammarSymbol::NonTerminal(name) => {
                    let ghost qs = crate::lab2::str_set::strs(queue@);
                    if set_insert(&mut seen, name.as_str()) {
                        queue.push(name.clone());
                        proof {
                            assert(crate::lab2::str_set::strs(queue@) =~= qs.push(name@));
                            lemma_push_set(qs, name@);
                        }
                    }
                },
                _ => {},
            }
        }
        j = j + 1;
    }
    proof {
        assert(core.subrange(0, core.len() as int) =~= core);
    }
    let ghost mut processed: Set<Seq<char>> = Set::empty();
    let ghost mut tags: Seq<(Seq<char>, int)> = Seq::empty();
    proof {
        assert(itemSet.pItemTable@.subrange(0, core.len() as int) =~= core);
        assert(members(seen@) =~= processed.union(crate::lab2::str_set::strs(queue@).to_set()));
    }
    while queue.len() > 0
        invariant
            a == all_nts@,
            names == nts_names(a),
            init == init_names(core),
            core == old(itemSet).pItemTable@,
            itemSet.stateId == old(itemSet).stateId,
            itemSet.pItemTable@.len() == core.len() + tags.len(),
            itemSet.pItemTable@.subrange(0, core.len() as int) == core,
            is_str_set(seen@),
            members(seen@) == processed.union(crate::lab2::str_set::strs(queue@).to_set()),
            forall|x: Seq<char>| processed.contains(x) ==> !crate::lab2::str_set::strs(queue@).contains(x),
            crate::lab2::str_set::strs(queue@).no_duplicates(),
            init.subset_of(members(seen@)),
            forall|t: Set<Seq<char>>| init.subset_of(t) && #[trigger] cl_closed(a, t) ==> members(seen@).subset_of(t),
            forall|n: Seq<char>, q: int| #[trigger] processed.contains(n) && names.contains(n) && 0 <= q < nprods(a, n)
                ==> match #[trigger] first_nt(prod_of(a, n, q)) {
                    Some(m) => members(seen@).contains(m),
                    None => true,
                },
            tags.no_duplicates(),
            forall|k: int| 0 <= k < tags.len() ==> closure_item(a, #[trigger] itemSet.pItemTable@[core.len() + k], tags[k].0, tags[k].1),
            forall|n: Seq<char>, q: int| #[trigger] tags.contains((n, q))
                <==> (processed.contains(n) && names.contains(n) && 0 <= q < nprods(a, n)),
        decreases names.to_set().difference(processed).len(), queue@.len(),
    {
        let ghost qs = crate::lab2::str_set::strs(queue@);
        let cur = queue.pop().unwrap();
        proof {
            assert(crate::lab2::str_set::strs(queue@) =~= qs.drop_last());
            assert(qs.last() == cur@);
            lemma_pop_set(qs);
        }
        match find_nts_index(all_nts, cur.as_str()) {
            Some(idx) => {
                let np = all_nts[idx].pProductionTable.len();
                let ghost tags0 = tags;
                let ghost p0 = processed;
                proof {
                    lemma_first_idx(names, cur@);
                    assert(np == nprods(a, cur@));
                }
                let mut q: usize = 0;
                while q < np
                    invariant
                        a == all_nts@,
                        names == nts_names(a),
                        init == init_names(core),
                        core == old(itemSet).pItemTable@,
                        itemSet.stateId == old(itemSet).stateId,
                        idx < a.len(),
                        idx == first_idx(names, cur@),
                        names.contains(cur@),
                        np == nprods(a, cur@),
                        q <= np,
                        processed == p0,
                        !p0.contains(cur@),
                        !crate::lab2::str_set::strs(queue@).contains(cur@),
                        itemSet.pItemTable@.len() == core.len() + tags.len(),
                        itemSet.pItemTable@.subrange(0, core.len() as int) == core,
                        is_str_set(seen@),
                        members(seen@) == p0.insert(cur@).union(crate::lab2::str_set::strs(queue@).to_set()),
                        forall|x: Seq<char>| p0.contains(x) ==> !crate::lab2::str_set::strs(queue@).contains(x),
                        crate::lab2::str_set::strs(queue@).no_duplicates(),
                        init.subset_of(members(seen@)),
                        forall|t: Set<Seq<char>>| init.subset_of(t) && #[trigger] cl_closed(a, t) ==> members(seen@).subset_of(t),
                        forall|n: Seq<char>, q2: int| #[trigger] p0.contains(n) && names.contains(n) && 0 <= q2 < nprods(a, n)
                            ==> match #[trigger] first_nt(prod_of(a, n, q2)) {
                                Some(m) => members(seen@).contains(m),
                                None => true,
                            },
                        forall|q2: int| 0 <= q2 < q ==> match #[trigger] first_nt(prod_of(a, cur@, q2)) {
                            Some(m) => members(seen@).contains(m),
                            None => true,
                        },
                        tags.no_duplicates(),
                        forall|k: int| 0 <= k < tags.len() ==> closure_item(a, #[trigger] itemSet.pItemTable@[core.len() + k], tags[k].0, tags[k].1),
                        forall|n: Seq<char>, q2: int| #[trigger] tags.contains((n, q2))
                            <==> ((p0.contains(n) && names.contains(n) && 0 <= q2 < nprods(a, n)) || (n == cur@ && 0 <= q2 < q)),
                    decreases np - q,
                {
                    let pr = copy_production(&all_nts[idx].pProductionTable[q]);
                    let mut first: Option<String> = None;
                    if pr.pBodySymbolTable.len() > 0 {
                        match &pr.pBodySymbolTable[0] {
                            GrammarSymbol::NonTerminal(nn) => {
                                first = Some(nn.clone());
                            },
                            _ => {},
                        }
                    }
                    let ghost items_before = itemSet.pItemTable@;
                    itemSet.pItemTable.push(LR0Item::new(cur.as_str(), pr, 0, ItemType::NonCore));
                    proof {
                        assert(!tags.contains((cur@, q as int)));
                        lemma_push_set(tags, (cur@, q as int));
                        tags = tags.push((cur@, q as int));
                        assert(itemSet.pItemTable@.subrange(0, core.len() as int) =~= items_before.subrange(0, core.len() as int));
                        assert forall|k: int| 0 <= k < tags.len() implies closure_item(a, #[trigger] itemSet.pItemTable@[core.len() + k], tags[k].0, tags[k].1) by {
                            if k < tags.len() - 1 {
                                assert(itemSet.pItemTable@[core.len() + k] == items_before[core.len() + k]);
                            }
                        }
                        assert forall|n: Seq<char>, q2: int| #[trigger] tags.contains((n, q2))
                            <==> ((p0.contains(n) && names.contains(n) && 0 <= q2 < nprods(a, n)) || (n == cur@ && 0 <= q2 < q + 1)) by {
                            assert(tags.to_set().contains((n, q2)) == tags.contains((n, q2)));
                        }
                    }
                    match first {
                        Some(nn) => {
                            let ghost qs2 = crate::lab2::str_set::strs(queue@);
                            if set_insert(&mut seen, nn.as_str()) {
                                queue.push(nn);
                                proof {
                                    assert(crate::lab2::str_set::strs(queue@) =~= qs2.push(nn@));
                                    lemma_push_set(qs2, nn@);
                                    assert forall|t: Set<Seq<char>>| init.subset_of(t) && #[trigger] cl_closed(a, t) implies members(seen@).subset_of(t) by {
                                        assert(t.contains(cur@));
                                        assert(first_nt(prod_of(a, cur@, q as int)) == Some(nn@));
                                    }
                                }
                            }
                        },
                        None => {},
                    }
                    q = q + 1;
                }
                proof {
                    lemma_diff_insert(names.to_set(), processed, cur@);
                    processed = processed.insert(cur@);
                    assert forall|n: Seq<char>, q2: int| #[trigger] tags.contains((n, q2))
                        <==> (processed.contains(n) && names.contains(n) && 0 <= q2 < nprods(a, n)) by {
                    }
                    assert forall|n: Seq<char>, q2: int| #[trigger] processed.contains(n) && names.contains(n) && 0 <= q2 < nprods(a, n)
                        implies match #[trigger] first_nt(prod_of(a, n, q2)) {
                            Some(m) => members(seen@).contains(m),
                            None => true,
                        } by {
                        if n != cur@ {
                            assert(p0.contains(n));
                        }
                    }
                    assert(members(seen@) =~= processed.union(crate::lab2::str_set::strs(queue@).to_set()));
                }
            },
            None => {
                proof {
                    assert(names.to_set().difference(processed.insert(cur@)) =~= names.to_set().difference(processed)) by {
                        assert(!names.to_set().contains(cur@));
                    }
                    processed = processed.insert(cur@);
                    assert forall|n: Seq<char>, q2: int| #[trigger] tags.contains((n, q2))
                        <==> (processed.contains(n) && names.contains(n) && 0 <= q2 < nprods(a, n)) by {
                    }
                    assert(members(seen@) =~= processed.union(crate::lab2::str_set::strs(queue@).to_set()));
                }
            },
        }
    }
    proof {
        assert(crate::lab2::str_set::strs(queue@).to_set() =~= Set::<Seq<char>>::empty());
        assert(members(seen@) =~= processed);
        let items = itemSet.pItemTable@;
        let added = items.subrange(core.len() as int, items.len() as int);
        assert forall|k: int| 0 <= k < tags.len() implies closure_item(a, #[trigger] added[k], tags[k].0, tags[k].1) by {
            assert(added[k] == items[core.len() + k]);
        }
        assert(closure_items(a, processed, added));
        assert(cl_closed(a, processed));
    }
}

/// The declarations of the non-terminals that `test2` adds.
pub open spec fn test2_nts() -> Seq<(Seq<char>, i64, Seq<(i64, i64, Seq<(u8, Seq<char>, Seq<char>)>)>)> {
    seq![("E'"@, 1i64, seq![(0i64, 1i64, seq![n_("E"@), t_("$"@)])]), ("E"@, 2i64, seq![(1i64, 3i64, seq![n_("E"@), t_("+"@), n_("T"@)]), (2i64, 1i64, seq![n_("T"@)])]), ("T"@, 2i64, seq![(3i64, 3i64, seq![n_("T"@), t_("*"@), n_("F"@)]), (4i64, 1i64, seq![n_("F"@)])]), ("F"@, 2i64, seq![(5i64, 3i64, seq![t_("("@), n_("E"@), t_(")"@)]), (6i64, 1i64, seq![t_("id"@)])])]
}

/// The productions that `test2` lists.
pub open spec fn test2_prods() -> Seq<(i64, i64, Seq<(u8, Seq<char>, Seq<char>)>)> {
    seq![(0i64, 1i64, seq![n_("E"@), t_("$"@)]), (1i64, 3i64, seq![n_("E"@), t_("+"@), n_("T"@)]), (2i64, 1i64, seq![n_("T"@)]), (3i64, 3i64, seq![n_("T"@), t_("*"@), n_("F"@)]), (4i64, 1i64, seq![n_("F"@)]), (5i64, 3i64, seq![t_("("@), n_("E"@), t_(")"@)]), (6i64, 1i64, seq![t_("id"@)])]
}

/// Declares the grammar E' -> E $, E -> E + T | T, T -> T * F | F,
/// F -> ( E ) | id in the tables, with `$` in FOLLOW of E and the head
/// positions of the productions listed, and computes the FIRST and FOLLOW
/// sets.
pub fn test2(tables: &mut Lab2Tables)
    requires
        tables_wf(*old(tables)),
        nts_wf(old(tables).all_nts@),
        prods_wf(old(tables).all_productions@),
    ensures
        tables_wf(*final(tables)),
        ntviews(final(tables).all_nts@) == ntviews(old(tables).all_nts@) + test2_nts(),
        pviews(final(tables).all_productions@) == pviews(old(tables).all_productions@) + test2_prods(),
        final(tables).relative_id@ == old(tables).relative_id@ + seq![0i64, 1i64, 1i64, 2i64, 2i64, 3i64, 3i64],
        smap(final(tables).get_nts@) == smap(old(tables).get_nts@).insert("E'"@, (old(tables).all_nts@.len() + 0) as usize).insert("E"@, (old(tables).all_nts@.len() + 1) as usize).insert("T"@, (old(tables).all_nts@.len() + 2) as usize).insert("F"@, (old(tables).all_nts@.len() + 3) as usize),
        tsmap(final(tables).get_ts@) == tsmap(old(tables).get_ts@).insert("+"@, ("TERMINAL"@, "+"@)).insert("("@, ("TERMINAL"@, "("@)).insert(")"@, ("TERMINAL"@, ")"@)).insert("*"@, ("TERMINAL"@, "*"@)).insert("id"@, ("TERMINAL"@, "id"@)).insert("$"@, ("TERMINAL"@, "$"@)),
        analysed(*final(tables), nfirst(old(tables).all_nts@) + empties(4), pfirsts(old(tables).all_productions@) + empties(7),
            nfollow(old(tables).all_nts@) + seq![Set::empty(), set![("TERMINAL"@, "$"@)], Set::empty(), Set::empty()]),
{
    let ghost a_old = tables.all_nts@;
    let ghost p_old = tables.all_productions@;
    let ghost r_old = tables.relative_id@;
    let ghost g_old = tables.get_nts@;
    let ghost gt_old = tables.get_ts@;
    let ts_plus = TerminalSymbol::new("+", "TERMINAL", "OPERATOR+");
    let ts_left_bracket = TerminalSymbol::new("(", "TERMINAL", "LEFT BRACKET");
    let ts_right_bracket = TerminalSymbol::new(")", "TERMINAL", "RIGHT BRACKET");
    let ts_multiple = TerminalSymbol::new("*", "TERMINAL", "OPERATOR*");
    let ts_id = TerminalSymbol::new("id", "TERMINAL", "ID");
    let ts_shut = TerminalSymbol::new("$", "TERMINAL", "$");
    let nts_E1_idx = register_non_terminal(tables, NonTerminalSymbol::new("E'", "NONTERMINAL"));
    let nts_E_idx = register_non_terminal(tables, NonTerminalSymbol::new("E", "NONTERMINAL"));
    let nts_T_idx = register_non_terminal(tables, NonTerminalSymbol::new("T", "NONTERMINAL"));
    let nts_F_idx = register_non_terminal(tables, NonTerminalSymbol::new("F", "NONTERMINAL"));
    proof {
        assert(ntviews(tables.all_nts@) =~~= ntviews(a_old) + seq![("E'"@, 0i64, seq![]), ("E"@, 0i64, seq![]), ("T"@, 0i64, seq![]), ("F"@, 0i64, seq![])]);
        assert(nfirst(tables.all_nts@) =~~= nfirst(a_old) + empties(4));
        assert(nfollow(tables.all_nts@) =~~= nfollow(a_old) + empties(4));
    }
    register_terminal(tables, copy_ts(&ts_plus));
    register_terminal(tables, copy_ts(&ts_left_bracket));
    register_terminal(tables, copy_ts(&ts_right_bracket));
    register_terminal(tables, copy_ts(&ts_multiple));
    register_terminal(tables, copy_ts(&ts_id));
    register_terminal(tables, copy_ts(&ts_shut));
    assert(tsmap(tables.get_ts@) =~= tsmap(gt_old).insert("+"@, ("TERMINAL"@, "+"@)).insert("("@, ("TERMINAL"@, "("@)).insert(")"@, ("TERMINAL"@, ")"@)).insert("*"@, ("TERMINAL"@, "*"@)).insert("id"@, ("TERMINAL"@, "id"@)).insert("$"@, ("TERMINAL"@, "$"@)));
    let ghost before_follow = tables.all_nts@;
    ts_insert(&mut tables.all_nts[nts_E_idx].pFollowSet, &ts_shut);
    proof {
        assert(ntviews(tables.all_nts@) =~= ntviews(before_follow));
        assert(nfirst(tables.all_nts@) =~= nfirst(before_follow));
        assert(tset(before_follow[nts_E_idx as int].pFollowSet@) =~= Set::<(Seq<char>, Seq<char>)>::empty());
        assert(nfollow(tables.all_nts@) =~~= nfollow(a_old) + seq![Set::empty(), set![("TERMINAL"@, "$"@)], Set::empty(), Set::empty()]);
        assert(nts_wf(tables.all_nts@));
    }
    let mut body: Vec<GrammarSymbol> = Vec::new();
    body.push(nt("E"));
    body.push(term(&ts_shut));
    let ghost bv = body@;
    let pr = production(0i64, 1i64, body);
    assert(bv.map_values(|s: GrammarSymbol| sview(s)) =~= seq![n_("E"@), t_("$"@)]);
    add_production(tables, nts_E1_idx, pr, Some(1i64), Some(0i64));
    assert(ntviews(tables.all_nts@) =~~= ntviews(a_old) + seq![("E'"@, 1i64, seq![(0i64, 1i64, seq![n_("E"@), t_("$"@)])]), ("E"@, 0i64, seq![]), ("T"@, 0i64, seq![]), ("F"@, 0i64, seq![])]);
    assert(pviews(tables.all_productions@) =~~= pviews(p_old) + seq![(0i64, 1i64, seq![n_("E"@), t_("$"@)])]);
    let mut body: Vec<GrammarSymbol> = Vec::new();
    body.push(nt("E"));
    body.push(term(&ts_plus));
    body.push(nt("T"));
    let ghost bv = body@;
    let pr = production(1i64, 3i64, body);
    assert(bv.map_values(|s: GrammarSymbol| sview(s)) =~= seq![n_("E"@), t_("+"@), n_("T"@)]);
    add_production(tables, nts_E_idx, pr, Some(2i64), Some(1i64));
    assert(ntviews(tables.all_nts@) =~~= ntviews(a_old) + seq![("E'"@, 1i64, seq![(0i64, 1i64, seq![n_("E"@), t_("$"@)])]), ("E"@, 2i64, seq![(1i64, 3i64, seq![n_("E"@), t_("+"@), n_("T"@)])]), ("T"@, 0i64, seq![]), ("F"@, 0i64, seq![])]);
    assert(pviews(tables.all_productions@) =~~= pviews(p_old) + seq![(0i64, 1i64, seq![n_("E"@), t_("$"@)]), (1i64, 3i64, seq![n_("E"@), t_("+"@), n_("T"@)])]);
    let mut body: Vec<GrammarSymbol> = Vec::new();
    body.push(nt("T"));
    let ghost bv = body@;
    let pr = production(2i64, 1i64, body);
    assert(bv.map_values(|s: GrammarSymbol| sview(s)) =~= seq![n_("T"@)]);
    add_production(tables, nts_E_idx, pr, Some(2i64), Some(1i64));
    assert(ntviews(tables.all_nts@) =~~= ntviews(a_old) + seq![("E'"@, 1i64, seq![(0i64, 1i64, seq![n_("E"@), t_("$"@)])]), ("E"@, 2i64, seq![(1i64, 3i64, seq![n_("E"@), t_("+"@), n_("T"@)]), (2i64, 1i64, seq![n_("T"@)])]), ("T"@, 0i64, seq![]), ("F"@, 0i64, seq![])]);
    assert(pviews(tables.all_productions@) =~~= pviews(p_old) + seq![(0i64, 1i64, seq![n_("E"@), t_("$"@)]), (1i64, 3i64, seq![n_("E"@), t_("+"@), n_("T"@)]), (2i64, 1i64, seq![n_("T"@)])]);
    let mut body: Vec<GrammarSymbol> = Vec::new();
    body.push(nt("T"));
    body.push(term(&ts_multiple));
    body.push(nt("F"));
    let ghost bv = body@;
    let pr = production(3i64, 3i64, body);
    assert(bv.map_values(|s: GrammarSymbol| sview(s)) =~= seq![n_("T"@), t_("*"@), n_("F"@)]);
    add_production(tables, nts_T_idx, pr, Some(2i64), Some(2i64));
    assert(ntviews(tables.all_nts@) =~~= ntviews(a_old) + seq![("E'"@, 1i64, seq![(0i64, 1i64, seq![n_("E"@), t_("$"@)])]), ("E"@, 2i64, seq![(1i64, 3i64, seq![n_("E"@), t_("+"@), n_("T"@)]), (2i64, 1i64, seq![n_("T"@)])]), ("T"@, 2i64, seq![(3i64, 3i64, seq![n_("T"@), t_("*"@), n_("F"@)])]), ("F"@, 0i64, seq![])]);
    assert(pviews(tables.all_productions@) =~~= pviews(p_old) + seq![(0i64, 1i64, seq![n_("E"@), t_("$"@)]), (1i64, 3i64, seq![n_("E"@), t_("+"@), n_("T"@)]), (2i64, 1i64, seq![n_("T"@)]), (3i64, 3i64, seq![n_("T"@), t_("*"@), n_("F"@)])]);
    let mut body: Vec<GrammarSymbol> = Vec::new();
    body.push(nt("F"));
    let ghost bv = body@;
    let pr = production(4i64, 1i64, body);
    assert(bv.map_values(|s: GrammarSymbol| sview(s)) =~= seq![n_("F"@)]);
    add_production(tables, nts_T_idx, pr, Some(2i64), Some(2i64));
    assert(ntviews(tables.all_nts@) =~~= ntviews(a_old) + seq![("E'"@, 1i64, seq![(0i64, 1i64, seq![n_("E"@), t_("$"@)])]), ("E"@, 2i64, seq![(1i64, 3i64, seq![n_("E"@), t_("+"@), n_("T"@)]), (2i64, 1i64, seq![n_("T"@)])]), ("T"@, 2i64, seq![(3i64, 3i64, seq![n_("T"@), t_("*"@), n_("F"@)]), (4i64, 1i64, seq![n_("F"@)])]), ("F"@, 0i64, seq![])]);
    assert(pviews(tables.all_productions@) =~~= pviews(p_old) + seq![(0i64, 1i64, seq![n_("E"@), t_("$"@)]), (1i64, 3i64, seq![n_("E"@), t_("+"@), n_("T"@)]), (2i64, 1i64, seq![n_("T"@)]), (3i64, 3i64, seq![n_("T"@), t_("*"@), n_("F"@)]), (4i64, 1i64, seq![n_("F"@)])]);
    let mut body: Vec<GrammarSymbol> = Vec::new();
    body.push(term(&ts_left_bracket));
    body.push(nt("E"));
    body.push(term(&ts_right_bracket));
    let ghost bv = body@;
    let pr = production(5i64, 3i64, body);
    assert(bv.map_values(|s: GrammarSymbol| sview(s)) =~= seq![t_("("@), n_("E"@), t_(")"@)]);
    add_production(tables, nts_F_idx, pr, Some(2i64), Some(3i64));
    assert(ntviews(tables.all_nts@) =~~= ntviews(a_old) + seq![("E'"@, 1i64, seq![(0i64, 1i64, seq![n_("E"@), t_("$"@)])]), ("E"@, 2i64, seq![(1i64, 3i64, seq![n_("E"@), t_("+"@), n_("T"@)]), (2i64, 1i64, seq![n_("T"@)])]), ("T"@, 2i64, seq![(3i64, 3i64, seq![n_("T"@), t_("*"@), n_("F"@)]), (4i64, 1i64, seq![n_("F"@)])]), ("F"@, 2i64, seq![(5i64, 3i64, seq![t_("("@), n_("E"@), t_(")"@)])])]);
    assert(pviews(tables.all_productions@) =~~= pviews(p_old) + seq![(0i64, 1i64, seq![n_("E"@), t_("$"@)]), (1i64, 3i64, seq![n_("E"@), t_("+"@), n_("T"@)]), (2i64, 1i64, seq![n_("T"@)]), (3i64, 3i64, seq![n_("T"@), t_("*"@), n_("F"@)]), (4i64, 1i64, seq![n_("F"@)]), (5i64, 3i64, seq![t_("("@), n_("E"@), t_(")"@)])]);
    let mut body: Vec<GrammarSymbol> = Vec::new();
    body.push(term(&ts_id));
    let ghost bv = body@;
    let pr = production(6i64, 1i64, body);
    assert(bv.map_values(|s: GrammarSymbol| sview(s)) =~= seq![t_("id"@)]);
    add_production(tables, nts_F_idx, pr, Some(2i64), Some(3i64));
    assert(ntviews(tables.all_nts@) =~~= ntviews(a_old) + seq![("E'"@, 1i64, seq![(0i64, 1i64, seq![n_("E"@), t_("$"@)])]), ("E"@, 2i64, seq![(1i64, 3i64, seq![n_("E"@), t_("+"@), n_("T"@)]), (2i64, 1i64, seq![n_("T"@)])]), ("T"@, 2i64, seq![(3i64, 3i64, seq![n_("T"@), t_("*"@), n_("F"@)]), (4i64, 1i64, seq![n_("F"@)])]), ("F"@, 2i64, seq![(5i64, 3i64, seq![t_("("@), n_("E"@), t_(")"@)]), (6i64, 1i64, seq![t_("id"@)])])]);
    assert(pviews(tables.all_productions@) =~~= pviews(p_old) + seq![(0i64, 1i64, seq![n_("E"@), t_("$"@)]), (1i64, 3i64, seq![n_("E"@), t_("+"@), n_("T"@)]), (2i64, 1i64, seq![n_("T"@)]), (3i64, 3i64, seq![n_("T"@), t_("*"@), n_("F"@)]), (4i64, 1i64, seq![n_("F"@)]), (5i64, 3i64, seq![t_("("@), n_("E"@), t_(")"@)]), (6i64, 1i64, seq![t_("id"@)])]);
    proof {
        assert(pfirsts(tables.all_productions@) =~= pfirsts(p_old) + empties(7));
        assert(tables.relative_id@ =~= r_old + seq![0i64, 1i64, 1i64, 2i64, 2i64, 3i64, 3i64]);
    }
    analyse(tables);
}

/// An item as plain values.
pub open spec fn iview(it: LR0Item) -> (Seq<char>, i64, i64, Seq<GrammarSymbol>, Seq<TerminalSymbol>, i64, ItemType) {
    (it.nonTerminalSymbol@, it.production.productionId, it.production.bodySize, it.production.pBodySymbolTable@,
        it.production.pFirstSet@, it.dotPosition, it.itemType)
}

/// A list of items as plain values.
pub open spec fn iviews(items: Seq<LR0Item>) -> Seq<(Seq<char>, i64, i64, Seq<GrammarSymbol>, Seq<TerminalSymbol>, i64, ItemType)> {
    items.map_values(|it: LR0Item| iview(it))
}

/// A copy of an item.
pub fn copy_item(it: &LR0Item) -> (res: LR0Item)
    ensures
        iview(res) == iview(*it),
{
    LR0Item::new(it.nonTerminalSymbol.as_str(), copy_production(&it.production), it.dotPosition, it.itemType)
}

/// A copy of an item set.
pub fn copy_item_set(s: &ItemSet) -> (res: ItemSet)
    ensures
        res.stateId == s.stateId,
        iviews(res.pItemTable@) == iviews(s.pItemTable@),
{
    let mut v: Vec<LR0Item> = Vec::new();
    let mut i: usize = 0;
    while i < s.pItemTable.len()
        invariant
            i <= s.pItemTable@.len(),
            iviews(v@) == iviews(s.pItemTable@.subrange(0, i as int)),
        decreases s.pItemTable@.len() - i,
    {
        let ghost before = v@;
        v.push(copy_item(&s.pItemTable[i]));
        proof {
            assert(iviews(v@) =~= iviews(before).push(iview(s.pItemTable@[i as int])));
            assert(iviews(s.pItemTable@.subrange(0, i + 1)) =~= iviews(s.pItemTable@.subrange(0, i as int)).push(iview(s.pItemTable@[i as int])));
        }
        i = i + 1;
    }
    assert(s.pItemTable@.subrange(0, i as int) =~= s.pItemTable@);
    ItemSet { stateId: s.stateId, pItemTable: v }
}

/// The symbol right after the dot of an item, as plain values, where the dot
/// stands before a terminal or non-terminal.
pub open spec fn sym_at(it: LR0Item) -> Option<(u8, Seq<char>, Seq<char>)> {
    let body = it.production.pBodySymbolTable@;
    if 0 <= it.dotPosition < body.len() && it.dotPosition < i64::MAX {
        match body[it.dotPosition as int] {
            GrammarSymbol::Null => None,
            _ => Some(sview(body[it.dotPosition as int])),
        }
    } else {
        None
    }
}

/// The items with `x` right after the dot, in order.
pub open spec fn gsrc(items: Seq<LR0Item>, x: (u8, Seq<char>, Seq<char>)) -> Seq<LR0Item>
    decreases items.len(),
{
    if items.len() == 0 {
        Seq::empty()
    } else if sym_at(items.last()) == Some(x) {
        gsrc(items.drop_last(), x).push(items.last())
    } else {
        gsrc(items.drop_last(), x)
    }
}

/// `dst` is `src` with the dot moved one symbol on, as a core item.
pub open spec fn advanced(src: LR0Item, dst: LR0Item) -> bool {
    &&& dst.nonTerminalSymbol@ == src.nonTerminalSymbol@
    &&& dst.production.productionId == src.production.productionId
    &&& dst.production.bodySize == src.production.bodySize
    &&& dst.production.pBodySymbolTable@ == src.production.pBodySymbolTable@
    &&& dst.production.pFirstSet@ == src.production.pFirstSet@
    &&& dst.dotPosition == src.dotPosition + 1
    &&& dst.itemType == ItemType::Core
}

/// `core` is the kernel of the move from `items` on `x`: each item with `x`
/// after the dot, in order, with the dot moved over it.
pub open spec fn is_goto(items: Seq<LR0Item>, x: (u8, Seq<char>, Seq<char>), core: Seq<LR0Item>) -> bool {
    &&& core.len() == gsrc(items, x).len()
    &&& forall|i: int| 0 <= i < core.len() ==> advanced(#[trigger] gsrc(items, x)[i], core[i])
}

/// The kernel of the move from `items` on `x`.
fn goto_core(items: &Vec<LR0Item>, x: &GrammarSymbol) -> (res: Vec<LR0Item>)
    requires
        !(*x is Null),
    ensures
        is_goto(items@, sview(*x), res@),
{
    let ghost xv = sview(*x);
    let mut core: Vec<LR0Item> = Vec::new();
    let mut j: usize = 0;
    while j < items.len()
        invariant
            j <= items@.len(),
            xv == sview(*x),
            !(*x is Null),
            is_goto(items@.subrange(0, j as int), xv, core@),
        decreases items@.len() - j,
    {
        let ghost sub = items@.subrange(0, j + 1);
        proof {
            assert(sub.drop_last() =~= items@.subrange(0, j as int));
            assert(sub.last() == items@[j as int]);
        }
        let it = &items[j];
        let len = it.production.pBodySymbolTable.len();
        if it.dotPosition >= 0 && (it.dotPosition as u64) < (len as u64) && it.dotPosition < i64::MAX {
            let d = it.dotPosition as usize;
            let hit = match (&it.production.pBodySymbolTable[d], x) {
                (GrammarSymbol::NonTerminal(a), GrammarSymbol::NonTerminal(b)) => crate::text::str_eq(a.as_str(), b.as_str()),
                (GrammarSymbol::Terminal(a), GrammarSymbol::Terminal(b)) => crate::lab2::tables::symbols::ts_same(a, b),
                _ => false,
            };
            proof {
                assert(d as int == it.dotPosition);
            }
            if hit {
                let ghost before = core@;
                core.push(LR0Item::new(it.nonTerminalSymbol.as_str(), copy_production(&it.production), it.dotPosition + 1, ItemType::Core));
                proof {
                    assert(sym_at(items@[j as int]) == Some(xv));
                    assert forall|i: int| 0 <= i < core@.len() implies advanced(#[trigger] gsrc(sub, xv)[i], core@[i]) by {
                        if i < before.len() {
                            assert(gsrc(sub, xv)[i] == gsrc(items@.subrange(0, j as int), xv)[i]);
                        }
                    }
                }
            } else {
                proof {
                    assert(sym_at(items@[j as int]) != Some(xv));
                }
            }
        } else {
            assert(sym_at(items@[j as int]) is None);
        }
        j = j + 1;
    }
    assert(items@.subrange(0, j as int) =~= items@);
    core
}

/// Whether some state of the table is the same state as `itemSet`; where
/// one is, `itemSet` takes the number of the first such.
pub fn contains(tables: &Lab2Tables, itemSet: &mut ItemSet) -> (res: bool)
    ensures
        final(itemSet).pItemTable@ == old(itemSet).pItemTable@,
        res == exists|k: int| 0 <= k < tables.item_sets@.len() && same_state(#[trigger] tables.item_sets@[k].pItemTable@, old(itemSet).pItemTable@),
        res ==> exists|k: int| 0 <= k < tables.item_sets@.len()
            && same_state(#[trigger] tables.item_sets@[k].pItemTable@, old(itemSet).pItemTable@)
            && (forall|j: int| 0 <= j < k ==> !same_state(#[trigger] tables.item_sets@[j].pItemTable@, old(itemSet).pItemTable@))
            && final(itemSet).stateId == tables.item_sets@[k].stateId,
        !res ==> final(itemSet).stateId == old(itemSet).stateId,
{
    let mut i: usize = 0;
    while i < tables.item_sets.len()
        invariant
            i <= tables.item_sets@.len(),
            itemSet.pItemTable@ == old(itemSet).pItemTable@,
            itemSet.stateId == old(itemSet).stateId,
            forall|j: int| 0 <= j < i ==> !same_state(#[trigger] tables.item_sets@[j].pItemTable@, old(itemSet).pItemTable@),
        decreases tables.item_sets@.len() - i,
    {
        if item_sets_same(&tables.item_sets[i], itemSet) {
            itemSet.stateId = tables.item_sets[i].stateId;
            return true;
        }
        i = i + 1;
    }
    false
}

/// The symbols standing right after a dot in the items.
pub open spec fn syms_of(items: Seq<LR0Item>) -> Set<(u8, Seq<char>, Seq<char>)>
    decreases items.len(),
{
    if items.len() == 0 {
        Set::empty()
    } else {
        match sym_at(items.last()) {
            Some(x) => syms_of(items.drop_last()).insert(x),
            None => syms_of(items.drop_last()),
        }
    }
}

/// `x` stands after a dot in the items exactly when some item has it there.
pub proof fn lemma_syms_of(items: Seq<LR0Item>, x: (u8, Seq<char>, Seq<char>))
    ensures
        syms_of(items).contains(x) <==> exists|j: int| 0 <= j < items.len() && sym_at(#[trigger] items[j]) == Some(x),
    decreases items.len(),
{
    if items.len() > 0 {
        let d = items.drop_last();
        lemma_syms_of(d, x);
        if syms_of(d).contains(x) {
            let j = choose|j: int| 0 <= j < d.len() && sym_at(#[trigger] d[j]) == Some(x);
            assert(items[j] == d[j]);
        }
        if exists|j: int| 0 <= j < items.len() && sym_at(#[trigger] items[j]) == Some(x) {
            let j = choose|j: int| 0 <= j < items.len() && sym_at(#[trigger] items[j]) == Some(x);
            if j < items.len() - 1 {
                assert(d[j] == items[j]);
            }
        }
    }
}

/// The views of a list of symbols.
pub open spec fn dviews(v: Seq<GrammarSymbol>) -> Seq<(u8, Seq<char>, Seq<char>)> {
    v.map_values(|g: GrammarSymbol| sview(g))
}

/// The symbols that drive moves out of a state: the non-terminals after a
/// dot, each once, then the terminals after a dot, each once.
fn collect_drives(items: &Vec<LR0Item>) -> (res: Vec<GrammarSymbol>)
    ensures
        dviews(res@).to_set() == syms_of(items@),
        forall|d: int| 0 <= d < res@.len() ==> !(#[trigger] res@[d] is Null),
{
    let mut names = new_set();
    let mut terms: Vec<TerminalSymbol> = Vec::new();
    let mut j: usize = 0;
    proof {
        assert(crate::lab2::str_set::members(names@) =~= Set::<Seq<char>>::empty());
        assert(tset(terms@) =~= Set::<(Seq<char>, Seq<char>)>::empty());
        assert(syms_of(items@.subrange(0, 0)) =~= Set::empty());
    }
    while j < items.len()
        invariant
            j <= items@.len(),
            is_str_set(names@),
            crate::lab2::tables::symbols::tunique(terms@),
            forall|x: (u8, Seq<char>, Seq<char>)| #[trigger] syms_of(items@.subrange(0, j as int)).contains(x) <==> (
                (x.0 == 2u8 && x.1 == Seq::<char>::empty() && members(names@).contains(x.2))
                || (x.0 == 1u8 && tset(terms@).contains((x.1, x.2)))),
        decreases items@.len() - j,
    {
        let ghost sub = items@.subrange(0, j + 1);
        proof {
            assert(sub.drop_last() =~= items@.subrange(0, j as int));
            assert(sub.last() == items@[j as int]);
        }
        let ghost old_names = names@;
        let ghost old_terms = terms@;
        let it = &items[j];
        let len = it.production.pBodySymbolTable.len();
        if it.dotPosition >= 0 && (it.dotPosition as u64) < (len as u64) && it.dotPosition < i64::MAX {
            let d = it.dotPosition as usize;
            assert(d as int == it.dotPosition);
            match &it.production.pBodySymbolTable[d] {
                GrammarSymbol::NonTerminal(n) => {
                    set_insert(&mut names, n.as_str());
                    assert(sym_at(items@[j as int]) == Some((2u8, Seq::<char>::empty(), n@)));
                },
                GrammarSymbol::Terminal(t) => {
                    ts_insert(&mut terms, t);
                    assert(sym_at(items@[j as int]) == Some((1u8, t.symbolType@, t.name@)));
                },
                GrammarSymbol::Null => {
                    assert(sym_at(items@[j as int]) is None);
                },
            }
        } else {
            assert(sym_at(items@[j as int]) is None);
        }
        proof {
            assert forall|x: (u8, Seq<char>, Seq<char>)| #[trigger] syms_of(sub).contains(x) <==> (
                (x.0 == 2u8 && x.1 == Seq::<char>::empty() && members(names@).contains(x.2))
                || (x.0 == 1u8 && tset(terms@).contains((x.1, x.2)))) by {
                assert(syms_of(items@.subrange(0, j as int)).contains(x) <==> (
                    (x.0 == 2u8 && x.1 == Seq::<char>::empty() && members(old_names).contains(x.2))
                    || (x.0 == 1u8 && tset(old_terms).contains((x.1, x.2)))));
            }
        }
        j = j + 1;
    }
    assert(items@.subrange(0, j as int) =~= items@);
    let mut res: Vec<GrammarSymbol> = Vec::new();
    let mut k: usize = 0;
    while k < names.len()
        invariant
            k <= names@.len(),
            forall|d: int| 0 <= d < res@.len() ==> !(#[trigger] res@[d] is Null),
            dviews(res@).to_set() == crate::lab2::str_set::strs(names@).subrange(0, k as int).map_values(
                |n: Seq<char>| (2u8, Seq::<char>::empty(), n)).to_set(),
        decreases names@.len() - k,
    {
        let ghost m0 = dviews(res@);
        let ghost n0 = crate::lab2::str_set::strs(names@).subrange(0, k as int).map_values(|n: Seq<char>| (2u8, Seq::<char>::empty(), n));
        res.push(GrammarSymbol::NonTerminal(names[k].clone()));
        proof {
            let x = (2u8, Seq::<char>::empty(), names@[k as int]@);
            assert(dviews(res@) =~= m0.push(x));
            assert(crate::lab2::str_set::strs(names@).subrange(0, k + 1).map_values(|n: Seq<char>| (2u8, Seq::<char>::empty(), n)) =~= n0.push(x));
            m0.lemma_push_to_set_commute(x);
            n0.lemma_push_to_set_commute(x);
        }
        k = k + 1;
    }
    let ghost mid = dviews(res@).to_set();
    proof {
        assert(crate::lab2::str_set::strs(names@).subrange(0, k as int) =~= crate::lab2::str_set::strs(names@));
        assert forall|x: (u8, Seq<char>, Seq<char>)| #[trigger] mid.contains(x) <==> (x.0 == 2u8 && x.1 == Seq::<char>::empty() && members(names@).contains(x.2)) by {
            let sn = crate::lab2::str_set::strs(names@);
            let mp = sn.map_values(|n: Seq<char>| (2u8, Seq::<char>::empty(), n));
            if mid.contains(x) {
                let i = choose|i: int| 0 <= i < mp.len() && mp[i] == x;
                assert(sn[i] == x.2);
            }
            if x.0 == 2u8 && x.1 == Seq::<char>::empty() && members(names@).contains(x.2) {
                let i = choose|i: int| 0 <= i < sn.len() && sn[i] == x.2;
                assert(mp[i] == x);
            }
        }
    }
    let mut k: usize = 0;
    while k < terms.len()
        invariant
            k <= terms@.len(),
            forall|d: int| 0 <= d < res@.len() ==> !(#[trigger] res@[d] is Null),
            dviews(res@).to_set() == mid.union(terms@.subrange(0, k as int).map_values(
                |t: TerminalSymbol| (1u8, t.symbolType@, t.name@)).to_set()),
        decreases terms@.len() - k,
    {
        let ghost m0 = dviews(res@);
        let ghost t0 = terms@.subrange(0, k as int).map_values(|t: TerminalSymbol| (1u8, t.symbolType@, t.name@));
        res.push(GrammarSymbol::Terminal(copy_ts(&terms[k])));
        proof {
            let x = (1u8, terms@[k as int].symbolType@, terms@[k as int].name@);
            assert(dviews(res@) =~= m0.push(x));
            assert(terms@.subrange(0, k + 1).map_values(|t: TerminalSymbol| (1u8, t.symbolType@, t.name@)) =~= t0.push(x));
            m0.lemma_push_to_set_commute(x);
            t0.lemma_push_to_set_commute(x);
            assert(dviews(res@).to_set() =~= mid.union(t0.push(x).to_set()));
        }
        k = k + 1;
    }
    proof {
        assert(terms@.subrange(0, k as int) =~= terms@);
        let tm = terms@.map_values(|t: TerminalSymbol| (1u8, t.symbolType@, t.name@));
        assert forall|x: (u8, Seq<char>, Seq<char>)| #[trigger] dviews(res@).to_set().contains(x)
            <==> syms_of(items@).contains(x) by {
            if tm.to_set().contains(x) {
                let i = choose|i: int| 0 <= i < tm.len() && tm[i] == x;
                assert(terms@.map_values(|t: TerminalSymbol| tkey(t))[i] == (x.1, x.2));
            }
            if x.0 == 1u8 && tset(terms@).contains((x.1, x.2)) {
                let km = terms@.map_values(|t: TerminalSymbol| tkey(t));
                let i = choose|i: int| 0 <= i < km.len() && km[i] == (x.1, x.2);
                assert(tm[i] == x);
            }
        }
        assert(dviews(res@).to_set() =~= syms_of(items@));
    }
    res
}

/// Items with the same views have the same items to move on `x`, up to views.
proof fn lemma_gsrc_views(a: Seq<LR0Item>, b: Seq<LR0Item>, x: (u8, Seq<char>, Seq<char>))
    requires
        iviews(a) == iviews(b),
    ensures
        iviews(gsrc(a, x)) == iviews(gsrc(b, x)),
    decreases a.len(),
{
    assert(a.len() == iviews(a).len() && b.len() == iviews(b).len());
    if a.len() > 0 {
        assert(iviews(a.drop_last()) =~= iviews(a).drop_last());
        assert(iviews(b.drop_last()) =~= iviews(b).drop_last());
        lemma_gsrc_views(a.drop_last(), b.drop_last(), x);
        assert(iview(a.last()) == iviews(a)[a.len() - 1]);
        assert(iview(b.last()) == iviews(b)[b.len() - 1]);
        let ga = gsrc(a.drop_last(), x);
        let gb = gsrc(b.drop_last(), x);
        if sym_at(a.last()) == Some(x) {
            assert(iviews(ga.push(a.last())) =~= iviews(ga).push(iview(a.last())));
            assert(iviews(gb.push(b.last())) =~= iviews(gb).push(iview(b.last())));
        }
    }
}

/// Moving on `x` from item lists with the same views gives the same kernels.
pub proof fn lemma_views_goto(a: Seq<LR0Item>, b: Seq<LR0Item>, x: (u8, Seq<char>, Seq<char>), c: Seq<LR0Item>)
    requires
        iviews(a) == iviews(b),
        is_goto(a, x, c),
    ensures
        is_goto(b, x, c),
{
    lemma_gsrc_views(a, b, x);
    let ga = gsrc(a, x);
    let gb = gsrc(b, x);
    assert(ga.len() == iviews(ga).len() && gb.len() == iviews(gb).len());
    assert forall|i: int| 0 <= i < c.len() implies advanced(#[trigger] gb[i], c[i]) by {
        assert(advanced(ga[i], c[i]));
        assert(iview(ga[i]) == iviews(ga)[i]);
        assert(iview(gb[i]) == iviews(gb)[i]);
    }
}

/// Item lists with the same views have the same core keys.
pub proof fn lemma_views_core(a: Seq<LR0Item>, b: Seq<LR0Item>)
    requires
        iviews(a) == iviews(b),
    ensures
        core_keys(a) == core_keys(b),
    decreases a.len(),
{
    assert(a.len() == iviews(a).len() && b.len() == iviews(b).len());
    if a.len() > 0 {
        assert(iviews(a.drop_last()) =~= iviews(a).drop_last());
        assert(iviews(b.drop_last()) =~= iviews(b).drop_last());
        lemma_views_core(a.drop_last(), b.drop_last());
        assert(iview(a.last()) == iviews(a)[a.len() - 1]);
        assert(iview(b.last()) == iviews(b)[b.len() - 1]);
    }
}

/// Appending items that are not core items keeps the core keys.
proof fn lemma_core_keys_noncore(c: Seq<LR0Item>, rest: Seq<LR0Item>)
    requires
        forall|i: int| 0 <= i < rest.len() ==> (#[trigger] rest[i]).itemType == ItemType::NonCore,
    ensures
        core_keys(c + rest) == core_keys(c),
    decreases rest.len(),
{
    if rest.len() > 0 {
        assert((c + rest).drop_last() =~= c + rest.drop_last());
        lemma_core_keys_noncore(c, rest.drop_last());
        assert((c + rest).last() == rest.last());
    } else {
        assert(c + rest =~= c);
    }
}

/// A closure has the core keys of its kernel.
pub proof fn lemma_closure_core(a: Seq<NonTerminalSymbol>, c: Seq<LR0Item>, items: Seq<LR0Item>)
    requires
        is_closure_of(a, c, items),
    ensures
        core_keys(items) == core_keys(c),
{
    let m = choose|m: Set<Seq<char>>| {
        &&& init_names(c).subset_of(m)
        &&& cl_closed(a, m)
        &&& cl_least(a, init_names(c), m)
        &&& closure_items(a, m, items.subrange(c.len() as int, items.len() as int))
    };
    let rest = items.subrange(c.len() as int, items.len() as int);
    let tags = choose|tags: Seq<(Seq<char>, int)>| {
        &&& tags.len() == rest.len()
        &&& tags.no_duplicates()
        &&& forall|j: int| 0 <= j < tags.len() ==> closure_item(a, #[trigger] rest[j], tags[j].0, tags[j].1)
        &&& forall|n: Seq<char>, q: int| #[trigger] tags.contains((n, q))
            <==> (m.contains(n) && nts_names(a).contains(n) && 0 <= q < nprods(a, n))
    };
    assert forall|i: int| 0 <= i < rest.len() implies (#[trigger] rest[i]).itemType == ItemType::NonCore by {
        assert(closure_item(a, rest[i], tags[i].0, tags[i].1));
    }
    lemma_core_keys_noncore(c, rest);
    assert(c + rest =~= items);
}

/// Item lists with the same views have the same symbols after their dots.
proof fn lemma_views_syms(a: Seq<LR0Item>, b: Seq<LR0Item>)
    requires
        iviews(a) == iviews(b),
    ensures
        syms_of(a) == syms_of(b),
    decreases a.len(),
{
    assert(a.len() == iviews(a).len() && b.len() == iviews(b).len());
    if a.len() > 0 {
        assert(iviews(a.drop_last()) =~= iviews(a).drop_last());
        assert(iviews(b.drop_last()) =~= iviews(b).drop_last());
        lemma_views_syms(a.drop_last(), b.drop_last());
        assert(iview(a.last()) == iviews(a)[a.len() - 1]);
        assert(iview(b.last()) == iviews(b)[b.len() - 1]);
    }
}

/// State `f` of a run from `s0` over the table `sets`: `s0` for -1, else
/// the table's entry.
pub open spec fn st(sets: Seq<ItemSet>, s0: ItemSet, f: int) -> ItemSet {
    if f < 0 {
        s0
    } else {
        sets[f]
    }
}

/// `f` names the start or one of the states from `n0` on.
pub open spec fn run_state(sets: Seq<ItemSet>, n0: int, f: int) -> bool {
    f == -1 || n0 <= f < sets.len()
}

/// `e` leaves a copy of state `s`.
pub open spec fn edge_from(e: TransitionEdge, s: ItemSet) -> bool {
    &&& e.fromItemSet.stateId == s.stateId
    &&& iviews(e.fromItemSet.pItemTable@) == iviews(s.pItemTable@)
}

/// `e` is a move over `sets`: its target is the same state as the kernel of
/// the move from its source on its symbol, and carries the number of a state
/// of `sets` that is the same state.
pub open spec fn edge_ok(sets: Seq<ItemSet>, e: TransitionEdge) -> bool {
    &&& !(e.driverSymbol is Null)
    &&& exists|c: Seq<LR0Item>| is_goto(e.fromItemSet.pItemTable@, sview(e.driverSymbol), c) && #[trigger] same_state(e.toItemSet.pItemTable@, c)
    &&& exists|j: int| 0 <= j < sets.len() && sets[j].stateId == e.toItemSet.stateId
        && #[trigger] same_state(sets[j].pItemTable@, e.toItemSet.pItemTable@)
}

/// State `k` of `sets` was added by the run: it is numbered `k`, is (up to
/// copying) the closure of the kernel of a move from an earlier state of the
/// run, and is not the same state as any state before it.
pub open spec fn new_state_ok(a: Seq<NonTerminalSymbol>, sets: Seq<ItemSet>, s0: ItemSet, n0: int, k: int) -> bool {
    &&& sets[k].stateId == k as i64
    &&& exists|f: int, x: (u8, Seq<char>, Seq<char>), c: Seq<LR0Item>, y: Seq<LR0Item>| (f == -1 || n0 <= f < k)
        && #[trigger] is_goto(st(sets, s0, f).pItemTable@, x, c) && #[trigger] is_closure_of(a, c, y)
        && iviews(y) == iviews(sets[k].pItemTable@)
    &&& forall|j: int| 0 <= j < k ==> !same_state(#[trigger] sets[j].pItemTable@, sets[k].pItemTable@)
}

/// Every symbol after a dot in state `f` has an edge out of `f` among the
/// edges from position `e0` on.
pub open spec fn moves_done(sets: Seq<ItemSet>, s0: ItemSet, edges: Seq<TransitionEdge>, e0: int, f: int) -> bool {
    forall|x: (u8, Seq<char>, Seq<char>)| #[trigger] syms_of(st(sets, s0, f).pItemTable@).contains(x)
        ==> exists|ei: int| e0 <= ei < edges.len() && edge_from(#[trigger] edges[ei], st(sets, s0, f)) && sview(edges[ei].driverSymbol) == x
}

/// The states from `n0` on were added by the run.
pub open spec fn states_ok(a: Seq<NonTerminalSymbol>, sets: Seq<ItemSet>, s0: ItemSet, n0: int) -> bool {
    forall|k: int| n0 <= k < sets.len() ==> #[trigger] new_state_ok(a, sets, s0, n0, k)
}

/// The edges from `e0` on are moves out of states of the run.
pub open spec fn edges_ok(sets: Seq<ItemSet>, s0: ItemSet, n0: int, edges: Seq<TransitionEdge>, e0: int) -> bool {
    forall|ei: int| e0 <= ei < edges.len() ==> edge_ok(sets, #[trigger] edges[ei])
        && exists|f: int| run_state(sets, n0, f) && edge_from(edges[ei], #[trigger] st(sets, s0, f))
}

/// Adding a state keeps what holds of the states and edges so far.
proof fn lemma_push_state(
    a: Seq<NonTerminalSymbol>,
    sets: Seq<ItemSet>,
    s0: ItemSet,
    n0: int,
    s: ItemSet,
    edges: Seq<TransitionEdge>,
    e0: int,
    done: Set<int>,
)
    requires
        0 <= n0 <= sets.len(),
        states_ok(a, sets, s0, n0),
        edges_ok(sets, s0, n0, edges, e0),
        forall|f: int| #[trigger] done.contains(f) ==> run_state(sets, n0, f) && moves_done(sets, s0, edges, e0, f),
        new_state_ok(a, sets.push(s), s0, n0, sets.len() as int),
    ensures
        states_ok(a, sets.push(s), s0, n0),
        edges_ok(sets.push(s), s0, n0, edges, e0),
        forall|f: int| #[trigger] done.contains(f) ==> run_state(sets.push(s), n0, f) && moves_done(sets.push(s), s0, edges, e0, f),
{
    let t = sets.push(s);
    assert forall|f: int| run_state(sets, n0, f) implies #[trigger] st(t, s0, f) == st(sets, s0, f) by {
        if f >= 0 {
            assert(t[f] == sets[f]);
        }
    }
    assert forall|k: int| n0 <= k < t.len() implies #[trigger] new_state_ok(a, t, s0, n0, k) by {
        if k < sets.len() {
            assert(new_state_ok(a, sets, s0, n0, k));
            assert(t[k] == sets[k]);
            let (f, x, c, y) = choose|f: int, x: (u8, Seq<char>, Seq<char>), c: Seq<LR0Item>, y: Seq<LR0Item>| (f == -1 || n0 <= f < k)
                && #[trigger] is_goto(st(sets, s0, f).pItemTable@, x, c) && #[trigger] is_closure_of(a, c, y)
                && iviews(y) == iviews(sets[k].pItemTable@);
            assert(st(t, s0, f) == st(sets, s0, f));
            assert forall|j: int| 0 <= j < k implies !same_state(#[trigger] t[j].pItemTable@, t[k].pItemTable@) by {
                assert(t[j] == sets[j]);
                assert(!same_state(sets[j].pItemTable@, sets[k].pItemTable@));
            }
        }
    }
    assert forall|ei: int| e0 <= ei < edges.len() implies edge_ok(t, #[trigger] edges[ei])
        && exists|f: int| run_state(t, n0, f) && edge_from(edges[ei], #[trigger] st(t, s0, f)) by {
        assert(edge_ok(sets, edges[ei]));
        let j = choose|j: int| 0 <= j < sets.len() && sets[j].stateId == edges[ei].toItemSet.stateId
            && #[trigger] same_state(sets[j].pItemTable@, edges[ei].toItemSet.pItemTable@);
        assert(t[j] == sets[j]);
        let f = choose|f: int| run_state(sets, n0, f) && edge_from(edges[ei], #[trigger] st(sets, s0, f));
        assert(st(t, s0, f) == st(sets, s0, f));
    }
    assert forall|f: int| #[trigger] done.contains(f) implies run_state(t, n0, f) && moves_done(t, s0, edges, e0, f) by {
        assert(st(t, s0, f) == st(sets, s0, f));
        assert(moves_done(sets, s0, edges, e0, f));
    }
}

/// Adding an edge that is a move out of a state of the run keeps what holds
/// of the edges and the states done.
proof fn lemma_push_edge(
    sets: Seq<ItemSet>,
    s0: ItemSet,
    n0: int,
    edges: Seq<TransitionEdge>,
    e0: int,
    done: Set<int>,
    e: TransitionEdge,
    f: int,
)
    requires
        0 <= e0 <= edges.len(),
        edges_ok(sets, s0, n0, edges, e0),
        forall|g: int| #[trigger] done.contains(g) ==> run_state(sets, n0, g) && moves_done(sets, s0, edges, e0, g),
        edge_ok(sets, e),
        run_state(sets, n0, f),
        edge_from(e, st(sets, s0, f)),
    ensures
        edges_ok(sets, s0, n0, edges.push(e), e0),
        forall|g: int| #[trigger] done.contains(g) ==> run_state(sets, n0, g) && moves_done(sets, s0, edges.push(e), e0, g),
{
    let t = edges.push(e);
    assert forall|ei: int| e0 <= ei < t.len() implies edge_ok(sets, #[trigger] t[ei])
        && exists|g: int| run_state(sets, n0, g) && edge_from(t[ei], #[trigger] st(sets, s0, g)) by {
        if ei < edges.len() {
            assert(t[ei] == edges[ei]);
            assert(edge_ok(sets, edges[ei]));
        } else {
            assert(t[ei] == e);
            assert(edge_from(t[ei], st(sets, s0, f)));
        }
    }
    assert forall|g: int| #[trigger] done.contains(g) implies run_state(sets, n0, g) && moves_done(sets, s0, t, e0, g) by {
        assert(moves_done(sets, s0, edges, e0, g));
        assert forall|x: (u8, Seq<char>, Seq<char>)| #[trigger] syms_of(st(sets, s0, g).pItemTable@).contains(x)
            implies exists|ei: int| e0 <= ei < t.len() && edge_from(#[trigger] t[ei], st(sets, s0, g)) && sview(t[ei].driverSymbol) == x by {
            let ei = choose|ei: int| e0 <= ei < edges.len() && edge_from(#[trigger] edges[ei], st(sets, s0, g)) && sview(edges[ei].driverSymbol) == x;
            assert(t[ei] == edges[ei]);
        }
    }
}

/// What a run of the automaton construction keeps: the tables other than
/// the states and edges are as they were.
pub open spec fn run_frame(t0: Lab2Tables, t: Lab2Tables) -> bool {
    &&& t.all_nts@ == t0.all_nts@
    &&& t.get_nts@ == t0.get_nts@
    &&& t.get_ts@ == t0.get_ts@
    &&& t.parse_table_of_ll@ == t0.parse_table_of_ll@
    &&& t.action_cells@ == t0.action_cells@
    &&& t.goto_cells@ == t0.goto_cells@
    &&& t.production_infos@ == t0.production_infos@
    &&& t.all_productions@ == t0.all_productions@
    &&& t.relative_id@ == t0.relative_id@
}

/// Builds the automaton from the state `itemSet0`: takes states off a stack,
/// and for each non-terminal, then each terminal, after a dot in a state,
/// forms the kernel of the move on it; a kernel that is the same state as one
/// in the table goes to that state, any other is closed and added to the
/// table, numbered by its position, and to the stack; each move is recorded
/// as an edge. States and edges already in the tables stay in front.
pub fn exhaustTransition(tables: &mut Lab2Tables, itemSet0: ItemSet)
    ensures
        run_frame(*old(tables), *final(tables)),
        final(tables).item_sets@.len() >= old(tables).item_sets@.len(),
        final(tables).item_sets@.subrange(0, old(tables).item_sets@.len() as int) == old(tables).item_sets@,
        final(tables).transition_edges@.len() >= old(tables).transition_edges@.len(),
        final(tables).transition_edges@.subrange(0, old(tables).transition_edges@.len() as int) == old(tables).transition_edges@,
        states_ok(old(tables).all_nts@, final(tables).item_sets@, itemSet0, old(tables).item_sets@.len() as int),
        edges_ok(final(tables).item_sets@, itemSet0, old(tables).item_sets@.len() as int, final(tables).transition_edges@,
            old(tables).transition_edges@.len() as int),
        forall|f: int| #[trigger] run_state(final(tables).item_sets@, old(tables).item_sets@.len() as int, f)
            ==> moves_done(final(tables).item_sets@, itemSet0, final(tables).transition_edges@, old(tables).transition_edges@.len() as int, f),
{
    let ghost t0 = *tables;
    let ghost a = tables.all_nts@;
    let ghost s0 = itemSet0;
    let ghost n0 = tables.item_sets@.len() as int;
    let ghost e0 = tables.transition_edges@.len() as int;
    let ghost mut done: Set<int> = Set::empty();
    let ghost mut qidx: Seq<int> = seq![-1int];
    let mut queue: Vec<ItemSet> = Vec::new();
    queue.push(itemSet0);
    let _n = tables.item_sets.len();
    proof {
        assert(tables.item_sets@.subrange(0, n0) =~= t0.item_sets@);
        assert(tables.transition_edges@.subrange(0, e0) =~= t0.transition_edges@);
        assert forall|g: int| #[trigger] run_state(tables.item_sets@, n0, g) implies done.contains(g) || qidx.contains(g) by {
            assert(qidx[0] == -1);
        }
    }
    while queue.len() > 0
        invariant
            run_frame(t0, *tables),
            a == t0.all_nts@,
            n0 == t0.item_sets@.len(),
            e0 == t0.transition_edges@.len(),
            tables.item_sets@.len() >= n0,
            tables.item_sets@.len() <= usize::MAX,
            tables.item_sets@.subrange(0, n0) == t0.item_sets@,
            tables.transition_edges@.len() >= e0,
            tables.transition_edges@.subrange(0, e0) == t0.transition_edges@,
            states_ok(a, tables.item_sets@, s0, n0),
            edges_ok(tables.item_sets@, s0, n0, tables.transition_edges@, e0),
            forall|f: int| #[trigger] done.contains(f) ==> run_state(tables.item_sets@, n0, f)
                && moves_done(tables.item_sets@, s0, tables.transition_edges@, e0, f),
            queue@.len() == qidx.len(),
            forall|i: int| 0 <= i < qidx.len() ==> run_state(tables.item_sets@, n0, #[trigger] qidx[i])
                && queue@[i].stateId == st(tables.item_sets@, s0, qidx[i]).stateId
                && iviews(queue@[i].pItemTable@) == iviews(st(tables.item_sets@, s0, qidx[i]).pItemTable@),
            forall|f: int| #[trigger] run_state(tables.item_sets@, n0, f) ==> done.contains(f) || qidx.contains(f),
        decreases usize::MAX - tables.item_sets@.len(), queue@.len(),
    {
        let ghost len_start = tables.item_sets@.len();
        let ghost q_start = queue@.len();
        let ghost f = qidx.last();
        let state = queue.pop().unwrap();
        proof {
            let q0 = qidx;
            assert(qidx[qidx.len() - 1] == f);
            qidx = qidx.drop_last();
            assert forall|g: int| #[trigger] run_state(tables.item_sets@, n0, g) implies done.contains(g) || qidx.contains(g) || g == f by {
                if !done.contains(g) && q0.contains(g) {
                    let i = choose|i: int| 0 <= i < q0.len() && q0[i] == g;
                    if i < q0.len() - 1 {
                        assert(qidx[i] == g);
                    }
                }
            }
            assert(run_state(tables.item_sets@, n0, f)) by {
                assert(run_state(tables.item_sets@, n0, q0[q0.len() - 1]));
            }
            assert forall|i: int| 0 <= i < qidx.len() implies run_state(tables.item_sets@, n0, #[trigger] qidx[i])
                && queue@[i].stateId == st(tables.item_sets@, s0, qidx[i]).stateId
                && iviews(queue@[i].pItemTable@) == iviews(st(tables.item_sets@, s0, qidx[i]).pItemTable@) by {
                assert(qidx[i] == q0[i]);
            }
            assert(state.stateId == st(tables.item_sets@, s0, f).stateId);
        }
        let ghost sf = st(tables.item_sets@, s0, f);
        proof {
            lemma_views_syms(state.pItemTable@, sf.pItemTable@);
        }
        let drives = collect_drives(&state.pItemTable);
        let mut d: usize = 0;
        while d < drives.len()
            invariant
                run_frame(t0, *tables),
                a == t0.all_nts@,
                n0 == t0.item_sets@.len(),
                e0 == t0.transition_edges@.len(),
                tables.item_sets@.len() >= len_start,
                len_start >= n0,
                tables.item_sets@.len() <= usize::MAX,
                tables.item_sets@.subrange(0, n0) == t0.item_sets@,
                tables.transition_edges@.len() >= e0,
                tables.transition_edges@.subrange(0, e0) == t0.transition_edges@,
                states_ok(a, tables.item_sets@, s0, n0),
                edges_ok(tables.item_sets@, s0, n0, tables.transition_edges@, e0),
                forall|g: int| #[trigger] done.contains(g) ==> run_state(tables.item_sets@, n0, g)
                    && moves_done(tables.item_sets@, s0, tables.transition_edges@, e0, g),
                queue@.len() == qidx.len(),
                queue@.len() + 1 == q_start + (tables.item_sets@.len() - len_start),
                forall|i: int| 0 <= i < qidx.len() ==> run_state(tables.item_sets@, n0, #[trigger] qidx[i])
                    && queue@[i].stateId == st(tables.item_sets@, s0, qidx[i]).stateId
                    && iviews(queue@[i].pItemTable@) == iviews(st(tables.item_sets@, s0, qidx[i]).pItemTable@),
                forall|g: int| #[trigger] run_state(tables.item_sets@, n0, g) ==> done.contains(g) || qidx.contains(g) || g == f,
                run_state(tables.item_sets@, n0, f),
                st(tables.item_sets@, s0, f) == sf,
                state.stateId == sf.stateId,
                iviews(state.pItemTable@) == iviews(sf.pItemTable@),
                dviews(drives@).to_set() == syms_of(state.pItemTable@),
                syms_of(state.pItemTable@) == syms_of(sf.pItemTable@),
                forall|k: int| 0 <= k < drives@.len() ==> !(#[trigger] drives@[k] is Null),
                d <= drives@.len(),
                forall|k: int| 0 <= k < d ==> exists|ei: int| e0 <= ei < tables.transition_edges@.len()
                    && edge_from(#[trigger] tables.transition_edges@[ei], sf) && sview(tables.transition_edges@[ei].driverSymbol) == sview(#[trigger] drives@[k]),
            decreases drives@.len() - d,
        {
            let ghost sets_b = tables.item_sets@;
            let ghost edges_b = tables.transition_edges@;
            let ghost x = sview(drives@[d as int]);
            let core = goto_core(&state.pItemTable, &drives[d]);
            proof {
                lemma_views_goto(state.pItemTable@, sf.pItemTable@, x, core@);
            }
            let ghost c = core@;
            let mut inew = ItemSet { stateId: #[verifier::truncate] (tables.item_sets.len() as i64), pItemTable: core };
            let found = contains(tables, &mut inew);
            if !found {
                let ghost n_b = tables.item_sets@.len();
                getClosure(&tables.all_nts, &mut inew);
                let snew = copy_item_set(&inew);
                proof {
                    lemma_closure_core(a, c, inew.pItemTable@);
                    lemma_views_core(snew.pItemTable@, inew.pItemTable@);
                    let t = sets_b.push(snew);
                    assert(t[n_b as int] == snew);
                    assert(st(t, s0, f) == sf) by {
                        if f >= 0 {
                            assert(t[f] == sets_b[f]);
                        }
                    }
                    assert(is_goto(st(t, s0, f).pItemTable@, x, c));
                    assert forall|j: int| 0 <= j < n_b implies !same_state(#[trigger] t[j].pItemTable@, t[n_b as int].pItemTable@) by {
                        assert(t[j] == sets_b[j]);
                        assert(!same_state(sets_b[j].pItemTable@, c));
                    }
                    assert(new_state_ok(a, t, s0, n0, n_b as int));
                    lemma_push_state(a, sets_b, s0, n0, snew, edges_b, e0, done);
                }
                tables.item_sets.push(snew);
                let qs = copy_item_set(&inew);
                queue.push(qs);
                proof {
                    let t = tables.item_sets@;
                    assert(tables.item_sets.len() == t.len());
                    assert(t.subrange(0, n0) =~= t0.item_sets@) by {
                        assert(t.subrange(0, n0) =~= sets_b.subrange(0, n0));
                    }
                    let qb = qidx;
                    qidx = qidx.push(n_b as int);
                    assert forall|i: int| 0 <= i < qidx.len() implies run_state(t, n0, #[trigger] qidx[i])
                        && queue@[i].stateId == st(t, s0, qidx[i]).stateId
                        && iviews(queue@[i].pItemTable@) == iviews(st(t, s0, qidx[i]).pItemTable@) by {
                        if i < qidx.len() - 1 {
                            let g = qidx[i];
                            if g >= 0 {
                                assert(t[g] == sets_b[g]);
                            }
                        }
                    }
                    assert forall|g: int| #[trigger] run_state(t, n0, g) implies done.contains(g) || qidx.contains(g) || g == f by {
                        if g == n_b {
                            assert(qidx[qidx.len() - 1] == g);
                        } else {
                            assert(run_state(sets_b, n0, g));
                            if qb.contains(g) {
                                let i = choose|i: int| 0 <= i < qb.len() && qb[i] == g;
                                assert(qidx[i] == g);
                            }
                        }
                    }
                }
            }
            let ghost sets_c = tables.item_sets@;
            let ghost edges_c = tables.transition_edges@;
            let from = copy_item_set(&state);
            let e = TransitionEdge::new(crate::lab2::tables::symbols::copy_gs(&drives[d]), from, inew);
            proof {
                lemma_views_goto(state.pItemTable@, e.fromItemSet.pItemTable@, x, c);
                if found {
                    assert(same_state(e.toItemSet.pItemTable@, c));
                } else {
                    let j = sets_c.len() - 1;
                    assert(sets_c[j].stateId == e.toItemSet.stateId);
                    lemma_views_core(sets_c[j].pItemTable@, e.toItemSet.pItemTable@);
                    assert(same_state(sets_c[j].pItemTable@, e.toItemSet.pItemTable@));
                    lemma_closure_core(a, c, e.toItemSet.pItemTable@);
                    assert(same_state(e.toItemSet.pItemTable@, c));
                }
                assert(edge_ok(sets_c, e));
                assert(edge_from(e, st(sets_c, s0, f)));
                lemma_push_edge(sets_c, s0, n0, edges_c, e0, done, e, f);
            }
            tables.transition_edges.push(e);
            proof {
                let t = tables.transition_edges@;
                assert(t.subrange(0, e0) =~= edges_c.subrange(0, e0));
                assert(t[t.len() - 1] == e);
                assert forall|k: int| 0 <= k < d + 1 implies exists|ei: int| e0 <= ei < t.len()
                    && edge_from(#[trigger] t[ei], sf) && sview(t[ei].driverSymbol) == sview(#[trigger] drives@[k]) by {
                    if k < d {
                        let ei = choose|ei: int| e0 <= ei < edges_c.len()
                            && edge_from(#[trigger] edges_c[ei], sf) && sview(edges_c[ei].driverSymbol) == sview(drives@[k]);
                        assert(t[ei] == edges_c[ei]);
                    } else {
                        assert(edge_from(t[t.len() - 1], sf));
                    }
                }
            }
            d = d + 1;
        }
        proof {
            assert forall|x: (u8, Seq<char>, Seq<char>)| #[trigger] syms_of(st(tables.item_sets@, s0, f).pItemTable@).contains(x)
                implies exists|ei: int| e0 <= ei < tables.transition_edges@.len() && edge_from(#[trigger] tables.transition_edges@[ei], st(tables.item_sets@, s0, f))
                    && sview(tables.transition_edges@[ei].driverSymbol) == x by {
                assert(dviews(drives@).to_set().contains(x));
                let k = choose|k: int| 0 <= k < dviews(drives@).len() && dviews(drives@)[k] == x;
                assert(sview(drives@[k]) == x);
            }
            done = done.insert(f);
        }
    }
}

/// Two of the sets share a terminal.
pub open spec fn has_union(v: Seq<Set<(Seq<char>, Seq<char>)>>) -> bool {
    exists|i: int, j: int, x: (Seq<char>, Seq<char>)| 0 <= i < j < v.len() && #[trigger] v[i].contains(x) && #[trigger] v[j].contains(x)
}

/// Whether two of the terminal sets share a terminal.
pub fn judgeSetHasUnion(ts_set: &Vec<Vec<TerminalSymbol>>) -> (res: bool)
    ensures
        res == has_union(crate::lab2::tables::task1::fsets(ts_set@)),
{
    let ghost v = crate::lab2::tables::task1::fsets(ts_set@);
    let mut i: usize = 0;
    while i < ts_set.len()
        invariant
            i <= ts_set@.len(),
            v == crate::lab2::tables::task1::fsets(ts_set@),
            forall|i2: int, j2: int, x: (Seq<char>, Seq<char>)| 0 <= i2 < i && i2 < j2 < v.len() ==> !(#[trigger] v[i2].contains(x) && #[trigger] v[j2].contains(x)),
        decreases ts_set@.len() - i,
    {
        let mut j: usize = i + 1;
        while j < ts_set.len()
            invariant
                i < ts_set@.len(),
                i + 1 <= j <= ts_set@.len(),
                v == crate::lab2::tables::task1::fsets(ts_set@),
                forall|i2: int, j2: int, x: (Seq<char>, Seq<char>)| 0 <= i2 < i && i2 < j2 < v.len() ==> !(#[trigger] v[i2].contains(x) && #[trigger] v[j2].contains(x)),
                forall|j2: int, x: (Seq<char>, Seq<char>)| i < j2 < j ==> !(#[trigger] v[i as int].contains(x) && #[trigger] v[j2].contains(x)),
            decreases ts_set@.len() - j,
        {
            let mut k: usize = 0;
            while k < ts_set[i].len()
                invariant
                    i < j < ts_set@.len(),
                    k <= ts_set@[i as int]@.len(),
                    v == crate::lab2::tables::task1::fsets(ts_set@),
                    forall|k2: int| 0 <= k2 < k ==> !v[j as int].contains(tkey(#[trigger] ts_set@[i as int]@[k2])),
                decreases ts_set@[i as int]@.len() - k,
            {
                if ts_contains(&ts_set[j], &ts_set[i][k]) {
                    proof {
                        let x = tkey(ts_set@[i as int]@[k as int]);
                        assert(ts_set@[i as int]@.map_values(|t: TerminalSymbol| tkey(t))[k as int] == x);
                        assert(v[i as int].contains(x) && v[j as int].contains(x));
                    }
                    return true;
                }
                k = k + 1;
            }
            proof {
                assert forall|x: (Seq<char>, Seq<char>)| !(v[i as int].contains(x) && v[j as int].contains(x)) by {
                    if v[i as int].contains(x) {
                        let m = ts_set@[i as int]@.map_values(|t: TerminalSymbol| tkey(t));
                        let k2 = choose|k2: int| 0 <= k2 < m.len() && m[k2] == x;
                        assert(tkey(ts_set@[i as int]@[k2]) == x);
                    }
                }
            }
            j = j + 1;
        }
        i = i + 1;
    }
    false
}

/// The terminal right after the dot of an item, where one stands there.
pub open spec fn term_after(it: LR0Item) -> Option<(Seq<char>, Seq<char>)> {
    let body = it.production.pBodySymbolTable@;
    if 0 <= it.dotPosition < body.len() {
        match body[it.dotPosition as int] {
            GrammarSymbol::Terminal(ts) => Some(tkey(ts)),
            _ => None,
        }
    } else {
        None
    }
}

/// The terminals right after the dots of the items.
pub open spec fn drive_keys(items: Seq<LR0Item>) -> Set<(Seq<char>, Seq<char>)>
    decreases items.len(),
{
    if items.len() == 0 {
        Set::empty()
    } else {
        match term_after(items.last()) {
            Some(x) => drive_keys(items.drop_last()).insert(x),
            None => drive_keys(items.drop_last()),
        }
    }
}

/// The FOLLOW sets of the heads of the items whose dot does not stand before
/// a symbol, in order, for heads that are registered.
pub open spec fn reduce_follows(a: Seq<NonTerminalSymbol>, items: Seq<LR0Item>) -> Seq<Set<(Seq<char>, Seq<char>)>>
    decreases items.len(),
{
    if items.len() == 0 {
        Seq::empty()
    } else {
        let it = items.last();
        let r = reduce_follows(a, items.drop_last());
        if !(0 <= it.dotPosition < it.production.pBodySymbolTable@.len()) && nts_names(a).contains(it.nonTerminalSymbol@) {
            r.push(nfollow(a)[first_idx(nts_names(a), it.nonTerminalSymbol@)])
        } else {
            r
        }
    }
}

/// A state has an SLR(1) conflict: among the terminals it shifts and the
/// FOLLOW sets of the items it reduces, two share a terminal.
pub open spec fn slr_conflict(a: Seq<NonTerminalSymbol>, items: Seq<LR0Item>) -> bool {
    has_union(seq![drive_keys(items)] + reduce_follows(a, items))
}

/// Whether no state of the automaton has an SLR(1) conflict.
pub fn judge_SLR1(tables: &Lab2Tables) -> (res: bool)
    ensures
        res == forall|k: int| 0 <= k < tables.item_sets@.len() ==> !slr_conflict(tables.all_nts@, #[trigger] tables.item_sets@[k].pItemTable@),
{
    let ghost a = tables.all_nts@;
    let mut k: usize = 0;
    while k < tables.item_sets.len()
        invariant
            k <= tables.item_sets@.len(),
            a == tables.all_nts@,
            forall|k2: int| 0 <= k2 < k ==> !slr_conflict(a, #[trigger] tables.item_sets@[k2].pItemTable@),
        decreases tables.item_sets@.len() - k,
    {
        let items = &tables.item_sets[k].pItemTable;
        let mut drive: Vec<TerminalSymbol> = Vec::new();
        let mut all_set: Vec<Vec<TerminalSymbol>> = Vec::new();
        let mut j: usize = 0;
        proof {
            assert(tset(drive@) =~= Set::<(Seq<char>, Seq<char>)>::empty());
            assert(drive_keys(items@.subrange(0, 0)) =~= Set::empty());
            assert(crate::lab2::tables::task1::fsets(all_set@) =~= reduce_follows(a, items@.subrange(0, 0)));
        }
        while j < items.len()
            invariant
                j <= items@.len(),
                a == tables.all_nts@,
                *items == tables.item_sets@[k as int].pItemTable,
                crate::lab2::tables::symbols::tunique(drive@),
                tset(drive@) == drive_keys(items@.subrange(0, j as int)),
                crate::lab2::tables::task1::fsets(all_set@) == reduce_follows(a, items@.subrange(0, j as int)),
            decreases items@.len() - j,
        {
            let ghost sub = items@.subrange(0, j + 1);
            proof {
                assert(sub.drop_last() =~= items@.subrange(0, j as int));
                assert(sub.last() == items@[j as int]);
            }
            let it = &items[j];
            let len = it.production.pBodySymbolTable.len();
            if it.dotPosition >= 0 && (it.dotPosition as u64) < (len as u64) {
                let d = it.dotPosition as usize;
                assert(d as int == it.dotPosition);
                match &it.production.pBodySymbolTable[d] {
                    GrammarSymbol::Terminal(t) => {
                        ts_insert(&mut drive, t);
                    },
                    _ => {},
                }
                assert(crate::lab2::tables::task1::fsets(all_set@) =~= reduce_follows(a, sub));
            } else {
                match find_nts_index(&tables.all_nts, it.nonTerminalSymbol.as_str()) {
                    Some(idx) => {
                        let ghost before = all_set@;
                        all_set.push(crate::lab2::tables::symbols::copy_tset(&tables.all_nts[idx].pFollowSet));
                        proof {
                            assert(crate::lab2::tables::task1::fsets(all_set@) =~= crate::lab2::tables::task1::fsets(before).push(
                                nfollow(a)[idx as int]));
                        }
                    },
                    None => {},
                }
            }
            j = j + 1;
        }
        assert(items@.subrange(0, j as int) =~= items@);
        let mut sets: Vec<Vec<TerminalSymbol>> = Vec::new();
        sets.push(drive);
        let mut q: usize = 0;
        while q < all_set.len()
            invariant
                q <= all_set@.len(),
                crate::lab2::tables::task1::fsets(sets@) == seq![drive_keys(items@)] + crate::lab2::tables::task1::fsets(all_set@).subrange(0, q as int),
            decreases all_set@.len() - q,
        {
            let ghost before = sets@;
            sets.push(crate::lab2::tables::symbols::copy_tset(&all_set[q]));
            proof {
                assert(crate::lab2::tables::task1::fsets(sets@) =~= crate::lab2::tables::task1::fsets(before).push(tset(all_set@[q as int]@)));
                assert(crate::lab2::tables::task1::fsets(all_set@).subrange(0, q + 1) =~= crate::lab2::tables::task1::fsets(all_set@).subrange(0, q as int).push(tset(all_set@[q as int]@)));
            }
            q = q + 1;
        }
        proof {
            assert(crate::lab2::tables::task1::fsets(all_set@).subrange(0, q as int) =~= crate::lab2::tables::task1::fsets(all_set@));
        }
        if judgeSetHasUnion(&sets) {
            return false;
        }
        k = k + 1;
    }
    true
}

/// The accepting state: exactly one item, its dot at the end of a body that
/// ends in `$`.
pub open spec fn is_acc(s: ItemSet) -> bool {
    &&& s.pItemTable@.len() == 1
    &&& s.pItemTable@[0].dotPosition == s.pItemTable@[0].production.pBodySymbolTable@.len()
    &&& s.pItemTable@[0].production.pBodySymbolTable@.len() > 0
    &&& crate::lab2::tables::symbols::gs_name(s.pItemTable@[0].production.pBodySymbolTable@.last()) == "$"@
}

/// The state that accepts: the first accepting state of the table, else the
/// first state, else an empty state numbered 0.
pub fn getAcc(tables: &Lab2Tables) -> (res: ItemSet)
    ensures
        (exists|k: int| 0 <= k < tables.item_sets@.len() && is_acc(#[trigger] tables.item_sets@[k])) ==> exists|k: int|
            0 <= k < tables.item_sets@.len() && is_acc(#[trigger] tables.item_sets@[k])
            && (forall|j: int| 0 <= j < k ==> !is_acc(#[trigger] tables.item_sets@[j]))
            && res.stateId == tables.item_sets@[k].stateId && iviews(res.pItemTable@) == iviews(tables.item_sets@[k].pItemTable@),
        !(exists|k: int| 0 <= k < tables.item_sets@.len() && is_acc(#[trigger] tables.item_sets@[k])) && tables.item_sets@.len() > 0
            ==> res.stateId == tables.item_sets@[0].stateId && iviews(res.pItemTable@) == iviews(tables.item_sets@[0].pItemTable@),
        tables.item_sets@.len() == 0 ==> res.stateId == 0 && res.pItemTable@.len() == 0,
{
    let mut k: usize = 0;
    while k < tables.item_sets.len()
        invariant
            k <= tables.item_sets@.len(),
            forall|j: int| 0 <= j < k ==> !is_acc(#[trigger] tables.item_sets@[j]),
        decreases tables.item_sets@.len() - k,
    {
        let s = &tables.item_sets[k];
        if s.pItemTable.len() == 1 {
            let it = &s.pItemTable[0];
            let len = it.production.pBodySymbolTable.len();
            if it.dotPosition >= 0 && (it.dotPosition as u64) == (len as u64) && len > 0 {
                if crate::text::str_eq(it.production.pBodySymbolTable[len - 1].name(), "$") {
                    proof {
                        assert(it.dotPosition == len);
                    }
                    return copy_item_set(s);
                }
            }
        }
        proof {
            reveal_strlit("$");
        }
        k = k + 1;
    }
    if tables.item_sets.len() > 0 {
        copy_item_set(&tables.item_sets[0])
    } else {
        ItemSet::new(0)
    }
}

/// The first accepting state, if any.
pub open spec fn first_acc(sets: Seq<ItemSet>) -> Option<int>
    decreases sets.len(),
{
    if sets.len() == 0 {
        None
    } else {
        match first_acc(sets.drop_last()) {
            Some(k) => Some(k),
            None => if is_acc(sets.last()) {
                Some(sets.len() - 1)
            } else {
                None
            },
        }
    }
}

/// `first_acc` finds the first accepting state.
pub proof fn lemma_first_acc(sets: Seq<ItemSet>)
    ensures
        first_acc(sets) matches Some(k) ==> 0 <= k < sets.len() && is_acc(sets[k]) && forall|j: int| 0 <= j < k ==> !is_acc(#[trigger] sets[j]),
        first_acc(sets) is None ==> forall|j: int| 0 <= j < sets.len() ==> !is_acc(#[trigger] sets[j]),
    decreases sets.len(),
{
    if sets.len() > 0 {
        let d = sets.drop_last();
        lemma_first_acc(d);
        assert forall|j: int| 0 <= j < d.len() implies #[trigger] sets[j] == d[j] by {}
    }
}

/// The number of the state that accepts: that of the first accepting state,
/// else of the first state, else 0.
pub open spec fn acc_id(sets: Seq<ItemSet>) -> i64 {
    match first_acc(sets) {
        Some(k) => sets[k].stateId,
        None => if sets.len() > 0 {
            sets[0].stateId
        } else {
            0
        },
    }
}

/// Every state gets an empty row.
pub open spec fn rows_init<K, V>(m: Map<i64, Map<K, V>>, sets: Seq<ItemSet>) -> Map<i64, Map<K, V>>
    decreases sets.len(),
{
    if sets.len() == 0 {
        m
    } else {
        rows_init(m, sets.drop_last()).insert(sets.last().stateId, Map::empty())
    }
}

/// The writes applied in order.
pub open spec fn apply_ws<K, V>(m: Map<i64, Map<K, V>>, ws: Seq<(i64, K, V)>) -> Map<i64, Map<K, V>>
    decreases ws.len(),
{
    if ws.len() == 0 {
        m
    } else {
        put2(apply_ws(m, ws.drop_last()), ws.last().0, ws.last().1, ws.last().2)
    }
}

/// The ACTION writes of the edges on terminals: a shift to the target, or
/// accept where the target is the accepting state `acc`.
pub open spec fn shift_ws(edges: Seq<TransitionEdge>, acc: i64) -> Seq<(i64, (Seq<char>, Seq<char>), (i64, Seq<char>, Seq<char>, i64))>
    decreases edges.len(),
{
    if edges.len() == 0 {
        Seq::empty()
    } else {
        let e = edges.last();
        let r = shift_ws(edges.drop_last(), acc);
        match e.driverSymbol {
            GrammarSymbol::Terminal(ts) => r.push((e.fromItemSet.stateId, tkey(ts),
                (e.fromItemSet.stateId, ts.name@, if e.toItemSet.stateId == acc { "acc"@ } else { "s"@ }, e.toItemSet.stateId))),
            _ => r,
        }
    }
}

/// The GOTO writes of the edges on non-terminals.
pub open spec fn goto_ws(edges: Seq<TransitionEdge>) -> Seq<(i64, Seq<char>, (i64, Seq<char>, i64))>
    decreases edges.len(),
{
    if edges.len() == 0 {
        Seq::empty()
    } else {
        let e = edges.last();
        let r = goto_ws(edges.drop_last());
        match e.driverSymbol {
            GrammarSymbol::NonTerminal(n) => r.push((e.fromItemSet.stateId, n@, (e.fromItemSet.stateId, n@, e.toItemSet.stateId))),
            _ => r,
        }
    }
}

/// The ACTION writes of one item of state `sid`: where the dot is at the end
/// and the head is registered, a reduction by the item's production on each
/// terminal of FOLLOW of the head, in the order the set holds them.
pub open spec fn reduce_item_ws(a: Seq<NonTerminalSymbol>, sid: i64, it: LR0Item) -> Seq<(i64, (Seq<char>, Seq<char>), (i64, Seq<char>, Seq<char>, i64))> {
    if it.dotPosition >= 0 && it.dotPosition == it.production.pBodySymbolTable@.len() && nts_names(a).contains(it.nonTerminalSymbol@) {
        a[first_idx(nts_names(a), it.nonTerminalSymbol@)].pFollowSet@.map_values(
            |t: TerminalSymbol| (sid, tkey(t), (sid, t.name@, "r"@, it.production.productionId)))
    } else {
        Seq::empty()
    }
}

/// The reduction writes of the items of state `sid`, in order.
pub open spec fn reduce_items_ws(a: Seq<NonTerminalSymbol>, sid: i64, items: Seq<LR0Item>) -> Seq<(i64, (Seq<char>, Seq<char>), (i64, Seq<char>, Seq<char>, i64))>
    decreases items.len(),
{
    if items.len() == 0 {
        Seq::empty()
    } else {
        reduce_items_ws(a, sid, items.drop_last()) + reduce_item_ws(a, sid, items.last())
    }
}

/// The reduction writes of the states, in order.
pub open spec fn reduce_ws(a: Seq<NonTerminalSymbol>, sets: Seq<ItemSet>) -> Seq<(i64, (Seq<char>, Seq<char>), (i64, Seq<char>, Seq<char>, i64))>
    decreases sets.len(),
{
    if sets.len() == 0 {
        Seq::empty()
    } else {
        reduce_ws(a, sets.drop_last()) + reduce_items_ws(a, sets.last().stateId, sets.last().pItemTable@)
    }
}

/// Fills the ACTION and GOTO tables from the automaton: an empty row for
/// each state, then a shift (accept into the accepting state) for each edge
/// on a terminal and a GOTO entry for each edge on a non-terminal, then for
/// each item with its dot at the end a reduction on each terminal of FOLLOW
/// of its head. A later entry under the same state and symbol replaces an
/// earlier one.
pub fn create_LR1_Analysis_Table(tables: &mut Lab2Tables)
    requires
        arows_wf(old(tables).action_cells@),
        grows_wf(old(tables).goto_cells@),
    ensures
        arows_wf(final(tables).action_cells@),
        grows_wf(final(tables).goto_cells@),
        amap(final(tables).action_cells@) == apply_ws(rows_init(amap(old(tables).action_cells@), old(tables).item_sets@),
            shift_ws(old(tables).transition_edges@, acc_id(old(tables).item_sets@)) + reduce_ws(old(tables).all_nts@, old(tables).item_sets@)),
        gmap(final(tables).goto_cells@) == apply_ws(rows_init(gmap(old(tables).goto_cells@), old(tables).item_sets@),
            goto_ws(old(tables).transition_edges@)),
        final(tables).item_sets@ == old(tables).item_sets@,
        final(tables).transition_edges@ == old(tables).transition_edges@,
        final(tables).all_nts@ == old(tables).all_nts@,
        final(tables).all_productions@ == old(tables).all_productions@,
        final(tables).relative_id@ == old(tables).relative_id@,
        final(tables).get_nts@ == old(tables).get_nts@,
        final(tables).get_ts@ == old(tables).get_ts@,
        final(tables).production_infos@ == old(tables).production_infos@,
        final(tables).parse_table_of_ll@ == old(tables).parse_table_of_ll@,
{
    let ghost t0 = *tables;
    let ghost sets = tables.item_sets@;
    let ghost edges = tables.transition_edges@;
    let ghost a = tables.all_nts@;
    let acc = getAcc(tables);
    let acc_sid = acc.stateId;
    proof {
        lemma_first_acc(sets);
        if let Some(k) = first_acc(sets) {
            let k2 = choose|k2: int| 0 <= k2 < sets.len() && is_acc(#[trigger] sets[k2])
                && (forall|j: int| 0 <= j < k2 ==> !is_acc(#[trigger] sets[j]))
                && acc.stateId == sets[k2].stateId && iviews(acc.pItemTable@) == iviews(sets[k2].pItemTable@);
            if k2 < k {
                assert(!is_acc(sets[k2]));
            }
            if k < k2 {
                assert(!is_acc(sets[k]));
            }
        }
        assert(acc_sid == acc_id(sets));
    }
    let mut k: usize = 0;
    while k < tables.item_sets.len()
        invariant
            k <= sets.len(),
            tables.item_sets@ == sets,
            tables.transition_edges@ == edges,
            tables.all_nts@ == a,
            t0.item_sets@ == sets,
            t0.transition_edges@ == edges,
            t0.all_nts@ == a,
            tables.all_productions@ == t0.all_productions@,
            tables.relative_id@ == t0.relative_id@,
            tables.get_nts@ == t0.get_nts@,
            tables.get_ts@ == t0.get_ts@,
            tables.production_infos@ == t0.production_infos@,
            tables.parse_table_of_ll@ == t0.parse_table_of_ll@,
            arows_wf(tables.action_cells@),
            grows_wf(tables.goto_cells@),
            amap(tables.action_cells@) == rows_init(amap(t0.action_cells@), sets.subrange(0, k as int)),
            gmap(tables.goto_cells@) == rows_init(gmap(t0.goto_cells@), sets.subrange(0, k as int)),
        decreases sets.len() - k,
    {
        let sid = tables.item_sets[k].stateId;
        action_row_reset(&mut tables.action_cells, sid);
        goto_row_reset(&mut tables.goto_cells, sid);
        proof {
            let sub = sets.subrange(0, k + 1);
            assert(sub.drop_last() =~= sets.subrange(0, k as int));
            assert(sub.last() == sets[k as int]);
        }
        k = k + 1;
    }
    assert(sets.subrange(0, k as int) =~= sets);
    let ghost ra = amap(tables.action_cells@);
    let ghost rg = gmap(tables.goto_cells@);
    let mut ei: usize = 0;
    while ei < tables.transition_edges.len()
        invariant
            ei <= edges.len(),
            tables.item_sets@ == sets,
            tables.transition_edges@ == edges,
            tables.all_nts@ == a,
            t0.item_sets@ == sets,
            t0.transition_edges@ == edges,
            t0.all_nts@ == a,
            tables.all_productions@ == t0.all_productions@,
            tables.relative_id@ == t0.relative_id@,
            tables.get_nts@ == t0.get_nts@,
            tables.get_ts@ == t0.get_ts@,
            tables.production_infos@ == t0.production_infos@,
            tables.parse_table_of_ll@ == t0.parse_table_of_ll@,
            acc_sid == acc_id(sets),
            ra == rows_init(amap(t0.action_cells@), sets),
            rg == rows_init(gmap(t0.goto_cells@), sets),
            arows_wf(tables.action_cells@),
            grows_wf(tables.goto_cells@),
            amap(tables.action_cells@) == apply_ws(ra, shift_ws(edges.subrange(0, ei as int), acc_sid)),
            gmap(tables.goto_cells@) == apply_ws(rg, goto_ws(edges.subrange(0, ei as int))),
        decreases edges.len() - ei,
    {
        let ghost sub = edges.subrange(0, ei + 1);
        proof {
            assert(sub.drop_last() =~= edges.subrange(0, ei as int));
            assert(sub.last() == edges[ei as int]);
        }
        let from = tables.transition_edges[ei].fromItemSet.stateId;
        let to = tables.transition_edges[ei].toItemSet.stateId;
        let sym = crate::lab2::tables::symbols::copy_gs(&tables.transition_edges[ei].driverSymbol);
        match &sym {
            GrammarSymbol::Terminal(ts) => {
                let typ = if to == acc_sid { "acc" } else { "s" };
                let cell = ActionCell::new(from, ts.name.as_str(), typ, to);
                let ghost ws = shift_ws(edges.subrange(0, ei as int), acc_sid);
                action_write(&mut tables.action_cells, from, ts, cell);
                proof {
                    let w = (from, tkey(*ts), (from, ts.name@, if to == acc_sid { "acc"@ } else { "s"@ }, to));
                    assert(shift_ws(sub, acc_sid) == ws.push(w));
                    assert(ws.push(w).drop_last() =~= ws);
                }
                assert(goto_ws(sub) == goto_ws(edges.subrange(0, ei as int)));
            },
            GrammarSymbol::NonTerminal(n) => {
                let cell = GotoCell::new(from, n.as_str(), to);
                let ghost ws = goto_ws(edges.subrange(0, ei as int));
                goto_write(&mut tables.goto_cells, from, n.as_str(), cell);
                proof {
                    let w = (from, n@, (from, n@, to));
                    assert(goto_ws(sub) == ws.push(w));
                    assert(ws.push(w).drop_last() =~= ws);
                }
                assert(shift_ws(sub, acc_sid) == shift_ws(edges.subrange(0, ei as int), acc_sid));
            },
            GrammarSymbol::Null => {
                assert(goto_ws(sub) == goto_ws(edges.subrange(0, ei as int)));
                assert(shift_ws(sub, acc_sid) == shift_ws(edges.subrange(0, ei as int), acc_sid));
            },
        }
        ei = ei + 1;
    }
    assert(edges.subrange(0, ei as int) =~= edges);
    let ghost sw = shift_ws(edges, acc_sid);
    let ghost mut ws: Seq<(i64, (Seq<char>, Seq<char>), (i64, Seq<char>, Seq<char>, i64))> = sw;
    assert(ws =~= sw + reduce_ws(a, sets.subrange(0, 0)));
    let mut k: usize = 0;
    while k < tables.item_sets.len()
        invariant
            k <= sets.len(),
            tables.item_sets@ == sets,
            tables.transition_edges@ == edges,
            tables.all_nts@ == a,
            t0.item_sets@ == sets,
            t0.transition_edges@ == edges,
            t0.all_nts@ == a,
            tables.all_productions@ == t0.all_productions@,
            tables.relative_id@ == t0.relative_id@,
            tables.get_nts@ == t0.get_nts@,
            tables.get_ts@ == t0.get_ts@,
            tables.production_infos@ == t0.production_infos@,
            tables.parse_table_of_ll@ == t0.parse_table_of_ll@,
            ra == rows_init(amap(t0.action_cells@), sets),
            rg == rows_init(gmap(t0.goto_cells@), sets),
            sw == shift_ws(edges, acc_id(sets)),
            arows_wf(tables.action_cells@),
            grows_wf(tables.goto_cells@),
            gmap(tables.goto_cells@) == apply_ws(rg, goto_ws(edges)),
            amap(tables.action_cells@) == apply_ws(ra, ws),
            ws == sw + reduce_ws(a, sets.subrange(0, k as int)),
        decreases sets.len() - k,
    {
        let sid = tables.item_sets[k].stateId;
        let ghost items = sets[k as int].pItemTable@;
        let ghost ws_k = ws;
        let mut j: usize = 0;
        assert(ws =~= ws_k + reduce_items_ws(a, sid, items.subrange(0, 0)));
        while j < tables.item_sets[k].pItemTable.len()
            invariant
                k < sets.len(),
                j <= items.len(),
                items == sets[k as int].pItemTable@,
                sid == sets[k as int].stateId,
                tables.item_sets@ == sets,
                tables.transition_edges@ == edges,
                tables.all_nts@ == a,
                tables.all_productions@ == t0.all_productions@,
                tables.relative_id@ == t0.relative_id@,
                tables.get_nts@ == t0.get_nts@,
                tables.get_ts@ == t0.get_ts@,
                tables.production_infos@ == t0.production_infos@,
                tables.parse_table_of_ll@ == t0.parse_table_of_ll@,
                arows_wf(tables.action_cells@),
                grows_wf(tables.goto_cells@),
                gmap(tables.goto_cells@) == apply_ws(rg, goto_ws(edges)),
                amap(tables.action_cells@) == apply_ws(ra, ws),
                ws == ws_k + reduce_items_ws(a, sid, items.subrange(0, j as int)),
            decreases items.len() - j,
        {
            let ghost isub = items.subrange(0, j + 1);
            proof {
                assert(isub.drop_last() =~= items.subrange(0, j as int));
                assert(isub.last() == items[j as int]);
            }
            let ghost ws_j = ws;
            let it = &tables.item_sets[k].pItemTable[j];
            let len = it.production.pBodySymbolTable.len();
            let pid = it.production.productionId;
            if it.dotPosition >= 0 && (it.dotPosition as u64) == (len as u64) {
                assert(it.dotPosition == len);
                match find_nts_index(&tables.all_nts, it.nonTerminalSymbol.as_str()) {
                    Some(idx) => {
                        let ghost fol = a[idx as int].pFollowSet@;
                        let ghost rw = reduce_item_ws(a, sid, items[j as int]);
                        assert(rw == fol.map_values(|t: TerminalSymbol| (sid, tkey(t), (sid, t.name@, "r"@, pid))));
                        let mut q: usize = 0;
                        assert(ws =~= ws_j + rw.subrange(0, 0));
                        while q < tables.all_nts[idx].pFollowSet.len()
                            invariant
                                idx < a.len(),
                                q <= fol.len(),
                                fol == a[idx as int].pFollowSet@,
                                rw == fol.map_values(|t: TerminalSymbol| (sid, tkey(t), (sid, t.name@, "r"@, pid))),
                                tables.item_sets@ == sets,
                                tables.transition_edges@ == edges,
                                tables.all_nts@ == a,
                                tables.all_productions@ == t0.all_productions@,
                                tables.relative_id@ == t0.relative_id@,
                                tables.get_nts@ == t0.get_nts@,
                                tables.get_ts@ == t0.get_ts@,
                                tables.production_infos@ == t0.production_infos@,
                                tables.parse_table_of_ll@ == t0.parse_table_of_ll@,
                                arows_wf(tables.action_cells@),
                                grows_wf(tables.goto_cells@),
                                gmap(tables.goto_cells@) == apply_ws(rg, goto_ws(edges)),
                                amap(tables.action_cells@) == apply_ws(ra, ws),
                                ws == ws_j + rw.subrange(0, q as int),
                            decreases fol.len() - q,
                        {
                            let t = copy_ts(&tables.all_nts[idx].pFollowSet[q]);
                            let cell = ActionCell::new(sid, t.name.as_str(), "r", pid);
                            action_write(&mut tables.action_cells, sid, &t, cell);
                            proof {
                                let w = (sid, tkey(t), (sid, t.name@, "r"@, pid));
                                assert(rw[q as int] == w);
                                let ws2 = ws.push(w);
                                assert(ws2.drop_last() =~= ws);
                                assert(ws2 =~= ws_j + rw.subrange(0, q + 1));
                                ws = ws2;
                            }
                            q = q + 1;
                        }
                        proof {
                            assert(rw.subrange(0, q as int) =~= rw);
                            assert(ws =~= ws_k + reduce_items_ws(a, sid, isub));
                        }
                    },
                    None => {
                        assert(reduce_item_ws(a, sid, items[j as int]) =~= Seq::empty());
                        assert(ws =~= ws_k + reduce_items_ws(a, sid, isub));
                    },
                }
            } else {
                assert(reduce_item_ws(a, sid, items[j as int]) =~= Seq::empty());
                assert(ws =~= ws_k + reduce_items_ws(a, sid, isub));
            }
            j = j + 1;
        }
        proof {
            assert(items.subrange(0, j as int) =~= items);
            let sub = sets.subrange(0, k + 1);
            assert(sub.drop_last() =~= sets.subrange(0, k as int));
            assert(sub.last() == sets[k as int]);
            assert(ws =~= sw + reduce_ws(a, sub));
        }
        k = k + 1;
    }
    assert(sets.subrange(0, k as int) =~= sets);
}

/// The start item: the first production, dot at the start, as a core item
/// of the first non-terminal.
pub open spec fn start_kernel(t: Lab2Tables) -> (Seq<char>, i64, i64, Seq<GrammarSymbol>, Seq<TerminalSymbol>, i64, ItemType) {
    let p0 = t.all_productions@[0];
    (t.all_nts@[0].name@, p0.productionId, p0.bodySize, p0.pBodySymbolTable@, p0.pFirstSet@, 0i64, ItemType::Core)
}

/// `t` holds, after the states and edges of `t0`, the LR(0) automaton built
/// from the closure of the start item: that state numbered 0, then the
/// states and edges a run of `exhaustTransition` from it adds.
pub open spec fn lr0_built(t0: Lab2Tables, t: Lab2Tables) -> bool {
    let n1 = t0.item_sets@.len() as int;
    let e0 = t0.transition_edges@.len() as int;
    &&& run_frame(t0, t)
    &&& t.item_sets@.len() > n1
    &&& t.item_sets@.subrange(0, n1) == t0.item_sets@
    &&& t.transition_edges@.len() >= e0
    &&& t.transition_edges@.subrange(0, e0) == t0.transition_edges@
    &&& t.item_sets@[n1].stateId == 0
    &&& exists|c: Seq<LR0Item>, y: Seq<LR0Item>| c.len() == 1 && iview(c[0]) == start_kernel(t0)
        && #[trigger] is_closure_of(t0.all_nts@, c, y) && iviews(y) == iviews(t.item_sets@[n1].pItemTable@)
    &&& exists|s0: ItemSet| s0.stateId == 0 && iviews(s0.pItemTable@) == iviews(t.item_sets@[n1].pItemTable@)
        && #[trigger] states_ok(t0.all_nts@, t.item_sets@, s0, n1 + 1)
        && edges_ok(t.item_sets@, s0, n1 + 1, t.transition_edges@, e0)
        && forall|f: int| #[trigger] run_state(t.item_sets@, n1 + 1, f) ==> moves_done(t.item_sets@, s0, t.transition_edges@, e0, f)
}

/// Builds the LR(0) automaton: the closure of the start item as state 0,
/// added to the table, then the moves exhausted from it.
fn build_lr0(tables: &mut Lab2Tables)
    requires
        old(tables).all_nts@.len() > 0,
        old(tables).all_productions@.len() > 0,
    ensures
        lr0_built(*old(tables), *final(tables)),
{
    let ghost t0 = *tables;
    let item = LR0Item::new(tables.all_nts[0].name.as_str(), copy_production(&tables.all_productions[0]), 0, ItemType::Core);
    let mut i0 = ItemSet::new(0);
    i0.pItemTable.push(item);
    let ghost c = i0.pItemTable@;
    getClosure(&tables.all_nts, &mut i0);
    let s = copy_item_set(&i0);
    tables.item_sets.push(s);
    let ghost t1 = *tables;
    let ghost i0v = i0;
    exhaustTransition(tables, i0);
    proof {
        let n1 = t0.item_sets@.len() as int;
        assert(t1.item_sets@[n1] == s);
        assert(tables.item_sets@.subrange(0, n1 + 1) == t1.item_sets@);
        assert(tables.item_sets@[n1] == tables.item_sets@.subrange(0, n1 + 1)[n1]);
        assert(tables.item_sets@.subrange(0, n1) =~= t1.item_sets@.subrange(0, n1));
        assert(t1.item_sets@.subrange(0, n1) =~= t0.item_sets@);
        assert(iview(c[0]) == start_kernel(t0));
        assert(is_closure_of(t0.all_nts@, c, i0v.pItemTable@));
        assert(states_ok(t0.all_nts@, tables.item_sets@, i0v, n1 + 1));
    }
}

/// Builds the LR(0) automaton of the grammar in the tables, from the start
/// item of its first production.
pub fn test2_1(tables: &mut Lab2Tables)
    requires
        old(tables).all_nts@.len() > 0,
        old(tables).all_productions@.len() > 0,
    ensures
        lr0_built(*old(tables), *final(tables)),
{
    build_lr0(tables);
}

/// The token sequence `id + id * id $`.
pub fn test2_6() -> (res: Vec<String>)
    ensures
        res@.map_values(|x: String| x@) == seq!["id"@, "+"@, "id"@, "*"@, "id"@, "$"@],
{
    let mut v: Vec<String> = Vec::new();
    v.push(String::from_str("id"));
    v.push(String::from_str("+"));
    v.push(String::from_str("id"));
    v.push(String::from_str("*"));
    v.push(String::from_str("id"));
    v.push(String::from_str("$"));
    assert(v@.map_values(|x: String| x@) =~= seq!["id"@, "+"@, "id"@, "*"@, "id"@, "$"@]);
    v
}
} // verus!
