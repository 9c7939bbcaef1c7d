//! The LR(0) automaton of a grammar: closures of item sets, the transitions
//! out of an item set, and the automaton built state by state.
use vstd::prelude::*;
use crate::lab2::first::{bodies, heads, lemma_name_idx};
use crate::lab2::str_set::{is_str_set, members, strs};
use crate::lab2::types::{item_less, items_ascending, sym_names, Grammar, ItemSet, LR0Item, LR0DFA, TransitionEdge};
use crate::text::{lex_less, str_eq, str_less};

verus! {

/// The members of a list of items.
pub open spec fn iset(v: Seq<LR0Item>) -> Set<LR0Item> {
    v.to_set()
}

/// Ascending items hold no item twice.
pub proof fn lemma_items_len(v: Seq<LR0Item>)
    requires
        items_ascending(v),
    ensures
        iset(v).finite(),
        iset(v).len() == v.len(),
{
    assert forall|i: int, j: int| 0 <= i < v.len() && 0 <= j < v.len() && i != j implies v[i] != v[j] by {
        if i < j {
            assert(item_less(v[i], v[j]));
        } else {
            assert(item_less(v[j], v[i]));
        }
    }
    assert(v.no_duplicates());
    v.unique_seq_to_set();
    vstd::seq_lib::seq_to_set_is_finite(v);
}

/// Whether the list holds `x`.
pub fn item_contains(v: &Vec<LR0Item>, x: LR0Item) -> (res: bool)
    ensures
        res == iset(v@).contains(x),
{
    let mut i: usize = 0;
    while i < v.len()
        invariant
            i <= v@.len(),
            forall|k: int| 0 <= k < i ==> v@[k] != x,
        decreases v@.len() - i,
    {
        if v[i].production_id == x.production_id && v[i].dot_position == x.dot_position {
            assert(v@[i as int] == x);
            return true;
        }
        i = i + 1;
    }
    false
}

/// Inserts `x` into an ascending item list; the result says whether it was
/// new.
pub fn item_insert(v: &mut Vec<LR0Item>, x: LR0Item) -> (res: bool)
    requires
        items_ascending(old(v)@),
    ensures
        items_ascending(final(v)@),
        iset(final(v)@) == iset(old(v)@).insert(x),
        res == !iset(old(v)@).contains(x),
        res ==> final(v)@.len() == old(v)@.len() + 1,
        !res ==> final(v)@ == old(v)@,
{
    let ghost s0 = v@;
    let mut p: usize = 0;
    while p < v.len() && (v[p].production_id < x.production_id
        || (v[p].production_id == x.production_id && v[p].dot_position < x.dot_position))
        invariant
            p <= v@.len(),
            v@ == s0,
            forall|k: int| 0 <= k < p ==> item_less(#[trigger] s0[k], x),
        decreases v@.len() - p,
    {
        p = p + 1;
    }
    if p < v.len() && v[p].production_id == x.production_id && v[p].dot_position == x.dot_position {
        assert(s0[p as int] == x);
        assert(iset(s0).insert(x) =~= iset(s0));
        return false;
    }
    proof {
        assert forall|k: int| 0 <= k < s0.len() implies s0[k] != x by {
            if k > p {
                assert(item_less(s0[p as int], s0[k]));
            }
        }
    }
    v.insert(p, x);
    proof {
        let s1 = v@;
        assert(s1 =~= s0.insert(p as int, x));
        assert forall|i: int, j: int| 0 <= i < j < s1.len() implies item_less(#[trigger] s1[i], #[trigger] s1[j]) by {
            if j < p {
                assert(s1[i] == s0[i] && s1[j] == s0[j]);
            } else if j == p {
                assert(s1[i] == s0[i]);
            } else if i < p {
                assert(s1[i] == s0[i] && s1[j] == s0[j - 1]);
                if j - 1 > p {
                    assert(item_less(s0[p as int], s0[j - 1]));
                }
            } else if i == p {
                assert(s1[j] == s0[j - 1]);
                if j - 1 > p {
                    assert(item_less(s0[p as int], s0[j - 1]));
                }
            } else {
                assert(s1[i] == s0[i - 1] && s1[j] == s0[j - 1]);
            }
        }
        assert forall|y: LR0Item| #[trigger] s1.to_set().contains(y) <==> s0.to_set().insert(x).contains(y) by {
            if s1.to_set().contains(y) {
                let k = choose|k: int| 0 <= k < s1.len() && s1[k] == y;
                if k < p {
                    assert(s0[k] == y);
                } else if k > p {
                    assert(s0[k - 1] == y);
                }
            }
            if s0.to_set().contains(y) {
                let k = choose|k: int| 0 <= k < s0.len() && s0[k] == y;
                if k < p {
                    assert(s1[k] == y);
                } else {
                    assert(s1[k + 1] == y);
                }
            }
            if y == x {
                assert(s1[p as int] == y);
            }
        }
        assert(iset(s1) =~= iset(s0).insert(x));
    }
    true
}

/// Item `it` expands to production `q`: the symbol after its dot is a
/// non-terminal that heads `q`.
pub open spec fn expands(g: Grammar, it: LR0Item, q: usize) -> bool {
    let b = bodies(g.productions@)[it.production_id as int];
    &&& it.dot_position < b.len()
    &&& g.is_nt(b[it.dot_position as int])
    &&& g.sym(b[it.dot_position as int]).productions@.contains(q)
}

/// A set of items closed under expansion: with each item whose dot stands
/// before a non-terminal it holds that non-terminal's productions with the
/// dot at the start.
pub open spec fn items_closed(g: Grammar, s: Set<LR0Item>) -> bool {
    forall|it: LR0Item, q: usize| s.contains(it) && #[trigger] expands(g, it, q)
        ==> s.contains(LR0Item { production_id: q, dot_position: 0 })
}

/// `s` is the closure of `core`: the least set holding `core` closed under
/// expansion.
pub open spec fn is_closure(g: Grammar, core: Set<LR0Item>, s: Set<LR0Item>) -> bool {
    &&& core.subset_of(s)
    &&& items_closed(g, s)
    &&& forall|t: Set<LR0Item>| #[trigger] items_closed(g, t) && core.subset_of(t) ==> s.subset_of(t)
}

/// The items with the dot at the start of a production numbered below `n`.
pub open spec fn start_items(n: int) -> Set<LR0Item> {
    Set::new(|it: LR0Item| it.dot_position == 0 && it.production_id < n)
}

/// There are at most `n` such items.
pub proof fn lemma_start_items(n: int)
    requires
        n >= 0,
    ensures
        start_items(n).finite(),
        start_items(n).len() <= n,
{
    let f = |q: int| LR0Item { production_id: q as usize, dot_position: 0 };
    let r = vstd::set_lib::set_int_range(0, n);
    vstd::set_lib::lemma_int_range(0, n);
    assert forall|it: LR0Item| #[trigger] start_items(n).contains(it) <==> r.map(f).contains(it) by {
        if start_items(n).contains(it) {
            let q = it.production_id as int;
            assert(r.contains(q) && f(q) == it);
        }
        if r.map(f).contains(it) {
            let q = choose|q: int| r.contains(q) && f(q) == it;
            assert(0 <= q < n);
        }
    }
    assert(start_items(n) =~= r.map(f));
    vstd::set_lib::lemma_map_size_bound(r, start_items(n), f);
}

/// The productions that a symbol heads are productions of the grammar.
pub open spec fn heads_valid(g: Grammar) -> bool {
    forall|j: int, q: int| 0 <= j < g.symbols@.len() && 0 <= q < g.symbols@[j].productions@.len()
        ==> #[trigger] g.symbols@[j].productions@[q] < g.productions@.len()
}


/// The closure of the item set's core: the least set of items holding the
/// core in which, for each item with the dot before a non-terminal, every
/// production of that non-terminal appears with the dot at its start. The
/// item set must hold just its core, as `ItemSet::new` makes it.
pub fn get_closure(item_set: &mut ItemSet, grammar: &Grammar)
    requires
        grammar.wf(),
        heads_valid(*grammar),
        old(item_set).items@ == old(item_set).core_items@,
        items_ascending(old(item_set).core_items@),
        forall|k: int| 0 <= k < old(item_set).core_items@.len()
            ==> (#[trigger] old(item_set).core_items@[k]).production_id < grammar.productions@.len(),
    ensures
        final(item_set).state_id == old(item_set).state_id,
        final(item_set).core_items@ == old(item_set).core_items@,
        items_ascending(final(item_set).items@),
        is_closure(*grammar, iset(old(item_set).core_items@), iset(final(item_set).items@)),
{
    let ghost g = *grammar;
    let ghost core = iset(item_set.core_items@);
    let ghost np = grammar.productions@.len() as int;
    let ghost u = core.union(start_items(np));
    let ghost bound = item_set.core_items@.len() + np;
    proof {
        lemma_items_len(item_set.core_items@);
        lemma_start_items(np);
        vstd::set_lib::lemma_len_union(core, start_items(np));
    }
    let mut queue = crate::lab2::types::copy_items(&item_set.core_items);
    let mut qi: usize = 0;
    while qi < queue.len()
        invariant
            g == *grammar,
            grammar.wf(),
            heads_valid(g),
            np == g.productions@.len(),
            item_set.state_id == old(item_set).state_id,
            item_set.core_items@ == old(item_set).core_items@,
            core == iset(old(item_set).core_items@),
            u == core.union(start_items(np)),
            u.finite(),
            u.len() <= bound,
            forall|k: int| 0 <= k < old(item_set).core_items@.len()
                ==> (#[trigger] old(item_set).core_items@[k]).production_id < np,
            items_ascending(item_set.items@),
            iset(queue@) == iset(item_set.items@),
            queue@.len() == item_set.items@.len(),
            qi <= queue@.len(),
            core.subset_of(iset(item_set.items@)),
            iset(item_set.items@).subset_of(u),
            forall|t: Set<LR0Item>| #[trigger] items_closed(g, t) && core.subset_of(t) ==> iset(item_set.items@).subset_of(t),
            forall|k: int, q: usize| 0 <= k < qi && #[trigger] expands(g, queue@[k], q)
                ==> iset(item_set.items@).contains(LR0Item { production_id: q, dot_position: 0 }),
        decreases bound - qi,
    {
        proof {
            lemma_items_len(item_set.items@);
            vstd::set_lib::lemma_len_subset(iset(item_set.items@), u);
        }
        let item = queue[qi];
        proof {
            assert(iset(queue@).contains(item));
            assert(u.contains(item));
            if core.contains(item) {
                let k = choose|k: int| 0 <= k < old(item_set).core_items@.len() && old(item_set).core_items@[k] == item;
            }
        }
        let ghost b = bodies(g.productions@)[item.production_id as int];
        assert(b == strs(grammar.productions@[item.production_id as int].body@));
        let blen = grammar.productions[item.production_id].body.len();
        if item.dot_position < blen {
            let next = grammar.productions[item.production_id].body[item.dot_position].clone();
            assert(next@ == b[item.dot_position as int]);
            if grammar.is_nonterminal(next.as_str()) {
                match grammar.find_symbol(next.as_str()) {
                    Some(j) => {
                        let mut m: usize = 0;
                        while m < grammar.symbols[j].productions.len()
                            invariant
                                g == *grammar,
                                grammar.wf(),
                                heads_valid(g),
                                np == g.productions@.len(),
                                j < g.symbols@.len(),
                                j == crate::lab2::types::index_of_name(g.symbols@, next@),
                                next@ == b[item.dot_position as int],
                                item.dot_position < b.len(),
                                b == bodies(g.productions@)[item.production_id as int],
                                g.is_nt(next@),
                                item == queue@[qi as int],
                                item_set.state_id == old(item_set).state_id,
                                item_set.core_items@ == old(item_set).core_items@,
                                core == iset(old(item_set).core_items@),
                                u == core.union(start_items(np)),
                                items_ascending(item_set.items@),
                                iset(queue@) == iset(item_set.items@),
                                queue@.len() == item_set.items@.len(),
                                qi < queue@.len(),
                                core.subset_of(iset(item_set.items@)),
                                iset(item_set.items@).subset_of(u),
                                forall|t: Set<LR0Item>| #[trigger] items_closed(g, t) && core.subset_of(t) ==> iset(item_set.items@).subset_of(t),
                                forall|k: int, q: usize| 0 <= k < qi && #[trigger] expands(g, queue@[k], q)
                                    ==> iset(item_set.items@).contains(LR0Item { production_id: q, dot_position: 0 }),
                                m <= g.symbols@[j as int].productions@.len(),
                                forall|k: int| 0 <= k < m ==> iset(item_set.items@).contains(
                                    LR0Item { production_id: #[trigger] g.symbols@[j as int].productions@[k], dot_position: 0 }),
                            decreases g.symbols@[j as int].productions@.len() - m,
                        {
                            let q = grammar.symbols[j].productions[m];
                            let new_item = LR0Item { production_id: q, dot_position: 0 };
                            proof {
                                assert(g.sym(next@).productions@.contains(q)) by {
                                    assert(g.sym(next@).productions@[m as int] == q);
                                }
                                assert(expands(g, item, q));
                                assert(q < np);
                                assert(start_items(np).contains(new_item));
                            }
                            let ghost before = iset(item_set.items@);
                            let ghost q0 = queue@;
                            if item_insert(&mut item_set.items, new_item) {
                                queue.push(new_item);
                                proof {
                                    q0.lemma_push_to_set_commute(new_item);
                                    assert(iset(queue@) =~= iset(item_set.items@));
                                }
                            }
                            proof {
                                assert forall|t: Set<LR0Item>| #[trigger] items_closed(g, t) && core.subset_of(t)
                                    implies iset(item_set.items@).subset_of(t) by {
                                    assert(before.subset_of(t));
                                    assert(t.contains(item));
                                }
                                assert forall|k: int, q2: usize| 0 <= k < qi && #[trigger] expands(g, queue@[k], q2)
                                    implies iset(item_set.items@).contains(LR0Item { production_id: q2, dot_position: 0 }) by {
                                    assert(before.contains(LR0Item { production_id: q2, dot_position: 0 }));
                                }
                            }
                            m = m + 1;
                        }
                        proof {
                            assert forall|q: usize| #[trigger] expands(g, item, q)
                                implies iset(item_set.items@).contains(LR0Item { production_id: q, dot_position: 0 }) by {
                                let l = g.sym(next@).productions@;
                                let k = choose|k: int| 0 <= k < l.len() && l[k] == q;
                                assert(g.symbols@[j as int].productions@[k] == q);
                            }
                        }
                    },
                    None => {},
                }
            }
        }
        proof {
            assert forall|k: int, q: usize| 0 <= k < qi + 1 && #[trigger] expands(g, queue@[k], q)
                implies iset(item_set.items@).contains(LR0Item { production_id: q, dot_position: 0 }) by {
                if k == qi {
                    assert(queue@[k] == item);
                }
            }
        }
        qi = qi + 1;
    }
    proof {
        assert forall|it: LR0Item, q: usize| iset(item_set.items@).contains(it) && #[trigger] expands(g, it, q)
            implies iset(item_set.items@).contains(LR0Item { production_id: q, dot_position: 0 }) by {
            assert(iset(queue@).contains(it));
            let k = choose|k: int| 0 <= k < queue@.len() && queue@[k] == it;
        }
    }
}

/// The items that `items` move to over the symbol `x`: the dot stepped over
/// an `x` right after it.
pub open spec fn goto_core(g: Grammar, items: Set<LR0Item>, x: Seq<char>) -> Set<LR0Item> {
    Set::new(|it2: LR0Item| exists|it: LR0Item| #[trigger] items.contains(it) && moves_to(g, it, x, it2))
}

/// Item `it` has `x` after its dot and moves to `it2`.
pub open spec fn moves_to(g: Grammar, it: LR0Item, x: Seq<char>, it2: LR0Item) -> bool {
    let b = bodies(g.productions@)[it.production_id as int];
    &&& it.dot_position < b.len()
    &&& b[it.dot_position as int] == x
    &&& it2 == LR0Item { production_id: it.production_id, dot_position: (it.dot_position + 1) as usize }
}

/// The keys of a transition table, in order.
pub open spec fn tkeys(t: Seq<(String, Vec<LR0Item>)>) -> Seq<Seq<char>> {
    t.map_values(|e: (String, Vec<LR0Item>)| e.0@)
}

/// Whether the table has an entry for `x`.
pub open spec fn has_tkey(t: Seq<(String, Vec<LR0Item>)>, x: Seq<char>) -> bool {
    exists|i: int| 0 <= i < t.len() && (#[trigger] t[i]).0@ == x
}

/// The position of the entry for `x`.
pub open spec fn tkey_idx(t: Seq<(String, Vec<LR0Item>)>, x: Seq<char>) -> int {
    choose|i: int| 0 <= i < t.len() && (#[trigger] t[i]).0@ == x
}

/// In a table with ascending keys the entry for `t[i].0` is `t[i]`.
pub proof fn lemma_tkey_at(t: Seq<(String, Vec<LR0Item>)>, i: int)
    requires
        crate::lab2::str_set::ascending(tkeys(t)),
        0 <= i < t.len(),
    ensures
        has_tkey(t, t[i].0@),
        tkey_idx(t, t[i].0@) == i,
{
    assert(tkeys(t)[i] == t[i].0@);
    assert(has_tkey(t, t[i].0@));
    let j = tkey_idx(t, t[i].0@);
    assert(tkeys(t)[j] == t[j].0@);
    if j < i {
        assert(lex_less(tkeys(t)[j], tkeys(t)[i]));
        crate::text::lemma_lex_irreflexive(t[i].0@);
    } else if j > i {
        assert(lex_less(tkeys(t)[i], tkeys(t)[j]));
        crate::text::lemma_lex_irreflexive(t[i].0@);
    }
}

/// The transitions of the first `k` items of `v`: each key's entry holds,
/// ascending, what those items move to over it, and every key that some of
/// them move over has an entry.
pub open spec fn trans_upto(g: Grammar, t: Seq<(String, Vec<LR0Item>)>, v: Seq<LR0Item>, k: int) -> bool {
    &&& crate::lab2::str_set::ascending(tkeys(t))
    &&& forall|i: int| 0 <= i < t.len() ==> items_ascending((#[trigger] t[i]).1@)
    &&& forall|i: int| 0 <= i < t.len() ==> (#[trigger] t[i]).1@.len() > 0
    &&& forall|i: int| 0 <= i < t.len() ==> iset((#[trigger] t[i]).1@) == goto_core(g, iset(v.subrange(0, k)), t[i].0@)
    &&& forall|x: Seq<char>, it2: LR0Item| #[trigger] goto_core(g, iset(v.subrange(0, k)), x).contains(it2) ==> has_tkey(t, x)
}

/// Adds `it2` to the entry of `x`, making one where there is none.
fn trans_add(t: &mut Vec<(String, Vec<LR0Item>)>, x: &str, it2: LR0Item)
    requires
        crate::lab2::str_set::ascending(tkeys(old(t)@)),
        forall|i: int| 0 <= i < old(t)@.len() ==> items_ascending((#[trigger] old(t)@[i]).1@),
        forall|i: int| 0 <= i < old(t)@.len() ==> (#[trigger] old(t)@[i]).1@.len() > 0,
    ensures
        crate::lab2::str_set::ascending(tkeys(final(t)@)),
        forall|i: int| 0 <= i < final(t)@.len() ==> items_ascending((#[trigger] final(t)@[i]).1@),
        forall|i: int| 0 <= i < final(t)@.len() ==> (#[trigger] final(t)@[i]).1@.len() > 0,
        forall|y: Seq<char>| #[trigger] has_tkey(final(t)@, y) <==> (has_tkey(old(t)@, y) || y == x@),
        forall|y: Seq<char>| #[trigger] has_tkey(final(t)@, y) ==> iset(final(t)@[tkey_idx(final(t)@, y)].1@) == (if y == x@ {
            (if has_tkey(old(t)@, y) { iset(old(t)@[tkey_idx(old(t)@, y)].1@) } else { Set::empty() }).insert(it2)
        } else {
            iset(old(t)@[tkey_idx(old(t)@, y)].1@)
        }),
{
    let ghost t0 = t@;
    let ghost k0 = tkeys(t0);
    let mut i: usize = 0;
    while i < t.len() && str_less(t[i].0.as_str(), x)
        invariant
            i <= t@.len(),
            t@ == t0,
            k0 == tkeys(t0),
            forall|q: int| 0 <= q < i ==> lex_less(#[trigger] k0[q], x@),
        decreases t@.len() - i,
    {
        assert(k0[i as int] == t0[i as int].0@);
        i = i + 1;
    }
    if i < t.len() && str_eq(t[i].0.as_str(), x) {
        proof {
            lemma_tkey_at(t0, i as int);
        }
        let ghost l0 = t@[i as int].1@;
        item_insert(&mut t[i].1, it2);
        proof {
            let t1 = t@;
            assert(tkeys(t1) =~= k0);
            assert forall|y: Seq<char>| #[trigger] has_tkey(t1, y) <==> (has_tkey(t0, y) || y == x@) by {
                if has_tkey(t1, y) {
                    let j = choose|j: int| 0 <= j < t1.len() && (#[trigger] t1[j]).0@ == y;
                    assert(t0[j].0@ == y);
                }
                if has_tkey(t0, y) {
                    let j = choose|j: int| 0 <= j < t0.len() && (#[trigger] t0[j]).0@ == y;
                    assert(t1[j].0@ == y);
                }
                if y == x@ {
                    assert(t1[i as int].0@ == y);
                }
            }
            assert forall|y: Seq<char>| #[trigger] has_tkey(t1, y) implies iset(t1[tkey_idx(t1, y)].1@) == (if y == x@ {
                (if has_tkey(t0, y) { iset(t0[tkey_idx(t0, y)].1@) } else { Set::empty() }).insert(it2)
            } else {
                iset(t0[tkey_idx(t0, y)].1@)
            }) by {
                let j = tkey_idx(t1, y);
                lemma_tkey_at(t1, j);
                lemma_tkey_at(t0, j);
                lemma_tkey_at(t1, i as int);
            }
        }
        return;
    }
    proof {
        if i < t.len() {
            assert(k0[i as int] == t0[i as int].0@);
            crate::text::lemma_lex_total(k0[i as int], x@);
        }
        assert(!has_tkey(t0, x@)) by {
            if has_tkey(t0, x@) {
                let j = choose|j: int| 0 <= j < t0.len() && (#[trigger] t0[j]).0@ == x@;
                assert(k0[j] == x@);
                if j < i {
                    crate::text::lemma_lex_irreflexive(x@);
                } else if j > i {
                    assert(lex_less(k0[i as int], k0[j]));
                    crate::text::lemma_lex_transitive(x@, k0[i as int], x@);
                    crate::text::lemma_lex_irreflexive(x@);
                }
            }
        }
    }
    let mut l: Vec<LR0Item> = Vec::new();
    l.push(it2);
    proof {
        assert(l@ =~= Seq::<LR0Item>::empty().push(it2));
        Seq::<LR0Item>::empty().lemma_push_to_set_commute(it2);
        assert(Seq::<LR0Item>::empty().to_set() =~= Set::<LR0Item>::empty());
        assert(iset(l@) =~= Set::<LR0Item>::empty().insert(it2));
    }
    t.insert(i, (String::from_str(x), l));
    proof {
        let t1 = t@;
        let k1 = tkeys(t1);
        assert(k1 =~= k0.insert(i as int, x@));
        assert forall|a: int, b: int| 0 <= a < b < k1.len() implies lex_less(#[trigger] k1[a], #[trigger] k1[b]) by {
            if b < i {
                assert(k1[a] == k0[a] && k1[b] == k0[b]);
            } else if b == i {
                assert(k1[a] == k0[a]);
            } else if a < i {
                assert(k1[a] == k0[a] && k1[b] == k0[b - 1]);
                if b - 1 > i {
                    assert(lex_less(k0[i as int], k0[b - 1]));
                    crate::text::lemma_lex_transitive(x@, k0[i as int], k0[b - 1]);
                }
                crate::text::lemma_lex_transitive(k0[a], x@, k0[b - 1]);
            } else if a == i {
                assert(k1[b] == k0[b - 1]);
                if b - 1 > i {
                    assert(lex_less(k0[i as int], k0[b - 1]));
                    crate::text::lemma_lex_transitive(x@, k0[i as int], k0[b - 1]);
                }
            } else {
                assert(k1[a] == k0[a - 1] && k1[b] == k0[b - 1]);
            }
        }
        assert forall|j: int| 0 <= j < t1.len() implies items_ascending((#[trigger] t1[j]).1@) && t1[j].1@.len() > 0 by {
            if j < i {
                assert(t1[j] == t0[j]);
            } else if j > i {
                assert(t1[j] == t0[j - 1]);
            }
        }
        assert forall|y: Seq<char>| #[trigger] has_tkey(t1, y) <==> (has_tkey(t0, y) || y == x@) by {
            if has_tkey(t1, y) {
                let j = choose|j: int| 0 <= j < t1.len() && (#[trigger] t1[j]).0@ == y;
                if j < i {
                    assert(t0[j].0@ == y);
                } else if j > i {
                    assert(t0[j - 1].0@ == y);
                }
            }
            if has_tkey(t0, y) {
                let j = choose|j: int| 0 <= j < t0.len() && (#[trigger] t0[j]).0@ == y;
                if j < i {
                    assert(t1[j].0@ == y);
                } else {
                    assert(t1[j + 1].0@ == y);
                }
            }
            if y == x@ {
                assert(t1[i as int].0@ == y);
            }
        }
        assert forall|y: Seq<char>| #[trigger] has_tkey(t1, y) implies iset(t1[tkey_idx(t1, y)].1@) == (if y == x@ {
            (if has_tkey(t0, y) { iset(t0[tkey_idx(t0, y)].1@) } else { Set::empty() }).insert(it2)
        } else {
            iset(t0[tkey_idx(t0, y)].1@)
        }) by {
            let j = tkey_idx(t1, y);
            lemma_tkey_at(t1, j);
            lemma_tkey_at(t1, i as int);
            if j < i {
                assert(t1[j] == t0[j]);
                lemma_tkey_at(t0, j);
            } else if j > i {
                assert(t1[j] == t0[j - 1]);
                lemma_tkey_at(t0, j - 1);
            }
        }
    }
}

/// The transitions out of a set of items: for each symbol after a dot, in
/// ascending order, what the items move to over it.
pub open spec fn is_transitions(g: Grammar, s: Set<LR0Item>, t: Seq<(String, Vec<LR0Item>)>) -> bool {
    &&& crate::lab2::str_set::ascending(tkeys(t))
    &&& forall|i: int| 0 <= i < t.len() ==> items_ascending((#[trigger] t[i]).1@)
    &&& forall|i: int| 0 <= i < t.len() ==> (#[trigger] t[i]).1@.len() > 0
    &&& forall|i: int| 0 <= i < t.len() ==> iset((#[trigger] t[i]).1@) == goto_core(g, s, t[i].0@)
    &&& forall|x: Seq<char>, it2: LR0Item| #[trigger] goto_core(g, s, x).contains(it2) ==> has_tkey(t, x)
}

/// Groups the items of the set by the symbol after their dot, each moved
/// one step past it: the transitions out of the set.
pub fn exhaust_transitions(item_set: &ItemSet, grammar: &Grammar) -> (res: Vec<(String, Vec<LR0Item>)>)
    requires
        grammar.wf(),
        forall|k: int| 0 <= k < item_set.items@.len() ==> (#[trigger] item_set.items@[k]).production_id < grammar.productions@.len(),
    ensures
        is_transitions(*grammar, iset(item_set.items@), res@),
{
    let ghost g = *grammar;
    let ghost v = item_set.items@;
    let mut t: Vec<(String, Vec<LR0Item>)> = Vec::new();
    let mut k: usize = 0;
    proof {
        assert(v.subrange(0, 0).to_set() =~= Set::<LR0Item>::empty());
        assert forall|x: Seq<char>, it2: LR0Item| #[trigger] goto_core(g, iset(v.subrange(0, 0)), x).contains(it2) implies has_tkey(t@, x) by {
            let it = choose|it: LR0Item| #[trigger] iset(v.subrange(0, 0)).contains(it) && moves_to(g, it, x, it2);
        }
    }
    while k < item_set.items.len()
        invariant
            g == *grammar,
            grammar.wf(),
            v == item_set.items@,
            k <= v.len(),
            forall|q: int| 0 <= q < v.len() ==> (#[trigger] v[q]).production_id < g.productions@.len(),
            trans_upto(g, t@, v, k as int),
        decreases v.len() - k,
    {
        let item = item_set.items[k];
        let ghost s0 = iset(v.subrange(0, k as int));
        let ghost s1 = iset(v.subrange(0, k + 1));
        proof {
            assert(v.subrange(0, k + 1) =~= v.subrange(0, k as int).push(item));
            v.subrange(0, k as int).lemma_push_to_set_commute(item);
            assert(s1 == s0.insert(item));
        }
        let ghost b = bodies(g.productions@)[item.production_id as int];
        assert(b == strs(grammar.productions@[item.production_id as int].body@));
        let blen = grammar.productions[item.production_id].body.len();
        let ghost t0 = t@;
        if item.dot_position < blen {
            let x = grammar.productions[item.production_id].body[item.dot_position].clone();
            let it2 = LR0Item { production_id: item.production_id, dot_position: item.dot_position + 1 };
            assert(moves_to(g, item, x@, it2));
            trans_add(&mut t, x.as_str(), it2);
            proof {
                assert forall|y: Seq<char>, w: LR0Item| #[trigger] goto_core(g, s1, y).contains(w) <==>
                    (goto_core(g, s0, y).contains(w) || (y == x@ && w == it2)) by {
                    if goto_core(g, s1, y).contains(w) {
                        let it = choose|it: LR0Item| #[trigger] s1.contains(it) && moves_to(g, it, y, w);
                        if it != item {
                            assert(s0.contains(it));
                        }
                    }
                    if goto_core(g, s0, y).contains(w) {
                        let it = choose|it: LR0Item| #[trigger] s0.contains(it) && moves_to(g, it, y, w);
                        assert(s1.contains(it));
                    }
                    if y == x@ && w == it2 {
                        assert(s1.contains(item) && moves_to(g, item, y, w));
                    }
                }
                assert forall|i: int| 0 <= i < t@.len() implies iset((#[trigger] t@[i]).1@) == goto_core(g, s1, t@[i].0@) by {
                    let y = t@[i].0@;
                    lemma_tkey_at(t@, i);
                    assert(has_tkey(t@, y));
                    if has_tkey(t0, y) {
                        let j = tkey_idx(t0, y);
                        assert(t0[j].0@ == y);
                    }
                    assert(iset(t@[i].1@) =~= goto_core(g, s1, y));
                }
                assert forall|y: Seq<char>, w: LR0Item| #[trigger] goto_core(g, s1, y).contains(w) implies has_tkey(t@, y) by {
                    if goto_core(g, s0, y).contains(w) {
                        assert(has_tkey(t0, y));
                    }
                }
            }
        } else {
            proof {
                assert forall|y: Seq<char>, w: LR0Item| #[trigger] goto_core(g, s1, y).contains(w) <==> goto_core(g, s0, y).contains(w) by {
                    if goto_core(g, s1, y).contains(w) {
                        let it = choose|it: LR0Item| #[trigger] s1.contains(it) && moves_to(g, it, y, w);
                        if it == item {
                            assert(false);
                        }
                        assert(s0.contains(it));
                    }
                    if goto_core(g, s0, y).contains(w) {
                        let it = choose|it: LR0Item| #[trigger] s0.contains(it) && moves_to(g, it, y, w);
                        assert(s1.contains(it));
                    }
                }
                assert forall|i: int| 0 <= i < t@.len() implies iset((#[trigger] t@[i]).1@) == goto_core(g, s1, t@[i].0@) by {
                    assert(iset(t@[i].1@) =~= goto_core(g, s1, t@[i].0@));
                }
            }
        }
        k = k + 1;
    }
    assert(v.subrange(0, k as int) =~= v);
    t
}

/// An item of the grammar: a production of it, the dot within its body.
pub open spec fn item_valid(g: Grammar, it: LR0Item) -> bool {
    it.production_id < g.productions@.len() && it.dot_position <= bodies(g.productions@)[it.production_id as int].len()
}

/// Every item of the grammar.
fn all_items(g: &Grammar) -> (res: Vec<LR0Item>)
    ensures
        forall|it: LR0Item| item_valid(*g, it) ==> res@.contains(it),
{
    let mut res: Vec<LR0Item> = Vec::new();
    let mut p: usize = 0;
    while p < g.productions.len()
        invariant
            p <= g.productions@.len(),
            forall|it: LR0Item| item_valid(*g, it) && it.production_id < p ==> res@.contains(it),
        decreases g.productions@.len() - p,
    {
        let blen = g.productions[p].body.len();
        assert(blen == bodies(g.productions@)[p as int].len());
        let mut d: usize = 0;
        while d < blen
            invariant
                p < g.productions@.len(),
                blen == bodies(g.productions@)[p as int].len(),
                d <= blen,
                forall|it: LR0Item| item_valid(*g, it) && it.production_id < p ==> res@.contains(it),
                forall|it: LR0Item| item_valid(*g, it) && it.production_id == p && it.dot_position < d ==> res@.contains(it),
            decreases blen - d,
        {
            let it = LR0Item { production_id: p, dot_position: d };
            let ghost before = res@;
            res.push(it);
            proof {
                assert forall|y: LR0Item| before.contains(y) implies res@.contains(y) by {
                    let k = choose|k: int| 0 <= k < before.len() && before[k] == y;
                    assert(res@[k] == y);
                }
                assert(res@[res@.len() - 1] == it);
            }
            d = d + 1;
        }
        let last = LR0Item { production_id: p, dot_position: blen };
        let ghost before = res@;
        res.push(last);
        proof {
            assert forall|y: LR0Item| before.contains(y) implies res@.contains(y) by {
                let k = choose|k: int| 0 <= k < before.len() && before[k] == y;
                assert(res@[k] == y);
            }
            assert(res@[res@.len() - 1] == last);
        }
        p = p + 1;
    }
    res
}

/// The closure of a core stays within the core and the start items.
proof fn lemma_closure_within(g: Grammar, core: Set<LR0Item>, s: Set<LR0Item>)
    requires
        g.wf(),
        heads_valid(g),
        is_closure(g, core, s),
    ensures
        s.subset_of(core.union(start_items(g.productions@.len() as int))),
{
    let t = core.union(start_items(g.productions@.len() as int));
    assert forall|it: LR0Item, q: usize| t.contains(it) && #[trigger] expands(g, it, q)
        implies t.contains(LR0Item { production_id: q, dot_position: 0 }) by {
        let b = bodies(g.productions@)[it.production_id as int];
        let n = b[it.dot_position as int];
        let j = crate::lab2::types::index_of_name(g.symbols@, n);
        let l = g.symbols@[j].productions@;
        let k = choose|k: int| 0 <= k < l.len() && l[k] == q;
        assert(g.symbols@[j].productions@[k] < g.productions@.len());
    }
    assert(items_closed(g, t));
}

/// Two different items are ordered one way or the other.
proof fn lemma_item_total(a: LR0Item, b: LR0Item)
    requires
        a != b,
    ensures
        item_less(a, b) || item_less(b, a),
{
}

/// An ascending list of items is fixed by its members.
pub proof fn lemma_ascending_unique(a: Seq<LR0Item>, b: Seq<LR0Item>)
    requires
        items_ascending(a),
        items_ascending(b),
        iset(a) == iset(b),
    ensures
        a == b,
    decreases a.len(),
{
    lemma_items_len(a);
    lemma_items_len(b);
    if a.len() > 0 {
        assert(iset(b).contains(a[0]));
        assert(iset(a).contains(b[0]));
        let i = choose|i: int| 0 <= i < b.len() && b[i] == a[0];
        let j = choose|j: int| 0 <= j < a.len() && a[j] == b[0];
        if i > 0 {
            assert(item_less(b[0], b[i]));
            if j > 0 {
                assert(item_less(a[0], a[j]));
            }
        }
        assert(a[0] == b[0]);
        let a2 = a.drop_first();
        let b2 = b.drop_first();
        assert forall|x: LR0Item| iset(a2).contains(x) <==> iset(b2).contains(x) by {
            if iset(a2).contains(x) {
                let k = choose|k: int| 0 <= k < a2.len() && a2[k] == x;
                assert(a[k + 1] == x);
                assert(item_less(a[0], a[k + 1]));
                assert(iset(b).contains(x));
                let m = choose|m: int| 0 <= m < b.len() && b[m] == x;
                assert(m != 0);
                assert(b2[m - 1] == x);
            }
            if iset(b2).contains(x) {
                let k = choose|k: int| 0 <= k < b2.len() && b2[k] == x;
                assert(b[k + 1] == x);
                assert(item_less(b[0], b[k + 1]));
                assert(iset(a).contains(x));
                let m = choose|m: int| 0 <= m < a.len() && a[m] == x;
                assert(m != 0);
                assert(a2[m - 1] == x);
            }
        }
        assert(iset(a2) =~= iset(b2));
        lemma_ascending_unique(a2, b2);
        assert(a =~= seq![a[0]] + a2);
        assert(b =~= seq![b[0]] + b2);
    } else {
        assert(b.len() == 0);
        assert(a =~= b);
    }
}

/// Whether two item lists are equal.
fn items_eq(a: &Vec<LR0Item>, b: &Vec<LR0Item>) -> (res: bool)
    ensures
        res == (a@ == b@),
{
    if a.len() != b.len() {
        return false;
    }
    let mut i: usize = 0;
    while i < a.len()
        invariant
            a@.len() == b@.len(),
            i <= a@.len(),
            forall|k: int| 0 <= k < i ==> a@[k] == b@[k],
        decreases a@.len() - i,
    {
        if a[i].production_id != b[i].production_id || a[i].dot_position != b[i].dot_position {
            assert(a@[i as int] != b@[i as int]);
            return false;
        }
        i = i + 1;
    }
    assert(a@ =~= b@);
    true
}

/// The largest target state of the first `k` edges, 0 if none.
pub open spec fn max_to(e: Seq<TransitionEdge>, k: int) -> int
    decreases k,
{
    if k <= 0 {
        0
    } else if max_to(e, k - 1) < e[k - 1].to_state {
        e[k - 1].to_state as int
    } else {
        max_to(e, k - 1)
    }
}

/// Edges ordered by source state, then by driving symbol.
pub open spec fn edge_less(a: TransitionEdge, b: TransitionEdge) -> bool {
    a.from_state < b.from_state || (a.from_state == b.from_state && lex_less(a.driver_symbol@, b.driver_symbol@))
}

/// State `i` of the automaton: numbered `i`, a non-empty ascending core,
/// and its items the closure of the core.
pub open spec fn state_ok(g: Grammar, s: ItemSet, i: int) -> bool {
    &&& s.state_id == i
    &&& items_ascending(s.core_items@)
    &&& items_ascending(s.items@)
    &&& s.core_items@.len() > 0
    &&& is_closure(g, iset(s.core_items@), iset(s.items@))
}

/// The states of the automaton: state 0 has the core `S' → ·S`, every
/// state is well formed, no two states have the same core, and all their
/// items are items of the grammar.
pub open spec fn lr0_states(g: Grammar, sets: Seq<ItemSet>) -> bool {
    &&& sets.len() >= 1
    &&& sets[0].core_items@ == seq![LR0Item { production_id: 0, dot_position: 0 }]
    &&& forall|i: int| 0 <= i < sets.len() ==> state_ok(g, #[trigger] sets[i], i)
    &&& forall|i: int, j: int| 0 <= i < sets.len() && 0 <= j < sets.len() && i != j
        ==> (#[trigger] sets[i]).core_items@ != (#[trigger] sets[j]).core_items@
    &&& forall|i: int, it: LR0Item| 0 <= i < sets.len() && #[trigger] iset(sets[i].items@).contains(it) ==> item_valid(g, it)
    &&& forall|i: int, it: LR0Item| 0 <= i < sets.len() && #[trigger] iset(sets[i].core_items@).contains(it) ==> item_valid(g, it)
}

/// The edges out of the states below `idx`: one edge per state and symbol
/// that the state's items move over, leading to the state whose core is what
/// they move to; edges ordered by source state, then symbol; and states
/// numbered in the order in which edges first reach them.
pub open spec fn lr0_edges(g: Grammar, sets: Seq<ItemSet>, e: Seq<TransitionEdge>, idx: int) -> bool {
    &&& forall|k: int| 0 <= k < e.len() ==> {
        let x = #[trigger] e[k];
        &&& x.from_state < idx
        &&& x.to_state < sets.len()
        &&& goto_core(g, iset(sets[x.from_state as int].items@), x.driver_symbol@) == iset(sets[x.to_state as int].core_items@)
    }
    &&& forall|k1: int, k2: int| 0 <= k1 < k2 < e.len() ==> edge_less(#[trigger] e[k1], #[trigger] e[k2])
    &&& forall|s: int, x: Seq<char>, it: LR0Item| 0 <= s < idx && #[trigger] goto_core(g, iset(sets[s].items@), x).contains(it)
        ==> exists|k: int| 0 <= k < e.len() && (#[trigger] e[k]).from_state == s && e[k].driver_symbol@ == x
    &&& forall|k: int| 0 <= k < e.len() ==> (#[trigger] e[k]).to_state <= 1 + max_to(e, k)
    &&& sets.len() == 1 + max_to(e, e.len() as int)
}

/// The LR(0) automaton of the grammar.
pub open spec fn lr0_automaton(g: Grammar, d: LR0DFA) -> bool {
    &&& d.start_state == 0
    &&& lr0_states(g, d.item_sets@)
    &&& lr0_edges(g, d.item_sets@, d.edges@, d.item_sets@.len() as int)
}

/// There are at most `2^|all|` states.
proof fn lemma_states_bound(g: Grammar, sets: Seq<ItemSet>, all: Seq<LR0Item>)
    requires
        lr0_states(g, sets),
        forall|it: LR0Item| item_valid(g, it) ==> all.contains(it),
    ensures
        sets.len() <= crate::lab1::count::two_pow(all.len() as nat),
{
    let n = sets.len() as int;
    let f = |i: int| iset(sets[i].core_items@);
    let r = vstd::set_lib::set_int_range(0, n);
    vstd::set_lib::lemma_int_range(0, n);
    let fam = r.map(f);
    assert(vstd::relations::injective_on(f, r)) by {
        assert forall|a: int, b: int| r.contains(a) && r.contains(b) && #[trigger] f(a) == #[trigger] f(b) implies a == b by {
            if a != b {
                assert(state_ok(g, sets[a], a));
                assert(state_ok(g, sets[b], b));
                lemma_ascending_unique(sets[a].core_items@, sets[b].core_items@);
            }
        }
    }
    vstd::set_lib::lemma_map_size(r, fam, f);
    assert forall|s: Set<LR0Item>| #[trigger] fam.contains(s) implies s.subset_of(all.to_set()) by {
        let i = choose|i: int| r.contains(i) && f(i) == s;
        assert forall|it: LR0Item| s.contains(it) implies all.to_set().contains(it) by {
            assert(iset(sets[i].core_items@).contains(it));
            assert(item_valid(g, it));
        }
    }
    crate::lab1::count::lemma_family_bound(all, fam);
}

/// The automaton while the transitions `tr` of state `idx` are entered, the
/// first `m` of them done.
#[verifier::opaque]
pub open spec fn lr0_inner(
    g: Grammar,
    sets: Seq<ItemSet>,
    e: Seq<TransitionEdge>,
    idx: int,
    tr: Seq<(String, Vec<LR0Item>)>,
    m: int,
) -> bool {
    &&& lr0_states(g, sets)
    &&& 0 <= idx < sets.len()
    &&& 0 <= m <= tr.len()
    &&& is_transitions(g, iset(sets[idx].items@), tr)
    &&& forall|k: int| 0 <= k < e.len() ==> {
        let x = #[trigger] e[k];
        &&& x.from_state <= idx
        &&& x.to_state < sets.len()
        &&& goto_core(g, iset(sets[x.from_state as int].items@), x.driver_symbol@) == iset(sets[x.to_state as int].core_items@)
    }
    &&& forall|k1: int, k2: int| 0 <= k1 < k2 < e.len() ==> edge_less(#[trigger] e[k1], #[trigger] e[k2])
    &&& forall|s: int, x: Seq<char>, it: LR0Item| 0 <= s < idx && #[trigger] goto_core(g, iset(sets[s].items@), x).contains(it)
        ==> exists|k: int| 0 <= k < e.len() && (#[trigger] e[k]).from_state == s && e[k].driver_symbol@ == x
    &&& forall|q: int| 0 <= q < m ==> exists|k: int| 0 <= k < e.len() && (#[trigger] e[k]).from_state == idx
        && e[k].driver_symbol@ == (#[trigger] tr[q]).0@
    &&& e.len() > 0 && e[e.len() - 1].from_state == idx ==> m > 0 && e[e.len() - 1].driver_symbol@ == tr[m - 1].0@
    &&& forall|k: int| 0 <= k < e.len() ==> (#[trigger] e[k]).to_state <= 1 + max_to(e, k)
    &&& sets.len() == 1 + max_to(e, e.len() as int)
}

/// The state whose core is `cores`, if any.
fn find_state(sets: &Vec<ItemSet>, cores: &Vec<LR0Item>) -> (res: Option<usize>)
    ensures
        res matches Some(j) ==> j < sets@.len() && sets@[j as int].core_items@ == cores@,
        res is None ==> forall|q: int| 0 <= q < sets@.len() ==> (#[trigger] sets@[q]).core_items@ != cores@,
{
    let mut j: usize = 0;
    while j < sets.len()
        invariant
            j <= sets@.len(),
            forall|q: int| 0 <= q < j ==> (#[trigger] sets@[q]).core_items@ != cores@,
        decreases sets@.len() - j,
    {
        if items_eq(&sets[j].core_items, cores) {
            return Some(j);
        }
        j = j + 1;
    }
    None
}

/// Enters transition `m` of state `idx`: finds or makes the target state
/// and records the edge.
#[verifier::rlimit(60)]
fn add_transition(
    sets: &mut Vec<ItemSet>,
    edges: &mut Vec<TransitionEdge>,
    grammar: &Grammar,
    idx: usize,
    trans: &Vec<(String, Vec<LR0Item>)>,
    m: usize,
    Ghost(all): Ghost<Seq<LR0Item>>,
)
    requires
        grammar.wf(),
        heads_valid(*grammar),
        forall|it: LR0Item| item_valid(*grammar, it) ==> all.contains(it),
        lr0_inner(*grammar, old(sets)@, old(edges)@, idx as int, trans@, m as int),
        m < trans@.len(),
    ensures
        lr0_inner(*grammar, final(sets)@, final(edges)@, idx as int, trans@, m + 1),
        final(sets)@.len() <= crate::lab1::count::two_pow(all.len() as nat),
{
    let ghost g = *grammar;
    let ghost s_before = sets@;
    let ghost e_before = edges@;
    proof {
        reveal(lr0_inner);
    }
    let found = find_state(sets, &trans[m].1);
    let to = match found {
        Some(j) => j,
        None => {
            let new_id = sets.len();
            let cores = crate::lab2::types::copy_items(&trans[m].1);
            let mut new_set = ItemSet::new(new_id, cores);
            proof {
                assert(is_transitions(g, iset(sets@[idx as int].items@), trans@));
                assert(iset(trans@[m as int].1@) == goto_core(g, iset(sets@[idx as int].items@), trans@[m as int].0@));
                assert forall|k: int| 0 <= k < new_set.core_items@.len() implies
                    (#[trigger] new_set.core_items@[k]).production_id < g.productions@.len() by {
                    let it2 = new_set.core_items@[k];
                    assert(iset(trans@[m as int].1@).contains(it2));
                    let it = choose|it: LR0Item| #[trigger] iset(sets@[idx as int].items@).contains(it)
                        && moves_to(g, it, trans@[m as int].0@, it2);
                    assert(item_valid(g, it));
                }
            }
            get_closure(&mut new_set, grammar);
            sets.push(new_set);
            new_id
        },
    };
    let found_some = found.is_some();
    edges.push(TransitionEdge { driver_symbol: trans[m].0.clone(), from_state: idx, to_state: to });
    proof {
        let e1 = edges@;
        let tk = trans@[m as int].0@;
        let gt = goto_core(g, iset(s_before[idx as int].items@), tk);
        assert(iset(trans@[m as int].1@) == gt);
        assert(forall|q: int| 0 <= q < s_before.len() ==> #[trigger] sets@[q] == s_before[q]);
        assert(forall|k: int| 0 <= k < e_before.len() ==> #[trigger] e1[k] == e_before[k]);
        lemma_max_to_prefix(e_before, e1, e_before.len() as int);
        if !found_some {
            let ns = sets@[s_before.len() as int];
            assert(ns.core_items@ == trans@[m as int].1@);
            assert(state_ok(g, ns, s_before.len() as int));
            lemma_closure_within(g, iset(ns.core_items@), iset(ns.items@));
            assert forall|it2: LR0Item| #[trigger] iset(ns.core_items@).contains(it2) implies item_valid(g, it2) by {
                assert(gt.contains(it2));
                let it = choose|it: LR0Item| #[trigger] iset(s_before[idx as int].items@).contains(it) && moves_to(g, it, tk, it2);
                assert(item_valid(g, it));
            }
            assert forall|it2: LR0Item| #[trigger] iset(ns.items@).contains(it2) implies item_valid(g, it2) by {
                assert(iset(ns.core_items@).union(start_items(g.productions@.len() as int)).contains(it2));
            }
            assert forall|a: int, b: int| 0 <= a < sets@.len() && 0 <= b < sets@.len() && a != b
                implies (#[trigger] sets@[a]).core_items@ != (#[trigger] sets@[b]).core_items@ by {
                if a == s_before.len() {
                    assert(sets@[b] == s_before[b]);
                } else if b == s_before.len() {
                    assert(sets@[a] == s_before[a]);
                } else {
                    assert(sets@[a] == s_before[a] && sets@[b] == s_before[b]);
                }
            }
            assert(lr0_states(g, sets@)) by {
                assert forall|i: int| 0 <= i < sets@.len() implies state_ok(g, #[trigger] sets@[i], i) by {
                    if i < s_before.len() {
                        assert(sets@[i] == s_before[i]);
                    }
                }
                assert forall|i: int, it: LR0Item| 0 <= i < sets@.len() && #[trigger] iset(sets@[i].items@).contains(it)
                    implies item_valid(g, it) by {
                    if i < s_before.len() {
                        assert(sets@[i] == s_before[i]);
                    }
                }
                assert forall|i: int, it: LR0Item| 0 <= i < sets@.len() && #[trigger] iset(sets@[i].core_items@).contains(it)
                    implies item_valid(g, it) by {
                    if i < s_before.len() {
                        assert(sets@[i] == s_before[i]);
                    }
                }
            }
            assert(max_to(e1, e1.len() as int) == s_before.len());
        } else {
            assert(sets@ == s_before);
            assert(max_to(e1, e1.len() as int) == max_to(e_before, e_before.len() as int));
        }
        lemma_states_bound(g, sets@, all);
        assert forall|k: int| 0 <= k < e1.len() implies (#[trigger] e1[k]).to_state <= 1 + max_to(e1, k) by {
            if k < e_before.len() {
                lemma_max_to_prefix(e_before, e1, k);
            }
        }
        assert forall|k: int| 0 <= k < e1.len() implies {
            let x = #[trigger] e1[k];
            &&& x.from_state <= idx
            &&& x.to_state < sets@.len()
            &&& goto_core(g, iset(sets@[x.from_state as int].items@), x.driver_symbol@) == iset(sets@[x.to_state as int].core_items@)
        } by {
            if k < e_before.len() {
                assert(sets@[e1[k].from_state as int] == s_before[e1[k].from_state as int]);
                assert(sets@[e1[k].to_state as int] == s_before[e1[k].to_state as int]);
            } else {
                assert(sets@[idx as int] == s_before[idx as int]);
            }
        }
        assert forall|k1: int, k2: int| 0 <= k1 < k2 < e1.len() implies edge_less(#[trigger] e1[k1], #[trigger] e1[k2]) by {
            if k2 == e_before.len() {
                let last = e_before[e_before.len() - 1];
                if e_before[k1].from_state == idx {
                    assert(last.from_state == idx) by {
                        if k1 < e_before.len() - 1 {
                            assert(edge_less(e_before[k1], last));
                        }
                    }
                    assert(last.driver_symbol@ == trans@[m - 1].0@);
                    assert(lex_less(tkeys(trans@)[m - 1], tkeys(trans@)[m as int]));
                    if k1 < e_before.len() - 1 {
                        assert(edge_less(e_before[k1], last));
                        crate::text::lemma_lex_transitive(e_before[k1].driver_symbol@, last.driver_symbol@, tk);
                    }
                }
            }
        }
        assert forall|s: int, x: Seq<char>, it: LR0Item| 0 <= s < idx && #[trigger] goto_core(g, iset(sets@[s].items@), x).contains(it)
            implies exists|k: int| 0 <= k < e1.len() && (#[trigger] e1[k]).from_state == s && e1[k].driver_symbol@ == x by {
            assert(sets@[s] == s_before[s]);
            let k = choose|k: int| 0 <= k < e_before.len() && (#[trigger] e_before[k]).from_state == s && e_before[k].driver_symbol@ == x;
            assert(e1[k] == e_before[k]);
        }
        assert forall|q: int| 0 <= q < m + 1 implies exists|k: int| 0 <= k < e1.len() && (#[trigger] e1[k]).from_state == idx
            && e1[k].driver_symbol@ == (#[trigger] trans@[q]).0@ by {
            if q < m {
                let k = choose|k: int| 0 <= k < e_before.len() && (#[trigger] e_before[k]).from_state == idx
                    && e_before[k].driver_symbol@ == trans@[q].0@;
                assert(e1[k] == e_before[k]);
            } else {
                assert(e1[e1.len() - 1].from_state == idx);
            }
        }
        assert(is_transitions(g, iset(sets@[idx as int].items@), trans@)) by {
            assert(sets@[idx as int] == s_before[idx as int]);
        }
        assert(lr0_inner(g, sets@, e1, idx as int, trans@, m + 1));
    }
}

/// Builds the LR(0) automaton: state 0 is the closure of `S' → ·S`; the
/// states are taken in order, and for each symbol that a state's items move
/// over, in ascending order, the state whose core is what they move to is
/// found, or made as the closure of that core and numbered next, and the
/// edge is recorded.
pub fn build_lr0_dfa(grammar: &Grammar) -> (res: LR0DFA)
    requires
        grammar.wf(),
        heads_valid(*grammar),
        grammar.productions@.len() >= 1,
    ensures
        lr0_automaton(*grammar, res),
{
    let ghost g = *grammar;
    let all = all_items(grammar);
    let ghost bound = crate::lab1::count::two_pow(all@.len() as nat);
    let mut sets: Vec<ItemSet> = Vec::new();
    let mut edges: Vec<TransitionEdge> = Vec::new();
    let mut start_cores: Vec<LR0Item> = Vec::new();
    start_cores.push(LR0Item { production_id: 0, dot_position: 0 });
    let mut start_set = ItemSet::new(0, start_cores);
    get_closure(&mut start_set, grammar);
    sets.push(start_set);
    proof {
        let s0 = sets@[0];
        assert(s0.core_items@ =~= seq![LR0Item { production_id: 0, dot_position: 0 }]);
        assert(s0.core_items@[0] == LR0Item { production_id: 0, dot_position: 0 });
        assert(iset(s0.core_items@).contains(LR0Item { production_id: 0, dot_position: 0 }));
        lemma_closure_within(g, iset(s0.core_items@), iset(s0.items@));
        assert forall|it: LR0Item| #[trigger] iset(s0.core_items@).contains(it) implies item_valid(g, it) by {
            assert(it == LR0Item { production_id: 0, dot_position: 0 });
        }
        assert forall|it: LR0Item| #[trigger] iset(s0.items@).contains(it) implies item_valid(g, it) by {
            assert(iset(s0.core_items@).union(start_items(g.productions@.len() as int)).contains(it));
        }
        assert(lr0_states(g, sets@));
        lemma_states_bound(g, sets@, all@);
    }
    let mut idx: usize = 0;
    while idx < sets.len()
        invariant
            g == *grammar,
            grammar.wf(),
            heads_valid(g),
            forall|it: LR0Item| item_valid(g, it) ==> all@.contains(it),
            bound == crate::lab1::count::two_pow(all@.len() as nat),
            lr0_states(g, sets@),
            lr0_edges(g, sets@, edges@, idx as int),
            idx <= sets@.len(),
            sets@.len() <= bound,
        decreases bound - idx,
    {
        proof {
            assert forall|k: int| 0 <= k < sets@[idx as int].items@.len() implies
                (#[trigger] sets@[idx as int].items@[k]).production_id < g.productions@.len() by {
                assert(iset(sets@[idx as int].items@).contains(sets@[idx as int].items@[k]));
            }
        }
        let trans = exhaust_transitions(&sets[idx], grammar);
        let mut m: usize = 0;
        proof {
            lemma_inner_start(g, sets@, edges@, idx as int, trans@);
        }
        while m < trans.len()
            invariant
                g == *grammar,
                grammar.wf(),
                heads_valid(g),
                forall|it: LR0Item| item_valid(g, it) ==> all@.contains(it),
                bound == crate::lab1::count::two_pow(all@.len() as nat),
                lr0_inner(g, sets@, edges@, idx as int, trans@, m as int),
                m <= trans@.len(),
                sets@.len() <= bound,
            decreases trans@.len() - m,
        {
            add_transition(&mut sets, &mut edges, grammar, idx, &trans, m, Ghost(all@));
            m = m + 1;
        }
        proof {
            lemma_inner_end(g, sets@, edges@, idx as int, trans@);
        }
        idx = idx + 1;
    }
    LR0DFA { item_sets: sets, edges, start_state: 0 }
}

/// `max_to` over the first `k` edges depends on those edges alone.
proof fn lemma_max_to_prefix(a: Seq<TransitionEdge>, b: Seq<TransitionEdge>, k: int)
    requires
        0 <= k <= a.len(),
        k <= b.len(),
        forall|i: int| 0 <= i < a.len() ==> #[trigger] b[i] == a[i],
    ensures
        max_to(a, k) == max_to(b, k),
    decreases k,
{
    if k > 0 {
        lemma_max_to_prefix(a, b, k - 1);
        assert(b[k - 1] == a[k - 1]);
    }
}

/// Starting on the transitions of state `idx`.
proof fn lemma_inner_start(g: Grammar, sets: Seq<ItemSet>, e: Seq<TransitionEdge>, idx: int, tr: Seq<(String, Vec<LR0Item>)>)
    requires
        lr0_states(g, sets),
        lr0_edges(g, sets, e, idx),
        0 <= idx < sets.len(),
        is_transitions(g, iset(sets[idx].items@), tr),
    ensures
        lr0_inner(g, sets, e, idx, tr, 0),
{
    reveal(lr0_inner);
    if e.len() > 0 {
        assert(e[e.len() - 1].from_state < idx);
    }
}

/// Done with the transitions of state `idx`.
proof fn lemma_inner_end(g: Grammar, sets: Seq<ItemSet>, e: Seq<TransitionEdge>, idx: int, tr: Seq<(String, Vec<LR0Item>)>)
    requires
        lr0_inner(g, sets, e, idx, tr, tr.len() as int),
    ensures
        lr0_edges(g, sets, e, idx + 1),
        lr0_states(g, sets),
        0 <= idx < sets.len(),
{
    reveal(lr0_inner);
    assert forall|s: int, x: Seq<char>, it: LR0Item| 0 <= s < idx + 1 && #[trigger] goto_core(g, iset(sets[s].items@), x).contains(it)
        implies exists|k: int| 0 <= k < e.len() && (#[trigger] e[k]).from_state == s && e[k].driver_symbol@ == x by {
        if s == idx {
            assert(has_tkey(tr, x));
            let q = choose|q: int| 0 <= q < tr.len() && (#[trigger] tr[q]).0@ == x;
            assert(tr[q].0@ == x);
        }
    }
}
} // verus!
