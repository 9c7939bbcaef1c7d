//! SLR(1): the conflicts of the LR(0) automaton under FOLLOW sets, and the
//! ACTION/GOTO parse table.
use vstd::prelude::*;
use crate::lab2::first::{bodies, heads, lemma_name_idx};
use crate::lab2::str_set::{asc_seq, ascending, is_str_set, lemma_asc_seq, members, new_set, set_contains, set_insert, strs};
use crate::lab2::display::{fmt_production, production_text};
use crate::lab2::types::{
    end_marker, sym_names, ActionCategory, ActionCell, Grammar, GotoCell, ItemSet, LR0Item, LR0DFA, LRParseTable,
    TransitionEdge,
};
use crate::text::{nat_text, str_eq};

verus! {

/// The key of a table entry.
pub open spec fn ekey<V>(e: ((usize, String), V)) -> (usize, Seq<char>) {
    (e.0.0, e.0.1@)
}

/// No key occurs twice.
pub open spec fn keys_unique<V>(v: Seq<((usize, String), V)>) -> bool {
    forall|i: int, j: int| 0 <= i < v.len() && 0 <= j < v.len() && i != j ==> ekey(#[trigger] v[i]) != ekey(#[trigger] v[j])
}

/// The table as a map.
pub open spec fn tmap<V>(v: Seq<((usize, String), V)>) -> Map<(usize, Seq<char>), V> {
    Map::new(
        |k: (usize, Seq<char>)| exists|i: int| 0 <= i < v.len() && ekey(#[trigger] v[i]) == k,
        |k: (usize, Seq<char>)| v[choose|i: int| 0 <= i < v.len() && ekey(#[trigger] v[i]) == k].1,
    )
}

/// In a table without repeated keys the value for `ekey(v[i])` is `v[i].1`.
pub proof fn lemma_tmap_at<V>(v: Seq<((usize, String), V)>, i: int)
    requires
        keys_unique(v),
        0 <= i < v.len(),
    ensures
        tmap(v).contains_key(ekey(v[i])),
        tmap(v)[ekey(v[i])] == v[i].1,
{
    assert(tmap(v).dom().contains(ekey(v[i])));
    let j = choose|j: int| 0 <= j < v.len() && ekey(#[trigger] v[j]) == ekey(v[i]);
    assert(j == i);
}

/// Puts `x` under the key `(s, t)`; the result is what was there before.
pub fn tput<V: Copy>(v: &mut Vec<((usize, String), V)>, s: usize, t: &str, x: V) -> (res: Option<V>)
    requires
        keys_unique(old(v)@),
    ensures
        keys_unique(final(v)@),
        tmap(final(v)@) == tmap(old(v)@).insert((s, t@), x),
        res == (if tmap(old(v)@).contains_key((s, t@)) { Some(tmap(old(v)@)[(s, t@)]) } else { None::<V> }),
{
    let ghost v0 = v@;
    let ghost k = (s, t@);
    let mut i: usize = 0;
    while i < v.len()
        invariant
            i <= v@.len(),
            v@ == v0,
            v0 == old(v)@,
            keys_unique(v0),
            k == (s, t@),
            forall|q: int| 0 <= q < i ==> ekey(#[trigger] v0[q]) != k,
        decreases v@.len() - i,
    {
        if v[i].0.0 == s && str_eq(v[i].0.1.as_str(), t) {
            let prev = v[i].1;
            proof {
                assert(ekey(v0[i as int]) == k);
                lemma_tmap_at(v0, i as int);
            }
            let key = (v[i].0.0, String::from_str(t));
            v.set(i, (key, x));
            proof {
                let v1 = v@;
                assert forall|a: int, b: int| 0 <= a < v1.len() && 0 <= b < v1.len() && a != b
                    implies ekey(#[trigger] v1[a]) != ekey(#[trigger] v1[b]) by {
                    assert(ekey(v1[a]) == ekey(v0[a]));
                    assert(ekey(v1[b]) == ekey(v0[b]));
                }
                assert forall|kk: (usize, Seq<char>)| #[trigger] tmap(v1).dom().contains(kk) <==> tmap(v0).insert(k, x).dom().contains(kk) by {
                    if tmap(v1).dom().contains(kk) {
                        let j = choose|j: int| 0 <= j < v1.len() && ekey(#[trigger] v1[j]) == kk;
                        assert(ekey(v0[j]) == kk);
                    }
                    if tmap(v0).dom().contains(kk) {
                        let j = choose|j: int| 0 <= j < v0.len() && ekey(#[trigger] v0[j]) == kk;
                        assert(ekey(v1[j]) == kk);
                    }
                    if kk == k {
                        assert(ekey(v1[i as int]) == kk);
                    }
                }
                assert forall|kk: (usize, Seq<char>)| #[trigger] tmap(v1).dom().contains(kk) implies tmap(v1)[kk] == tmap(v0).insert(k, x)[kk] by {
                    let j = choose|j: int| 0 <= j < v1.len() && ekey(#[trigger] v1[j]) == kk;
                    lemma_tmap_at(v1, j);
                    if j != i {
                        assert(v1[j] == v0[j]);
                        lemma_tmap_at(v0, j);
                        assert(ekey(v0[j]) != ekey(v0[i as int]));
                    }
                }
                assert(tmap(v1) =~= tmap(v0).insert(k, x));
            }
            return Some(prev);
        }
        i = i + 1;
    }
    proof {
        assert(!tmap(v0).contains_key(k)) by {
            if tmap(v0).dom().contains(k) {
                let j = choose|j: int| 0 <= j < v0.len() && ekey(#[trigger] v0[j]) == k;
            }
        }
    }
    let key = (s, String::from_str(t));
    v.push((key, x));
    proof {
        let v1 = v@;
        let n = v0.len() as int;
        assert(ekey(v1[n]) == k);
        assert forall|a: int, b: int| 0 <= a < v1.len() && 0 <= b < v1.len() && a != b
            implies ekey(#[trigger] v1[a]) != ekey(#[trigger] v1[b]) by {
            if a < n {
                assert(v1[a] == v0[a]);
            }
            if b < n {
                assert(v1[b] == v0[b]);
            }
        }
        assert forall|kk: (usize, Seq<char>)| #[trigger] tmap(v1).dom().contains(kk) <==> tmap(v0).insert(k, x).dom().contains(kk) by {
            if tmap(v1).dom().contains(kk) {
                let j = choose|j: int| 0 <= j < v1.len() && ekey(#[trigger] v1[j]) == kk;
                if j < n {
                    assert(v1[j] == v0[j]);
                }
            }
            if tmap(v0).dom().contains(kk) {
                let j = choose|j: int| 0 <= j < v0.len() && ekey(#[trigger] v0[j]) == kk;
                assert(v1[j] == v0[j]);
            }
        }
        assert forall|kk: (usize, Seq<char>)| #[trigger] tmap(v1).dom().contains(kk) implies tmap(v1)[kk] == tmap(v0).insert(k, x)[kk] by {
            let j = choose|j: int| 0 <= j < v1.len() && ekey(#[trigger] v1[j]) == kk;
            lemma_tmap_at(v1, j);
            if j < n {
                assert(v1[j] == v0[j]);
                lemma_tmap_at(v0, j);
            }
        }
        assert(tmap(v1) =~= tmap(v0).insert(k, x));
    }
    None
}


/// One write to ACTION: state, terminal, and the cell written.
pub open spec fn aw(s: usize, t: Seq<char>, c: ActionCell) -> (usize, Seq<char>, ActionCell) {
    (s, t, c)
}

/// The ACTION writes of the edges: a shift for each edge on a terminal.
pub open spec fn shift_writes(g: Grammar, e: Seq<TransitionEdge>) -> Seq<(usize, Seq<char>, ActionCell)>
    decreases e.len(),
{
    if e.len() == 0 {
        Seq::empty()
    } else {
        shift_writes(g, e.drop_last()) + (if g.is_t(e.last().driver_symbol@) {
            seq![aw(e.last().from_state, e.last().driver_symbol@, ActionCell { action_type: ActionCategory::Shift, id: e.last().to_state })]
        } else {
            Seq::empty()
        })
    }
}

/// The GOTO writes of the edges: one for each edge on anything else.
pub open spec fn goto_writes(g: Grammar, e: Seq<TransitionEdge>) -> Seq<(usize, Seq<char>, GotoCell)>
    decreases e.len(),
{
    if e.len() == 0 {
        Seq::empty()
    } else {
        goto_writes(g, e.drop_last()) + (if !g.is_t(e.last().driver_symbol@) {
            seq![(e.last().from_state, e.last().driver_symbol@, GotoCell { next_state: e.last().to_state })]
        } else {
            Seq::empty()
        })
    }
}

/// FOLLOW of the symbol named `h`, ascending; empty for an unknown name.
pub open spec fn follow_seq(g: Grammar, h: Seq<char>) -> Seq<Seq<char>> {
    if g.has_sym(h) {
        strs(g.sym(h).follow_set@)
    } else {
        Seq::empty()
    }
}

/// The reduce writes of item `it` of state `sid`, for the first `m` members
/// of FOLLOW of its head.
pub open spec fn reduce_writes(g: Grammar, sid: usize, it: LR0Item, m: int) -> Seq<(usize, Seq<char>, ActionCell)> {
    follow_seq(g, heads(g.productions@)[it.production_id as int]).subrange(0, m).map_values(
        |t: Seq<char>| aw(sid, t, ActionCell { action_type: ActionCategory::Reduce, id: it.production_id }))
}

/// The ACTION writes of a complete item of state `sid`: accept on `$` for
/// `S' → S·`, else a reduce on each member of FOLLOW of its head.
pub open spec fn item_writes(g: Grammar, sid: usize, it: LR0Item) -> Seq<(usize, Seq<char>, ActionCell)> {
    if it.dot_position >= bodies(g.productions@)[it.production_id as int].len() {
        if it.production_id == 0 {
            seq![aw(sid, end_marker(), ActionCell { action_type: ActionCategory::Accept, id: 0 })]
        } else {
            reduce_writes(g, sid, it, follow_seq(g, heads(g.productions@)[it.production_id as int]).len() as int)
        }
    } else {
        Seq::empty()
    }
}

/// The ACTION writes of the items of state `sid`, in order.
pub open spec fn items_writes(g: Grammar, sid: usize, its: Seq<LR0Item>) -> Seq<(usize, Seq<char>, ActionCell)>
    decreases its.len(),
{
    if its.len() == 0 {
        Seq::empty()
    } else {
        items_writes(g, sid, its.drop_last()) + item_writes(g, sid, its.last())
    }
}

/// The ACTION writes of the states, in order.
pub open spec fn sets_writes(g: Grammar, sets: Seq<ItemSet>) -> Seq<(usize, Seq<char>, ActionCell)>
    decreases sets.len(),
{
    if sets.len() == 0 {
        Seq::empty()
    } else {
        sets_writes(g, sets.drop_last()) + items_writes(g, sets.last().state_id, sets.last().items@)
    }
}

/// All ACTION writes: shifts from the edges, then accepts and reduces from
/// the states.
pub open spec fn all_writes(g: Grammar, d: LR0DFA) -> Seq<(usize, Seq<char>, ActionCell)> {
    shift_writes(g, d.edges@) + sets_writes(g, d.item_sets@)
}

/// The table that a run of writes leaves: the last write to a key wins.
pub open spec fn wmap<V>(ws: Seq<(usize, Seq<char>, V)>) -> Map<(usize, Seq<char>), V>
    decreases ws.len(),
{
    if ws.len() == 0 {
        Map::empty()
    } else {
        wmap(ws.drop_last()).insert((ws.last().0, ws.last().1), ws.last().2)
    }
}

/// How `{:?}` prints an action kind: its name.
pub open spec fn category_text(c: ActionCategory) -> Seq<char> {
    match c {
        ActionCategory::Shift => "Shift"@,
        ActionCategory::Reduce => "Reduce"@,
        ActionCategory::Accept => "Accept"@,
    }
}

/// The message for a write `w` to a key that already held `old`.
pub open spec fn conflict_text(w: (usize, Seq<char>, ActionCell), old: ActionCell) -> Seq<char> {
    match w.2.action_type {
        ActionCategory::Shift => "ACTION["@ + nat_text(w.0 as nat) + ", "@ + w.1 + "] 移入冲突：原 "@ + category_text(old.action_type)
            + nat_text(old.id as nat) + ", 新 s"@ + nat_text(w.2.id as nat),
        ActionCategory::Accept => "ACTION["@ + nat_text(w.0 as nat) + ", $] 与已有 "@ + category_text(old.action_type)
            + nat_text(old.id as nat) + " 冲突（accept）"@,
        ActionCategory::Reduce => "ACTION["@ + nat_text(w.0 as nat) + ", "@ + w.1 + "] 与已有 "@ + category_text(old.action_type)
            + nat_text(old.id as nat) + " 冲突（reduce r"@ + nat_text(w.2.id as nat) + "）"@,
    }
}

/// The messages of a run of writes: one for each write to a key already
/// written, in order.
pub open spec fn wconflicts(ws: Seq<(usize, Seq<char>, ActionCell)>) -> Seq<Seq<char>>
    decreases ws.len(),
{
    if ws.len() == 0 {
        Seq::empty()
    } else {
        let prev = wmap(ws.drop_last());
        let w = ws.last();
        wconflicts(ws.drop_last()) + (if prev.contains_key((w.0, w.1)) { seq![conflict_text(w, prev[(w.0, w.1)])] } else { Seq::empty() })
    }
}

/// The name of an action kind, as `{:?}` prints it.
fn category_name(c: ActionCategory) -> (res: String)
    ensures
        res@ == category_text(c),
{
    match c {
        ActionCategory::Shift => String::from_str("Shift"),
        ActionCategory::Reduce => String::from_str("Reduce"),
        ActionCategory::Accept => String::from_str("Accept"),
    }
}

/// Records write `w` into the ACTION table and, where the key already held
/// a cell, its message into `conflicts`.
fn write_action(
    action: &mut Vec<((usize, String), ActionCell)>,
    conflicts: &mut Vec<String>,
    s: usize,
    t: &str,
    c: ActionCell,
    Ghost(ws): Ghost<Seq<(usize, Seq<char>, ActionCell)>>,
)
    requires
        keys_unique(old(action)@),
        tmap(old(action)@) == wmap(ws),
        strs(old(conflicts)@) == wconflicts(ws),
    ensures
        keys_unique(final(action)@),
        tmap(final(action)@) == wmap(ws.push(aw(s, t@, c))),
        strs(final(conflicts)@) == wconflicts(ws.push(aw(s, t@, c))),
{
    let ghost w = aw(s, t@, c);
    assert(ws.push(w).drop_last() =~= ws);
    let prev = tput(action, s, t, c);
    match prev {
        Some(old) => {
            let mut m = String::from_str("ACTION[");
            let sn = crate::text::usize_to_string(s);
            m.append(sn.as_str());
            match c.action_type {
                ActionCategory::Shift => {
                    m.append(", ");
                    m.append(t);
                    m.append("] 移入冲突：原 ");
                    let cn = category_name(old.action_type);
                    m.append(cn.as_str());
                    let on = crate::text::usize_to_string(old.id);
                    m.append(on.as_str());
                    m.append(", 新 s");
                    let nn = crate::text::usize_to_string(c.id);
                    m.append(nn.as_str());
                },
                ActionCategory::Accept => {
                    m.append(", $] 与已有 ");
                    let cn = category_name(old.action_type);
                    m.append(cn.as_str());
                    let on = crate::text::usize_to_string(old.id);
                    m.append(on.as_str());
                    m.append(" 冲突（accept）");
                },
                ActionCategory::Reduce => {
                    m.append(", ");
                    m.append(t);
                    m.append("] 与已有 ");
                    let cn = category_name(old.action_type);
                    m.append(cn.as_str());
                    let on = crate::text::usize_to_string(old.id);
                    m.append(on.as_str());
                    m.append(" 冲突（reduce r");
                    let nn = crate::text::usize_to_string(c.id);
                    m.append(nn.as_str());
                    m.append("）");
                },
            }
            assert(m@ =~= conflict_text(w, wmap(ws)[(s, t@)]));
            let ghost before = conflicts@;
            conflicts.push(m);
            assert(strs(conflicts@) =~= strs(before).push(m@));
        },
        None => {},
    }
}

/// Builds the SLR(1) parse table. Each edge on a terminal writes a shift to
/// its target into ACTION, each other edge its target into GOTO; then, state
/// by state and item by item, `S' → S·` writes accept under `$` and every
/// other complete item writes a reduce by its production under each member
/// of FOLLOW of its head. A later write to an ACTION key replaces the
/// earlier one and is recorded as a conflict.
pub fn build_lr_parse_table(dfa: &LR0DFA, grammar: &Grammar) -> (res: LRParseTable)
    requires
        grammar.wf(),
        forall|i: int, k: int| 0 <= i < dfa.item_sets@.len() && 0 <= k < dfa.item_sets@[i].items@.len()
            ==> (#[trigger] dfa.item_sets@[i].items@[k]).production_id < grammar.productions@.len(),
    ensures
        keys_unique(res.action@),
        keys_unique(res.goto@),
        tmap(res.action@) == wmap(all_writes(*grammar, *dfa)),
        tmap(res.goto@) == wmap(goto_writes(*grammar, dfa.edges@)),
        strs(res.conflicts@) == wconflicts(all_writes(*grammar, *dfa)),
{
    let ghost g = *grammar;
    let mut action: Vec<((usize, String), ActionCell)> = Vec::new();
    let mut goto: Vec<((usize, String), GotoCell)> = Vec::new();
    let mut conflicts: Vec<String> = Vec::new();
    proof {
        assert(tmap(action@) =~= Map::<(usize, Seq<char>), ActionCell>::empty());
        assert(tmap(goto@) =~= Map::<(usize, Seq<char>), GotoCell>::empty());
        assert(dfa.edges@.subrange(0, 0) =~= Seq::<TransitionEdge>::empty());
        assert(strs(conflicts@) =~= Seq::<Seq<char>>::empty());
    }
    let mut k: usize = 0;
    while k < dfa.edges.len()
        invariant
            g == *grammar,
            grammar.wf(),
            k <= dfa.edges@.len(),
            keys_unique(action@),
            keys_unique(goto@),
            tmap(action@) == wmap(shift_writes(g, dfa.edges@.subrange(0, k as int))),
            strs(conflicts@) == wconflicts(shift_writes(g, dfa.edges@.subrange(0, k as int))),
            tmap(goto@) == wmap(goto_writes(g, dfa.edges@.subrange(0, k as int))),
        decreases dfa.edges@.len() - k,
    {
        let ghost e0 = dfa.edges@.subrange(0, k as int);
        let ghost e1 = dfa.edges@.subrange(0, k + 1);
        assert(e1.drop_last() =~= e0);
        assert(e1.last() == dfa.edges@[k as int]);
        let e = &dfa.edges[k];
        if grammar.is_terminal(e.driver_symbol.as_str()) {
            let c = ActionCell { action_type: ActionCategory::Shift, id: e.to_state };
            write_action(&mut action, &mut conflicts, e.from_state, e.driver_symbol.as_str(), c,
                Ghost(shift_writes(g, e0)));
            assert(shift_writes(g, e1) =~= shift_writes(g, e0).push(aw(e.from_state, e.driver_symbol@, c)));
            assert(goto_writes(g, e1) =~= goto_writes(g, e0));
        } else {
            tput(&mut goto, e.from_state, e.driver_symbol.as_str(), GotoCell { next_state: e.to_state });
            let ghost gw = goto_writes(g, e0);
            assert(goto_writes(g, e1) =~= gw.push((e.from_state, e.driver_symbol@, GotoCell { next_state: e.to_state })));
            assert(goto_writes(g, e1).drop_last() =~= gw);
            assert(shift_writes(g, e1) =~= shift_writes(g, e0));
        }
        k = k + 1;
    }
    assert(dfa.edges@.subrange(0, k as int) =~= dfa.edges@);
    let ghost sw = shift_writes(g, dfa.edges@);
    let mut i: usize = 0;
    proof {
        assert(dfa.item_sets@.subrange(0, 0) =~= Seq::<ItemSet>::empty());
        assert(sw + sets_writes(g, dfa.item_sets@.subrange(0, 0)) =~= sw);
    }
    while i < dfa.item_sets.len()
        invariant
            g == *grammar,
            grammar.wf(),
            sw == shift_writes(g, dfa.edges@),
            i <= dfa.item_sets@.len(),
            forall|a: int, b: int| 0 <= a < dfa.item_sets@.len() && 0 <= b < dfa.item_sets@[a].items@.len()
                ==> (#[trigger] dfa.item_sets@[a].items@[b]).production_id < g.productions@.len(),
            keys_unique(action@),
            keys_unique(goto@),
            tmap(action@) == wmap(sw + sets_writes(g, dfa.item_sets@.subrange(0, i as int))),
            strs(conflicts@) == wconflicts(sw + sets_writes(g, dfa.item_sets@.subrange(0, i as int))),
            tmap(goto@) == wmap(goto_writes(g, dfa.edges@)),
        decreases dfa.item_sets@.len() - i,
    {
        let is = &dfa.item_sets[i];
        let ghost pre = sw + sets_writes(g, dfa.item_sets@.subrange(0, i as int));
        let sid = is.state_id;
        let mut k2: usize = 0;
        proof {
            assert(is.items@.subrange(0, 0) =~= Seq::<LR0Item>::empty());
            assert(pre + items_writes(g, sid, is.items@.subrange(0, 0)) =~= pre);
        }
        while k2 < is.items.len()
            invariant
                g == *grammar,
                grammar.wf(),
                is == dfa.item_sets@[i as int],
                sid == is.state_id,
                i < dfa.item_sets@.len(),
                k2 <= is.items@.len(),
                forall|b: int| 0 <= b < is.items@.len() ==> (#[trigger] is.items@[b]).production_id < g.productions@.len(),
                keys_unique(action@),
                tmap(action@) == wmap(pre + items_writes(g, sid, is.items@.subrange(0, k2 as int))),
                strs(conflicts@) == wconflicts(pre + items_writes(g, sid, is.items@.subrange(0, k2 as int))),
            decreases is.items@.len() - k2,
        {
            let item = is.items[k2];
            let ghost pre2 = pre + items_writes(g, sid, is.items@.subrange(0, k2 as int));
            let ghost i1 = is.items@.subrange(0, k2 + 1);
            assert(i1.drop_last() =~= is.items@.subrange(0, k2 as int));
            assert(i1.last() == item);
            assert(items_writes(g, sid, i1) == items_writes(g, sid, is.items@.subrange(0, k2 as int)) + item_writes(g, sid, item));
            let blen = grammar.productions[item.production_id].body.len();
            assert(blen == bodies(g.productions@)[item.production_id as int].len());
            if item.dot_position >= blen {
                if item.production_id == 0 {
                    proof {
                        reveal_strlit("$");
                        assert("$"@ =~= end_marker());
                    }
                    let c = ActionCell { action_type: ActionCategory::Accept, id: 0 };
                    write_action(&mut action, &mut conflicts, sid, "$", c, Ghost(pre2));
                    assert(pre + items_writes(g, sid, i1) =~= pre2.push(aw(sid, end_marker(), c)));
                } else {
                    let ghost h = heads(g.productions@)[item.production_id as int];
                    assert(h == grammar.productions@[item.production_id as int].head@);
                    let follow = match grammar.find_symbol(grammar.productions[item.production_id].head.as_str()) {
                        Some(j) => crate::lab2::str_set::set_copy(&grammar.symbols[j].follow_set),
                        None => Vec::new(),
                    };
                    assert(strs(follow@) == follow_seq(g, h)) by {
                        if !g.has_sym(h) {
                            assert(strs(follow@) =~= Seq::<Seq<char>>::empty());
                        }
                    }
                    let mut m: usize = 0;
                    proof {
                        assert(reduce_writes(g, sid, item, 0) =~= Seq::<(usize, Seq<char>, ActionCell)>::empty());
                        assert(pre2 + reduce_writes(g, sid, item, 0) =~= pre2);
                    }
                    while m < follow.len()
                        invariant
                            g == *grammar,
                            m <= follow@.len(),
                            h == heads(g.productions@)[item.production_id as int],
                            strs(follow@) == follow_seq(g, h),
                            keys_unique(action@),
                            tmap(action@) == wmap(pre2 + reduce_writes(g, sid, item, m as int)),
                            strs(conflicts@) == wconflicts(pre2 + reduce_writes(g, sid, item, m as int)),
                        decreases follow@.len() - m,
                    {
                        let c = ActionCell { action_type: ActionCategory::Reduce, id: item.production_id };
                        write_action(&mut action, &mut conflicts, sid, follow[m].as_str(), c,
                            Ghost(pre2 + reduce_writes(g, sid, item, m as int)));
                        proof {
                            assert(strs(follow@)[m as int] == follow@[m as int]@);
                            assert(reduce_writes(g, sid, item, m + 1) =~= reduce_writes(g, sid, item, m as int).push(aw(sid, follow@[m as int]@, c)));
                            assert(pre2 + reduce_writes(g, sid, item, m + 1) =~= (pre2 + reduce_writes(g, sid, item, m as int)).push(aw(sid, follow@[m as int]@, c)));
                        }
                        m = m + 1;
                    }
                    assert(pre + items_writes(g, sid, i1) =~= pre2 + reduce_writes(g, sid, item, m as int));
                }
            } else {
                assert(item_writes(g, sid, item) =~= Seq::<(usize, Seq<char>, ActionCell)>::empty());
                assert(pre + items_writes(g, sid, i1) =~= pre2);
            }
            k2 = k2 + 1;
        }
        proof {
            assert(is.items@.subrange(0, k2 as int) =~= is.items@);
            let s1 = dfa.item_sets@.subrange(0, i + 1);
            assert(s1.drop_last() =~= dfa.item_sets@.subrange(0, i as int));
            assert(s1.last() == *is);
            assert(sw + sets_writes(g, s1) =~= pre + items_writes(g, sid, is.items@));
        }
        i = i + 1;
    }
    assert(dfa.item_sets@.subrange(0, i as int) =~= dfa.item_sets@);
    LRParseTable { action, goto, conflicts }
}

/// FOLLOW of the symbol named `h`; empty for an unknown name.
pub open spec fn follow_set_of(g: Grammar, h: Seq<char>) -> Set<Seq<char>> {
    if g.has_sym(h) {
        members(g.sym(h).follow_set@)
    } else {
        Set::empty()
    }
}

/// Item `it` is complete: its dot is at the end.
pub open spec fn complete(g: Grammar, it: LR0Item) -> bool {
    it.dot_position >= bodies(g.productions@)[it.production_id as int].len()
}

/// The terminals right after a dot in the items.
pub open spec fn shift_terms(g: Grammar, its: Seq<LR0Item>) -> Set<Seq<char>> {
    Set::new(|t: Seq<char>| exists|k: int| 0 <= k < its.len() && #[trigger] after_dot(g, its[k], t) && g.is_t(t))
}

/// `t` stands right after the dot of `it`.
pub open spec fn after_dot(g: Grammar, it: LR0Item, t: Seq<char>) -> bool {
    let b = bodies(g.productions@)[it.production_id as int];
    it.dot_position < b.len() && b[it.dot_position as int] == t
}

/// The productions of the complete items other than `S' → S·`, in order.
pub open spec fn reduce_pids(g: Grammar, its: Seq<LR0Item>) -> Seq<usize>
    decreases its.len(),
{
    if its.len() == 0 {
        Seq::empty()
    } else {
        reduce_pids(g, its.drop_last()) + (if complete(g, its.last()) && its.last().production_id != 0 {
            seq![its.last().production_id]
        } else {
            Seq::empty()
        })
    }
}

/// The message of a shift-reduce conflict.
pub open spec fn sr_text(g: Grammar, sid: usize, r: usize, t: Seq<char>) -> Seq<char> {
    "状态 I"@ + nat_text(sid as nat) + "：移入-规约冲突（规约项 "@ + production_text(heads(g.productions@)[r as int],
        bodies(g.productions@)[r as int]) + " 与移入终结符 '"@ + t + "'）"@
}

/// Shift-reduce messages of production `r` against the terminals `st`.
pub open spec fn sr_for(g: Grammar, sid: usize, r: usize, st: Seq<Seq<char>>) -> Seq<Seq<char>>
    decreases st.len(),
{
    if st.len() == 0 {
        Seq::empty()
    } else {
        sr_for(g, sid, r, st.drop_last()) + (if follow_set_of(g, heads(g.productions@)[r as int]).contains(st.last()) {
            seq![sr_text(g, sid, r, st.last())]
        } else {
            Seq::empty()
        })
    }
}

/// Shift-reduce messages of the productions `rp` in order.
pub open spec fn sr_all(g: Grammar, sid: usize, rp: Seq<usize>, st: Seq<Seq<char>>) -> Seq<Seq<char>>
    decreases rp.len(),
{
    if rp.len() == 0 {
        Seq::empty()
    } else {
        sr_all(g, sid, rp.drop_last(), st) + sr_for(g, sid, rp.last(), st)
    }
}

/// Strings joined with `, `.
pub open spec fn joined_comma(s: Seq<Seq<char>>) -> Seq<char>
    decreases s.len(),
{
    if s.len() == 0 {
        Seq::empty()
    } else if s.len() == 1 {
        s[0]
    } else {
        joined_comma(s.drop_last()) + ", "@ + s.last()
    }
}

/// The FOLLOW sets shared by the heads of productions `p1` and `p2`, in order.
pub open spec fn follow_inter(g: Grammar, p1: usize, p2: usize) -> Seq<Seq<char>> {
    asc_seq(follow_set_of(g, heads(g.productions@)[p1 as int]).intersect(follow_set_of(g, heads(g.productions@)[p2 as int])))
}

/// The message of a reduce-reduce conflict.
pub open spec fn rr_text(sid: usize, p1: usize, p2: usize, inter: Seq<Seq<char>>) -> Seq<char> {
    "状态 I"@ + nat_text(sid as nat) + "：规约-规约冲突（产生式 "@ + nat_text(p1 as nat) + " 与 产生式 "@ + nat_text(p2 as nat)
        + "；FOLLOW 交集 {"@ + joined_comma(inter) + "}）"@
}

/// Reduce-reduce messages of `rp[i]` against `rp[i+1..j]`.
pub open spec fn rr_row(g: Grammar, sid: usize, rp: Seq<usize>, i: int, j: int) -> Seq<Seq<char>>
    decreases j - i,
{
    if j <= i + 1 {
        Seq::empty()
    } else {
        rr_row(g, sid, rp, i, j - 1) + (if follow_inter(g, rp[i], rp[j - 1]).len() > 0 {
            seq![rr_text(sid, rp[i], rp[j - 1], follow_inter(g, rp[i], rp[j - 1]))]
        } else {
            Seq::empty()
        })
    }
}

/// Reduce-reduce messages of the pairs `i < j` with `i` below `k`.
pub open spec fn rr_all(g: Grammar, sid: usize, rp: Seq<usize>, k: int) -> Seq<Seq<char>>
    decreases k,
{
    if k <= 0 {
        Seq::empty()
    } else {
        rr_all(g, sid, rp, k - 1) + rr_row(g, sid, rp, k - 1, rp.len() as int)
    }
}

/// The conflict messages of one state.
pub open spec fn state_conflicts(g: Grammar, s: ItemSet) -> Seq<Seq<char>> {
    let rp = reduce_pids(g, s.items@);
    sr_all(g, s.state_id, rp, asc_seq(shift_terms(g, s.items@))) + rr_all(g, s.state_id, rp, rp.len() as int)
}

/// The conflict messages of the states, in order.
pub open spec fn slr_conflicts(g: Grammar, sets: Seq<ItemSet>) -> Seq<Seq<char>>
    decreases sets.len(),
{
    if sets.len() == 0 {
        Seq::empty()
    } else {
        slr_conflicts(g, sets.drop_last()) + state_conflicts(g, sets.last())
    }
}

/// The members of `a` that lie in `b`, in order.
pub open spec fn keep_in(a: Seq<Seq<char>>, b: Set<Seq<char>>) -> Seq<Seq<char>>
    decreases a.len(),
{
    if a.len() == 0 {
        Seq::empty()
    } else {
        keep_in(a.drop_last(), b) + (if b.contains(a.last()) { seq![a.last()] } else { Seq::empty() })
    }
}

/// The members of ascending `a` that lie in `b`, in order: again ascending.
proof fn lemma_filter_ascending(a: Seq<Seq<char>>, b: Set<Seq<char>>)
    requires
        ascending(a),
    ensures
        ascending(keep_in(a, b)),
        keep_in(a, b).to_set() == a.to_set().intersect(b),
        forall|k: int|
            0 <= k < keep_in(a, b).len() ==> a.contains(#[trigger] keep_in(a, b)[k]),
    decreases a.len(),
{
    let f = keep_in(a, b);
    if a.len() == 0 {
        assert(f =~= Seq::<Seq<char>>::empty());
        assert(a.to_set().intersect(b) =~= Set::<Seq<char>>::empty());
    } else {
        let d = a.drop_last();
        assert(ascending(d)) by {
            assert forall|i: int, j: int| 0 <= i < j < d.len() implies crate::text::lex_less(#[trigger] d[i], #[trigger] d[j]) by {
                assert(d[i] == a[i] && d[j] == a[j]);
            }
        }
        lemma_filter_ascending(d, b);
        let fd = keep_in(d, b);
        assert(f == fd + (if b.contains(a.last()) { seq![a.last()] } else { Seq::empty() }));
        assert forall|k: int| 0 <= k < f.len() implies a.contains(#[trigger] f[k]) by {
            if k < fd.len() {
                assert(f[k] == fd[k]);
                assert(d.contains(fd[k]));
                let p = choose|p: int| 0 <= p < d.len() && d[p] == fd[k];
                assert(a[p] == d[p]);
            } else {
                assert(f[k] == a[a.len() - 1]);
            }
        }
        assert forall|i: int, j: int| 0 <= i < j < f.len() implies crate::text::lex_less(#[trigger] f[i], #[trigger] f[j]) by {
            if j < fd.len() {
                assert(f[i] == fd[i] && f[j] == fd[j]);
            } else {
                assert(f[i] == fd[i]);
                assert(d.contains(fd[i]));
                let p = choose|p: int| 0 <= p < d.len() && d[p] == fd[i];
                assert(a[p] == d[p]);
                assert(f[j] == a[a.len() - 1]);
            }
        }
        assert(a.to_set().intersect(b) =~= f.to_set()) by {
            assert forall|x: Seq<char>| #[trigger] f.to_set().contains(x) implies a.to_set().contains(x) && b.contains(x) by {
                let k = choose|k: int| 0 <= k < f.len() && f[k] == x;
                if k < fd.len() {
                    assert(fd[k] == x);
                    assert(d.contains(x));
                    let p = choose|p: int| 0 <= p < d.len() && d[p] == x;
                    assert(a[p] == x);
                    assert(fd.to_set().contains(x));
                } else {
                    assert(x == a.last());
                    assert(a[a.len() - 1] == x);
                }
            }
            assert forall|x: Seq<char>| a.to_set().contains(x) && b.contains(x) implies #[trigger] f.to_set().contains(x) by {
                let p = choose|p: int| 0 <= p < a.len() && a[p] == x;
                if p < a.len() - 1 {
                    assert(d[p] == x);
                    assert(d.to_set().contains(x));
                    assert(fd.to_set().contains(x));
                    let k = choose|k: int| 0 <= k < fd.len() && fd[k] == x;
                    assert(f[k] == x);
                } else {
                    assert(f[f.len() - 1] == x);
                }
            }
        }
    }
}

/// Productions whose heads' FOLLOW sets share a terminal `t` have a
/// non-empty shared list.
proof fn lemma_follow_inter_nonempty(g: Grammar, p1: usize, p2: usize, t: Seq<char>)
    requires
        g.wf(),
        follow_set_of(g, heads(g.productions@)[p1 as int]).contains(t),
        follow_set_of(g, heads(g.productions@)[p2 as int]).contains(t),
    ensures
        follow_inter(g, p1, p2).len() > 0,
{
    let h1 = heads(g.productions@)[p1 as int];
    let h2 = heads(g.productions@)[p2 as int];
    let s1 = follow_set_of(g, h1);
    let s2 = follow_set_of(g, h2);
    let i1 = crate::lab2::types::index_of_name(g.symbols@, h1);
    assert(crate::lab2::types::sym_wf(g.symbols@[i1]));
    let a = strs(g.sym(h1).follow_set@);
    assert(ascending(a));
    assert(s1 == a.to_set());
    lemma_filter_ascending(a, s2);
    let q = keep_in(a, s2);
    assert(q.to_set() == s1.intersect(s2));
    let r = asc_seq(s1.intersect(s2));
    assert(ascending(r) && r.to_set() == s1.intersect(s2));
    assert(r.to_set().contains(t));
}

/// Messages of the states are kept as more states follow.
proof fn lemma_slr_conflicts_len(g: Grammar, sets: Seq<ItemSet>, a: int)
    requires
        0 <= a < sets.len(),
    ensures
        slr_conflicts(g, sets).len() >= state_conflicts(g, sets[a]).len(),
    decreases sets.len(),
{
    if a < sets.len() - 1 {
        lemma_slr_conflicts_len(g, sets.drop_last(), a);
    }
}

proof fn lemma_rr_row_len(g: Grammar, sid: usize, rp: Seq<usize>, i: int, m: int, j: int)
    requires
        0 <= i < m < j <= rp.len(),
        follow_inter(g, rp[i], rp[m]).len() > 0,
    ensures
        rr_row(g, sid, rp, i, j).len() > 0,
    decreases j - i,
{
    if m < j - 1 {
        lemma_rr_row_len(g, sid, rp, i, m, j - 1);
    }
}

proof fn lemma_rr_all_len(g: Grammar, sid: usize, rp: Seq<usize>, i: int, k: int)
    requires
        0 <= i < k,
        rr_row(g, sid, rp, i, rp.len() as int).len() > 0,
    ensures
        rr_all(g, sid, rp, k).len() > 0,
    decreases k,
{
    if i < k - 1 {
        lemma_rr_all_len(g, sid, rp, i, k - 1);
    }
}

/// A complete item (other than `S' → S·`) has its production among the
/// reduce productions, and two such items keep their order there.
proof fn lemma_reduce_pids_pair(g: Grammar, its: Seq<LR0Item>, x: int, y: int)
    requires
        0 <= x < y < its.len(),
        complete(g, its[x]) && its[x].production_id != 0,
        complete(g, its[y]) && its[y].production_id != 0,
    ensures
        exists|i: int, j: int|
            0 <= i < j < reduce_pids(g, its).len() && reduce_pids(g, its)[i] == its[x].production_id && reduce_pids(g, its)[j]
                == its[y].production_id,
    decreases its.len(),
{
    let d = its.drop_last();
    let rd = reduce_pids(g, d);
    let r = reduce_pids(g, its);
    if y == its.len() - 1 {
        lemma_reduce_pids_one(g, d, x);
        let i = choose|i: int| 0 <= i < rd.len() && rd[i] == its[x].production_id;
        assert(d[x] == its[x]);
        assert(r == rd + seq![its.last().production_id]);
        assert(r[i] == rd[i]);
        assert(r[rd.len() as int] == its[y].production_id);
    } else {
        assert(d[x] == its[x] && d[y] == its[y]);
        lemma_reduce_pids_pair(g, d, x, y);
        let (i, j) = choose|i: int, j: int|
            0 <= i < j < rd.len() && rd[i] == d[x].production_id && rd[j] == d[y].production_id;
        assert(r[i] == rd[i] && r[j] == rd[j]);
    }
}

proof fn lemma_reduce_pids_one(g: Grammar, its: Seq<LR0Item>, x: int)
    requires
        0 <= x < its.len(),
        complete(g, its[x]) && its[x].production_id != 0,
    ensures
        exists|i: int| 0 <= i < reduce_pids(g, its).len() && reduce_pids(g, its)[i] == its[x].production_id,
    decreases its.len(),
{
    let d = its.drop_last();
    let rd = reduce_pids(g, d);
    let r = reduce_pids(g, its);
    if x == its.len() - 1 {
        assert(r[rd.len() as int] == its[x].production_id);
    } else {
        assert(d[x] == its[x]);
        lemma_reduce_pids_one(g, d, x);
        let i = choose|i: int| 0 <= i < rd.len() && rd[i] == d[x].production_id;
        assert(r[i] == rd[i]);
    }
}

/// In state `s`, complete item `x` (other than `S' → S·`) meets item `y`
/// whose dot stands before a terminal that is in FOLLOW of `x`'s head: a
/// shift-reduce clash.
pub open spec fn sr_clash(g: Grammar, s: ItemSet, x: int, y: int) -> bool {
    let its = s.items@;
    &&& 0 <= x < its.len()
    &&& 0 <= y < its.len()
    &&& complete(g, its[x])
    &&& its[x].production_id != 0
    &&& {
        let b = bodies(g.productions@)[its[y].production_id as int];
        let t = b[its[y].dot_position as int];
        &&& its[y].dot_position < b.len()
        &&& g.is_t(t)
        &&& follow_set_of(g, heads(g.productions@)[its[x].production_id as int]).contains(t)
    }
}

proof fn lemma_sr_for_len(g: Grammar, sid: usize, r: usize, st: Seq<Seq<char>>, m: int)
    requires
        0 <= m < st.len(),
        follow_set_of(g, heads(g.productions@)[r as int]).contains(st[m]),
    ensures
        sr_for(g, sid, r, st).len() > 0,
    decreases st.len(),
{
    if m < st.len() - 1 {
        assert(st.drop_last()[m] == st[m]);
        lemma_sr_for_len(g, sid, r, st.drop_last(), m);
    }
}

proof fn lemma_sr_all_len(g: Grammar, sid: usize, rp: Seq<usize>, st: Seq<Seq<char>>, i: int)
    requires
        0 <= i < rp.len(),
        sr_for(g, sid, rp[i], st).len() > 0,
    ensures
        sr_all(g, sid, rp, st).len() > 0,
    decreases rp.len(),
{
    if i < rp.len() - 1 {
        assert(rp.drop_last()[i] == rp[i]);
        lemma_sr_all_len(g, sid, rp.drop_last(), st, i);
    }
}

/// A reduce-reduce conflict is never missed: where a state holds two
/// complete items (other than `S' → S·`) whose heads' FOLLOW sets share a
/// terminal `t`, the SLR(1) check reports a conflict.
pub proof fn lemma_shared_follow_is_conflict(g: Grammar, sets: Seq<ItemSet>, a: int, x: int, y: int, t: Seq<char>)
    requires
        g.wf(),
        0 <= a < sets.len(),
        0 <= x < y < sets[a].items@.len(),
        complete(g, sets[a].items@[x]) && sets[a].items@[x].production_id != 0,
        complete(g, sets[a].items@[y]) && sets[a].items@[y].production_id != 0,
        follow_set_of(g, heads(g.productions@)[sets[a].items@[x].production_id as int]).contains(t),
        follow_set_of(g, heads(g.productions@)[sets[a].items@[y].production_id as int]).contains(t),
    ensures
        slr_conflicts(g, sets).len() > 0,
{
    let its = sets[a].items@;
    let rp = reduce_pids(g, its);
    lemma_reduce_pids_pair(g, its, x, y);
    let (i, j) = choose|i: int, j: int| 0 <= i < j < rp.len() && rp[i] == its[x].production_id && rp[j] == its[y].production_id;
    lemma_follow_inter_nonempty(g, rp[i], rp[j], t);
    lemma_rr_row_len(g, sets[a].state_id, rp, i, j, rp.len() as int);
    lemma_rr_all_len(g, sets[a].state_id, rp, i, rp.len() as int);
    lemma_slr_conflicts_len(g, sets, a);
}

/// FOLLOW of the head of production `p`, as a string set.
fn head_follow(grammar: &Grammar, p: usize) -> (res: Vec<String>)
    requires
        grammar.wf(),
        p < grammar.productions@.len(),
    ensures
        is_str_set(res@),
        members(res@) == follow_set_of(*grammar, heads(grammar.productions@)[p as int]),
{
    let ghost h = heads(grammar.productions@)[p as int];
    assert(h == grammar.productions@[p as int].head@);
    match grammar.find_symbol(grammar.productions[p].head.as_str()) {
        Some(j) => {
            assert(crate::lab2::types::sym_wf(grammar.symbols@[j as int]));
            crate::lab2::str_set::set_copy(&grammar.symbols[j].follow_set)
        },
        None => new_set(),
    }
}

/// The shift-reduce messages of one state.
fn state_sr(grammar: &Grammar, sid: usize, rp: &Vec<usize>, st: &Vec<String>) -> (res: Vec<String>)
    requires
        grammar.wf(),
        forall|k: int| 0 <= k < rp@.len() ==> (#[trigger] rp@[k]) < grammar.productions@.len(),
    ensures
        strs(res@) == sr_all(*grammar, sid, rp@, strs(st@)),
{
    let ghost g = *grammar;
    let mut out: Vec<String> = Vec::new();
    let mut a: usize = 0;
    assert(strs(out@) =~= sr_all(g, sid, rp@.subrange(0, 0), strs(st@)));
    while a < rp.len()
        invariant
            g == *grammar,
            grammar.wf(),
            a <= rp@.len(),
            forall|k: int| 0 <= k < rp@.len() ==> (#[trigger] rp@[k]) < g.productions@.len(),
            strs(out@) == sr_all(g, sid, rp@.subrange(0, a as int), strs(st@)),
        decreases rp@.len() - a,
    {
        let r = rp[a];
        let follow = head_follow(grammar, r);
        let ghost base = strs(out@);
        let mut b: usize = 0;
        assert(strs(out@) =~= base + sr_for(g, sid, r, strs(st@).subrange(0, 0)));
        while b < st.len()
            invariant
                g == *grammar,
                grammar.wf(),
                r < g.productions@.len(),
                b <= st@.len(),
                members(follow@) == follow_set_of(g, heads(g.productions@)[r as int]),
                strs(out@) == base + sr_for(g, sid, r, strs(st@).subrange(0, b as int)),
            decreases st@.len() - b,
        {
            let ghost s1 = strs(st@).subrange(0, b + 1);
            assert(s1.drop_last() =~= strs(st@).subrange(0, b as int));
            assert(s1.last() == st@[b as int]@);
            if set_contains(&follow, st[b].as_str()) {
                let mut m = String::from_str("状态 I");
                let sn = crate::text::usize_to_string(sid);
                m.append(sn.as_str());
                m.append("：移入-规约冲突（规约项 ");
                let fp = fmt_production(&grammar.productions[r]);
                m.append(fp.as_str());
                m.append(" 与移入终结符 '");
                m.append(st[b].as_str());
                m.append("'）");
                proof {
                    assert(heads(g.productions@)[r as int] == g.productions@[r as int].head@);
                    assert(bodies(g.productions@)[r as int] == strs(g.productions@[r as int].body@));
                    assert(m@ =~= sr_text(g, sid, r, st@[b as int]@));
                }
                let ghost before = strs(out@);
                out.push(m);
                assert(strs(out@) =~= before.push(m@));
            }
            b = b + 1;
            assert(strs(out@) =~= base + sr_for(g, sid, r, strs(st@).subrange(0, b as int)));
        }
        a = a + 1;
        proof {
            let r1 = rp@.subrange(0, a as int);
            assert(r1.drop_last() =~= rp@.subrange(0, a - 1));
            assert(strs(st@).subrange(0, b as int) =~= strs(st@));
            assert(strs(out@) =~= sr_all(g, sid, r1, strs(st@)));
        }
    }
    assert(rp@.subrange(0, a as int) =~= rp@);
    out
}

/// `s` joined with `, `.
pub fn join_comma(s: &Vec<String>) -> (res: String)
    ensures
        res@ == joined_comma(strs(s@)),
{
    let mut res = String::new();
    let mut i: usize = 0;
    while i < s.len()
        invariant
            i <= s@.len(),
            res@ == joined_comma(strs(s@).subrange(0, i as int)),
        decreases s@.len() - i,
    {
        let ghost sub = strs(s@).subrange(0, i as int);
        if i > 0 {
            res.append(", ");
        }
        res.append(s[i].as_str());
        i = i + 1;
        proof {
            let sub2 = strs(s@).subrange(0, i as int);
            assert(sub2.drop_last() =~= sub);
            assert(sub2.last() == s@[i - 1]@);
            if i == 1 {
                assert(sub =~= Seq::<Seq<char>>::empty());
            }
        }
    }
    assert(strs(s@).subrange(0, i as int) =~= strs(s@));
    res
}

/// The reduce-reduce messages of one state.
fn state_rr(grammar: &Grammar, sid: usize, rp: &Vec<usize>) -> (res: Vec<String>)
    requires
        grammar.wf(),
        forall|k: int| 0 <= k < rp@.len() ==> (#[trigger] rp@[k]) < grammar.productions@.len(),
    ensures
        strs(res@) == rr_all(*grammar, sid, rp@, rp@.len() as int),
{
    let ghost g = *grammar;
    let mut out: Vec<String> = Vec::new();
    let mut i: usize = 0;
    while i < rp.len()
        invariant
            g == *grammar,
            grammar.wf(),
            i <= rp@.len(),
            forall|k: int| 0 <= k < rp@.len() ==> (#[trigger] rp@[k]) < g.productions@.len(),
            strs(out@) == rr_all(g, sid, rp@, i as int),
        decreases rp@.len() - i,
    {
        let ghost base = strs(out@);
        let mut j: usize = i + 1;
        while j < rp.len()
            invariant
                g == *grammar,
                grammar.wf(),
                i < rp@.len(),
                i + 1 <= j <= rp@.len(),
                forall|k: int| 0 <= k < rp@.len() ==> (#[trigger] rp@[k]) < g.productions@.len(),
                strs(out@) == base + rr_row(g, sid, rp@, i as int, j as int),
            decreases rp@.len() - j,
        {
            let p1 = rp[i];
            let p2 = rp[j];
            let f1 = head_follow(grammar, p1);
            let f2 = head_follow(grammar, p2);
            let mut inter: Vec<String> = Vec::new();
            let mut q: usize = 0;
            while q < f1.len()
                invariant
                    q <= f1@.len(),
                    is_str_set(f1@),
                    crate::lab2::str_set::ascending(strs(inter@)),
                    forall|x: int| 0 <= x < inter@.len() ==> exists|y: int| 0 <= y < q && strs(f1@)[y] == #[trigger] strs(inter@)[x],
                    inter@.len() > 0 ==> exists|y: int| 0 <= y < q && strs(f1@)[y] == strs(inter@).last(),
                    members(inter@) == strs(f1@).subrange(0, q as int).to_set().intersect(members(f2@)),
                decreases f1@.len() - q,
            {
                let ghost sub = strs(f1@).subrange(0, q as int);
                proof {
                    assert(strs(f1@).subrange(0, q + 1) =~= sub.push(strs(f1@)[q as int]));
                    sub.lemma_push_to_set_commute(strs(f1@)[q as int]);
                }
                if set_contains(&f2, f1[q].as_str()) {
                    let ghost before = strs(inter@);
                    inter.push(f1[q].clone());
                    proof {
                        assert(strs(inter@) =~= before.push(f1@[q as int]@));
                        assert(strs(f1@)[q as int] == f1@[q as int]@);
                        assert forall|a: int, b: int| 0 <= a < b < strs(inter@).len() implies
                            crate::text::lex_less(#[trigger] strs(inter@)[a], #[trigger] strs(inter@)[b]) by {
                            if b == strs(inter@).len() - 1 {
                                let ya = choose|y: int| 0 <= y < q && strs(f1@)[y] == strs(inter@)[a];
                                assert(crate::text::lex_less(strs(f1@)[ya], strs(f1@)[q as int]));
                            } else {
                                assert(strs(inter@)[a] == before[a] && strs(inter@)[b] == before[b]);
                            }
                        }
                        assert forall|x: int| 0 <= x < inter@.len() implies exists|y: int| 0 <= y < q + 1 && strs(f1@)[y] == #[trigger] strs(inter@)[x] by {
                            if x < before.len() {
                                assert(strs(inter@)[x] == before[x]);
                            } else {
                                assert(strs(f1@)[q as int] == strs(inter@)[x]);
                            }
                        }
                        assert(strs(f1@)[q as int] == strs(inter@).last());
                        before.lemma_push_to_set_commute(f1@[q as int]@);
                        assert(members(inter@) =~= strs(f1@).subrange(0, q + 1).to_set().intersect(members(f2@)));
                    }
                } else {
                    proof {
                        assert(members(inter@) =~= strs(f1@).subrange(0, q + 1).to_set().intersect(members(f2@)));
                    }
                }
                q = q + 1;
            }
            proof {
                assert(strs(f1@).subrange(0, q as int) =~= strs(f1@));
                let is = members(inter@);
                assert(is == follow_set_of(g, heads(g.productions@)[p1 as int]).intersect(
                    follow_set_of(g, heads(g.productions@)[p2 as int])));
                assert(crate::lab2::str_set::ascending(strs(inter@)) && strs(inter@).to_set() == is);
                crate::lab2::str_set::lemma_ascending_unique(asc_seq(is), strs(inter@));
                assert(follow_inter(g, p1, p2) == strs(inter@));
            }
            if inter.len() > 0 {
                let mut m = String::from_str("状态 I");
                let sn = crate::text::usize_to_string(sid);
                m.append(sn.as_str());
                m.append("：规约-规约冲突（产生式 ");
                let n1 = crate::text::usize_to_string(p1);
                m.append(n1.as_str());
                m.append(" 与 产生式 ");
                let n2 = crate::text::usize_to_string(p2);
                m.append(n2.as_str());
                m.append("；FOLLOW 交集 {");
                let js = join_comma(&inter);
                m.append(js.as_str());
                m.append("}）");
                assert(m@ =~= rr_text(sid, p1, p2, follow_inter(g, p1, p2)));
                let ghost before = strs(out@);
                out.push(m);
                assert(strs(out@) =~= before.push(m@));
            }
            j = j + 1;
            assert(strs(out@) =~= base + rr_row(g, sid, rp@, i as int, j as int));
        }
        i = i + 1;
        assert(strs(out@) =~= rr_all(g, sid, rp@, i as int));
    }
    out
}

/// Appends copies of the strings of `src` to `dst`.
fn extend_strings(dst: &mut Vec<String>, src: &Vec<String>)
    ensures
        strs(final(dst)@) == strs(old(dst)@) + strs(src@),
{
    let ghost d0 = strs(dst@);
    let mut i: usize = 0;
    while i < src.len()
        invariant
            i <= src@.len(),
            d0 == strs(old(dst)@),
            strs(dst@) == d0 + strs(src@).subrange(0, i as int),
        decreases src@.len() - i,
    {
        let ghost before = dst@;
        let c = src[i].clone();
        assert(c@ == src@[i as int]@);
        dst.push(c);
        proof {
            assert(dst@ == before.push(c));
            assert(strs(dst@) =~= strs(before).push(c@));
            assert(strs(src@).subrange(0, i + 1) =~= strs(src@).subrange(0, i as int).push(src@[i as int]@));
        }
        i = i + 1;
        assert(strs(dst@) =~= d0 + strs(src@).subrange(0, i as int));
    }
    assert(strs(src@).subrange(0, i as int) =~= strs(src@));
}

/// Checks the SLR(1) condition state by state: for each production of a
/// complete item (other than `S' → S·`), in item order, a shift-reduce
/// conflict with each terminal after a dot in the state (ascending) that is
/// in FOLLOW of its head; then, for each pair of such productions in order, a
/// reduce-reduce conflict where the FOLLOW sets of their heads meet. The
/// grammar is SLR(1) where there is none.
pub fn check_slr1(dfa: &LR0DFA, grammar: &Grammar) -> (res: (bool, Vec<String>))
    requires
        grammar.wf(),
        forall|i: int, k: int| 0 <= i < dfa.item_sets@.len() && 0 <= k < dfa.item_sets@[i].items@.len()
            ==> (#[trigger] dfa.item_sets@[i].items@[k]).production_id < grammar.productions@.len(),
    ensures
        strs(res.1@) == slr_conflicts(*grammar, dfa.item_sets@),
        res.0 == (res.1@.len() == 0),
        res.0 ==> forall|a: int, x: int, y: int|
            0 <= a < dfa.item_sets@.len() && 0 <= x < y < dfa.item_sets@[a].items@.len() && complete(
                *grammar,
                #[trigger] dfa.item_sets@[a].items@[x],
            ) && dfa.item_sets@[a].items@[x].production_id != 0 && complete(*grammar, #[trigger] dfa.item_sets@[a].items@[y])
                && dfa.item_sets@[a].items@[y].production_id != 0 ==> follow_set_of(
                *grammar,
                heads(grammar.productions@)[dfa.item_sets@[a].items@[x].production_id as int],
            ).disjoint(follow_set_of(*grammar, heads(grammar.productions@)[dfa.item_sets@[a].items@[y].production_id as int])),
        res.0 ==> forall|a: int, x: int, y: int| 0 <= a < dfa.item_sets@.len() ==> !#[trigger] sr_clash(*grammar, dfa.item_sets@[a], x, y),
{
    let ghost g = *grammar;
    let mut conflicts: Vec<String> = Vec::new();
    let mut i: usize = 0;
    assert(strs(conflicts@) =~= slr_conflicts(g, dfa.item_sets@.subrange(0, 0)));
    while i < dfa.item_sets.len()
        invariant
            g == *grammar,
            grammar.wf(),
            i <= dfa.item_sets@.len(),
            forall|a: int, b: int| 0 <= a < dfa.item_sets@.len() && 0 <= b < dfa.item_sets@[a].items@.len()
                ==> (#[trigger] dfa.item_sets@[a].items@[b]).production_id < g.productions@.len(),
            strs(conflicts@) == slr_conflicts(g, dfa.item_sets@.subrange(0, i as int)),
            forall|a: int, x: int, y: int| 0 <= a < i && #[trigger] sr_clash(g, dfa.item_sets@[a], x, y) ==> conflicts@.len() > 0,
        decreases dfa.item_sets@.len() - i,
    {
        let is = &dfa.item_sets[i];
        let mut st = new_set();
        let mut rp: Vec<usize> = Vec::new();
        let mut k: usize = 0;
        while k < is.items.len()
            invariant
                g == *grammar,
                grammar.wf(),
                is == dfa.item_sets@[i as int],
                k <= is.items@.len(),
                forall|b: int| 0 <= b < is.items@.len() ==> (#[trigger] is.items@[b]).production_id < g.productions@.len(),
                is_str_set(st@),
                members(st@) == shift_terms(g, is.items@.subrange(0, k as int)),
                rp@ == reduce_pids(g, is.items@.subrange(0, k as int)),
                forall|q: int| 0 <= q < rp@.len() ==> (#[trigger] rp@[q]) < g.productions@.len(),
            decreases is.items@.len() - k,
        {
            let item = is.items[k];
            let ghost i0 = is.items@.subrange(0, k as int);
            let ghost i1 = is.items@.subrange(0, k + 1);
            assert(i1.drop_last() =~= i0);
            assert(i1.last() == item);
            let ghost b = bodies(g.productions@)[item.production_id as int];
            assert(b == strs(grammar.productions@[item.production_id as int].body@));
            let blen = grammar.productions[item.production_id].body.len();
            if item.dot_position < blen {
                let x = grammar.productions[item.production_id].body[item.dot_position].clone();
                assert(x@ == b[item.dot_position as int]);
                if grammar.is_terminal(x.as_str()) {
                    set_insert(&mut st, x.as_str());
                    proof {
                        assert(after_dot(g, i1[k as int], x@));
                        assert forall|t: Seq<char>| members(st@).contains(t) <==> shift_terms(g, i1).contains(t) by {
                            if shift_terms(g, i1).contains(t) {
                                let q = choose|q: int| 0 <= q < i1.len() && #[trigger] after_dot(g, i1[q], t) && g.is_t(t);
                                if q < k {
                                    assert(i0[q] == i1[q]);
                                    assert(shift_terms(g, i0).contains(t));
                                }
                            }
                            if shift_terms(g, i0).contains(t) {
                                let q = choose|q: int| 0 <= q < i0.len() && #[trigger] after_dot(g, i0[q], t) && g.is_t(t);
                                assert(i1[q] == i0[q]);
                            }
                        }
                        assert(members(st@) =~= shift_terms(g, i1));
                    }
                } else {
                    proof {
                        assert forall|t: Seq<char>| members(st@).contains(t) <==> shift_terms(g, i1).contains(t) by {
                            if shift_terms(g, i1).contains(t) {
                                let q = choose|q: int| 0 <= q < i1.len() && #[trigger] after_dot(g, i1[q], t) && g.is_t(t);
                                if q < k {
                                    assert(i0[q] == i1[q]);
                                    assert(shift_terms(g, i0).contains(t));
                                }
                            }
                            if shift_terms(g, i0).contains(t) {
                                let q = choose|q: int| 0 <= q < i0.len() && #[trigger] after_dot(g, i0[q], t) && g.is_t(t);
                                assert(i1[q] == i0[q]);
                            }
                        }
                        assert(members(st@) =~= shift_terms(g, i1));
                    }
                }
                assert(rp@ =~= reduce_pids(g, i1));
            } else {
                if item.production_id != 0 {
                    rp.push(item.production_id);
                }
                proof {
                    assert(rp@ =~= reduce_pids(g, i1));
                    assert forall|t: Seq<char>| members(st@).contains(t) <==> shift_terms(g, i1).contains(t) by {
                        if shift_terms(g, i1).contains(t) {
                            let q = choose|q: int| 0 <= q < i1.len() && #[trigger] after_dot(g, i1[q], t) && g.is_t(t);
                            if q < k {
                                assert(i0[q] == i1[q]);
                                assert(shift_terms(g, i0).contains(t));
                            }
                        }
                        if shift_terms(g, i0).contains(t) {
                            let q = choose|q: int| 0 <= q < i0.len() && #[trigger] after_dot(g, i0[q], t) && g.is_t(t);
                            assert(i1[q] == i0[q]);
                        }
                    }
                    assert(members(st@) =~= shift_terms(g, i1));
                }
            }
            k = k + 1;
        }
        proof {
            assert(is.items@.subrange(0, k as int) =~= is.items@);
            lemma_asc_seq(st@);
        }
        let sr = state_sr(grammar, is.state_id, &rp, &st);
        let rr = state_rr(grammar, is.state_id, &rp);
        let ghost before = conflicts@.len();
        extend_strings(&mut conflicts, &sr);
        extend_strings(&mut conflicts, &rr);
        proof {
            let s1 = dfa.item_sets@.subrange(0, i + 1);
            assert(s1.drop_last() =~= dfa.item_sets@.subrange(0, i as int));
            assert(s1.last() == *is);
            assert(strs(conflicts@) =~= slr_conflicts(g, s1));
            assert(strs(conflicts@).len() == conflicts@.len());
            let prev = slr_conflicts(g, dfa.item_sets@.subrange(0, i as int));
            assert(conflicts@.len() == prev.len() + state_conflicts(g, *is).len());
            assert forall|a: int, x: int, y: int| 0 <= a < i + 1 && #[trigger] sr_clash(g, dfa.item_sets@[a], x, y) implies conflicts@.len()
                > 0 by {
                if a == i {
                    let its = is.items@;
                    let b = bodies(g.productions@)[its[y].production_id as int];
                    let t = b[its[y].dot_position as int];
                    assert(after_dot(g, its[y], t));
                    assert(its.subrange(0, its.len() as int) =~= its);
                    assert(shift_terms(g, its).contains(t));
                    let stl = asc_seq(shift_terms(g, its));
                    assert(stl == strs(st@));
                    assert(strs(st@).to_set().contains(t));
                    let m = choose|m: int| 0 <= m < stl.len() && stl[m] == t;
                    lemma_reduce_pids_one(g, its, x);
                    let rpv = reduce_pids(g, its);
                    let ri = choose|ri: int| 0 <= ri < rpv.len() && rpv[ri] == its[x].production_id;
                    lemma_sr_for_len(g, is.state_id, rpv[ri], stl, m);
                    lemma_sr_all_len(g, is.state_id, rpv, stl, ri);
                }
            }
        }
        i = i + 1;
    }
    assert(dfa.item_sets@.subrange(0, i as int) =~= dfa.item_sets@);
    let ok = conflicts.len() == 0;
    proof {
        let sets = dfa.item_sets@;
        assert forall|a: int, x: int, y: int|
            0 <= a < sets.len() && 0 <= x < y < sets[a].items@.len() && complete(g, #[trigger] sets[a].items@[x])
                && sets[a].items@[x].production_id != 0 && complete(g, #[trigger] sets[a].items@[y]) && sets[a].items@[y].production_id
                != 0 && ok implies follow_set_of(g, heads(g.productions@)[sets[a].items@[x].production_id as int]).disjoint(
            follow_set_of(g, heads(g.productions@)[sets[a].items@[y].production_id as int]),
        ) by {
            let fx = follow_set_of(g, heads(g.productions@)[sets[a].items@[x].production_id as int]);
            let fy = follow_set_of(g, heads(g.productions@)[sets[a].items@[y].production_id as int]);
            if !fx.disjoint(fy) {
                let t = choose|t: Seq<char>| fx.contains(t) && fy.contains(t);
                lemma_shared_follow_is_conflict(g, sets, a, x, y, t);
                assert(strs(conflicts@).len() == conflicts@.len());
            }
        }
    }
    proof {
        assert(strs(conflicts@).len() == conflicts@.len());
    }
    (ok, conflicts)
}
} // verus!
