//! Shrinking an NFA: removing epsilon edges, dropping states that are not
//! both reachable and productive, and merging equivalent states.
use vstd::prelude::*;
use std::collections::HashSet;
use crate::lab1::graph::{
    contains_i32_pub, lemma_view_edges_push, lemma_view_states_push, view_edges, view_states, Edge, EdgeV, Graph,
    GraphCounter, State, StateV,
};
use crate::lab1::dfa::{pick_preferred_category_from_ids, pref_scan, set_has_match, set_matches, views};
use crate::lab1::graph::{is_eps, match_text, unmatch_text};
use crate::lab1::subset::is_eps_closure;
use crate::text::{set_to_vec, str_eq};

verus! {

broadcast use vstd::std_specs::hash::group_hash_axioms;

/// Position of the last occurrence of `x` in `s`, or -1.
pub open spec fn pos_of(s: Seq<i32>, x: i32) -> int
    decreases s.len(),
{
    if s.len() == 0 {
        -1
    } else if s.last() == x {
        s.len() - 1
    } else {
        pos_of(s.drop_last(), x)
    }
}

/// The positions `0..n` held by `keep`, in increasing order.
pub open spec fn kept_ids(n: int, keep: Set<i32>) -> Seq<i32>
    decreases n,
{
    if n <= 0 {
        Seq::empty()
    } else {
        let r = kept_ids(n - 1, keep);
        if keep.contains((n - 1) as i32) {
            r.push((n - 1) as i32)
        } else {
            r
        }
    }
}

/// The states at the positions in `ordered`, renumbered by their place there.
pub open spec fn rebuild_states(st: Seq<StateV>, ordered: Seq<i32>) -> Seq<StateV> {
    Seq::new(ordered.len(), |k: int| (k as i32, st[ordered[k] as int].1, st[ordered[k] as int].2))
}

/// The first `k` edges between kept states, renumbered, each kept once.
pub open spec fn rebuild_edges(e: Seq<EdgeV>, ordered: Seq<i32>, k: int) -> Seq<EdgeV>
    decreases k,
{
    if k <= 0 {
        Seq::empty()
    } else {
        let prev = rebuild_edges(e, ordered, k - 1);
        let ed = e[k - 1];
        if ordered.contains(ed.0) && ordered.contains(ed.1) {
            let c = (pos_of(ordered, ed.0) as i32, pos_of(ordered, ed.1) as i32, ed.2, ed.3);
            if prev.contains(c) {
                prev
            } else {
                prev.push(c)
            }
        } else {
            prev
        }
    }
}

/// Whether `c` is among `edges`.
fn edge_list_contains(edges: &Vec<Edge>, c: &Edge) -> (res: bool)
    ensures
        res == view_edges(edges@).contains(c@),
{
    let ghost v = view_edges(edges@);
    let mut i: usize = 0;
    while i < edges.len()
        invariant
            i <= edges@.len(),
            v == view_edges(edges@),
            forall|j: int| 0 <= j < i ==> v[j] != c@,
        decreases edges@.len() - i,
    {
        let ed = &edges[i];
        assert(v[i as int] == ed@);
        if ed.fromState == c.fromState && ed.nextState == c.nextState && ed.driverId == c.driverId && str_eq(
            ed.DriverType.as_str(),
            c.DriverType.as_str(),
        ) {
            return true;
        }
        i = i + 1;
    }
    false
}

/// Whether `c` is among `edges`, for other modules.
pub(crate) fn edge_list_contains_pub(edges: &Vec<Edge>, c: &Edge) -> (res: bool)
    ensures
        res == view_edges(edges@).contains(c@),
{
    edge_list_contains(edges, c)
}

/// `pos_of` on a sequence that grows by a new element.
proof fn lemma_pos_of_push(s: Seq<i32>, x: i32, y: i32)
    ensures
        pos_of(s.push(y), x) == if x == y { s.len() as int } else { pos_of(s, x) },
{
    assert(s.push(y).drop_last() =~= s);
}

/// `pos_of` finds members and only members.
proof fn lemma_pos_of_contains(s: Seq<i32>, x: i32)
    ensures
        s.contains(x) ==> 0 <= pos_of(s, x) < s.len() && s[pos_of(s, x)] == x,
        !s.contains(x) ==> pos_of(s, x) == -1,
    decreases s.len(),
{
    if s.len() > 0 {
        let t = s.drop_last();
        lemma_pos_of_contains(t, x);
        if s.last() != x {
            if s.contains(x) {
                let k = choose|k: int| 0 <= k < s.len() && s[k] == x;
                assert(t[k] == x);
            }
            if t.contains(x) {
                let k = choose|k: int| 0 <= k < t.len() && t[k] == x;
                assert(s[k] == x);
            }
        } else {
            assert(s[s.len() - 1] == x);
        }
    }
}

/// Members of `kept_ids(n, keep)` are exactly the positions below `n` held
/// by `keep`; each is its own value's... index below `n`.
proof fn lemma_kept_ids(n: int, keep: Set<i32>)
    requires
        0 <= n <= i32::MAX,
    ensures
        forall|x: i32| kept_ids(n, keep).contains(x) <==> (0 <= x < n && keep.contains(x)),
        forall|k: int| 0 <= k < kept_ids(n, keep).len() ==> 0 <= #[trigger] kept_ids(n, keep)[k] < n,
        kept_ids(n, keep).len() <= n,
    decreases n,
{
    if n > 0 {
        lemma_kept_ids(n - 1, keep);
        let r = kept_ids(n - 1, keep);
        if keep.contains((n - 1) as i32) {
            assert forall|x: i32| kept_ids(n, keep).contains(x) <==> (0 <= x < n && keep.contains(x)) by {
                if kept_ids(n, keep).contains(x) && x != (n - 1) as i32 {
                    let k = choose|k: int| 0 <= k < kept_ids(n, keep).len() && kept_ids(n, keep)[k] == x;
                    assert(r[k] == x);
                }
                if 0 <= x < n - 1 && keep.contains(x) {
                    let k = choose|k: int| 0 <= k < r.len() && r[k] == x;
                    assert(kept_ids(n, keep)[k] == x);
                }
                if x == n - 1 && keep.contains(x) {
                    assert(kept_ids(n, keep)[r.len() as int] == x);
                }
            }
        }
    }
}

impl Graph {
    /// The states at the positions `keep_ids` holds (ignoring those outside
    /// the table), renumbered in increasing order of position, with the
    /// edges between them renumbered alike, each kept once. A fresh graph
    /// number is taken.
    pub fn rebuild_with_state_subset(&self, counter: &mut GraphCounter, keep_ids: &Vec<i32>) -> (g: Graph)
        requires
            old(counter).count < i32::MAX,
            self.pStateTable@.len() <= i32::MAX,
        ensures
            g.graphId == old(counter).count + 1,
            final(counter).count == g.graphId,
            g.numOfStates == g.states().len(),
            g.states() == rebuild_states(self.states(), kept_ids(self.states().len() as int, keep_ids@.to_set())),
            g.edges() == rebuild_edges(
                self.edges(),
                kept_ids(self.states().len() as int, keep_ids@.to_set()),
                self.edges().len() as int,
            ),
    {
        let ghost st = self.states();
        let ghost e = self.edges();
        let ghost keep = keep_ids@.to_set();
        let n = self.pStateTable.len();
        let mut ordered: Vec<i32> = Vec::new();
        let mut map: Vec<i32> = Vec::new();
        let mut i: usize = 0;
        while i < n
            invariant
                n == self.pStateTable@.len(),
                n <= i32::MAX,
                i <= n,
                keep == keep_ids@.to_set(),
                ordered@ == kept_ids(i as int, keep),
                map@.len() == i,
                forall|k: int| 0 <= k < i ==> #[trigger] map@[k] == pos_of(ordered@, k as i32),
                forall|k: int| 0 <= k < ordered@.len() ==> 0 <= #[trigger] ordered@[k] < i,
                ordered@.len() <= i,
            decreases n - i,
        {
            let inside = contains_i32_pub(keep_ids, i as i32);
            assert(keep.contains(i as i32) == keep_ids@.contains(i as i32));
            assert(kept_ids(i + 1, keep) == if keep.contains(i as i32) {
                kept_ids(i as int, keep).push(i as i32)
            } else {
                kept_ids(i as int, keep)
            });
            if inside {
                let ghost prev = ordered@;
                map.push(ordered.len() as i32);
                ordered.push(i as i32);
                proof {
                    assert forall|k: int| 0 <= k < i + 1 implies #[trigger] map@[k] == pos_of(ordered@, k as i32) by {
                        lemma_pos_of_push(prev, k as i32, i as i32);
                        if k < i {
                            assert(!prev.contains(i as i32));
                        }
                    }
                }
            } else {
                map.push(-1);
                proof {
                    lemma_kept_ids(i as int, keep);
                    lemma_pos_of_contains(ordered@, i as i32);
                }
            }
            i = i + 1;
        }
        let ghost ord = ordered@;
        proof {
            lemma_kept_ids(n as int, keep);
        }
        let mut states: Vec<State> = Vec::new();
        let mut k: usize = 0;
        while k < ordered.len()
            invariant
                k <= ordered@.len(),
                ord == ordered@,
                n == self.pStateTable@.len(),
                st == self.states(),
                forall|m: int| 0 <= m < ordered@.len() ==> 0 <= #[trigger] ordered@[m] < n,
                ordered@.len() <= n,
                n <= i32::MAX,
                view_states(states@) == rebuild_states(st, ord).subrange(0, k as int),
            decreases ordered@.len() - k,
        {
            let old_state = &self.pStateTable[ordered[k] as usize];
            assert(st[ordered@[k as int] as int] == old_state@);
            let ns = State { stateId: k as i32, StateType: old_state.StateType.clone(), LexemeCategory: old_state.LexemeCategory };
            proof {
                lemma_view_states_push(states@, ns);
            }
            states.push(ns);
            k = k + 1;
            assert(view_states(states@) =~= rebuild_states(st, ord).subrange(0, k as int));
        }
        let mut edges: Vec<Edge> = Vec::new();
        let mut j: usize = 0;
        proof {
            assert(view_edges(edges@) =~= Seq::<EdgeV>::empty());
        }
        while j < self.pEdgeTable.len()
            invariant
                j <= self.pEdgeTable@.len(),
                e == self.edges(),
                ord == ordered@,
                n == self.pStateTable@.len(),
                map@.len() == n,
                forall|m: int| 0 <= m < n ==> #[trigger] map@[m] == pos_of(ord, m as i32),
                forall|x: i32| ord.contains(x) <==> (0 <= x < n && keep.contains(x)),
                view_edges(edges@) == rebuild_edges(e, ord, j as int),
            decreases self.pEdgeTable@.len() - j,
        {
            let ed = &self.pEdgeTable[j];
            assert(e[j as int] == ed@);
            let from = ed.fromState;
            let to = ed.nextState;
            if 0 <= from && (from as usize) < n && 0 <= to && (to as usize) < n {
                let nf = map[from as usize];
                let nt = map[to as usize];
                proof {
                    lemma_pos_of_contains(ord, from);
                    lemma_pos_of_contains(ord, to);
                }
                if nf >= 0 && nt >= 0 {
                    let c = Edge { fromState: nf, nextState: nt, driverId: ed.driverId, DriverType: ed.DriverType.clone() };
                    if !edge_list_contains(&edges, &c) {
                        proof {
                            lemma_view_edges_push(edges@, c);
                        }
                        edges.push(c);
                    }
                }
            }
            j = j + 1;
        }
        let id = crate::lab1::graph::next_graph_id_pub(counter);
        let cnt = states.len() as i32;
        let g = Graph { graphId: id, numOfStates: cnt, pEdgeTable: edges, pStateTable: states };
        assert(rebuild_states(st, ord).subrange(0, ord.len() as int) =~= rebuild_states(st, ord));
        g
    }
}

/// Every pair that starts in `r` ends in `r`.
pub open spec fn rel_closed(p: Seq<(i32, i32)>, r: Set<i32>) -> bool {
    forall|j: int| 0 <= j < p.len() && r.contains((#[trigger] p[j]).0) ==> r.contains(p[j].1)
}

/// `r` is the least set that holds `seeds` and is closed under the pairs.
pub open spec fn is_rel_closure(p: Seq<(i32, i32)>, seeds: Set<i32>, r: Set<i32>) -> bool {
    &&& seeds.subset_of(r)
    &&& rel_closed(p, r)
    &&& forall|s: Set<i32>| seeds.subset_of(s) && #[trigger] rel_closed(p, s) ==> r.subset_of(s)
}

proof fn lemma_nodup_len_bound2(w: Seq<i32>, c: Seq<i32>)
    requires
        w.no_duplicates(),
        w.to_set().subset_of(c.to_set()),
    ensures
        w.len() <= c.len(),
{
    w.unique_seq_to_set();
    vstd::seq_lib::seq_to_set_is_finite(c);
    vstd::set_lib::lemma_len_subset(w.to_set(), c.to_set());
    c.lemma_cardinality_of_set();
}

/// Everything reached from `seeds` along the pairs, `seeds` included.
fn rel_closure(p: &Vec<(i32, i32)>, seeds: &Vec<i32>) -> (res: HashSet<i32>)
    ensures
        is_rel_closure(p@, seeds@.to_set(), res@),
{
    let mut worklist: Vec<i32> = Vec::new();
    let mut result: HashSet<i32> = HashSet::new();
    let mut k: usize = 0;
    while k < seeds.len()
        invariant
            k <= seeds@.len(),
            result@ == worklist@.to_set(),
            worklist@.no_duplicates(),
            worklist@.to_set() == seeds@.subrange(0, k as int).to_set(),
        decreases seeds@.len() - k,
    {
        let x = seeds[k];
        let ghost old_w = worklist@;
        proof {
            assert(seeds@.subrange(0, k + 1) =~= seeds@.subrange(0, k as int).push(x));
            seeds@.subrange(0, k as int).lemma_push_to_set_commute(x);
        }
        if result.insert(x) {
            worklist.push(x);
            proof {
                old_w.lemma_push_to_set_commute(x);
                assert forall|a: int, b: int| 0 <= a < b < worklist@.len() implies worklist@[a] != worklist@[b] by {
                    if b == old_w.len() {
                        assert(old_w.to_set().contains(old_w[a]));
                    }
                }
            }
        }
        k = k + 1;
    }
    assert(seeds@.subrange(0, k as int) =~= seeds@);
    let mut targets: Vec<i32> = Vec::new();
    let mut q: usize = 0;
    while q < p.len()
        invariant
            q <= p@.len(),
            targets@.len() == q,
            forall|j: int| 0 <= j < q ==> targets@[j] == (#[trigger] p@[j]).1,
        decreases p@.len() - q,
    {
        targets.push(p[q].1);
        q = q + 1;
    }
    let ghost cands = worklist@ + targets@;
    let ghost cs = seeds@.to_set();
    let ghost off = worklist@.len() as int;
    proof {
        assert forall|x: i32| worklist@.to_set().contains(x) implies cands.to_set().contains(x) by {
            let m = choose|m: int| 0 <= m < worklist@.len() && worklist@[m] == x;
            assert(cands[m] == x);
        }
        lemma_nodup_len_bound2(worklist@, cands);
    }
    let mut head: usize = 0;
    while head < worklist.len()
        invariant
            head <= worklist@.len(),
            worklist@.len() <= cands.len(),
            result@ == worklist@.to_set(),
            worklist@.no_duplicates(),
            worklist@.to_set().subset_of(cands.to_set()),
            off + p@.len() == cands.len(),
            0 <= off,
            forall|j: int| 0 <= j < p@.len() ==> cands[off + j] == (#[trigger] p@[j]).1,
            cs.subset_of(result@),
            forall|s: Set<i32>| cs.subset_of(s) && #[trigger] rel_closed(p@, s) ==> result@.subset_of(s),
            forall|m: int, j: int|
                0 <= m < head && 0 <= j < p@.len() && (#[trigger] p@[j]).0 == #[trigger] worklist@[m] ==> result@.contains(p@[j].1),
        decreases cands.len() - head,
    {
        let state = worklist[head];
        let mut j: usize = 0;
        while j < p.len()
            invariant
                j <= p@.len(),
                head < worklist@.len(),
                state == worklist@[head as int],
                worklist@.len() <= cands.len(),
                result@ == worklist@.to_set(),
                worklist@.no_duplicates(),
                worklist@.to_set().subset_of(cands.to_set()),
                off + p@.len() == cands.len(),
                0 <= off,
                forall|jj: int| 0 <= jj < p@.len() ==> cands[off + jj] == (#[trigger] p@[jj]).1,
                cs.subset_of(result@),
                forall|s: Set<i32>| cs.subset_of(s) && #[trigger] rel_closed(p@, s) ==> result@.subset_of(s),
                forall|m: int, jj: int|
                    0 <= m < head && 0 <= jj < p@.len() && (#[trigger] p@[jj]).0 == #[trigger] worklist@[m] ==> result@.contains(
                        p@[jj].1,
                    ),
                forall|jj: int| 0 <= jj < j && (#[trigger] p@[jj]).0 == state ==> result@.contains(p@[jj].1),
            decreases p@.len() - j,
        {
            let pr = p[j];
            if pr.0 == state {
                let next = pr.1;
                let ghost old_w = worklist@;
                let ghost old_r = result@;
                if result.insert(next) {
                    worklist.push(next);
                    proof {
                        old_w.lemma_push_to_set_commute(next);
                        assert forall|a: int, b: int| 0 <= a < b < worklist@.len() implies worklist@[a] != worklist@[b] by {
                            if b == old_w.len() {
                                assert(old_w.to_set().contains(old_w[a]));
                            }
                        }
                        let idx = off + j;
                        assert(cands[idx] == next);
                        assert(cands.contains(next));
                        assert(cands.to_set().contains(next));
                        lemma_nodup_len_bound2(worklist@, cands);
                        assert forall|s: Set<i32>| cs.subset_of(s) && #[trigger] rel_closed(p@, s) implies result@.subset_of(s) by {
                            assert(old_r.subset_of(s));
                            assert(old_r.contains(state)) by {
                                assert(old_w[head as int] == state);
                            }
                            assert(s.contains(p@[j as int].0));
                        }
                        assert forall|m: int, jj: int|
                            0 <= m < head && 0 <= jj < p@.len() && (#[trigger] p@[jj]).0 == #[trigger] worklist@[m] implies result@.contains(
                            p@[jj].1,
                        ) by {
                            assert(worklist@[m] == old_w[m]);
                        }
                    }
                }
            }
            j = j + 1;
        }
        head = head + 1;
    }
    proof {
        assert forall|jj: int| 0 <= jj < p@.len() && result@.contains((#[trigger] p@[jj]).0) implies result@.contains(p@[jj].1) by {
            let m = choose|m: int| 0 <= m < worklist@.len() && worklist@[m] == p@[jj].0;
            assert(p@[jj].0 == worklist@[m]);
        }
    }
    result
}

/// Edges as (from, to) pairs.
pub open spec fn forward_pairs(e: Seq<EdgeV>) -> Seq<(i32, i32)> {
    Seq::new(e.len(), |j: int| (e[j].0, e[j].1))
}

/// Edges between states `0..n` as (to, from) pairs; an edge with an end
/// outside gives the pair (to, to), which adds nothing to a closure.
pub open spec fn backward_pairs(e: Seq<EdgeV>, n: int) -> Seq<(i32, i32)> {
    Seq::new(
        e.len(),
        |j: int| if 0 <= e[j].0 < n && 0 <= e[j].1 < n { (e[j].1, e[j].0) } else { (e[j].1, e[j].1) },
    )
}

/// The states that `prune_useless_states` keeps, given the states reachable
/// from state 0 and those from which an accepting state can be reached:
/// their common members, or state 0 alone when there are none.
pub open spec fn keep_set(reach: Set<i32>, prod: Set<i32>) -> Set<i32> {
    if reach.intersect(prod).is_empty() {
        set![0i32]
    } else {
        reach.intersect(prod)
    }
}

/// `g` is `src` without the states that are not both reachable from state
/// 0 and productive (state 0 alone is kept when none is both); a graph
/// without states stays as it is.
pub open spec fn pruned_of(src: Graph, g: Graph) -> bool {
    if src.states().len() == 0 {
        g.states() == src.states() && g.edges() == src.edges()
    } else {
        exists|reach: Set<i32>, prod: Set<i32>|
            {
                &&& is_rel_closure(forward_pairs(src.edges()), set![0i32], reach)
                &&& is_rel_closure(
                    backward_pairs(src.edges(), src.states().len() as int),
                    crate::lab1::graph::all_match_ids(src.states()).to_set(),
                    prod,
                )
                &&& g.states() == rebuild_states(src.states(), kept_ids(src.states().len() as int, keep_set(reach, prod)))
                &&& g.edges() == rebuild_edges(
                    src.edges(),
                    kept_ids(src.states().len() as int, keep_set(reach, prod)),
                    src.edges().len() as int,
                )
            }
    }
}

impl Graph {
    /// Keeps the states that are reachable from state 0 and from which an
    /// accepting state can be reached (state 0 alone if none is), through
    /// `rebuild_with_state_subset`. A graph without states is copied.
    pub fn prune_useless_states(&self, counter: &mut GraphCounter) -> (g: Graph)
        requires
            old(counter).count < i32::MAX,
            self.pStateTable@.len() <= i32::MAX,
        ensures
            pruned_of(*self, g),
            g.states().len() <= self.states().len(),
            self.states().len() > 0 ==> crate::lab1::merge::numbered_by_position(g),
            self.states().len() == 0 ==> g.states() == self.states() && g.edges() == self.edges() && g.graphId
                == self.graphId && g.numOfStates == self.numOfStates && final(counter).count == old(counter).count,
            self.states().len() > 0 ==> g.graphId == old(counter).count + 1 && final(counter).count == g.graphId
                && g.numOfStates == g.states().len() && exists|reach: Set<i32>, prod: Set<i32>|
                {
                    &&& is_rel_closure(forward_pairs(self.edges()), set![0i32], reach)
                    &&& is_rel_closure(
                        backward_pairs(self.edges(), self.states().len() as int),
                        crate::lab1::graph::all_match_ids(self.states()).to_set(),
                        prod,
                    )
                    &&& g.states() == rebuild_states(
                        self.states(),
                        kept_ids(self.states().len() as int, keep_set(reach, prod)),
                    )
                    &&& g.edges() == rebuild_edges(
                        self.edges(),
                        kept_ids(self.states().len() as int, keep_set(reach, prod)),
                        self.edges().len() as int,
                    )
                },
    {
        if self.pStateTable.len() == 0 {
            return self.copyGraph();
        }
        let ghost e = self.edges();
        let n = self.pStateTable.len();
        let mut fwd: Vec<(i32, i32)> = Vec::new();
        let mut back: Vec<(i32, i32)> = Vec::new();
        let mut j: usize = 0;
        while j < self.pEdgeTable.len()
            invariant
                j <= self.pEdgeTable@.len(),
                e == self.edges(),
                n == self.pStateTable@.len(),
                fwd@ == forward_pairs(e).subrange(0, j as int),
                back@ == backward_pairs(e, n as int).subrange(0, j as int),
            decreases self.pEdgeTable@.len() - j,
        {
            let ed = &self.pEdgeTable[j];
            assert(e[j as int] == ed@);
            fwd.push((ed.fromState, ed.nextState));
            if 0 <= ed.fromState && (ed.fromState as usize) < n && 0 <= ed.nextState && (ed.nextState as usize) < n {
                back.push((ed.nextState, ed.fromState));
            } else {
                back.push((ed.nextState, ed.nextState));
            }
            j = j + 1;
            assert(fwd@ =~= forward_pairs(e).subrange(0, j as int));
            assert(back@ =~= backward_pairs(e, n as int).subrange(0, j as int));
        }
        assert(fwd@ =~= forward_pairs(e));
        assert(back@ =~= backward_pairs(e, n as int));
        let mut zero: Vec<i32> = Vec::new();
        zero.push(0);
        assert(zero@.to_set() =~= set![0i32]) by {
            assert(zero@[0] == 0);
        }
        let reachable = rel_closure(&fwd, &zero);
        let accept_states = crate::lab1::graph::collect_all_match_ids_pub(&self.pStateTable);
        let productive = rel_closure(&back, &accept_states);
        let candidates = set_to_vec(&reachable);
        let mut keep: Vec<i32> = Vec::new();
        let mut k: usize = 0;
        while k < candidates.len()
            invariant
                k <= candidates@.len(),
                candidates@.to_set() == reachable@,
                keep@.to_set() == candidates@.subrange(0, k as int).to_set().intersect(productive@),
            decreases candidates@.len() - k,
        {
            let x = candidates[k];
            proof {
                assert(candidates@.subrange(0, k + 1) =~= candidates@.subrange(0, k as int).push(x));
                candidates@.subrange(0, k as int).lemma_push_to_set_commute(x);
            }
            if productive.contains(&x) {
                proof {
                    keep@.lemma_push_to_set_commute(x);
                }
                keep.push(x);
            }
            k = k + 1;
            assert(keep@.to_set() =~= candidates@.subrange(0, k as int).to_set().intersect(productive@));
        }
        assert(candidates@.subrange(0, k as int) =~= candidates@);
        let ghost inter = reachable@.intersect(productive@);
        if keep.len() == 0 {
            assert(inter.is_empty()) by {
                if !inter.is_empty() {
                    let x = inter.choose();
                    assert(keep@.to_set().contains(x));
                }
            }
            keep.push(0);
            assert(keep@.to_set() =~= set![0i32]) by {
                assert(keep@[0] == 0);
            }
        } else {
            assert(!inter.is_empty()) by {
                assert(keep@.to_set().contains(keep@[0]));
            }
        }
        assert(keep@.to_set() == keep_set(reachable@, productive@));
        proof {
            lemma_kept_ids(n as int, keep@.to_set());
        }
        let g = self.rebuild_with_state_subset(counter, &keep);
        proof {
            assert forall|k: int| 0 <= k < g.states().len() implies (#[trigger] g.states()[k]).0 == k by {}
        }
        g
    }
}

/// The state numbered `id` of the epsilon-free automaton, whose epsilon
/// closure in the original is `c`: accepting when a member of `c` accepts,
/// with the category chosen as in the subset construction.
pub open spec fn ef_state(st: Seq<StateV>, c: Set<i32>, id: i32) -> StateV {
    let m = set_matches(st, c);
    (id, if m { match_text() } else { unmatch_text() }, if m { pref_scan(st, c, 0) } else { None })
}

/// Edge `jj` of `nfa` is a non-epsilon edge that leaves the closure of
/// state `sid` and enters a state of the table.
pub open spec fn ef_src(nfa: Graph, cl: Seq<Set<i32>>, sid: int, jj: int) -> bool {
    let e = nfa.edges();
    &&& 0 <= jj < e.len()
    &&& cl[sid].contains(e[jj].0)
    &&& !is_eps(e[jj])
    &&& 0 <= e[jj].1 < nfa.states().len()
}

/// `ed` is an edge of the epsilon-free automaton: from a state, along a
/// non-epsilon edge out of its closure, to a member of the closure of that
/// edge's target, with that edge's driver.
pub open spec fn ef_edge(nfa: Graph, cl: Seq<Set<i32>>, ed: EdgeV) -> bool {
    &&& 0 <= ed.0 < nfa.states().len()
    &&& exists|jj: int|
        #![trigger nfa.edges()[jj]]
        ef_src(nfa, cl, ed.0 as int, jj) && cl[nfa.edges()[jj].1 as int].contains(ed.1) && ed.2 == nfa.edges()[jj].2
            && ed.3 == nfa.edges()[jj].3
}

/// Every edge of the epsilon-free automaton out of `sid` along the first
/// `jlim` edges of `nfa` occurs in `ed`.
pub open spec fn ef_covered(nfa: Graph, cl: Seq<Set<i32>>, ed: Seq<EdgeV>, sid: int, jlim: int) -> bool {
    forall|jj: int, x: i32|
        #![trigger nfa.edges()[jj], cl[nfa.edges()[jj].1 as int].contains(x)]
        0 <= jj < jlim && ef_src(nfa, cl, sid, jj) && cl[nfa.edges()[jj].1 as int].contains(x) ==> ed.contains(
            (sid as i32, x, nfa.edges()[jj].2, nfa.edges()[jj].3),
        )
}

/// `g` is the epsilon-free automaton of `nfa` with closures `cl`.
pub open spec fn epsilon_free_of(nfa: Graph, cl: Seq<Set<i32>>, g: Graph) -> bool {
    let n = nfa.states().len();
    &&& cl.len() == n
    &&& forall|k: int| 0 <= k < n ==> is_eps_closure(nfa.edges(), set![k as i32], #[trigger] cl[k])
    &&& g.states() == Seq::new(n, |k: int| ef_state(nfa.states(), cl[k], k as i32))
    &&& forall|k: int| 0 <= k < g.edges().len() ==> ef_edge(nfa, cl, #[trigger] g.edges()[k])
    &&& forall|sid: int| 0 <= sid < n ==> #[trigger] ef_covered(nfa, cl, g.edges(), sid, nfa.edges().len() as int)
    &&& g.edges().no_duplicates()
}

/// Whether `c` is among `edges` from position `start` on.
fn edge_list_contains_from(edges: &Vec<Edge>, start: usize, c: &Edge) -> (res: bool)
    requires
        start <= edges@.len(),
    ensures
        res == view_edges(edges@).subrange(start as int, edges@.len() as int).contains(c@),
{
    let ghost v = view_edges(edges@);
    let ghost w = v.subrange(start as int, edges@.len() as int);
    let mut i: usize = start;
    while i < edges.len()
        invariant
            start <= i <= edges@.len(),
            v == view_edges(edges@),
            w == v.subrange(start as int, edges@.len() as int),
            forall|j: int| start <= j < i ==> v[j] != c@,
        decreases edges@.len() - i,
    {
        let ed = &edges[i];
        assert(v[i as int] == ed@);
        if ed.fromState == c.fromState && ed.nextState == c.nextState && ed.driverId == c.driverId && str_eq(
            ed.DriverType.as_str(),
            c.DriverType.as_str(),
        ) {
            assert(w[i - start] == c@);
            return true;
        }
        i = i + 1;
    }
    assert forall|j: int| 0 <= j < w.len() implies w[j] != c@ by {
        assert(w[j] == v[j + start]);
    }
    false
}

impl Graph {
    /// The equivalent automaton without epsilon edges, on the same states:
    /// state `k` accepts when its epsilon closure holds an accepting state
    /// (category chosen as in the subset construction), and has an edge to
    /// every member of the closure of the target of any non-epsilon edge
    /// leaving its closure, with that edge's driver; each such edge once.
    pub fn build_epsilon_free_nfa(&self, counter: &mut GraphCounter) -> (g: Graph)
        requires
            old(counter).count < i32::MAX,
            self.pStateTable@.len() <= i32::MAX,
        ensures
            g.graphId == old(counter).count + 1,
            final(counter).count == g.graphId,
            g.numOfStates == g.states().len(),
            exists|cl: Seq<Set<i32>>| epsilon_free_of(*self, cl, g),
            g.states().len() == self.states().len(),
            crate::lab1::merge::numbered_by_position(g),
    {
        let ghost e = self.edges();
        let ghost st = self.states();
        let n = self.pStateTable.len();
        let mut closures: Vec<HashSet<i32>> = Vec::new();
        let mut sid: usize = 0;
        while sid < n
            invariant
                sid <= n,
                n == self.pStateTable@.len(),
                n <= i32::MAX,
                e == self.edges(),
                closures@.len() == sid,
                forall|k: int| 0 <= k < sid ==> is_eps_closure(e, set![k as i32], #[trigger] closures@[k]@),
            decreases n - sid,
        {
            let mut seed: HashSet<i32> = HashSet::new();
            seed.insert(sid as i32);
            assert(seed@ =~= set![sid as i32]);
            let c = self.epsilon_closure(&seed);
            closures.push(c);
            sid = sid + 1;
        }
        let ghost cl = views(closures@);
        let mut states: Vec<State> = Vec::new();
        let mut sid: usize = 0;
        while sid < n
            invariant
                sid <= n,
                n == self.pStateTable@.len(),
                n <= i32::MAX,
                st == self.states(),
                closures@.len() == n,
                cl == views(closures@),
                states@.len() == sid,
                forall|k: int| 0 <= k < sid ==> (#[trigger] states@[k])@ == ef_state(st, cl[k], k as i32),
            decreases n - sid,
        {
            let is_match = set_has_match(&self.pStateTable, &closures[sid]);
            let category = if is_match {
                pick_preferred_category_from_ids(&self.pStateTable, &closures[sid])
            } else {
                None
            };
            let ty = if is_match {
                String::from_str("MATCH")
            } else {
                String::from_str("UNMATCH")
            };
            states.push(State { stateId: sid as i32, StateType: ty, LexemeCategory: category });
            sid = sid + 1;
        }
        let mut edges: Vec<Edge> = Vec::new();
        let mut sid: usize = 0;
        while sid < n
            invariant
                sid <= n,
                n == self.pStateTable@.len(),
                n <= i32::MAX,
                e == self.edges(),
                closures@.len() == n,
                cl == views(closures@),
                view_edges(edges@).no_duplicates(),
                forall|k: int| 0 <= k < edges@.len() ==> ef_edge(*self, cl, #[trigger] view_edges(edges@)[k])
                    && view_edges(edges@)[k].0 < sid,
                forall|s: int| 0 <= s < sid ==> #[trigger] ef_covered(*self, cl, view_edges(edges@), s, e.len() as int),
            decreases n - sid,
        {
            let start = edges.len();
            let mut j: usize = 0;
            while j < self.pEdgeTable.len()
                invariant
                    sid < n,
                    start <= edges@.len(),
                    j <= e.len(),
                    e.len() == self.pEdgeTable@.len(),
                    n == self.pStateTable@.len(),
                    n <= i32::MAX,
                    e == self.edges(),
                    closures@.len() == n,
                    cl == views(closures@),
                    view_edges(edges@).no_duplicates(),
                    forall|k: int| 0 <= k < start ==> view_edges(edges@)[k].0 < sid,
                    forall|k: int| start <= k < edges@.len() ==> view_edges(edges@)[k].0 == sid,
                    forall|k: int| 0 <= k < edges@.len() ==> ef_edge(*self, cl, #[trigger] view_edges(edges@)[k]),
                    forall|s: int| 0 <= s < sid ==> #[trigger] ef_covered(*self, cl, view_edges(edges@), s, e.len() as int),
                    ef_covered(*self, cl, view_edges(edges@), sid as int, j as int),
                decreases e.len() - j,
            {
                let ed = &self.pEdgeTable[j];
                assert(e[j as int] == ed@);
                let is_eps_edge = ed.driverId == -1 && str_eq(ed.DriverType.as_str(), "NULL");
                if closures[sid].contains(&ed.fromState) && !is_eps_edge && 0 <= ed.nextState && (ed.nextState as usize) < n {
                    let targets = set_to_vec(&closures[ed.nextState as usize]);
                    let mut q: usize = 0;
                    while q < targets.len()
                        invariant
                            sid < n,
                            start <= edges@.len(),
                            j < e.len(),
                            e.len() == self.pEdgeTable@.len(),
                            n == self.pStateTable@.len(),
                            n <= i32::MAX,
                            e == self.edges(),
                            closures@.len() == n,
                            cl == views(closures@),
                            ef_src(*self, cl, sid as int, j as int),
                            e[j as int] == ed@,
                            targets@.to_set() == cl[e[j as int].1 as int],
                            q <= targets@.len(),
                            view_edges(edges@).no_duplicates(),
                            forall|k: int| 0 <= k < start ==> view_edges(edges@)[k].0 < sid,
                            forall|k: int| start <= k < edges@.len() ==> view_edges(edges@)[k].0 == sid,
                            forall|k: int| 0 <= k < edges@.len() ==> ef_edge(*self, cl, #[trigger] view_edges(edges@)[k]),
                            forall|s: int| 0 <= s < sid ==> #[trigger] ef_covered(*self, cl, view_edges(edges@), s, e.len() as int),
                            ef_covered(*self, cl, view_edges(edges@), sid as int, j as int),
                            forall|r: int| 0 <= r < q ==> view_edges(edges@).contains(
                                (sid as i32, #[trigger] targets@[r], e[j as int].2, e[j as int].3),
                            ),
                        decreases targets@.len() - q,
                    {
                        let x = targets[q];
                        let c = Edge { fromState: sid as i32, nextState: x, driverId: ed.driverId, DriverType: ed.DriverType.clone() };
                        let ghost old_v = view_edges(edges@);
                        let found = edge_list_contains_from(&edges, start, &c);
                        if !found {
                            proof {
                                lemma_view_edges_push(edges@, c);
                                assert(!old_v.contains(c@)) by {
                                    if old_v.contains(c@) {
                                        let k = choose|k: int| 0 <= k < old_v.len() && old_v[k] == c@;
                                        if k >= start {
                                            assert(old_v.subrange(start as int, old_v.len() as int)[k - start] == c@);
                                        }
                                    }
                                }
                                assert(targets@.to_set().contains(x)) by {
                                    assert(targets@[q as int] == x);
                                }
                                assert(ef_src(*self, cl, sid as int, j as int));
                                assert(cl[e[j as int].1 as int].contains(x));
                                assert(c@.0 as int == sid as int);
                                assert(c@.2 == e[j as int].2 && c@.3 == e[j as int].3);
                                assert(self.edges()[j as int] == e[j as int]);
                                assert(ef_src(*self, cl, c@.0 as int, j as int));
                                assert(cl[self.edges()[j as int].1 as int].contains(c@.1));
                                assert(ef_edge(*self, cl, c@));
                            }
                            edges.push(c);
                            proof {
                                let nv = view_edges(edges@);
                                assert forall|a: int, b: int| 0 <= a < nv.len() && 0 <= b < nv.len() && a != b implies nv[a] != nv[b] by {
                                    if a < old_v.len() && b < old_v.len() {
                                        assert(old_v[a] != old_v[b]);
                                    } else if a == old_v.len() {
                                        assert(nv[b] == old_v[b]);
                                        assert(nv[a] == c@);
                                    } else {
                                        assert(nv[a] == old_v[a]);
                                        assert(nv[b] == c@);
                                    }
                                }
                                assert forall|s: int| 0 <= s < sid implies #[trigger] ef_covered(*self, cl, nv, s, e.len() as int) by {
                                    assert forall|jj: int, y: i32|
                                        #![trigger self.edges()[jj], cl[self.edges()[jj].1 as int].contains(y)]
                                        0 <= jj < e.len() && ef_src(*self, cl, s, jj) && cl[e[jj].1 as int].contains(y) implies nv.contains(
                                        (s as i32, y, e[jj].2, e[jj].3),
                                    ) by {
                                        assert(ef_covered(*self, cl, old_v, s, e.len() as int));
                                        let k = choose|k: int| 0 <= k < old_v.len() && old_v[k] == (s as i32, y, e[jj].2, e[jj].3);
                                        assert(nv[k] == old_v[k]);
                                    }
                                }
                                assert forall|jj: int, y: i32|
                                    #![trigger self.edges()[jj], cl[self.edges()[jj].1 as int].contains(y)]
                                    0 <= jj < j && ef_src(*self, cl, sid as int, jj) && cl[e[jj].1 as int].contains(y) implies nv.contains(
                                    (sid as i32, y, e[jj].2, e[jj].3),
                                ) by {
                                    let k = choose|k: int| 0 <= k < old_v.len() && old_v[k] == (sid as i32, y, e[jj].2, e[jj].3);
                                    assert(nv[k] == old_v[k]);
                                }
                                assert forall|r: int| 0 <= r < q + 1 implies nv.contains(
                                    (sid as i32, #[trigger] targets@[r], e[j as int].2, e[j as int].3),
                                ) by {
                                    if r < q {
                                        let k = choose|k: int| 0 <= k < old_v.len() && old_v[k] == (sid as i32, targets@[r], e[j as int].2, e[j as int].3);
                                        assert(nv[k] == old_v[k]);
                                    } else {
                                        assert(nv[old_v.len() as int] == c@);
                                    }
                                }
                            }
                        } else {
                            proof {
                                let w = old_v.subrange(start as int, old_v.len() as int);
                                let k = choose|k: int| 0 <= k < w.len() && w[k] == c@;
                                assert(old_v[k + start] == c@);
                                assert(old_v.contains(c@));
                                assert(targets@[q as int] == x);
                            }
                        }
                        q = q + 1;
                    }
                    proof {
                        let v = view_edges(edges@);
                        assert forall|jj: int, y: i32|
                            #![trigger self.edges()[jj], cl[self.edges()[jj].1 as int].contains(y)]
                            0 <= jj < j + 1 && ef_src(*self, cl, sid as int, jj) && cl[e[jj].1 as int].contains(y) implies v.contains(
                            (sid as i32, y, e[jj].2, e[jj].3),
                        ) by {
                            if jj == j {
                                assert(targets@.to_set().contains(y));
                                let r = choose|r: int| 0 <= r < targets@.len() && targets@[r] == y;
                                assert(v.contains((sid as i32, targets@[r], e[j as int].2, e[j as int].3)));
                            }
                        }
                    }
                }
                j = j + 1;
            }
            sid = sid + 1;
        }
        let id = crate::lab1::graph::next_graph_id_pub(counter);
        let cnt = states.len() as i32;
        let g = Graph { graphId: id, numOfStates: cnt, pEdgeTable: edges, pStateTable: states };
        proof {
            assert(g.states() =~= Seq::new(n as nat, |k: int| ef_state(st, cl[k], k as i32)));
            assert(epsilon_free_of(*self, cl, g));
            assert forall|k: int| 0 <= k < g.states().len() implies (#[trigger] g.states()[k]).0 == k by {}
        }
        g
    }
}

} // verus!
