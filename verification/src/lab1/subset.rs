//! State-set operations on automata: moves along a driver or a character,
//! epsilon closure, and the transition function of the subset construction.
use vstd::prelude::*;
use std::collections::HashSet;
use crate::lab1::char_set::{is_subset, set_has, CharSetTable};
use crate::lab1::graph::{is_eps, view_edges, EdgeV, Graph};
use crate::text::{set_to_vec, str_eq};

verus! {

broadcast use vstd::std_specs::hash::group_hash_axioms;

/// Targets of the edges among the first `n` of `e` that leave a member of
/// `curr` on driver `d`.
pub open spec fn moved_by_driver(e: Seq<EdgeV>, n: int, curr: Set<i32>, d: i32) -> Set<i32> {
    Set::new(|x: i32| exists|j: int| 0 <= j < n && curr.contains((#[trigger] e[j]).0) && e[j].2 == d && e[j].1 == x)
}

/// Targets of the non-epsilon edges among the first `n` of `e` that leave a
/// member of `curr` on a character set holding `c`.
pub open spec fn moved_by_char(segs: Seq<crate::lab1::char_set::CharSet>, e: Seq<EdgeV>, n: int, curr: Set<i32>, c: char) -> Set<i32> {
    Set::new(
        |x: i32|
            exists|j: int|
                0 <= j < n && curr.contains((#[trigger] e[j]).0) && e[j].2 != -1 && set_has(segs, e[j].2, c) && e[j].1 == x,
    )
}

/// Every epsilon edge that leaves a member of `r` enters a member of `r`.
pub open spec fn eps_closed(e: Seq<EdgeV>, r: Set<i32>) -> bool {
    forall|j: int| 0 <= j < e.len() && is_eps(#[trigger] e[j]) && r.contains(e[j].0) ==> r.contains(e[j].1)
}

/// `r` is the epsilon closure of `curr` in `e`: the least set that holds
/// `curr` and is closed under epsilon edges.
pub open spec fn is_eps_closure(e: Seq<EdgeV>, curr: Set<i32>, r: Set<i32>) -> bool {
    &&& curr.subset_of(r)
    &&& eps_closed(e, r)
    &&& forall|s: Set<i32>| curr.subset_of(s) && #[trigger] eps_closed(e, s) ==> r.subset_of(s)
}

impl Graph {
    /// States reached from `curr` by one edge on driver `driver_id`.
    pub fn move_by_driver(&self, curr: &HashSet<i32>, driver_id: i32) -> (res: HashSet<i32>)
        ensures
            res@ == moved_by_driver(self.edges(), self.edges().len() as int, curr@, driver_id),
    {
        let ghost e = self.edges();
        let mut result: HashSet<i32> = HashSet::new();
        let mut i: usize = 0;
        while i < self.pEdgeTable.len()
            invariant
                i <= self.pEdgeTable@.len(),
                e == self.edges(),
                result@ == moved_by_driver(e, i as int, curr@, driver_id),
            decreases self.pEdgeTable@.len() - i,
        {
            let edge = &self.pEdgeTable[i];
            assert(e[i as int] == edge@);
            if curr.contains(&edge.fromState) && edge.driverId == driver_id {
                result.insert(edge.nextState);
            }
            assert(result@ =~= moved_by_driver(e, i + 1, curr@, driver_id));
            i = i + 1;
        }
        result
    }

    /// States reached from `curr` by one non-epsilon edge whose character
    /// set holds `c`.
    pub fn move_by_char(&self, t: &CharSetTable, curr: &HashSet<i32>, c: char) -> (res: HashSet<i32>)
        ensures
            res@ == moved_by_char(t.segments@, self.edges(), self.edges().len() as int, curr@, c),
    {
        let ghost e = self.edges();
        let mut result: HashSet<i32> = HashSet::new();
        let mut i: usize = 0;
        while i < self.pEdgeTable.len()
            invariant
                i <= self.pEdgeTable@.len(),
                e == self.edges(),
                result@ == moved_by_char(t.segments@, e, i as int, curr@, c),
            decreases self.pEdgeTable@.len() - i,
        {
            let edge = &self.pEdgeTable[i];
            assert(e[i as int] == edge@);
            if curr.contains(&edge.fromState) && edge.driverId != -1 && is_subset(t, c, edge.driverId) {
                result.insert(edge.nextState);
            }
            assert(result@ =~= moved_by_char(t.segments@, e, i + 1, curr@, c));
            i = i + 1;
        }
        result
    }
}

/// Targets of all edges.
pub(crate) fn edge_targets(edges: &Vec<crate::lab1::graph::Edge>) -> (res: Vec<i32>)
    ensures
        res@.len() == edges@.len(),
        forall|j: int| 0 <= j < edges@.len() ==> res@[j] == (#[trigger] edges@[j]).nextState,
{
    let mut res: Vec<i32> = Vec::new();
    let mut i: usize = 0;
    while i < edges.len()
        invariant
            i <= edges@.len(),
            res@.len() == i,
            forall|j: int| 0 <= j < i ==> res@[j] == (#[trigger] edges@[j]).nextState,
        decreases edges@.len() - i,
    {
        res.push(edges[i].nextState);
        i = i + 1;
    }
    res
}

/// Where the edge targets begin in the candidate list of
/// `epsilon_closure`: after the members of the starting set.
spec fn worklist0_len(cs: Set<i32>, cands: Seq<i32>, targets: Seq<i32>) -> int {
    cands.len() - targets.len()
}

/// A no-duplicate sequence drawn from the members of `c` is no longer than `c`.
proof fn lemma_nodup_len_bound(w: Seq<i32>, c: Seq<i32>)
    requires
        w.no_duplicates(),
        w.to_set().subset_of(c.to_set()),
    ensures
        w.len() <= c.len(),
{
    w.unique_seq_to_set();
    vstd::seq_lib::seq_to_set_is_finite(c);
    vstd::set_lib::lemma_len_subset(w.to_set(), c.to_set());
    c.lemma_cardinality_of_set();
}

impl Graph {
    /// The epsilon closure of `curr`: every state reached from `curr` by
    /// epsilon edges alone, `curr` included.
    pub fn epsilon_closure(&self, curr: &HashSet<i32>) -> (res: HashSet<i32>)
        ensures
            is_eps_closure(self.edges(), curr@, res@),
    {
        let ghost e = self.edges();
        let mut worklist = set_to_vec(curr);
        let mut result: HashSet<i32> = HashSet::new();
        let mut k: usize = 0;
        while k < worklist.len()
            invariant
                k <= worklist@.len(),
                result@ == worklist@.subrange(0, k as int).to_set(),
                worklist@.no_duplicates(),
            decreases worklist@.len() - k,
        {
            result.insert(worklist[k]);
            proof {
                assert(worklist@.subrange(0, k + 1) =~= worklist@.subrange(0, k as int).push(worklist@[k as int]));
                worklist@.subrange(0, k as int).lemma_push_to_set_commute(worklist@[k as int]);
            }
            k = k + 1;
        }
        assert(worklist@.subrange(0, k as int) =~= worklist@);
        let targets = edge_targets(&self.pEdgeTable);
        let ghost cands = worklist@ + targets@;
        let ghost cs = curr@;
        proof {
            assert forall|x: i32| worklist@.to_set().contains(x) implies cands.to_set().contains(x) by {
                let m = choose|m: int| 0 <= m < worklist@.len() && worklist@[m] == x;
                assert(cands[m] == x);
            }
            lemma_nodup_len_bound(worklist@, cands);
            assert forall|j: int| 0 <= j < e.len() implies cands[worklist0_len(cs, cands, targets@) + j] == (#[trigger] e[j]).1 by {
                assert(e[j] == self.pEdgeTable@[j]@);
            }
        }
        let mut head: usize = 0;
        while head < worklist.len()
            invariant
                e == self.edges(),
                e.len() == self.pEdgeTable@.len(),
                head <= worklist@.len(),
                worklist@.len() <= cands.len(),
                result@ == worklist@.to_set(),
                worklist@.no_duplicates(),
                worklist@.to_set().subset_of(cands.to_set()),
                targets@.len() == e.len(),
                targets@.len() <= cands.len(),
                forall|j: int| 0 <= j < e.len() ==> cands[worklist0_len(cs, cands, targets@) + j] == (#[trigger] e[j]).1,
                cs.subset_of(result@),
                forall|s: Set<i32>| cs.subset_of(s) && #[trigger] eps_closed(e, s) ==> result@.subset_of(s),
                forall|m: int, j: int|
                    0 <= m < head && 0 <= j < e.len() && is_eps(#[trigger] e[j]) && e[j].0 == #[trigger] worklist@[m]
                        ==> result@.contains(e[j].1),
            decreases cands.len() - head,
        {
            let state = worklist[head];
            let mut j: usize = 0;
            while j < self.pEdgeTable.len()
                invariant
                    e == self.edges(),
                    e.len() == self.pEdgeTable@.len(),
                    j <= e.len(),
                    head < worklist@.len(),
                    state == worklist@[head as int],
                    worklist@.len() <= cands.len(),
                    result@ == worklist@.to_set(),
                    worklist@.no_duplicates(),
                    worklist@.to_set().subset_of(cands.to_set()),
                    targets@.len() == e.len(),
                    targets@.len() <= cands.len(),
                targets@.len() <= cands.len(),
                    forall|jj: int| 0 <= jj < e.len() ==> cands[worklist0_len(cs, cands, targets@) + jj] == (#[trigger] e[jj]).1,
                    cs.subset_of(result@),
                    forall|s: Set<i32>| cs.subset_of(s) && #[trigger] eps_closed(e, s) ==> result@.subset_of(s),
                    forall|m: int, jj: int|
                        0 <= m < head && 0 <= jj < e.len() && is_eps(#[trigger] e[jj]) && e[jj].0 == #[trigger] worklist@[m]
                            ==> result@.contains(e[jj].1),
                    forall|jj: int| 0 <= jj < j && is_eps(#[trigger] e[jj]) && e[jj].0 == state ==> result@.contains(e[jj].1),
                decreases e.len() - j,
            {
                let edge = &self.pEdgeTable[j];
                assert(e[j as int] == edge@);
                if edge.fromState == state && edge.driverId == -1 && str_eq(edge.DriverType.as_str(), "NULL") {
                    let next = edge.nextState;
                    let ghost old_w = worklist@;
                    let ghost old_r = result@;
                    if result.insert(next) {
                        worklist.push(next);
                        proof {
                            old_w.lemma_push_to_set_commute(next);
                            assert(e[j as int].1 == next);
                            assert forall|a: int, b: int| 0 <= a < b < worklist@.len() implies worklist@[a] != worklist@[b] by {
                                if b == old_w.len() {
                                    assert(old_w.to_set().contains(old_w[a]));
                                }
                            }
                            let idx = worklist0_len(cs, cands, targets@) + j;
                            assert(0 <= idx < cands.len());
                            assert(cands[idx] == next);
                            assert(cands.contains(next));
                            assert(cands.to_set().contains(next));
                            lemma_nodup_len_bound(worklist@, cands);
                            assert forall|s: Set<i32>| cs.subset_of(s) && #[trigger] eps_closed(e, s) implies result@.subset_of(s) by {
                                assert(old_r.subset_of(s));
                                assert(old_r.contains(state)) by {
                                    assert(old_w[head as int] == state);
                                }
                                assert(is_eps(e[j as int]) && s.contains(e[j as int].0));
                            }
                            assert forall|m: int, jj: int|
                                0 <= m < head && 0 <= jj < e.len() && is_eps(#[trigger] e[jj]) && e[jj].0 == #[trigger] worklist@[m]
                                implies result@.contains(e[jj].1) by {
                                assert(worklist@[m] == old_w[m]);
                            }
                        }
                    }
                }
                j = j + 1;
            }
            head = head + 1;
        }
        proof {
            assert forall|jj: int| 0 <= jj < e.len() && is_eps(#[trigger] e[jj]) && result@.contains(e[jj].0) implies result@.contains(e[jj].1) by {
                let m = choose|m: int| 0 <= m < worklist@.len() && worklist@[m] == e[jj].0;
                assert(e[jj].0 == worklist@[m]);
            }
        }
        result
    }
}

impl Graph {
    /// The DFA transition on a character-set driver: the epsilon closure of
    /// `move_by_driver`.
    pub fn DTran_driver(&self, curr: &HashSet<i32>, driver_id: i32) -> (res: HashSet<i32>)
        ensures
            is_eps_closure(self.edges(), moved_by_driver(self.edges(), self.edges().len() as int, curr@, driver_id), res@),
    {
        let moved = self.move_by_driver(curr, driver_id);
        self.epsilon_closure(&moved)
    }

    /// The DFA transition on a character: the epsilon closure of
    /// `move_by_char`.
    pub fn DTran_char(&self, t: &CharSetTable, curr: &HashSet<i32>, c: char) -> (res: HashSet<i32>)
        ensures
            is_eps_closure(
                self.edges(),
                moved_by_char(t.segments@, self.edges(), self.edges().len() as int, curr@, c),
                res@,
            ),
    {
        let moved = self.move_by_char(t, curr, c);
        self.epsilon_closure(&moved)
    }
}

/// The epsilon closure of a set is unique.
pub proof fn lemma_eps_closure_unique(e: Seq<EdgeV>, curr: Set<i32>, r1: Set<i32>, r2: Set<i32>)
    requires
        is_eps_closure(e, curr, r1),
        is_eps_closure(e, curr, r2),
    ensures
        r1 == r2,
{
    assert(eps_closed(e, r2));
    assert(eps_closed(e, r1));
    assert(r1.subset_of(r2));
    assert(r2.subset_of(r1));
    assert(r1 =~= r2);
}

/// The epsilon closure of a set is empty exactly when the set is.
pub proof fn lemma_eps_closure_empty(e: Seq<EdgeV>, curr: Set<i32>, r: Set<i32>)
    requires
        is_eps_closure(e, curr, r),
    ensures
        r.is_empty() <==> curr.is_empty(),
{
    if curr.is_empty() {
        let z = Set::<i32>::empty();
        assert(eps_closed(e, z));
        assert(curr.subset_of(z));
        assert(r.subset_of(z));
        assert(r =~= z);
    } else {
        let x = curr.choose();
        assert(r.contains(x));
    }
}

/// The closure stays inside any set that holds `curr` and every edge
/// target.
pub proof fn lemma_eps_closure_within(e: Seq<EdgeV>, curr: Set<i32>, r: Set<i32>, u: Set<i32>)
    requires
        is_eps_closure(e, curr, r),
        curr.subset_of(u),
        forall|j: int| 0 <= j < e.len() ==> u.contains((#[trigger] e[j]).1),
    ensures
        r.subset_of(u),
{
    assert(eps_closed(e, u));
}

} // verus!
