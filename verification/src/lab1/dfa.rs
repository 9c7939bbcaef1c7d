//! Subset construction: from an NFA over character-set drivers to a DFA
//! whose states are epsilon-closed sets of NFA states.
use vstd::prelude::*;
use std::collections::HashSet;
use crate::lab1::category::LexemeCategory;
use crate::lab1::char_set::{segments_of, segs_of, CharSet, CharSetTable};
use crate::lab1::count::{lemma_family_bound, two_pow};
use crate::lab1::graph::{
    is_eps, is_match, match_text, unmatch_text, view_edges, view_states, Edge, EdgeV, Graph, GraphCounter, State,
    StateV, lemma_view_edges_push, lemma_view_states_push,
};
use crate::lab1::subset::{
    eps_closed, is_eps_closure, lemma_eps_closure_empty, lemma_eps_closure_within, moved_by_char, moved_by_driver,
};
use crate::text::{set_to_vec, str_eq};

verus! {

broadcast use vstd::std_specs::hash::group_hash_axioms;

pub open spec fn char_text() -> Seq<char> {
    "CHAR"@
}

pub open spec fn charset_text() -> Seq<char> {
    "CHARSET"@
}

/// Drivers of type `ty` on the non-epsilon edges that leave a member of `s`.
pub open spec fn drivers_of(e: Seq<EdgeV>, s: Set<i32>, ty: Seq<char>) -> Set<i32> {
    Set::new(
        |d: i32| exists|j: int| 0 <= j < e.len() && s.contains((#[trigger] e[j]).0) && e[j].2 != -1 && e[j].3 == ty && e[j].2 == d,
    )
}

/// The character that stands for a single-character driver: the first
/// character of its first segment, or `'?'` for a driver without segments.
pub open spec fn first_char(segs: Seq<CharSet>, d: i32) -> char {
    if segs_of(segs, d).len() > 0 {
        segs_of(segs, d)[0].fromChar
    } else {
        '?'
    }
}

/// The NFA states reached from `s` by one edge on driver `d` of type `ty`,
/// before the epsilon closure.
pub open spec fn step(nfa: Graph, segs: Seq<CharSet>, s: Set<i32>, d: i32, ty: Seq<char>) -> Set<i32> {
    let e = nfa.edges();
    if ty == char_text() {
        moved_by_char(segs, e, e.len() as int, s, first_char(segs, d))
    } else {
        moved_by_driver(e, e.len() as int, s, d)
    }
}

/// Some NFA state at a position held by `s` accepts.
pub open spec fn set_matches(st: Seq<StateV>, s: Set<i32>) -> bool {
    exists|k: int| 0 <= k < st.len() && s.contains(k as i32) && is_match(#[trigger] st[k])
}

/// The category an accepting DFA state takes from the NFA states at the
/// positions held by `s`, scanning positions upwards from `i`: the first
/// category other than `ID`, else `ID` if some state has it, else none.
pub open spec fn pref_scan(st: Seq<StateV>, s: Set<i32>, i: int) -> Option<LexemeCategory>
    decreases st.len() - i,
{
    if i < 0 || i >= st.len() {
        None
    } else if s.contains(i as i32) && st[i].2 is Some && st[i].2 != Some(LexemeCategory::ID) {
        st[i].2
    } else {
        let r = pref_scan(st, s, i + 1);
        if r is Some {
            r
        } else if s.contains(i as i32) && st[i].2 == Some(LexemeCategory::ID) {
            Some(LexemeCategory::ID)
        } else {
            None
        }
    }
}

/// The DFA state numbered `id` for the NFA state set `s`: accepting when
/// some member accepts and a category is found.
pub open spec fn dfa_state(st: Seq<StateV>, s: Set<i32>, id: i32) -> StateV {
    let m = set_matches(st, s);
    let c = if m { pref_scan(st, s, 0) } else { None };
    (id, if m && c is Some { match_text() } else { unmatch_text() }, c)
}

/// The DFA sets of states as plain sets.
pub open spec fn views(v: Seq<HashSet<i32>>) -> Seq<Set<i32>> {
    Seq::new(v.len(), |k: int| v[k]@)
}

/// No set occurs twice.
pub open spec fn distinct_sets(sv: Seq<Set<i32>>) -> bool {
    forall|a: int, b: int| 0 <= a < b < sv.len() ==> #[trigger] sv[a] != #[trigger] sv[b]
}

/// Edge `k` of the DFA runs from the set numbered `pairs[k].0` to the set
/// numbered `pairs[k].1`, on a driver that leaves the first set, and the
/// second set is the non-empty epsilon closure of the step.
pub open spec fn edge_ok(nfa: Graph, segs: Seq<CharSet>, sv: Seq<Set<i32>>, pair: (int, int), ed: EdgeV) -> bool {
    &&& 0 <= pair.0 < sv.len()
    &&& 0 <= pair.1 < sv.len()
    &&& ed.0 == pair.0 as i32
    &&& ed.1 == pair.1 as i32
    &&& ed.3 == char_text() || ed.3 == charset_text()
    &&& drivers_of(nfa.edges(), sv[pair.0], ed.3).contains(ed.2)
    &&& is_eps_closure(nfa.edges(), step(nfa, segs, sv[pair.0], ed.2, ed.3), sv[pair.1])
    &&& !sv[pair.1].is_empty()
}

/// Every driver of set `i` whose step is non-empty has an edge out of `i`.
pub open spec fn complete_at(nfa: Graph, segs: Seq<CharSet>, sv: Seq<Set<i32>>, pairs: Seq<(int, int)>, ed: Seq<EdgeV>, i: int) -> bool {
    forall|d: i32, ty: Seq<char>|
        (ty == char_text() || ty == charset_text()) && #[trigger] drivers_of(nfa.edges(), sv[i], ty).contains(d)
            && !step(nfa, segs, sv[i], d, ty).is_empty() ==> exists|k: int|
            0 <= k < pairs.len() && (#[trigger] pairs[k]).0 == i && ed[k].2 == d && ed[k].3 == ty
}

/// The rank of a driver type among a state's edges: `CHAR` edges first.
pub open spec fn type_rank(ty: Seq<char>) -> int {
    if ty == char_text() {
        0
    } else {
        1
    }
}

/// The edges come by source state (numbered as in `pairs`); those leaving
/// one state come with the `CHAR` edges first, then the `CHARSET` edges; and
/// no two edges leave one state on the same driver of the same type.
pub open spec fn edges_ordered(pairs: Seq<(int, int)>, ed: Seq<EdgeV>) -> bool {
    forall|a: int, b: int|
        0 <= a < b < ed.len() ==> {
            ||| (#[trigger] pairs[a]).0 < (#[trigger] pairs[b]).0
            ||| (pairs[a].0 == pairs[b].0 && type_rank(ed[a].3) < type_rank(ed[b].3))
            ||| (pairs[a].0 == pairs[b].0 && ed[a].3 == ed[b].3 && ed[a].2 != ed[b].2)
        }
}

/// The edges of `ed` after its first `from` all leave set `head` on
/// drivers of type `ty`, no two on the same driver.
pub open spec fn batch_from(pairs: Seq<(int, int)>, ed: Seq<EdgeV>, from: int, head: int, ty: Seq<char>) -> bool {
    &&& forall|k: int| from <= k < ed.len() ==> (#[trigger] pairs[k]).0 == head && ed[k].3 == ty
    &&& forall|a: int, b: int| from <= a < b < ed.len() ==> (#[trigger] ed[a]).2 != (#[trigger] ed[b]).2
}

/// `g` is a subset construction of `nfa` with DFA sets `sv`, edge `k` of `g`
/// joining the sets numbered by `pairs[k]`, its edges in the order
/// `edges_ordered` gives.
pub open spec fn subset_dfa(nfa: Graph, segs: Seq<CharSet>, sv: Seq<Set<i32>>, pairs: Seq<(int, int)>, g: Graph) -> bool {
    &&& sv.len() >= 1
    &&& is_eps_closure(nfa.edges(), set![0i32], sv[0])
    &&& distinct_sets(sv)
    &&& g.states().len() == sv.len()
    &&& forall|k: int| 0 <= k < sv.len() ==> #[trigger] g.states()[k] == dfa_state(nfa.states(), sv[k], k as i32)
    &&& pairs.len() == g.edges().len()
    &&& forall|k: int| 0 <= k < pairs.len() ==> edge_ok(nfa, segs, sv, #[trigger] pairs[k], g.edges()[k])
    &&& forall|i: int| 0 <= i < sv.len() ==> #[trigger] complete_at(nfa, segs, sv, pairs, g.edges(), i)
    &&& edges_ordered(pairs, g.edges())
}

/// A subset construction is deterministic: no two of its edges leave one
/// state on the same driver of the same type; and among the edges leaving a
/// state, every `CHAR` edge comes before every `CHARSET` edge (for state
/// numbers within `i32`).
pub proof fn lemma_subset_dfa_deterministic(nfa: Graph, segs: Seq<CharSet>, sv: Seq<Set<i32>>, pairs: Seq<(int, int)>, g: Graph)
    requires
        subset_dfa(nfa, segs, sv, pairs, g),
        g.states().len() <= i32::MAX,
    ensures
        forall|a: int, b: int|
            0 <= a < g.edges().len() && 0 <= b < g.edges().len() && a != b && (#[trigger] g.edges()[a]).0 == (#[trigger] g.edges()[b]).0
                && g.edges()[a].3 == g.edges()[b].3 ==> g.edges()[a].2 != g.edges()[b].2,
        forall|a: int, b: int|
            0 <= a < g.edges().len() && 0 <= b < g.edges().len() && (#[trigger] g.edges()[a]).0 == (#[trigger] g.edges()[b]).0
                && g.edges()[a].3 == char_text() && g.edges()[b].3 == charset_text() ==> a < b,
{
    reveal_strlit("CHAR");
    reveal_strlit("CHARSET");
    assert(char_text().len() != charset_text().len());
    let ed = g.edges();
    assert forall|a: int, b: int|
        0 <= a < ed.len() && 0 <= b < ed.len() && a != b && (#[trigger] ed[a]).0 == (#[trigger] ed[b]).0 && ed[a].3 == ed[b].3 implies ed[a].2
        != ed[b].2 by {
        assert(edge_ok(nfa, segs, sv, pairs[a], ed[a]) && edge_ok(nfa, segs, sv, pairs[b], ed[b]));
        if a < b {
            assert(pairs[a].0 == pairs[b].0 || pairs[a].0 < pairs[b].0);
        } else {
            assert(pairs[b].0 == pairs[a].0 || pairs[b].0 < pairs[a].0);
        }
    }
    assert forall|a: int, b: int|
        0 <= a < ed.len() && 0 <= b < ed.len() && (#[trigger] ed[a]).0 == (#[trigger] ed[b]).0 && ed[a].3 == char_text() && ed[b].3
            == charset_text() implies a < b by {
        assert(edge_ok(nfa, segs, sv, pairs[a], ed[a]) && edge_ok(nfa, segs, sv, pairs[b], ed[b]));
        if b < a {
            assert(pairs[b].0 == pairs[a].0 || pairs[b].0 < pairs[a].0);
        }
    }
}

/// Whether the two sets hold the same members.
fn same_set(a: &HashSet<i32>, b: &HashSet<i32>) -> (res: bool)
    ensures
        res == (a@ == b@),
{
    let va = set_to_vec(a);
    let vb = set_to_vec(b);
    let mut i: usize = 0;
    while i < va.len()
        invariant
            i <= va@.len(),
            va@.to_set() == a@,
            forall|k: int| 0 <= k < i ==> b@.contains(#[trigger] va@[k]),
        decreases va@.len() - i,
    {
        if !b.contains(&va[i]) {
            assert(a@.contains(va@[i as int]));
            return false;
        }
        i = i + 1;
    }
    let mut i: usize = 0;
    while i < vb.len()
        invariant
            i <= vb@.len(),
            vb@.to_set() == b@,
            va@.to_set() == a@,
            forall|k: int| 0 <= k < va@.len() ==> b@.contains(#[trigger] va@[k]),
            forall|k: int| 0 <= k < i ==> a@.contains(#[trigger] vb@[k]),
        decreases vb@.len() - i,
    {
        if !a.contains(&vb[i]) {
            assert(b@.contains(vb@[i as int]));
            return false;
        }
        i = i + 1;
    }
    assert forall|x: i32| a@.contains(x) <==> b@.contains(x) by {
        if a@.contains(x) {
            let k = choose|k: int| 0 <= k < va@.len() && va@[k] == x;
            assert(b@.contains(va@[k]));
        }
        if b@.contains(x) {
            let k = choose|k: int| 0 <= k < vb@.len() && vb@[k] == x;
            assert(a@.contains(vb@[k]));
        }
    }
    assert(a@ =~= b@);
    true
}

/// A copy of the set.
fn copy_set(s: &HashSet<i32>) -> (res: HashSet<i32>)
    ensures
        res@ == s@,
{
    let v = set_to_vec(s);
    let mut res: HashSet<i32> = HashSet::new();
    let mut i: usize = 0;
    while i < v.len()
        invariant
            i <= v@.len(),
            res@ == v@.subrange(0, i as int).to_set(),
        decreases v@.len() - i,
    {
        res.insert(v[i]);
        proof {
            assert(v@.subrange(0, i + 1) =~= v@.subrange(0, i as int).push(v@[i as int]));
            v@.subrange(0, i as int).lemma_push_to_set_commute(v@[i as int]);
        }
        i = i + 1;
    }
    assert(v@.subrange(0, i as int) =~= v@);
    res
}

/// Position of the first set equal to `s`.
fn find_set(sets: &Vec<HashSet<i32>>, s: &HashSet<i32>) -> (res: Option<usize>)
    ensures
        res matches Some(k) ==> k < sets@.len() && views(sets@)[k as int] == s@,
        res is None ==> !views(sets@).contains(s@),
{
    let mut i: usize = 0;
    while i < sets.len()
        invariant
            i <= sets@.len(),
            forall|k: int| 0 <= k < i ==> views(sets@)[k] != s@,
        decreases sets@.len() - i,
    {
        if same_set(&sets[i], s) {
            return Some(i);
        }
        i = i + 1;
    }
    None
}

/// The character standing for single-character driver `d`.
fn first_char_of(t: &CharSetTable, d: i32) -> (c: char)
    ensures
        c == first_char(t.segments@, d),
{
    let segs = segments_of(t, d);
    if segs.len() > 0 {
        segs[0].fromChar
    } else {
        '?'
    }
}

fn char_string() -> (s: String)
    ensures
        s@ == char_text(),
{
    String::from_str("CHAR")
}

fn charset_string() -> (s: String)
    ensures
        s@ == charset_text(),
{
    String::from_str("CHARSET")
}

impl Graph {
    /// The single-character drivers and the character-set drivers on the
    /// non-epsilon edges that leave `curr`, each once, in the order the
    /// hash sets hand them out.
    fn collect_drivers(&self, curr: &HashSet<i32>) -> (res: (Vec<i32>, Vec<i32>))
        ensures
            res.0@.to_set() == drivers_of(self.edges(), curr@, char_text()),
            res.0@.no_duplicates(),
            res.1@.to_set() == drivers_of(self.edges(), curr@, charset_text()),
            res.1@.no_duplicates(),
    {
        proof {
            reveal_strlit("CHAR");
            reveal_strlit("CHARSET");
            assert(char_text().len() != charset_text().len());
        }
        let ghost e = self.edges();
        let mut just: HashSet<i32> = HashSet::new();
        let mut diff: HashSet<i32> = HashSet::new();
        let mut i: usize = 0;
        while i < self.pEdgeTable.len()
            invariant
                i <= self.pEdgeTable@.len(),
                e == self.edges(),
                char_text() != charset_text(),
                just@ == Set::new(
                    |d: i32| exists|j: int| 0 <= j < i && curr@.contains((#[trigger] e[j]).0) && e[j].2 != -1 && e[j].3 == char_text() && e[j].2 == d,
                ),
                diff@ == Set::new(
                    |d: i32| exists|j: int| 0 <= j < i && curr@.contains((#[trigger] e[j]).0) && e[j].2 != -1 && e[j].3 == charset_text() && e[j].2 == d,
                ),
            decreases self.pEdgeTable@.len() - i,
        {
            let edge = &self.pEdgeTable[i];
            assert(e[i as int] == edge@);
            let ghost j0 = just@;
            let ghost d0 = diff@;
            if curr.contains(&edge.fromState) && edge.driverId != -1 {
                if str_eq(edge.DriverType.as_str(), "CHARSET") {
                    diff.insert(edge.driverId);
                } else if str_eq(edge.DriverType.as_str(), "CHAR") {
                    just.insert(edge.driverId);
                }
            }
            assert(just@ =~= Set::new(
                |d: i32| exists|j: int| 0 <= j < i + 1 && curr@.contains((#[trigger] e[j]).0) && e[j].2 != -1 && e[j].3 == char_text() && e[j].2 == d,
            ));
            assert(diff@ =~= Set::new(
                |d: i32| exists|j: int| 0 <= j < i + 1 && curr@.contains((#[trigger] e[j]).0) && e[j].2 != -1 && e[j].3 == charset_text() && e[j].2 == d,
            ));
            i = i + 1;
        }
        assert(just@ =~= drivers_of(e, curr@, char_text()));
        assert(diff@ =~= drivers_of(e, curr@, charset_text()));
        (set_to_vec(&just), set_to_vec(&diff))
    }
}

/// Records the transition from DFA state `curr_state_id` on `driver_id` to
/// the DFA state for `next_state_set`, adding that state when it is new.
/// Nothing is recorded for an empty set.
fn handle_state_transition(
    dfa_state_sets: &mut Vec<HashSet<i32>>,
    edge_list: &mut Vec<Edge>,
    curr_state_id: usize,
    driver_id: i32,
    driver_type: &str,
    next_state_set: HashSet<i32>,
) -> (res: Option<usize>)
    ensures
        next_state_set@.is_empty() ==> res is None && final(dfa_state_sets)@ == old(dfa_state_sets)@
            && final(edge_list)@ == old(edge_list)@,
        !next_state_set@.is_empty() ==> res is Some,
        res matches Some(j) ==> {
            &&& views(old(dfa_state_sets)@).contains(next_state_set@) ==> views(final(dfa_state_sets)@) == views(
                old(dfa_state_sets)@,
            )
            &&& !views(old(dfa_state_sets)@).contains(next_state_set@) ==> views(final(dfa_state_sets)@) == views(
                old(dfa_state_sets)@,
            ).push(next_state_set@)
            &&& j < final(dfa_state_sets)@.len()
            &&& views(final(dfa_state_sets)@)[j as int] == next_state_set@
            &&& view_edges(final(edge_list)@) == view_edges(old(edge_list)@).push(
                (curr_state_id as i32, j as i32, driver_id, driver_type@),
            )
        },
{
    if next_state_set.is_empty() {
        return None;
    }
    let ghost old_sets = dfa_state_sets@;
    let ghost old_edges = edge_list@;
    let pos = find_set(dfa_state_sets, &next_state_set);
    let j = match pos {
        Some(k) => k,
        None => {
            dfa_state_sets.push(next_state_set);
            proof {
                assert(views(dfa_state_sets@) =~= views(old_sets).push(dfa_state_sets@[old_sets.len() as int]@));
            }
            dfa_state_sets.len() - 1
        },
    };
    let ed = Edge {
        fromState: curr_state_id as i32,
        nextState: j as i32,
        driverId: driver_id,
        DriverType: String::from_str(driver_type),
    };
    proof {
        lemma_view_edges_push(old_edges, ed);
    }
    edge_list.push(ed);
    Some(j)
}

/// Properties of DFA edges survive when sets are added at the end.
proof fn lemma_edge_ok_mono(nfa: Graph, segs: Seq<CharSet>, sv: Seq<Set<i32>>, sv2: Seq<Set<i32>>, pair: (int, int), ed: EdgeV)
    requires
        edge_ok(nfa, segs, sv, pair, ed),
        sv.len() <= sv2.len(),
        forall|k: int| 0 <= k < sv.len() ==> sv2[k] == sv[k],
    ensures
        edge_ok(nfa, segs, sv2, pair, ed),
{
    assert(sv2[pair.0] == sv[pair.0]);
    assert(sv2[pair.1] == sv[pair.1]);
}

/// Completeness at a set survives when sets and edges are added at the end.
proof fn lemma_complete_mono(
    nfa: Graph,
    segs: Seq<CharSet>,
    sv: Seq<Set<i32>>,
    sv2: Seq<Set<i32>>,
    pairs: Seq<(int, int)>,
    pairs2: Seq<(int, int)>,
    ed: Seq<EdgeV>,
    ed2: Seq<EdgeV>,
    i: int,
)
    requires
        0 <= i < sv.len(),
        complete_at(nfa, segs, sv, pairs, ed, i),
        sv.len() <= sv2.len(),
        forall|k: int| 0 <= k < sv.len() ==> sv2[k] == sv[k],
        pairs.len() <= pairs2.len(),
        pairs.len() <= ed.len(),
        pairs.len() <= ed2.len(),
        forall|k: int| 0 <= k < pairs.len() ==> pairs2[k] == pairs[k] && ed2[k] == ed[k],
    ensures
        complete_at(nfa, segs, sv2, pairs2, ed2, i),
{
    assert(sv2[i] == sv[i]);
    assert forall|d: i32, ty: Seq<char>|
        (ty == char_text() || ty == charset_text()) && #[trigger] drivers_of(nfa.edges(), sv2[i], ty).contains(d)
            && !step(nfa, segs, sv2[i], d, ty).is_empty() implies exists|k: int|
        0 <= k < pairs2.len() && (#[trigger] pairs2[k]).0 == i && ed2[k].2 == d && ed2[k].3 == ty by {
        assert(drivers_of(nfa.edges(), sv[i], ty).contains(d));
        let k = choose|k: int| 0 <= k < pairs.len() && (#[trigger] pairs[k]).0 == i && ed[k].2 == d && ed[k].3 == ty;
        assert(pairs2[k] == pairs[k]);
    }
}

/// `b` starts with `a`.
pub open spec fn extends<A>(a: Seq<A>, b: Seq<A>) -> bool {
    a.len() <= b.len() && forall|k: int| 0 <= k < a.len() ==> b[k] == a[k]
}

/// What the subset construction keeps while it runs: DFA sets drawn from
/// the members of `u`, distinct, the first the closure of state 0, and
/// every recorded edge sound and leaving a set numbered below `lim`.
pub open spec fn dfa_inv(
    nfa: Graph,
    segs: Seq<CharSet>,
    u: Seq<i32>,
    sv: Seq<Set<i32>>,
    pairs: Seq<(int, int)>,
    ed: Seq<EdgeV>,
    lim: int,
) -> bool {
    &&& forall|j: int| 0 <= j < nfa.edges().len() ==> u.to_set().contains((#[trigger] nfa.edges()[j]).1)
    &&& 1 <= sv.len() <= two_pow(u.len() as nat)
    &&& is_eps_closure(nfa.edges(), set![0i32], sv[0])
    &&& distinct_sets(sv)
    &&& forall|k: int| 0 <= k < sv.len() ==> (#[trigger] sv[k]).subset_of(u.to_set())
    &&& pairs.len() == ed.len()
    &&& forall|k: int| 0 <= k < pairs.len() ==> edge_ok(nfa, segs, sv, #[trigger] pairs[k], ed[k]) && pairs[k].0 < lim
}

/// Distinct sets drawn from the members of `u` number at most `2^|u|`.
proof fn lemma_sets_bound(u: Seq<i32>, sv: Seq<Set<i32>>)
    requires
        distinct_sets(sv),
        forall|k: int| 0 <= k < sv.len() ==> (#[trigger] sv[k]).subset_of(u.to_set()),
    ensures
        sv.len() <= two_pow(u.len() as nat),
{
    assert(sv.no_duplicates()) by {
        assert forall|a: int, b: int| 0 <= a < sv.len() && 0 <= b < sv.len() && a != b implies sv[a] != sv[b] by {
            if a < b {
                assert(sv[a] != sv[b]);
            } else {
                assert(sv[b] != sv[a]);
            }
        }
    }
    sv.unique_seq_to_set();
    vstd::seq_lib::seq_to_set_is_finite(sv);
    assert forall|s: Set<i32>| #[trigger] sv.to_set().contains(s) implies s.subset_of(u.to_set()) by {
        let k = choose|k: int| 0 <= k < sv.len() && sv[k] == s;
        assert(sv[k].subset_of(u.to_set()));
    }
    lemma_family_bound(u, sv.to_set());
}

impl Graph {
    /// Follows each of `drivers` out of DFA state `head` (whose NFA set is
    /// `curr`), recording the transitions; `is_char` tells single-character
    /// drivers from character-set drivers.
    #[verifier::rlimit(50)]
    fn process_drivers(
        &self,
        t: &CharSetTable,
        curr: &HashSet<i32>,
        head: usize,
        drivers: &Vec<i32>,
        is_char: bool,
        sets: &mut Vec<HashSet<i32>>,
        edge_list: &mut Vec<Edge>,
        Ghost(pairs0): Ghost<Seq<(int, int)>>,
        Ghost(u): Ghost<Seq<i32>>,
    ) -> (pairs: Ghost<Seq<(int, int)>>)
        requires
            dfa_inv(*self, t.segments@, u, views(old(sets)@), pairs0, view_edges(old(edge_list)@), head + 1),
            head < old(sets)@.len(),
            curr@ == views(old(sets)@)[head as int],
            drivers@.to_set() == drivers_of(self.edges(), curr@, if is_char { char_text() } else { charset_text() }),
            drivers@.no_duplicates(),
        ensures
            dfa_inv(*self, t.segments@, u, views(final(sets)@), pairs@, view_edges(final(edge_list)@), head + 1),
            batch_from(
                pairs@,
                view_edges(final(edge_list)@),
                view_edges(old(edge_list)@).len() as int,
                head as int,
                if is_char { char_text() } else { charset_text() },
            ),
            extends(views(old(sets)@), views(final(sets)@)),
            extends(pairs0, pairs@),
            extends(view_edges(old(edge_list)@), view_edges(final(edge_list)@)),
            forall|q: int|
                0 <= q < drivers@.len() && !step(
                    *self,
                    t.segments@,
                    curr@,
                    #[trigger] drivers@[q],
                    if is_char { char_text() } else { charset_text() },
                ).is_empty() ==> exists|k: int|
                    0 <= k < pairs@.len() && (#[trigger] pairs@[k]).0 == head && view_edges(final(edge_list)@)[k].2 == drivers@[q]
                        && view_edges(final(edge_list)@)[k].3 == (if is_char { char_text() } else { charset_text() }),
    {
        proof {
            reveal_strlit("CHAR");
            reveal_strlit("CHARSET");
            assert(char_text().len() != charset_text().len());
        }
        let ghost e = self.edges();
        let ghost segs = t.segments@;
        let ghost ty = if is_char { char_text() } else { charset_text() };
        let ghost sv0 = views(sets@);
        let ghost ed0 = view_edges(edge_list@);
        let ghost mut pairs = pairs0;
        let mut p: usize = 0;
        while p < drivers.len()
            invariant
                e == self.edges(),
                segs == t.segments@,
                ty == (if is_char { char_text() } else { charset_text() }),
                dfa_inv(*self, segs, u, views(sets@), pairs, view_edges(edge_list@), head + 1),
                head < sets@.len(),
                curr@ == views(sets@)[head as int],
                drivers@.to_set() == drivers_of(e, curr@, ty),
                extends(sv0, views(sets@)),
                extends(pairs0, pairs),
                extends(ed0, view_edges(edge_list@)),
                p <= drivers@.len(),
                drivers@.no_duplicates(),
                batch_from(pairs, view_edges(edge_list@), ed0.len() as int, head as int, ty),
                forall|k: int|
                    ed0.len() <= k < view_edges(edge_list@).len() ==> drivers@.subrange(0, p as int).contains(
                        (#[trigger] view_edges(edge_list@)[k]).2,
                    ),
                char_text() != charset_text(),
                forall|q: int|
                    0 <= q < p && !step(*self, segs, curr@, #[trigger] drivers@[q], ty).is_empty() ==> exists|k: int|
                        0 <= k < pairs.len() && (#[trigger] pairs[k]).0 == head && view_edges(edge_list@)[k].2 == drivers@[q]
                            && view_edges(edge_list@)[k].3 == ty,
            decreases drivers@.len() - p,
        {
            let d = drivers[p];
            let next = if is_char {
                let c = first_char_of(t, d);
                self.DTran_char(t, curr, c)
            } else {
                self.DTran_driver(curr, d)
            };
            let ghost moved = step(*self, segs, curr@, d, ty);
            assert(is_eps_closure(e, moved, next@));
            let ghost sv1 = views(sets@);
            let ghost ed1 = view_edges(edge_list@);
            let ghost pairs1 = pairs;
            let r = if is_char {
                handle_state_transition(sets, edge_list, head, d, "CHAR", next)
            } else {
                handle_state_transition(sets, edge_list, head, d, "CHARSET", next)
            };
            proof {
                reveal_strlit("CHAR");
                reveal_strlit("CHARSET");
                lemma_eps_closure_empty(e, moved, next@);
                assert(drivers@.to_set().contains(d));
                let sv2 = views(sets@);
                let ed2 = view_edges(edge_list@);
                if let Some(j) = r {
                    let pr = (head as int, j as int);
                    pairs = pairs.push(pr);
                    assert forall|x: i32| moved.contains(x) implies u.to_set().contains(x) by {
                        if is_char {
                            let jj = choose|jj: int|
                                0 <= jj < e.len() && curr@.contains((#[trigger] e[jj]).0) && e[jj].2 != -1 && crate::lab1::char_set::set_has(
                                    segs,
                                    e[jj].2,
                                    first_char(segs, d),
                                ) && e[jj].1 == x;
                            assert(u.to_set().contains(e[jj].1));
                        } else {
                            let jj = choose|jj: int| 0 <= jj < e.len() && curr@.contains((#[trigger] e[jj]).0) && e[jj].2 == d && e[jj].1 == x;
                            assert(u.to_set().contains(e[jj].1));
                        }
                    }
                    lemma_eps_closure_within(e, moved, next@, u.to_set());
                    assert(extends(sv1, sv2));
                    assert(sv2[head as int] == curr@);
                    assert forall|k: int| 0 <= k < sv2.len() implies (#[trigger] sv2[k]).subset_of(u.to_set()) by {
                        if k < sv1.len() {
                            assert(sv2[k] == sv1[k]);
                        }
                    }
                    assert(distinct_sets(sv2)) by {
                        assert forall|a: int, b: int| 0 <= a < b < sv2.len() implies #[trigger] sv2[a] != #[trigger] sv2[b] by {
                            if b < sv1.len() {
                                assert(sv1[a] != sv1[b]);
                            } else {
                                assert(sv1[a] == sv2[a]);
                                assert(!sv1.contains(next@));
                            }
                        }
                    }
                    lemma_sets_bound(u, sv2);
                    assert(ed2 == ed1.push(ed2[ed1.len() as int]));
                    assert forall|k: int| 0 <= k < pairs.len() implies edge_ok(*self, segs, sv2, #[trigger] pairs[k], ed2[k])
                        && pairs[k].0 < head + 1 by {
                        if k < pairs1.len() {
                            assert(pairs[k] == pairs1[k]);
                            assert(ed2[k] == ed1[k]);
                            lemma_edge_ok_mono(*self, segs, sv1, sv2, pairs1[k], ed1[k]);
                        } else {
                            assert(pairs[k] == pr);
                        }
                    }
                    let sub0 = drivers@.subrange(0, p as int);
                    let sub1 = drivers@.subrange(0, p + 1);
                    assert forall|k: int| ed0.len() <= k < ed2.len() implies sub1.contains((#[trigger] ed2[k]).2) by {
                        if k < ed1.len() {
                            assert(ed2[k] == ed1[k]);
                            let q = choose|q: int| 0 <= q < sub0.len() && sub0[q] == ed1[k].2;
                            assert(sub1[q] == sub0[q]);
                        } else {
                            assert(sub1[p as int] == d);
                        }
                    }
                    assert(batch_from(pairs, ed2, ed0.len() as int, head as int, ty)) by {
                        assert forall|a: int, b: int| ed0.len() <= a < b < ed2.len() implies (#[trigger] ed2[a]).2
                            != (#[trigger] ed2[b]).2 by {
                            if b < ed1.len() {
                                assert(ed2[a] == ed1[a] && ed2[b] == ed1[b]);
                            } else {
                                assert(ed2[a] == ed1[a]);
                                let q = choose|q: int| 0 <= q < sub0.len() && sub0[q] == ed1[a].2;
                                assert(drivers@[q] != drivers@[p as int]);
                            }
                        }
                        assert forall|k: int| ed0.len() <= k < ed2.len() implies (#[trigger] pairs[k]).0 == head && ed2[k].3 == ty by {
                            if k < ed1.len() {
                                assert(ed2[k] == ed1[k]);
                                assert(pairs[k] == pairs1[k]);
                            } else {
                                assert(pairs[k] == pr);
                            }
                        }
                    }
                    assert forall|q: int|
                        0 <= q < p + 1 && !step(*self, segs, curr@, #[trigger] drivers@[q], ty).is_empty() implies exists|k: int|
                        0 <= k < pairs.len() && (#[trigger] pairs[k]).0 == head && ed2[k].2 == drivers@[q] && ed2[k].3 == ty by {
                        if q < p {
                            let k = choose|k: int|
                                0 <= k < pairs1.len() && (#[trigger] pairs1[k]).0 == head && ed1[k].2 == drivers@[q] && ed1[k].3 == ty;
                            assert(pairs[k] == pairs1[k]);
                            assert(ed2[k] == ed1[k]);
                        } else {
                            let k = pairs1.len() as int;
                            assert(pairs[k] == pr);
                        }
                    }
                } else {
                    let sub0 = drivers@.subrange(0, p as int);
                    let sub1 = drivers@.subrange(0, p + 1);
                    assert forall|k: int| ed0.len() <= k < ed2.len() implies sub1.contains((#[trigger] ed2[k]).2) by {
                        let q = choose|q: int| 0 <= q < sub0.len() && sub0[q] == ed1[k].2;
                        assert(sub1[q] == sub0[q]);
                    }
                }
            }
            p = p + 1;
        }
        Ghost(pairs)
    }
}

/// Whether some NFA state at a position held by `s` accepts.
pub(crate) fn set_has_match(states: &Vec<State>, s: &HashSet<i32>) -> (res: bool)
    requires
        states@.len() <= i32::MAX,
    ensures
        res == set_matches(view_states(states@), s@),
{
    let ghost st = view_states(states@);
    let mut i: usize = 0;
    while i < states.len()
        invariant
            i <= states@.len(),
            states@.len() <= i32::MAX,
            st == view_states(states@),
            forall|k: int| 0 <= k < i ==> !(s@.contains(k as i32) && is_match(#[trigger] st[k])),
        decreases states@.len() - i,
    {
        assert(st[i as int] == states@[i as int]@);
        if s.contains(&(i as i32)) && crate::lab1::graph::state_is_match(&states[i]) {
            return true;
        }
        i = i + 1;
    }
    false
}

/// The category of the DFA state for `s`: scanning the NFA states at the
/// positions held by `s` in increasing order, the first category other than
/// `ID`, else `ID` if one of them has it.
pub(crate) fn pick_preferred_category_from_ids(states: &Vec<State>, s: &HashSet<i32>) -> (res: Option<LexemeCategory>)
    requires
        states@.len() <= i32::MAX,
    ensures
        res == pref_scan(view_states(states@), s@, 0),
{
    let ghost st = view_states(states@);
    let mut r: Option<LexemeCategory> = None;
    let mut i: usize = states.len();
    while i > 0
        invariant
            i <= states@.len(),
            states@.len() <= i32::MAX,
            st == view_states(states@),
            r == pref_scan(st, s@, i as int),
        decreases i,
    {
        i = i - 1;
        assert(st[i as int] == states@[i as int]@);
        let inside = s.contains(&(i as i32));
        let cat = states[i].LexemeCategory;
        let other = match cat {
            Some(LexemeCategory::ID) => false,
            Some(_) => true,
            None => false,
        };
        let is_id = match cat {
            Some(LexemeCategory::ID) => true,
            _ => false,
        };
        if inside && other {
            r = cat;
        } else if r.is_some() {
        } else if inside && is_id {
            r = Some(LexemeCategory::ID);
        } else {
            r = None;
        }
    }
    r
}

/// The DFA state numbered `id` for the NFA state set `s`.
fn build_dfa_state(states: &Vec<State>, s: &HashSet<i32>, id: usize) -> (res: State)
    requires
        states@.len() <= i32::MAX,
    ensures
        res@ == dfa_state(view_states(states@), s@, id as i32),
{
    let contains_match = set_has_match(states, s);
    let category = if contains_match {
        pick_preferred_category_from_ids(states, s)
    } else {
        None
    };
    let match_type = if contains_match && category.is_some() {
        String::from_str("MATCH")
    } else {
        String::from_str("UNMATCH")
    };
    State { stateId: id as i32, StateType: match_type, LexemeCategory: category }
}

impl Graph {
    /// Subset construction. DFA state 0 is the epsilon closure of NFA state 0;
    /// each DFA state is a distinct epsilon-closed set of NFA states, and for
    /// every driver on an edge leaving the set there is an edge to the closure
    /// of the step on that driver when it is not empty (a single-character
    /// driver is followed on its first character). DFA states are numbered in
    /// the order they are found; the order in which the drivers of one set
    /// are followed is that of a hash set, so the numbering may differ from
    /// run to run, and the contract holds for every numbering.
    pub fn NFA_to_DFA(&self, t: &CharSetTable, counter: &mut GraphCounter) -> (g: Graph)
        requires
            old(counter).count < i32::MAX,
            self.pStateTable@.len() <= i32::MAX,
        ensures
            g.graphId == old(counter).count + 1,
            final(counter).count == g.graphId,
            g.numOfStates == g.pStateTable@.len() as i32,
            exists|sv: Seq<Set<i32>>, pairs: Seq<(int, int)>| subset_dfa(*self, t.segments@, sv, pairs, g),
    {
        let ghost e = self.edges();
        let ghost segs = t.segments@;
        let targets = crate::lab1::subset::edge_targets(&self.pEdgeTable);
        let ghost u = seq![0i32] + targets@;
        proof {
            assert forall|j: int| 0 <= j < e.len() implies u.to_set().contains((#[trigger] e[j]).1) by {
                assert(e[j] == self.pEdgeTable@[j]@);
                assert(u[j + 1] == e[j].1);
            }
            assert(u[0] == 0);
        }
        let mut start: HashSet<i32> = HashSet::new();
        start.insert(0);
        let start_set = self.epsilon_closure(&start);
        proof {
            assert(start@ =~= set![0i32]);
            lemma_eps_closure_within(e, start@, start_set@, u.to_set());
        }
        let mut sets: Vec<HashSet<i32>> = Vec::new();
        sets.push(start_set);
        let mut edge_list: Vec<Edge> = Vec::new();
        let ghost mut pairs: Seq<(int, int)> = Seq::empty();
        proof {
            assert(views(sets@)[0] == start_set@);
            lemma_sets_bound(u, views(sets@));
            assert(view_edges(edge_list@) =~= Seq::<EdgeV>::empty());
        }
        let mut head: usize = 0;
        while head < sets.len()
            invariant
                e == self.edges(),
                segs == t.segments@,
                dfa_inv(*self, segs, u, views(sets@), pairs, view_edges(edge_list@), head as int),
                head <= sets@.len(),
                forall|i: int| 0 <= i < head ==> #[trigger] complete_at(*self, segs, views(sets@), pairs, view_edges(edge_list@), i),
                edges_ordered(pairs, view_edges(edge_list@)),
            decreases two_pow(u.len() as nat) - head,
        {
            let curr = copy_set(&sets[head]);
            let (chars, charsets) = self.collect_drivers(&curr);
            let ghost sv0 = views(sets@);
            let ghost ed0 = view_edges(edge_list@);
            let ghost pairs0 = pairs;
            let Ghost(pairs1) = self.process_drivers(
                t,
                &curr,
                head,
                &chars,
                true,
                &mut sets,
                &mut edge_list,
                Ghost(pairs),
                Ghost(u),
            );
            let ghost sv1 = views(sets@);
            let ghost ed1 = view_edges(edge_list@);
            let Ghost(pairs2) = self.process_drivers(
                t,
                &curr,
                head,
                &charsets,
                false,
                &mut sets,
                &mut edge_list,
                Ghost(pairs1),
                Ghost(u),
            );
            proof {
                pairs = pairs2;
                let sv2 = views(sets@);
                let ed2 = view_edges(edge_list@);
                assert(sv2[head as int] == curr@);
                assert(complete_at(*self, segs, sv2, pairs, ed2, head as int)) by {
                    assert forall|d: i32, ty: Seq<char>|
                        (ty == char_text() || ty == charset_text()) && #[trigger] drivers_of(e, sv2[head as int], ty).contains(d)
                            && !step(*self, segs, sv2[head as int], d, ty).is_empty() implies exists|k: int|
                        0 <= k < pairs.len() && (#[trigger] pairs[k]).0 == head && ed2[k].2 == d && ed2[k].3 == ty by {
                        if ty == char_text() {
                            assert(chars@.to_set().contains(d));
                            let q = choose|q: int| 0 <= q < chars@.len() && chars@[q] == d;
                            assert(!step(*self, segs, curr@, chars@[q], char_text()).is_empty());
                            let k = choose|k: int|
                                0 <= k < pairs1.len() && (#[trigger] pairs1[k]).0 == head && ed1[k].2 == chars@[q] && ed1[k].3
                                    == char_text();
                            assert(pairs[k] == pairs1[k]);
                            assert(ed2[k] == ed1[k]);
                        } else {
                            assert(charsets@.to_set().contains(d));
                            let q = choose|q: int| 0 <= q < charsets@.len() && charsets@[q] == d;
                            assert(!step(*self, segs, curr@, charsets@[q], charset_text()).is_empty());
                        }
                    }
                }
                assert(edges_ordered(pairs, ed2)) by {
                    reveal_strlit("CHAR");
                    reveal_strlit("CHARSET");
                    assert(char_text().len() != charset_text().len());
                    assert forall|a: int, b: int| 0 <= a < b < ed2.len() implies {
                        ||| (#[trigger] pairs[a]).0 < (#[trigger] pairs[b]).0
                        ||| (pairs[a].0 == pairs[b].0 && type_rank(ed2[a].3) < type_rank(ed2[b].3))
                        ||| (pairs[a].0 == pairs[b].0 && ed2[a].3 == ed2[b].3 && ed2[a].2 != ed2[b].2)
                    } by {
                        if b < ed0.len() {
                            assert(pairs[a] == pairs0[a] && pairs[b] == pairs0[b]);
                            assert(ed2[a] == ed0[a] && ed2[b] == ed0[b]);
                        } else if a < ed0.len() {
                            assert(pairs[a] == pairs0[a]);
                            assert(pairs0[a].0 < head);
                            if b < ed1.len() {
                                assert(pairs[b] == pairs1[b]);
                            }
                        } else if b < ed1.len() {
                            assert(pairs[a] == pairs1[a] && pairs[b] == pairs1[b]);
                            assert(ed2[a] == ed1[a] && ed2[b] == ed1[b]);
                        } else if a < ed1.len() {
                            assert(pairs[a] == pairs1[a]);
                            assert(ed2[a] == ed1[a]);
                        }
                    }
                }
                assert forall|i: int| 0 <= i < head + 1 implies #[trigger] complete_at(*self, segs, sv2, pairs, ed2, i) by {
                    if i < head {
                        lemma_complete_mono(*self, segs, sv0, sv2, pairs0, pairs, ed0, ed2, i);
                    }
                }
                lemma_sets_bound(u, sv2);
            }
            head = head + 1;
        }
        let mut node_list: Vec<State> = Vec::new();
        let mut k: usize = 0;
        while k < sets.len()
            invariant
                k <= sets@.len(),
                self.pStateTable@.len() <= i32::MAX,
                node_list@.len() == k,
                forall|m: int| 0 <= m < k ==> (#[trigger] node_list@[m])@ == dfa_state(self.states(), sets@[m]@, m as i32),
            decreases sets@.len() - k,
        {
            let st = build_dfa_state(&self.pStateTable, &sets[k], k);
            node_list.push(st);
            k = k + 1;
        }
        let id = crate::lab1::graph::next_graph_id_pub(counter);
        let n = node_list.len() as i32;
        let g = Graph { graphId: id, numOfStates: n, pEdgeTable: edge_list, pStateTable: node_list };
        proof {
            let sv = views(sets@);
            assert forall|m: int| 0 <= m < sv.len() implies #[trigger] g.states()[m] == dfa_state(self.states(), sv[m], m as i32) by {
                assert(g.states()[m] == node_list@[m]@);
            }
            assert(subset_dfa(*self, segs, sv, pairs, g));
        }
        g
    }
}

} // verus!
