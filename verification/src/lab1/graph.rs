//! Finite automata over character-set drivers: Thompson-style construction,
//! epsilon closure, subset construction, minimisation and scanning.
use vstd::prelude::*;
use vstd::string::StringExecFns;
use crate::lab1::category::LexemeCategory;
use crate::text::str_eq;

verus! {

/// A state of an automaton.
#[derive(Clone, Debug)]
pub struct State {
    /// State number (unique within its graph).
    pub stateId: i32,
    /// `"MATCH"` for accepting states, `"UNMATCH"` otherwise.
    pub StateType: String,
    /// Lexical category of an accepting state.
    pub LexemeCategory: Option<LexemeCategory>,
}

/// A transition `fromState --driver--> nextState`.
#[derive(Clone, Debug)]
pub struct Edge {
    pub fromState: i32,
    pub nextState: i32,
    /// Character-set index driving the edge, or -1 for an epsilon edge.
    pub driverId: i32,
    /// `"CHAR"`, `"CHARSET"` or `"NULL"` (epsilon).
    pub DriverType: String,
}

/// An NFA or DFA: numbered states, edges between them.
#[derive(Clone, Debug)]
pub struct Graph {
    pub graphId: i32,
    pub numOfStates: i32,
    pub pEdgeTable: Vec<Edge>,
    pub pStateTable: Vec<State>,
}

/// Hands out graph numbers.
pub struct GraphCounter {
    pub count: i32,
}

/// A state as plain values: number, type text, category.
pub type StateV = (i32, Seq<char>, Option<LexemeCategory>);

/// An edge as plain values: from, to, driver, driver type text.
pub type EdgeV = (i32, i32, i32, Seq<char>);

impl View for State {
    type V = StateV;

    open spec fn view(&self) -> StateV {
        (self.stateId, self.StateType@, self.LexemeCategory)
    }
}

impl View for Edge {
    type V = EdgeV;

    open spec fn view(&self) -> EdgeV {
        (self.fromState, self.nextState, self.driverId, self.DriverType@)
    }
}

impl Graph {
    /// The states as plain values.
    pub open spec fn states(&self) -> Seq<StateV> {
        view_states(self.pStateTable@)
    }

    /// The edges as plain values.
    pub open spec fn edges(&self) -> Seq<EdgeV> {
        view_edges(self.pEdgeTable@)
    }
}

/// A state table as plain values.
pub open spec fn view_states(v: Seq<State>) -> Seq<StateV> {
    Seq::new(v.len(), |i: int| v[i]@)
}

/// An edge table as plain values.
pub open spec fn view_edges(v: Seq<Edge>) -> Seq<EdgeV> {
    Seq::new(v.len(), |i: int| v[i]@)
}

/// Viewing commutes with `push`.
pub proof fn lemma_view_states_push(v: Seq<State>, x: State)
    ensures
        view_states(v.push(x)) == view_states(v).push(x@),
{
    assert(view_states(v.push(x)) =~= view_states(v).push(x@));
}

/// Viewing commutes with `push`.
pub proof fn lemma_view_edges_push(v: Seq<Edge>, x: Edge)
    ensures
        view_edges(v.push(x)) == view_edges(v).push(x@),
{
    assert(view_edges(v.push(x)) =~= view_edges(v).push(x@));
}

pub open spec fn match_text() -> Seq<char> {
    "MATCH"@
}

pub open spec fn unmatch_text() -> Seq<char> {
    "UNMATCH"@
}

pub open spec fn null_text() -> Seq<char> {
    "NULL"@
}

/// An accepting state.
pub open spec fn is_match(s: StateV) -> bool {
    s.1 == match_text()
}

/// An epsilon edge.
pub open spec fn is_eps(e: EdgeV) -> bool {
    e.2 == -1 && e.3 == null_text()
}

/// The epsilon edge `from -> to`.
pub open spec fn eps(from: i32, to: i32) -> EdgeV {
    (from, to, -1i32, null_text())
}

/// States renumbered by `off`.
pub open spec fn shift_s(s: Seq<StateV>, off: int) -> Seq<StateV> {
    Seq::new(s.len(), |i: int| ((s[i].0 + off) as i32, s[i].1, s[i].2))
}

/// Edges renumbered by `off`.
pub open spec fn shift_e(e: Seq<EdgeV>, off: int) -> Seq<EdgeV> {
    Seq::new(e.len(), |i: int| ((e[i].0 + off) as i32, (e[i].1 + off) as i32, e[i].2, e[i].3))
}

/// Every state number and edge end of `g` stays in `i32` when moved by `off`.
pub open spec fn shift_fits(g: Graph, off: int) -> bool {
    &&& forall|i: int| 0 <= i < g.states().len() ==> i32::MIN <= (#[trigger] g.states()[i]).0 + off <= i32::MAX
    &&& forall|i: int| 0 <= i < g.edges().len() ==> i32::MIN <= (#[trigger] g.edges()[i]).0 + off <= i32::MAX
        && i32::MIN <= g.edges()[i].1 + off <= i32::MAX
}

/// Numbers of the accepting states other than `skip1` and `skip2`, in order.
pub open spec fn matched_ids(s: Seq<StateV>, skip1: i32, skip2: i32) -> Seq<i32>
    decreases s.len(),
{
    if s.len() == 0 {
        Seq::empty()
    } else {
        let rest = matched_ids(s.drop_last(), skip1, skip2);
        let x = s.last();
        if x.0 != skip1 && x.0 != skip2 && is_match(x) {
            rest.push(x.0)
        } else {
            rest
        }
    }
}

/// States whose number is in `ids` made non-accepting (category kept).
pub open spec fn demote(s: Seq<StateV>, ids: Seq<i32>) -> Seq<StateV> {
    Seq::new(s.len(), |i: int| if ids.contains(s[i].0) { (s[i].0, unmatch_text(), s[i].2) } else { s[i] })
}

/// Epsilon edges from each of `ids` to `to`.
pub open spec fn eps_from(ids: Seq<i32>, to: i32) -> Seq<EdgeV> {
    Seq::new(ids.len(), |i: int| eps(ids[i], to))
}

/// Epsilon edges from each of `ids` to `to1` and `to2`, interleaved.
pub open spec fn eps_from2(ids: Seq<i32>, to1: i32, to2: i32) -> Seq<EdgeV>
    decreases ids.len(),
{
    if ids.len() == 0 {
        Seq::empty()
    } else {
        eps_from2(ids.drop_last(), to1, to2).push(eps(ids.last(), to1)).push(eps(ids.last(), to2))
    }
}

impl GraphCounter {
    /// A counter whose first graph receives number 1.
    pub fn new() -> (c: GraphCounter)
        ensures
            c.count == 0,
    {
        GraphCounter { count: 0 }
    }
}

/// The next graph number.
fn next_graph_id(counter: &mut GraphCounter) -> (id: i32)
    requires
        old(counter).count < i32::MAX,
    ensures
        id == old(counter).count + 1,
        final(counter).count == id,
{
    counter.count = counter.count + 1;
    counter.count
}

/// The next graph number, for constructions in other modules.
pub(crate) fn next_graph_id_pub(counter: &mut GraphCounter) -> (id: i32)
    requires
        old(counter).count < i32::MAX,
    ensures
        id == old(counter).count + 1,
        final(counter).count == id,
{
    next_graph_id(counter)
}

/// Restarts graph numbering.
pub fn reset_graph_counter(counter: &mut GraphCounter)
    ensures
        final(counter).count == 0,
{
    counter.count = 0;
}

/// A copy of a state.
pub fn copy_state(s: &State) -> (res: State)
    ensures
        res@ == s@,
{
    State { stateId: s.stateId, StateType: s.StateType.clone(), LexemeCategory: s.LexemeCategory }
}

/// A copy of an edge.
pub fn copy_edge(e: &Edge) -> (res: Edge)
    ensures
        res@ == e@,
{
    Edge { fromState: e.fromState, nextState: e.nextState, driverId: e.driverId, DriverType: e.DriverType.clone() }
}

/// A copy of a state table.
pub fn copy_states(v: &Vec<State>) -> (res: Vec<State>)
    ensures
        view_states(res@) == view_states(v@),
{
    let mut res: Vec<State> = Vec::new();
    let mut i: usize = 0;
    while i < v.len()
        invariant
            i <= v@.len(),
            res@.len() == i,
            view_states(res@) == view_states(v@.subrange(0, i as int)),
        decreases v@.len() - i,
    {
        let ghost prev = res@;
        let x = copy_state(&v[i]);
        res.push(x);
        proof {
            assert forall|j: int| 0 <= j < i + 1 implies #[trigger] view_states(res@)[j] == view_states(v@.subrange(0, i + 1))[j] by {
                if j < i {
                    assert(view_states(prev)[j] == view_states(v@.subrange(0, i as int))[j]);
                }
            }
        }
        i = i + 1;
        assert(view_states(res@) =~= view_states(v@.subrange(0, i as int)));
    }
    assert(v@.subrange(0, i as int) =~= v@);
    res
}

/// A copy of an edge table.
pub fn copy_edges(v: &Vec<Edge>) -> (res: Vec<Edge>)
    ensures
        view_edges(res@) == view_edges(v@),
{
    let mut res: Vec<Edge> = Vec::new();
    let mut i: usize = 0;
    while i < v.len()
        invariant
            i <= v@.len(),
            res@.len() == i,
            view_edges(res@) == view_edges(v@.subrange(0, i as int)),
        decreases v@.len() - i,
    {
        let ghost prev = res@;
        let x = copy_edge(&v[i]);
        res.push(x);
        proof {
            assert forall|j: int| 0 <= j < i + 1 implies #[trigger] view_edges(res@)[j] == view_edges(v@.subrange(0, i + 1))[j] by {
                if j < i {
                    assert(view_edges(prev)[j] == view_edges(v@.subrange(0, i as int))[j]);
                }
            }
        }
        i = i + 1;
        assert(view_edges(res@) =~= view_edges(v@.subrange(0, i as int)));
    }
    assert(v@.subrange(0, i as int) =~= v@);
    res
}

impl Graph {
    /// An empty graph that declares `num_states` states, with a fresh number.
    pub fn new(counter: &mut GraphCounter, num_states: i32) -> (g: Graph)
        requires
            old(counter).count < i32::MAX,
        ensures
            g.graphId == old(counter).count + 1,
            final(counter).count == g.graphId,
            g.numOfStates == num_states,
            g.pStateTable@ == Seq::<State>::empty(),
            g.pEdgeTable@ == Seq::<Edge>::empty(),
            g.states() == Seq::<StateV>::empty(),
            g.edges() == Seq::<EdgeV>::empty(),
    {
        let id = next_graph_id(counter);
        let g = Graph { graphId: id, numOfStates: num_states, pEdgeTable: Vec::new(), pStateTable: Vec::new() };
        assert(g.states() =~= Seq::<StateV>::empty());
        assert(g.edges() =~= Seq::<EdgeV>::empty());
        g
    }

    /// A deep copy of the graph.
    pub fn copyGraph(&self) -> (g: Graph)
        ensures
            g.graphId == self.graphId,
            g.numOfStates == self.numOfStates,
            g.states() == self.states(),
            g.edges() == self.edges(),
    {
        Graph {
            graphId: self.graphId,
            numOfStates: self.numOfStates,
            pEdgeTable: copy_edges(&self.pEdgeTable),
            pStateTable: copy_states(&self.pStateTable),
        }
    }
}

fn match_string() -> (s: String)
    ensures
        s@ == match_text(),
{
    String::from_str("MATCH")
}

fn unmatch_string() -> (s: String)
    ensures
        s@ == unmatch_text(),
{
    String::from_str("UNMATCH")
}

fn null_string() -> (s: String)
    ensures
        s@ == null_text(),
{
    String::from_str("NULL")
}

/// Whether `s` is an accepting state.
pub fn state_is_match(s: &State) -> (res: bool)
    ensures
        res == is_match(s@),
{
    str_eq(s.StateType.as_str(), "MATCH")
}

/// The basic automaton `0 --driver--> 1`, state 1 accepting with `category`.
pub fn generateBasicNFA(counter: &mut GraphCounter, driverType: &str, driverId: i32, category: Option<LexemeCategory>) -> (g: Graph)
    requires
        old(counter).count < i32::MAX,
    ensures
        g.graphId == old(counter).count + 1,
        final(counter).count == g.graphId,
        g.numOfStates == 2,
        g.states() == seq![(0i32, unmatch_text(), None::<LexemeCategory>), (1i32, match_text(), category)],
        g.edges() == seq![(0i32, 1i32, driverId, driverType@)],
        wf(g),
{
    let mut g = Graph::new(counter, 2);
    let s0 = State { stateId: 0, StateType: unmatch_string(), LexemeCategory: None };
    let s1 = State { stateId: 1, StateType: match_string(), LexemeCategory: category };
    let e0 = Edge { fromState: 0, nextState: 1, driverId: driverId, DriverType: String::from_str(driverType) };
    g.pStateTable.push(s0);
    g.pStateTable.push(s1);
    g.pEdgeTable.push(e0);
    assert(g.pStateTable@.len() == 2);
    assert(g.states()[0] == (0i32, unmatch_text(), None::<LexemeCategory>));
    assert(g.states()[1] == (1i32, match_text(), category));
    assert(g.states() =~= seq![(0i32, unmatch_text(), None::<LexemeCategory>), (1i32, match_text(), category)]);
    assert(g.edges() =~= seq![(0i32, 1i32, driverId, driverType@)]);
    g
}

/// Numbers of all accepting states, in order.
pub open spec fn all_match_ids(s: Seq<StateV>) -> Seq<i32>
    decreases s.len(),
{
    if s.len() == 0 {
        Seq::empty()
    } else if is_match(s.last()) {
        all_match_ids(s.drop_last()).push(s.last().0)
    } else {
        all_match_ids(s.drop_last())
    }
}

/// Numbers of the accepting states numbered below `bound`, in order.
pub open spec fn low_match_ids(s: Seq<StateV>, bound: i32) -> Seq<i32>
    decreases s.len(),
{
    if s.len() == 0 {
        Seq::empty()
    } else if s.last().0 < bound && is_match(s.last()) {
        low_match_ids(s.drop_last(), bound).push(s.last().0)
    } else {
        low_match_ids(s.drop_last(), bound)
    }
}

/// The accepting states numbered below `bound` made non-accepting and
/// stripped of their category.
pub open spec fn retire_low(s: Seq<StateV>, bound: i32) -> Seq<StateV> {
    Seq::new(s.len(), |i: int| if s[i].0 < bound && is_match(s[i]) { (s[i].0, unmatch_text(), None) } else { s[i] })
}

/// The largest state number, or -1 for no state.
pub open spec fn max_id(s: Seq<StateV>) -> int
    decreases s.len(),
{
    if s.len() == 0 {
        -1
    } else {
        let m = max_id(s.drop_last());
        if s.last().0 > m { s.last().0 as int } else { m }
    }
}

/// Some edge enters `id` from another state.
pub open spec fn has_in(e: Seq<EdgeV>, id: i32) -> bool {
    exists|i: int| 0 <= i < e.len() && (#[trigger] e[i]).1 == id && e[i].0 != id
}

/// Some edge leaves `id`.
pub open spec fn has_out(e: Seq<EdgeV>, id: i32) -> bool {
    exists|i: int| 0 <= i < e.len() && (#[trigger] e[i]).0 == id
}

/// The states `s` with a new non-accepting start state 0 before them and a
/// new accepting state after them.
pub open spec fn wrapped(s: Seq<StateV>) -> Seq<StateV> {
    seq![(0i32, unmatch_text(), None::<LexemeCategory>)] + s + seq![((s.len() + 1) as i32, match_text(), None::<LexemeCategory>)]
}

/// The parts of the union of `g1` and `g2`: states and edges.
pub open spec fn union_states(g1: Graph, g2: Graph) -> Seq<StateV> {
    let n1 = g1.states().len() as int;
    let all = wrapped(shift_s(g1.states(), 1) + shift_s(g2.states(), 1 + n1));
    demote(all, matched_ids(all, 0, (all.len() - 1) as i32))
}

pub open spec fn union_edges(g1: Graph, g2: Graph) -> Seq<EdgeV> {
    let n1 = g1.states().len() as int;
    let all = wrapped(shift_s(g1.states(), 1) + shift_s(g2.states(), 1 + n1));
    let acc = (all.len() - 1) as i32;
    shift_e(g1.edges(), 1) + shift_e(g2.edges(), 1 + n1) + seq![eps(0, 1), eps(0, (1 + n1) as i32)] + eps_from(
        matched_ids(all, 0, acc),
        acc,
    )
}

/// Moves every state number and edge end of `graph` by `offset`.
fn shift_graph(graph: &mut Graph, offset: i32)
    requires
        shift_fits(*old(graph), offset as int),
    ensures
        final(graph).states() == shift_s(old(graph).states(), offset as int),
        final(graph).edges() == shift_e(old(graph).edges(), offset as int),
        final(graph).graphId == old(graph).graphId,
        final(graph).numOfStates == old(graph).numOfStates,
        final(graph).pStateTable@.len() == old(graph).pStateTable@.len(),
        final(graph).pEdgeTable@.len() == old(graph).pEdgeTable@.len(),
{
    let ghost s0 = graph.states();
    let ghost e0 = graph.edges();
    let ghost ev = graph.pEdgeTable@;
    let ghost gid = graph.graphId;
    let ghost gn = graph.numOfStates;
    assert forall|j: int| 0 <= j < s0.len() implies (#[trigger] graph.pStateTable@[j])@ == s0[j] by {}
    assert forall|j: int| 0 <= j < e0.len() implies (#[trigger] graph.pEdgeTable@[j])@ == e0[j] by {}
    let mut i: usize = 0;
    while i < graph.pStateTable.len()
        invariant
            i <= graph.pStateTable@.len(),
            graph.pStateTable@.len() == s0.len(),
            graph.pEdgeTable@ == ev,
            graph.graphId == gid,
            graph.numOfStates == gn,
            e0 == view_edges(ev),
            forall|j: int| 0 <= j < s0.len() ==> i32::MIN <= (#[trigger] s0[j]).0 + offset <= i32::MAX,
            forall|j: int| 0 <= j < e0.len() ==> i32::MIN <= (#[trigger] e0[j]).0 + offset <= i32::MAX
                && i32::MIN <= e0[j].1 + offset <= i32::MAX,
            forall|j: int| 0 <= j < i ==> (#[trigger] graph.pStateTable@[j])@ == shift_s(s0, offset as int)[j],
            forall|j: int| i <= j < s0.len() ==> (#[trigger] graph.pStateTable@[j])@ == s0[j],
        decreases s0.len() - i,
    {
        let mut st = copy_state(&graph.pStateTable[i]);
        assert(st@ == s0[i as int]);
        st.stateId = st.stateId + offset;
        graph.pStateTable.set(i, st);
        i = i + 1;
    }
    assert(graph.states() =~= shift_s(s0, offset as int));
    let mut i: usize = 0;
    while i < graph.pEdgeTable.len()
        invariant
            i <= graph.pEdgeTable@.len(),
            graph.pEdgeTable@.len() == e0.len(),
            graph.states() == shift_s(s0, offset as int),
            graph.graphId == gid,
            graph.numOfStates == gn,
            forall|j: int| 0 <= j < e0.len() ==> i32::MIN <= (#[trigger] e0[j]).0 + offset <= i32::MAX
                && i32::MIN <= e0[j].1 + offset <= i32::MAX,
            forall|j: int| 0 <= j < i ==> (#[trigger] graph.pEdgeTable@[j])@ == shift_e(e0, offset as int)[j],
            forall|j: int| i <= j < e0.len() ==> (#[trigger] graph.pEdgeTable@[j])@ == e0[j],
        decreases e0.len() - i,
    {
        let mut ed = copy_edge(&graph.pEdgeTable[i]);
        assert(ed@ == e0[i as int]);
        ed.fromState = ed.fromState + offset;
        ed.nextState = ed.nextState + offset;
        graph.pEdgeTable.set(i, ed);
        i = i + 1;
    }
    assert(graph.edges() =~= shift_e(e0, offset as int));
}

/// Whether `x` occurs in `v`.
fn contains_i32(v: &Vec<i32>, x: i32) -> (res: bool)
    ensures
        res == v@.contains(x),
{
    let mut i: usize = 0;
    while i < v.len()
        invariant
            i <= v@.len(),
            forall|j: int| 0 <= j < i ==> v@[j] != x,
        decreases v@.len() - i,
    {
        if v[i] == x {
            return true;
        }
        i = i + 1;
    }
    false
}

/// Whether `x` occurs in `v`, for other modules.
pub(crate) fn contains_i32_pub(v: &Vec<i32>, x: i32) -> (res: bool)
    ensures
        res == v@.contains(x),
{
    contains_i32(v, x)
}

/// Numbers of the accepting states other than `skip1` and `skip2`.
fn collect_matched_ids(states: &Vec<State>, skip1: i32, skip2: i32) -> (res: Vec<i32>)
    ensures
        res@ == matched_ids(view_states(states@), skip1, skip2),
{
    let mut res: Vec<i32> = Vec::new();
    let mut i: usize = 0;
    while i < states.len()
        invariant
            i <= states@.len(),
            res@ == matched_ids(view_states(states@.subrange(0, i as int)), skip1, skip2),
        decreases states@.len() - i,
    {
        assert(view_states(states@.subrange(0, i + 1)).drop_last() =~= view_states(states@.subrange(0, i as int)));
        let st = &states[i];
        if st.stateId != skip1 && st.stateId != skip2 && state_is_match(st) {
            res.push(st.stateId);
        }
        i = i + 1;
    }
    assert(states@.subrange(0, i as int) =~= states@);
    res
}

/// Numbers of all accepting states.
fn collect_all_match_ids(states: &Vec<State>) -> (res: Vec<i32>)
    ensures
        res@ == all_match_ids(view_states(states@)),
{
    let mut res: Vec<i32> = Vec::new();
    let mut i: usize = 0;
    while i < states.len()
        invariant
            i <= states@.len(),
            res@ == all_match_ids(view_states(states@.subrange(0, i as int))),
        decreases states@.len() - i,
    {
        assert(view_states(states@.subrange(0, i + 1)).drop_last() =~= view_states(states@.subrange(0, i as int)));
        let st = &states[i];
        if state_is_match(st) {
            res.push(st.stateId);
        }
        i = i + 1;
    }
    assert(states@.subrange(0, i as int) =~= states@);
    res
}

/// Numbers of all accepting states, for other modules.
pub(crate) fn collect_all_match_ids_pub(states: &Vec<State>) -> (res: Vec<i32>)
    ensures
        res@ == all_match_ids(view_states(states@)),
{
    collect_all_match_ids(states)
}

/// Makes the states numbered in `ids` non-accepting.
fn demote_states(states: &mut Vec<State>, ids: &Vec<i32>)
    ensures
        view_states(final(states)@) == demote(view_states(old(states)@), ids@),
        final(states)@.len() == old(states)@.len(),
{
    let ghost s0 = view_states(states@);
    assert forall|j: int| 0 <= j < s0.len() implies (#[trigger] states@[j])@ == s0[j] by {}
    let mut i: usize = 0;
    while i < states.len()
        invariant
            i <= states@.len(),
            s0.len() == states@.len(),
            forall|j: int| 0 <= j < i ==> (#[trigger] states@[j])@ == demote(s0, ids@)[j],
            forall|j: int| i <= j < s0.len() ==> (#[trigger] states@[j])@ == s0[j],
        decreases s0.len() - i,
    {
        if contains_i32(ids, states[i].stateId) {
            let mut st = copy_state(&states[i]);
            st.StateType = unmatch_string();
            states.set(i, st);
        }
        i = i + 1;
    }
    assert(view_states(states@) =~= demote(s0, ids@));
}

/// Appends the epsilon edge `from_state -> to_state`.
fn add_epsilon_edge(edges: &mut Vec<Edge>, from_state: i32, to_state: i32)
    ensures
        view_edges(final(edges)@) == view_edges(old(edges)@).push(eps(from_state, to_state)),
{
    let e = Edge { fromState: from_state, nextState: to_state, driverId: -1, DriverType: null_string() };
    edges.push(e);
    assert(view_edges(edges@) =~= view_edges(old(edges)@).push(eps(from_state, to_state)));
}

/// Appends an epsilon edge from each of `ids` to `to_state`.
fn add_epsilon_edges_from(edges: &mut Vec<Edge>, ids: &Vec<i32>, to_state: i32)
    ensures
        view_edges(final(edges)@) == view_edges(old(edges)@) + eps_from(ids@, to_state),
{
    let ghost e0 = view_edges(edges@);
    let mut i: usize = 0;
    while i < ids.len()
        invariant
            i <= ids@.len(),
            view_edges(edges@) == e0 + eps_from(ids@.subrange(0, i as int), to_state),
        decreases ids@.len() - i,
    {
        add_epsilon_edge(edges, ids[i], to_state);
        i = i + 1;
        assert(e0 + eps_from(ids@.subrange(0, i as int), to_state) =~= (e0 + eps_from(ids@.subrange(0, i - 1), to_state)).push(
            eps(ids@[i - 1], to_state),
        ));
    }
    assert(ids@.subrange(0, i as int) =~= ids@);
}

/// Appends the states of `src` to `dst`.
fn append_states(dst: &mut Vec<State>, src: &Vec<State>)
    ensures
        view_states(final(dst)@) == view_states(old(dst)@) + view_states(src@),
        final(dst)@.len() == old(dst)@.len() + src@.len(),
{
    let ghost d0 = view_states(dst@);
    let mut i: usize = 0;
    while i < src.len()
        invariant
            i <= src@.len(),
            dst@.len() == d0.len() + i,
            view_states(dst@) == d0 + view_states(src@.subrange(0, i as int)),
        decreases src@.len() - i,
    {
        let ghost prev = dst@;
        let c = copy_state(&src[i]);
        dst.push(c);
        proof {
            lemma_view_states_push(prev, c);
            lemma_view_states_push(src@.subrange(0, i as int), src@[i as int]);
            assert(src@.subrange(0, i + 1) =~= src@.subrange(0, i as int).push(src@[i as int]));
            assert(d0 + view_states(src@.subrange(0, i as int)).push(c@) =~= (d0 + view_states(src@.subrange(0, i as int))).push(c@));
        }
        i = i + 1;
    }
    assert(src@.subrange(0, i as int) =~= src@);
}

/// Appends the edges of `src` to `dst`.
fn append_edges(dst: &mut Vec<Edge>, src: &Vec<Edge>)
    ensures
        view_edges(final(dst)@) == view_edges(old(dst)@) + view_edges(src@),
        final(dst)@.len() == old(dst)@.len() + src@.len(),
{
    let ghost d0 = view_edges(dst@);
    let mut i: usize = 0;
    while i < src.len()
        invariant
            i <= src@.len(),
            dst@.len() == d0.len() + i,
            view_edges(dst@) == d0 + view_edges(src@.subrange(0, i as int)),
        decreases src@.len() - i,
    {
        let ghost prev = dst@;
        let c = copy_edge(&src[i]);
        dst.push(c);
        proof {
            lemma_view_edges_push(prev, c);
            lemma_view_edges_push(src@.subrange(0, i as int), src@[i as int]);
            assert(src@.subrange(0, i + 1) =~= src@.subrange(0, i as int).push(src@[i as int]));
            assert(d0 + view_edges(src@.subrange(0, i as int)).push(c@) =~= (d0 + view_edges(src@.subrange(0, i as int))).push(c@));
        }
        i = i + 1;
    }
    assert(src@.subrange(0, i as int) =~= src@);
}

/// Union `g1 | g2`: a new start state with epsilon edges to both starts, and
/// a new accepting state reached by epsilon edges from every former
/// accepting state, which stops accepting.
pub fn union(counter: &mut GraphCounter, g1: Graph, g2: Graph) -> (g: Graph)
    requires
        old(counter).count < i32::MAX,
        g1.states().len() + g2.states().len() + 1 < i32::MAX,
        shift_fits(g1, 1),
        shift_fits(g2, 1 + g1.states().len() as int),
    ensures
        g.graphId == old(counter).count + 1,
        final(counter).count == g.graphId,
        g.states() == union_states(g1, g2),
        g.edges() == union_edges(g1, g2),
        g.numOfStates == g.states().len(),
        g.states().len() == g1.states().len() + g2.states().len() + 2,
        wf(g1) && wf(g2) ==> wf(g),
{
    let ghost og1 = g1;
    let ghost og2 = g2;
    let mut g1 = g1;
    let mut g2 = g2;
    let g1_count = g1.pStateTable.len() as i32;
    let ghost s1 = g1.states();
    let ghost s2 = g2.states();
    shift_graph(&mut g1, 1);
    shift_graph(&mut g2, 1 + g1_count);
    let g2_start_id = 1 + g1_count;
    let mut states: Vec<State> = Vec::new();
    let st0 = State { stateId: 0, StateType: unmatch_string(), LexemeCategory: None };
    proof {
        lemma_view_states_push(states@, st0);
        assert(view_states(Seq::<State>::empty()) =~= Seq::<StateV>::empty());
    }
    states.push(st0);
    append_states(&mut states, &g1.pStateTable);
    append_states(&mut states, &g2.pStateTable);
    let accept_id = states.len() as i32;
    let ghost before_acc = states@;
    let st_acc = State { stateId: accept_id, StateType: match_string(), LexemeCategory: None };
    states.push(st_acc);
    let ghost all = wrapped(shift_s(s1, 1) + shift_s(s2, 1 + s1.len() as int));
    proof {
        lemma_view_states_push(before_acc, st_acc);
        assert(view_states(states@) =~= all);
    }
    let mut edges: Vec<Edge> = Vec::new();
    proof {
        assert(view_edges(edges@) =~= Seq::<EdgeV>::empty());
    }
    append_edges(&mut edges, &g1.pEdgeTable);
    append_edges(&mut edges, &g2.pEdgeTable);
    add_epsilon_edge(&mut edges, 0, 1);
    add_epsilon_edge(&mut edges, 0, g2_start_id);
    let match_ids = collect_matched_ids(&states, 0, accept_id);
    add_epsilon_edges_from(&mut edges, &match_ids, accept_id);
    demote_states(&mut states, &match_ids);
    let id = next_graph_id(counter);
    let n = states.len() as i32;
    let g = Graph { graphId: id, numOfStates: n, pEdgeTable: edges, pStateTable: states };
    assert(g.edges() =~= union_edges(og1, og2));
    proof {
        if wf(og1) && wf(og2) {
            lemma_wf_union(og1, og2);
        }
    }
    g
}

/// `[start] + src + [accept]`: the states of `src` between a new
/// non-accepting state 0 and a new accepting state numbered after them.
fn wrap_states(src: &Vec<State>) -> (res: Vec<State>)
    requires
        src@.len() + 1 < i32::MAX,
    ensures
        view_states(res@) == wrapped(view_states(src@)),
        res@.len() == src@.len() + 2,
{
    let mut states: Vec<State> = Vec::new();
    let st0 = State { stateId: 0, StateType: unmatch_string(), LexemeCategory: None };
    proof {
        lemma_view_states_push(states@, st0);
        assert(view_states(Seq::<State>::empty()) =~= Seq::<StateV>::empty());
    }
    states.push(st0);
    append_states(&mut states, src);
    let accept_id = states.len() as i32;
    let ghost before_acc = states@;
    let st_acc = State { stateId: accept_id, StateType: match_string(), LexemeCategory: None };
    states.push(st_acc);
    proof {
        lemma_view_states_push(before_acc, st_acc);
        assert(view_states(states@) =~= wrapped(view_states(src@)));
    }
    states
}

/// The states of `g1` followed by those of `g2`, and likewise the edges.
fn concat_tables(g1: &Graph, g2: &Graph) -> (res: (Vec<State>, Vec<Edge>))
    ensures
        view_states(res.0@) == g1.states() + g2.states(),
        view_edges(res.1@) == g1.edges() + g2.edges(),
        res.0@.len() == g1.pStateTable@.len() + g2.pStateTable@.len(),
{
    let mut states: Vec<State> = Vec::new();
    let mut edges: Vec<Edge> = Vec::new();
    proof {
        assert(view_states(states@) =~= Seq::<StateV>::empty());
        assert(view_edges(edges@) =~= Seq::<EdgeV>::empty());
    }
    append_states(&mut states, &g1.pStateTable);
    append_states(&mut states, &g2.pStateTable);
    append_edges(&mut edges, &g1.pEdgeTable);
    append_edges(&mut edges, &g2.pEdgeTable);
    (states, edges)
}

/// Makes every accepting state numbered below `bound` non-accepting and drops
/// its category; returns the numbers of those states in order.
fn retire_low_states(states: &mut Vec<State>, bound: i32) -> (ids: Vec<i32>)
    ensures
        view_states(final(states)@) == retire_low(view_states(old(states)@), bound),
        ids@ == low_match_ids(view_states(old(states)@), bound),
        final(states)@.len() == old(states)@.len(),
{
    let ghost s0 = view_states(states@);
    assert forall|j: int| 0 <= j < s0.len() implies (#[trigger] states@[j])@ == s0[j] by {}
    let mut ids: Vec<i32> = Vec::new();
    let mut i: usize = 0;
    while i < states.len()
        invariant
            i <= states@.len(),
            s0.len() == states@.len(),
            ids@ == low_match_ids(s0.subrange(0, i as int), bound),
            forall|j: int| 0 <= j < i ==> (#[trigger] states@[j])@ == retire_low(s0, bound)[j],
            forall|j: int| i <= j < s0.len() ==> (#[trigger] states@[j])@ == s0[j],
        decreases s0.len() - i,
    {
        assert(s0.subrange(0, i + 1).drop_last() =~= s0.subrange(0, i as int));
        if states[i].stateId < bound && state_is_match(&states[i]) {
            let id = states[i].stateId;
            let st = State { stateId: id, StateType: unmatch_string(), LexemeCategory: None };
            states.set(i, st);
            ids.push(id);
        }
        i = i + 1;
    }
    assert(view_states(states@) =~= retire_low(s0, bound));
    assert(s0.subrange(0, i as int) =~= s0);
    ids
}

/// The parts of the concatenation `g1 g2`.
pub open spec fn product_states(g1: Graph, g2: Graph) -> Seq<StateV> {
    let n1 = g1.states().len() as int;
    retire_low(g1.states() + shift_s(g2.states(), n1), n1 as i32)
}

pub open spec fn product_edges(g1: Graph, g2: Graph) -> Seq<EdgeV> {
    let n1 = g1.states().len() as int;
    g1.edges() + shift_e(g2.edges(), n1) + eps_from(
        low_match_ids(g1.states() + shift_s(g2.states(), n1), n1 as i32),
        n1 as i32,
    )
}

/// Concatenation `g1 g2`: the states of `g2` are renumbered after those of
/// `g1`; each accepting state of `g1` stops accepting, loses its category
/// and gets an epsilon edge to the start of `g2`.
pub fn product(counter: &mut GraphCounter, g1: Graph, g2: Graph) -> (g: Graph)
    requires
        old(counter).count < i32::MAX,
        g1.states().len() + g2.states().len() < i32::MAX,
        shift_fits(g2, g1.states().len() as int),
    ensures
        g.graphId == old(counter).count + 1,
        final(counter).count == g.graphId,
        g.states() == product_states(g1, g2),
        g.edges() == product_edges(g1, g2),
        g.numOfStates == g.states().len(),
        g.states().len() == g1.states().len() + g2.states().len(),
        wf(g1) && wf(g2) && g2.states().len() > 0 ==> wf(g),
{
    let ghost og2 = g2;
    let mut g2 = g2;
    let g1_count = g1.pStateTable.len() as i32;
    shift_graph(&mut g2, g1_count);
    let (mut states, mut edges) = concat_tables(&g1, &g2);
    let ids = retire_low_states(&mut states, g1_count);
    add_epsilon_edges_from(&mut edges, &ids, g1_count);
    let id = next_graph_id(counter);
    let n = states.len() as i32;
    proof {
        if wf(g1) && wf(og2) && og2.states().len() > 0 {
            lemma_wf_product(g1, og2);
        }
    }
    Graph { graphId: id, numOfStates: n, pEdgeTable: edges, pStateTable: states }
}

/// Number of the first state, or 0 for a graph without states.
pub open spec fn start_of(s: Seq<StateV>) -> i32 {
    if s.len() > 0 { s[0].0 } else { 0 }
}

fn first_state_id(g: &Graph) -> (id: i32)
    ensures
        id == start_of(g.states()),
{
    if g.pStateTable.len() > 0 {
        g.pStateTable[0].stateId
    } else {
        0
    }
}

/// One-or-more `g+`: an epsilon edge from every accepting state back to the
/// start state.
pub fn plusClosure(counter: &mut GraphCounter, g: Graph) -> (res: Graph)
    requires
        old(counter).count < i32::MAX,
        g.states().len() < i32::MAX,
    ensures
        res.graphId == old(counter).count + 1,
        final(counter).count == res.graphId,
        res.states() == g.states(),
        res.edges() == g.edges() + eps_from(all_match_ids(g.states()), start_of(g.states())),
        res.numOfStates == g.states().len(),
        wf(g) ==> wf(res),
{
    proof {
        if wf(g) {
            lemma_all_match_ids_in(g.states(), 0, g.states().len() as int);
            let t = eps_from(all_match_ids(g.states()), start_of(g.states()));
            let e2 = g.edges() + t;
            assert forall|j: int| 0 <= j < e2.len() implies 0 <= (#[trigger] e2[j]).0 < g.states().len() && 0 <= e2[j].1
                < g.states().len() by {
                if j >= g.edges().len() {
                    assert(e2[j] == t[j - g.edges().len()]);
                    assert(g.states().len() > 0);
                }
            }
        }
    }
    let mut g = g;
    let start_id = first_state_id(&g);
    let ids = collect_all_match_ids(&g.pStateTable);
    add_epsilon_edges_from(&mut g.pEdgeTable, &ids, start_id);
    g.graphId = next_graph_id(counter);
    g.numOfStates = g.pStateTable.len() as i32;
    g
}

/// Appends, for each of `ids`, an epsilon edge to `to1` and one to `to2`.
fn add_epsilon_edges_from2(edges: &mut Vec<Edge>, ids: &Vec<i32>, to1: i32, to2: i32)
    ensures
        view_edges(final(edges)@) == view_edges(old(edges)@) + eps_from2(ids@, to1, to2),
{
    let ghost e0 = view_edges(edges@);
    let mut i: usize = 0;
    while i < ids.len()
        invariant
            i <= ids@.len(),
            view_edges(edges@) == e0 + eps_from2(ids@.subrange(0, i as int), to1, to2),
        decreases ids@.len() - i,
    {
        add_epsilon_edge(edges, ids[i], to1);
        add_epsilon_edge(edges, ids[i], to2);
        proof {
            assert(ids@.subrange(0, i + 1).drop_last() =~= ids@.subrange(0, i as int));
            assert(e0 + eps_from2(ids@.subrange(0, i + 1), to1, to2) =~= (e0 + eps_from2(ids@.subrange(0, i as int), to1, to2)).push(
                eps(ids@[i as int], to1),
            ).push(eps(ids@[i as int], to2)));
        }
        i = i + 1;
    }
    assert(ids@.subrange(0, i as int) =~= ids@);
}

/// The wrapped states of `g` (renumbered by one) used by the `*` and `?`
/// constructions.
pub open spec fn wrap_of(g: Graph) -> Seq<StateV> {
    wrapped(shift_s(g.states(), 1))
}

/// The accepting states of `wrap_of(g)` other than its new start and end.
pub open spec fn inner_matches(g: Graph) -> Seq<i32> {
    matched_ids(wrap_of(g), 0, (g.states().len() + 1) as i32)
}

/// Kleene star built with a new start state and a new accepting state.
pub open spec fn star_states(g: Graph) -> Seq<StateV> {
    demote(wrap_of(g), inner_matches(g))
}

pub open spec fn star_edges(g: Graph) -> Seq<EdgeV> {
    let acc = (g.states().len() + 1) as i32;
    shift_e(g.edges(), 1) + seq![eps(0, 1), eps(0, acc)] + eps_from2(inner_matches(g), 1, acc)
}

/// Kleene star with fresh start and accepting states: epsilon edges from the
/// new start to the old start and to the new accepting state, and from every
/// former accepting state back to the old start and on to the new accepting
/// state.
fn closure_conservative(counter: &mut GraphCounter, g: Graph) -> (res: Graph)
    requires
        old(counter).count < i32::MAX,
        g.states().len() + 2 < i32::MAX,
        shift_fits(g, 1),
    ensures
        res.graphId == old(counter).count + 1,
        final(counter).count == res.graphId,
        res.states() == star_states(g),
        res.edges() == star_edges(g),
        res.numOfStates == res.states().len(),
        res.states().len() == g.states().len() + 2,
        wf(g) ==> wf(res),
{
    proof {
        if wf(g) {
            lemma_wf_star(g);
        }
        assert(star_states(g).len() == g.states().len() + 2);
    }
    let ghost og = g;
    let mut g = g;
    shift_graph(&mut g, 1);
    let mut states = wrap_states(&g.pStateTable);
    let accept_id = (states.len() - 1) as i32;
    let mut edges = copy_edges(&g.pEdgeTable);
    add_epsilon_edge(&mut edges, 0, 1);
    add_epsilon_edge(&mut edges, 0, accept_id);
    let ids = collect_matched_ids(&states, 0, accept_id);
    add_epsilon_edges_from2(&mut edges, &ids, 1, accept_id);
    demote_states(&mut states, &ids);
    let id = next_graph_id(counter);
    let n = states.len() as i32;
    let res = Graph { graphId: id, numOfStates: n, pEdgeTable: edges, pStateTable: states };
    assert(res.edges() =~= star_edges(og));
    res
}

/// Zero-or-one `g?`, with fresh start and accepting states.
pub open spec fn optional_edges(g: Graph) -> Seq<EdgeV> {
    let acc = (g.states().len() + 1) as i32;
    shift_e(g.edges(), 1) + seq![eps(0, 1), eps(0, acc)] + eps_from(inner_matches(g), acc)
}

/// Zero-or-one `g?`: a new start state with epsilon edges to the old start
/// and to a new accepting state, which every former accepting state reaches
/// by an epsilon edge.
pub fn zeroOrOne(counter: &mut GraphCounter, g: Graph) -> (res: Graph)
    requires
        old(counter).count < i32::MAX,
        g.states().len() + 2 < i32::MAX,
        shift_fits(g, 1),
    ensures
        res.graphId == old(counter).count + 1,
        final(counter).count == res.graphId,
        res.states() == star_states(g),
        res.edges() == optional_edges(g),
        res.numOfStates == res.states().len(),
        res.states().len() == g.states().len() + 2,
        wf(g) ==> wf(res),
{
    proof {
        if wf(g) {
            lemma_wf_star(g);
        }
        assert(star_states(g).len() == g.states().len() + 2);
    }
    let ghost og = g;
    let mut g = g;
    shift_graph(&mut g, 1);
    let mut states = wrap_states(&g.pStateTable);
    let accept_id = (states.len() - 1) as i32;
    let mut edges = copy_edges(&g.pEdgeTable);
    add_epsilon_edge(&mut edges, 0, 1);
    add_epsilon_edge(&mut edges, 0, accept_id);
    let ids = collect_matched_ids(&states, 0, accept_id);
    add_epsilon_edges_from(&mut edges, &ids, accept_id);
    demote_states(&mut states, &ids);
    let id = next_graph_id(counter);
    let n = states.len() as i32;
    let res = Graph { graphId: id, numOfStates: n, pEdgeTable: edges, pStateTable: states };
    assert(res.edges() =~= optional_edges(og));
    res
}

/// Whether some edge enters `state_id` from another state.
fn has_incoming_edge(edges: &Vec<Edge>, state_id: i32) -> (res: bool)
    ensures
        res == has_in(view_edges(edges@), state_id),
{
    let ghost e = view_edges(edges@);
    let mut i: usize = 0;
    while i < edges.len()
        invariant
            i <= edges@.len(),
            e == view_edges(edges@),
            forall|j: int| 0 <= j < i ==> !((#[trigger] e[j]).1 == state_id && e[j].0 != state_id),
        decreases edges@.len() - i,
    {
        if edges[i].nextState == state_id && edges[i].fromState != state_id {
            assert(e[i as int].1 == state_id && e[i as int].0 != state_id);
            return true;
        }
        i = i + 1;
    }
    false
}

/// Whether some edge leaves `state_id`.
fn has_outgoing_edge(edges: &Vec<Edge>, state_id: i32) -> (res: bool)
    ensures
        res == has_out(view_edges(edges@), state_id),
{
    let ghost e = view_edges(edges@);
    let mut i: usize = 0;
    while i < edges.len()
        invariant
            i <= edges@.len(),
            e == view_edges(edges@),
            forall|j: int| 0 <= j < i ==> (#[trigger] e[j]).0 != state_id,
        decreases edges@.len() - i,
    {
        if edges[i].fromState == state_id {
            assert(e[i as int].0 == state_id);
            return true;
        }
        i = i + 1;
    }
    false
}

/// The largest state number, or -1 for no state.
fn max_state_id(states: &Vec<State>) -> (m: i32)
    ensures
        m == max_id(view_states(states@)),
{
    let ghost s = view_states(states@);
    let mut m: i32 = -1;
    let mut i: usize = 0;
    while i < states.len()
        invariant
            i <= states@.len(),
            s == view_states(states@),
            m == max_id(s.subrange(0, i as int)),
        decreases states@.len() - i,
    {
        assert(s.subrange(0, i + 1).drop_last() =~= s.subrange(0, i as int));
        if states[i].stateId > m {
            m = states[i].stateId;
        }
        i = i + 1;
    }
    assert(s.subrange(0, i as int) =~= s);
    m
}

/// The only accepting state of `g` when it has exactly one.
pub open spec fn sole_accept(g: Graph) -> i32 {
    all_match_ids(g.states())[0]
}

/// Which construction `closure` uses for `g`: 0 for a graph without states
/// (returned as it is), 1 for fresh start and accepting states, 2 for a
/// fresh start state only, 3 for a fresh accepting state only, 4 for edges
/// between the existing start and accepting states.
pub open spec fn closure_case(g: Graph) -> int {
    let s = g.states();
    let e = g.edges();
    if s.len() == 0 {
        0
    } else if all_match_ids(s).len() != 1 {
        1
    } else {
        let start_in = has_in(e, start_of(s));
        let acc_out = has_out(e, sole_accept(g));
        if start_in && acc_out {
            1
        } else if start_in {
            2
        } else if acc_out {
            3
        } else {
            4
        }
    }
}

/// What the Kleene closure of `g` is, case by case (an empty automaton is
/// left as it is).
pub open spec fn closure_done(g: Graph, r: Graph, c0: i32, c1: i32) -> bool {
    &&& closure_shape(g, r)
    &&& closure_case(g) == 0 ==> c1 == c0
    &&& closure_case(g) != 0 ==> c1 == c0 + 1
}

/// The states and edges of the Kleene closure `r` of `g`, case by case (an
/// empty automaton is left as it is).
pub open spec fn closure_shape(g: Graph, r: Graph) -> bool {
    &&& closure_case(g) == 0 ==> r == g
    &&& closure_case(g) == 1 ==> r.states() == star_states(g) && r.edges() == star_edges(g)
    &&& closure_case(g) == 2 ==> r.states() == seq![(0i32, unmatch_text(), None::<LexemeCategory>)] + shift_s(g.states(), 1)
        && r.edges() == shift_e(g.edges(), 1) + seq![
        eps(0, (start_of(g.states()) + 1) as i32),
        eps(0, (sole_accept(g) + 1) as i32),
        eps((sole_accept(g) + 1) as i32, (start_of(g.states()) + 1) as i32),
    ]
    &&& closure_case(g) == 3 ==> r.states() == demote(g.states(), seq![sole_accept(g)]).push(
        ((max_id(g.states()) + 1) as i32, match_text(), None::<LexemeCategory>),
    ) && r.edges() == g.edges() + seq![
        eps(start_of(g.states()), (max_id(g.states()) + 1) as i32),
        eps(sole_accept(g), start_of(g.states())),
        eps(sole_accept(g), (max_id(g.states()) + 1) as i32),
    ]
    &&& closure_case(g) == 4 ==> r.states() == g.states() && r.edges() == g.edges() + seq![
        eps(start_of(g.states()), sole_accept(g)),
        eps(sole_accept(g), start_of(g.states())),
    ]
}

/// Kleene star `g*`. A graph without states is returned unchanged. Where
/// `g` has one accepting state, the existing start and accepting states are
/// reused when no edge enters the start or leaves the accepting state;
/// otherwise a fresh start state, a fresh accepting state, or both are added.
pub fn closure(counter: &mut GraphCounter, g: Graph) -> (res: Graph)
    requires
        old(counter).count < i32::MAX,
        g.states().len() + 2 < i32::MAX,
        shift_fits(g, 1),
        max_id(g.states()) < i32::MAX,
    ensures
        closure_case(g) == 0 ==> res == g && final(counter).count == old(counter).count,
        closure_case(g) != 0 ==> res.graphId == old(counter).count + 1 && final(counter).count == res.graphId
            && res.numOfStates == res.states().len(),
        closure_case(g) == 1 ==> res.states() == star_states(g) && res.edges() == star_edges(g),
        closure_case(g) == 2 ==> res.states() == seq![(0i32, unmatch_text(), None::<LexemeCategory>)] + shift_s(g.states(), 1)
            && res.edges() == shift_e(g.edges(), 1) + seq![
                eps(0, (start_of(g.states()) + 1) as i32),
                eps(0, (sole_accept(g) + 1) as i32),
                eps((sole_accept(g) + 1) as i32, (start_of(g.states()) + 1) as i32),
            ],
        closure_case(g) == 3 ==> res.states() == demote(g.states(), seq![sole_accept(g)]).push(
                ((max_id(g.states()) + 1) as i32, match_text(), None::<LexemeCategory>),
            ) && res.edges() == g.edges() + seq![
                eps(start_of(g.states()), (max_id(g.states()) + 1) as i32),
                eps(sole_accept(g), start_of(g.states())),
                eps(sole_accept(g), (max_id(g.states()) + 1) as i32),
            ],
        closure_case(g) == 4 ==> res.states() == g.states() && res.edges() == g.edges() + seq![
            eps(start_of(g.states()), sole_accept(g)),
            eps(sole_accept(g), start_of(g.states())),
        ],
        wf(g) ==> wf(res),
        g.states().len() <= res.states().len() <= g.states().len() + 2,
{
    if g.pStateTable.len() == 0 {
        return g;
    }
    let ghost og = g;
    let ghost s = g.states();
    let ghost e = g.edges();
    let start_id = first_state_id(&g);
    let ids = collect_all_match_ids(&g.pStateTable);
    if ids.len() != 1 {
        return closure_conservative(counter, g);
    }
    proof {
        if wf(og) {
            lemma_wf_closure_cases(og);
        }
    }
    let old_accept = ids[0];
    let start_has_in = has_incoming_edge(&g.pEdgeTable, start_id);
    let accept_has_out = has_outgoing_edge(&g.pEdgeTable, old_accept);
    if start_has_in && accept_has_out {
        return closure_conservative(counter, g);
    }
    assert(s[0] == g.pStateTable@[0]@);
    proof {
        lemma_all_match_ids_below(s);
        assert(i32::MIN <= s[0].0 + 1 <= i32::MAX);
        assert(ids@[0] == all_match_ids(s)[0]);
    }
    if start_has_in && !accept_has_out {
        let mut shifted = g;
        shift_graph(&mut shifted, 1);
        let shifted_start = start_id + 1;
        let shifted_accept = old_accept + 1;
        let mut states: Vec<State> = Vec::new();
        let st0 = State { stateId: 0, StateType: unmatch_string(), LexemeCategory: None };
        proof {
            lemma_view_states_push(states@, st0);
            assert(view_states(Seq::<State>::empty()) =~= Seq::<StateV>::empty());
        }
        states.push(st0);
        append_states(&mut states, &shifted.pStateTable);
        let mut edges = copy_edges(&shifted.pEdgeTable);
        add_epsilon_edge(&mut edges, 0, shifted_start);
        add_epsilon_edge(&mut edges, 0, shifted_accept);
        add_epsilon_edge(&mut edges, shifted_accept, shifted_start);
        let id = next_graph_id(counter);
        let n = states.len() as i32;
        let res = Graph { graphId: id, numOfStates: n, pEdgeTable: edges, pStateTable: states };
        assert(res.states() =~= seq![(0i32, unmatch_text(), None::<LexemeCategory>)] + shift_s(s, 1));
        assert(res.edges() =~= shift_e(e, 1) + seq![
            eps(0, (start_of(s) + 1) as i32),
            eps(0, (sole_accept(og) + 1) as i32),
            eps((sole_accept(og) + 1) as i32, (start_of(s) + 1) as i32),
        ]);
        return res;
    }
    if !start_has_in && accept_has_out {
        let mut states = copy_states(&g.pStateTable);
        let mut one: Vec<i32> = Vec::new();
        one.push(old_accept);
        demote_states(&mut states, &one);
        proof {
            lemma_max_id_demote(s, one@);
        }
        let new_accept = max_state_id(&states) + 1;
        let ghost before = states@;
        let st = State { stateId: new_accept, StateType: match_string(), LexemeCategory: None };
        states.push(st);
        proof {
            lemma_view_states_push(before, st);
            assert(one@ =~= seq![old_accept]);
            let d = demote(s, one@);
            assert(max_id(d) == max_id(s)) by {
                lemma_max_id_demote(s, one@);
            }
        }
        let mut edges = copy_edges(&g.pEdgeTable);
        add_epsilon_edge(&mut edges, start_id, new_accept);
        add_epsilon_edge(&mut edges, old_accept, start_id);
        add_epsilon_edge(&mut edges, old_accept, new_accept);
        let id = next_graph_id(counter);
        let n = states.len() as i32;
        let res = Graph { graphId: id, numOfStates: n, pEdgeTable: edges, pStateTable: states };
        assert(res.states() =~= demote(s, seq![sole_accept(og)]).push(
            ((max_id(s) + 1) as i32, match_text(), None::<LexemeCategory>),
        ));
        assert(res.edges() =~= e + seq![
            eps(start_of(s), (max_id(s) + 1) as i32),
            eps(sole_accept(og), start_of(s)),
            eps(sole_accept(og), (max_id(s) + 1) as i32),
        ]);
        return res;
    }
    let states = copy_states(&g.pStateTable);
    let mut edges = copy_edges(&g.pEdgeTable);
    add_epsilon_edge(&mut edges, start_id, old_accept);
    add_epsilon_edge(&mut edges, old_accept, start_id);
    let id = next_graph_id(counter);
    let n = states.len() as i32;
    let res = Graph { graphId: id, numOfStates: n, pEdgeTable: edges, pStateTable: states };
    assert(res.states() =~= s);
    assert(res.edges() =~= e + seq![eps(start_of(s), sole_accept(og)), eps(sole_accept(og), start_of(s))]);
    res
}

/// Every number listed by `all_match_ids` is below `i32::MAX` when every
/// state number is.
proof fn lemma_all_match_ids_below(s: Seq<StateV>)
    requires
        forall|j: int| 0 <= j < s.len() ==> (#[trigger] s[j]).0 + 1 <= i32::MAX,
    ensures
        forall|k: int| 0 <= k < all_match_ids(s).len() ==> (#[trigger] all_match_ids(s)[k]) + 1 <= i32::MAX,
    decreases s.len(),
{
    if s.len() > 0 {
        let t = s.drop_last();
        assert forall|j: int| 0 <= j < t.len() implies (#[trigger] t[j]).0 + 1 <= i32::MAX by {
            assert(t[j] == s[j]);
        }
        lemma_all_match_ids_below(t);
        assert(s[s.len() - 1] == s.last());
        let r = all_match_ids(t);
        assert forall|k: int| 0 <= k < all_match_ids(s).len() implies (#[trigger] all_match_ids(s)[k]) + 1 <= i32::MAX by {
            if k < r.len() {
                assert(all_match_ids(s)[k] == r[k]);
            }
        }
    }
}

/// Demoting states keeps their numbers, so the largest number is unchanged.
proof fn lemma_max_id_demote(s: Seq<StateV>, ids: Seq<i32>)
    ensures
        max_id(demote(s, ids)) == max_id(s),
    decreases s.len(),
{
    if s.len() > 0 {
        lemma_max_id_demote(s.drop_last(), ids);
        assert(demote(s, ids).drop_last() =~= demote(s.drop_last(), ids));
    }
}

/// State `k` is numbered `k` and every edge joins two states.
pub open spec fn wf_parts(s: Seq<StateV>, e: Seq<EdgeV>) -> bool {
    &&& forall|k: int| 0 <= k < s.len() ==> (#[trigger] s[k]).0 == k
    &&& forall|j: int| 0 <= j < e.len() ==> 0 <= (#[trigger] e[j]).0 < s.len() && 0 <= e[j].1 < s.len()
}

/// A graph whose states are numbered by position and whose edges join them.
pub open spec fn wf(g: Graph) -> bool {
    wf_parts(g.states(), g.edges())
}

/// All numbers in `ids` lie in `lo..hi`.
pub open spec fn ids_in(ids: Seq<i32>, lo: int, hi: int) -> bool {
    forall|k: int| 0 <= k < ids.len() ==> lo <= #[trigger] ids[k] < hi
}

/// All state numbers in `s` lie in `lo..hi`.
pub open spec fn state_ids_in(s: Seq<StateV>, lo: int, hi: int) -> bool {
    forall|k: int| 0 <= k < s.len() ==> lo <= (#[trigger] s[k]).0 < hi
}

proof fn lemma_matched_ids_in(s: Seq<StateV>, a: i32, b: i32, lo: int, hi: int)
    requires
        state_ids_in(s, lo, hi),
    ensures
        ids_in(matched_ids(s, a, b), lo, hi),
    decreases s.len(),
{
    if s.len() > 0 {
        let t = s.drop_last();
        assert(state_ids_in(t, lo, hi)) by {
            assert forall|k: int| 0 <= k < t.len() implies lo <= (#[trigger] t[k]).0 < hi by {
                assert(t[k] == s[k]);
            }
        }
        lemma_matched_ids_in(t, a, b, lo, hi);
        assert(s[s.len() - 1] == s.last());
    }
}

proof fn lemma_all_match_ids_in(s: Seq<StateV>, lo: int, hi: int)
    requires
        state_ids_in(s, lo, hi),
    ensures
        ids_in(all_match_ids(s), lo, hi),
    decreases s.len(),
{
    if s.len() > 0 {
        let t = s.drop_last();
        assert(state_ids_in(t, lo, hi)) by {
            assert forall|k: int| 0 <= k < t.len() implies lo <= (#[trigger] t[k]).0 < hi by {
                assert(t[k] == s[k]);
            }
        }
        lemma_all_match_ids_in(t, lo, hi);
        assert(s[s.len() - 1] == s.last());
    }
}

proof fn lemma_low_match_ids_in(s: Seq<StateV>, bound: i32, lo: int, hi: int)
    requires
        state_ids_in(s, lo, hi),
    ensures
        ids_in(low_match_ids(s, bound), lo, hi),
    decreases s.len(),
{
    if s.len() > 0 {
        let t = s.drop_last();
        assert(state_ids_in(t, lo, hi)) by {
            assert forall|k: int| 0 <= k < t.len() implies lo <= (#[trigger] t[k]).0 < hi by {
                assert(t[k] == s[k]);
            }
        }
        lemma_low_match_ids_in(t, bound, lo, hi);
        assert(s[s.len() - 1] == s.last());
    }
}

proof fn lemma_eps_from2_in(ids: Seq<i32>, to1: i32, to2: i32, lo: int, hi: int)
    requires
        ids_in(ids, lo, hi),
        lo <= to1 < hi,
        lo <= to2 < hi,
    ensures
        forall|j: int| 0 <= j < eps_from2(ids, to1, to2).len() ==> lo <= (#[trigger] eps_from2(ids, to1, to2)[j]).0 < hi
            && lo <= eps_from2(ids, to1, to2)[j].1 < hi,
    decreases ids.len(),
{
    if ids.len() > 0 {
        let t = ids.drop_last();
        assert(ids_in(t, lo, hi)) by {
            assert forall|k: int| 0 <= k < t.len() implies lo <= #[trigger] t[k] < hi by {
                assert(t[k] == ids[k]);
            }
        }
        lemma_eps_from2_in(t, to1, to2, lo, hi);
        assert(ids[ids.len() - 1] == ids.last());
        let r = eps_from2(t, to1, to2);
        assert forall|j: int| 0 <= j < eps_from2(ids, to1, to2).len() implies lo <= (#[trigger] eps_from2(ids, to1, to2)[j]).0 < hi
            && lo <= eps_from2(ids, to1, to2)[j].1 < hi by {
            if j < r.len() {
                assert(eps_from2(ids, to1, to2)[j] == r[j]);
            }
        }
    }
}

/// A well-formed graph can be renumbered by `off` when the numbers stay in
/// `i32`.
pub proof fn lemma_wf_shift_fits(g: Graph, off: int)
    requires
        wf(g),
        0 <= off,
        g.states().len() + off <= i32::MAX,
    ensures
        shift_fits(g, off),
{
}

proof fn lemma_wf_union(g1: Graph, g2: Graph)
    requires
        wf(g1),
        wf(g2),
        g1.states().len() + g2.states().len() + 1 < i32::MAX,
    ensures
        wf_parts(union_states(g1, g2), union_edges(g1, g2)),
        union_states(g1, g2).len() == g1.states().len() + g2.states().len() + 2,
{
    let n1 = g1.states().len() as int;
    let all = wrapped(shift_s(g1.states(), 1) + shift_s(g2.states(), 1 + n1));
    assert forall|k: int| 0 <= k < all.len() implies (#[trigger] all[k]).0 == k by {
        if 1 <= k <= n1 {
            assert(all[k] == shift_s(g1.states(), 1)[k - 1]);
        } else if n1 < k < all.len() - 1 {
            assert(all[k] == shift_s(g2.states(), 1 + n1)[k - 1 - n1]);
        }
    }
    lemma_matched_ids_in(all, 0, (all.len() - 1) as i32, 0, all.len() as int);
    let us = union_states(g1, g2);
    assert forall|k: int| 0 <= k < us.len() implies (#[trigger] us[k]).0 == k by {
        assert(us[k].0 == all[k].0);
    }
    let ue = union_edges(g1, g2);
    let e1 = shift_e(g1.edges(), 1);
    let e2 = shift_e(g2.edges(), 1 + n1);
    let mid = seq![eps(0, 1), eps(0, (1 + n1) as i32)];
    let acc = (all.len() - 1) as i32;
    let tail = eps_from(matched_ids(all, 0, acc), acc);
    assert(ue == e1 + e2 + mid + tail);
    assert forall|j: int| 0 <= j < ue.len() implies 0 <= (#[trigger] ue[j]).0 < us.len() && 0 <= ue[j].1 < us.len() by {
        if j < e1.len() {
            assert(ue[j] == e1[j]);
        } else if j < e1.len() + e2.len() {
            assert(ue[j] == e2[j - e1.len()]);
        } else if j < e1.len() + e2.len() + 2 {
            assert(ue[j] == mid[j - e1.len() - e2.len()]);
        } else {
            assert(ue[j] == tail[j - e1.len() - e2.len() - 2]);
        }
    }
}

proof fn lemma_wf_product(g1: Graph, g2: Graph)
    requires
        wf(g1),
        wf(g2),
        g2.states().len() > 0,
        g1.states().len() + g2.states().len() < i32::MAX,
    ensures
        wf_parts(product_states(g1, g2), product_edges(g1, g2)),
        product_states(g1, g2).len() == g1.states().len() + g2.states().len(),
{
    let n1 = g1.states().len() as int;
    let all = g1.states() + shift_s(g2.states(), n1);
    assert forall|k: int| 0 <= k < all.len() implies (#[trigger] all[k]).0 == k by {
        if k >= n1 {
            assert(all[k] == shift_s(g2.states(), n1)[k - n1]);
        }
    }
    lemma_low_match_ids_in(all, n1 as i32, 0, all.len() as int);
    let ps = product_states(g1, g2);
    assert forall|k: int| 0 <= k < ps.len() implies (#[trigger] ps[k]).0 == k by {
        assert(ps[k].0 == all[k].0);
    }
    let pe = product_edges(g1, g2);
    let e1 = g1.edges();
    let e2 = shift_e(g2.edges(), n1);
    let tail = eps_from(low_match_ids(all, n1 as i32), n1 as i32);
    assert forall|j: int| 0 <= j < pe.len() implies 0 <= (#[trigger] pe[j]).0 < ps.len() && 0 <= pe[j].1 < ps.len() by {
        if j < e1.len() {
            assert(pe[j] == e1[j]);
        } else if j < e1.len() + e2.len() {
            assert(pe[j] == e2[j - e1.len()]);
        } else {
            assert(pe[j] == tail[j - e1.len() - e2.len()]);
        }
    }
}

proof fn lemma_wf_wrap(g: Graph)
    requires
        wf(g),
        g.states().len() + 2 < i32::MAX,
    ensures
        forall|k: int| 0 <= k < wrap_of(g).len() ==> (#[trigger] wrap_of(g)[k]).0 == k,
        forall|k: int| 0 <= k < star_states(g).len() ==> (#[trigger] star_states(g)[k]).0 == k,
        star_states(g).len() == g.states().len() + 2,
        ids_in(inner_matches(g), 0, g.states().len() + 2 as int),
        forall|j: int| 0 <= j < shift_e(g.edges(), 1).len() ==> 0 <= (#[trigger] shift_e(g.edges(), 1)[j]).0 < g.states().len() + 2
            && 0 <= shift_e(g.edges(), 1)[j].1 < g.states().len() + 2,
{
    let all = wrap_of(g);
    assert forall|k: int| 0 <= k < all.len() implies (#[trigger] all[k]).0 == k by {
        if 1 <= k < all.len() - 1 {
            assert(all[k] == shift_s(g.states(), 1)[k - 1]);
        }
    }
    lemma_matched_ids_in(all, 0, (g.states().len() + 1) as i32, 0, all.len() as int);
    assert forall|k: int| 0 <= k < star_states(g).len() implies (#[trigger] star_states(g)[k]).0 == k by {
        assert(star_states(g)[k].0 == all[k].0);
    }
}

proof fn lemma_wf_star(g: Graph)
    requires
        wf(g),
        g.states().len() + 2 < i32::MAX,
    ensures
        wf_parts(star_states(g), star_edges(g)),
        wf_parts(star_states(g), optional_edges(g)),
        star_states(g).len() == g.states().len() + 2,
{
    lemma_wf_wrap(g);
    let n = g.states().len() + 2 as int;
    let acc = (g.states().len() + 1) as i32;
    let e1 = shift_e(g.edges(), 1);
    let mid = seq![eps(0, 1), eps(0, acc)];
    let t2 = eps_from2(inner_matches(g), 1, acc);
    let t1 = eps_from(inner_matches(g), acc);
    lemma_eps_from2_in(inner_matches(g), 1, acc, 0, n);
    let se = star_edges(g);
    assert forall|j: int| 0 <= j < se.len() implies 0 <= (#[trigger] se[j]).0 < n && 0 <= se[j].1 < n by {
        if j < e1.len() {
            assert(se[j] == e1[j]);
        } else if j < e1.len() + 2 {
            assert(se[j] == mid[j - e1.len()]);
        } else {
            assert(se[j] == t2[j - e1.len() - 2]);
        }
    }
    let oe = optional_edges(g);
    assert forall|j: int| 0 <= j < oe.len() implies 0 <= (#[trigger] oe[j]).0 < n && 0 <= oe[j].1 < n by {
        if j < e1.len() {
            assert(oe[j] == e1[j]);
        } else if j < e1.len() + 2 {
            assert(oe[j] == mid[j - e1.len()]);
        } else {
            assert(oe[j] == t1[j - e1.len() - 2]);
        }
    }
}

/// In a well-formed graph, the largest state number is below `i32::MAX`.
pub proof fn lemma_wf_max_id_pub(g: Graph)
    requires
        wf(g),
        g.states().len() <= i32::MAX,
    ensures
        max_id(g.states()) < i32::MAX,
{
    lemma_wf_max_id(g.states());
}

/// In a well-formed graph with states, the largest number is the last
/// position.
proof fn lemma_wf_max_id(s: Seq<StateV>)
    requires
        forall|k: int| 0 <= k < s.len() ==> (#[trigger] s[k]).0 == k,
    ensures
        max_id(s) == s.len() - 1,
    decreases s.len(),
{
    if s.len() > 0 {
        let t = s.drop_last();
        assert forall|k: int| 0 <= k < t.len() implies (#[trigger] t[k]).0 == k by {
            assert(t[k] == s[k]);
        }
        lemma_wf_max_id(t);
        assert(s[s.len() - 1] == s.last());
    }
}

/// The `*` constructions that reuse states keep a graph well formed.
proof fn lemma_wf_closure_cases(g: Graph)
    requires
        wf(g),
        g.states().len() > 0,
        all_match_ids(g.states()).len() == 1,
        g.states().len() + 2 < i32::MAX,
    ensures
        wf_parts(
            seq![(0i32, unmatch_text(), None::<LexemeCategory>)] + shift_s(g.states(), 1),
            shift_e(g.edges(), 1) + seq![
                eps(0, (start_of(g.states()) + 1) as i32),
                eps(0, (sole_accept(g) + 1) as i32),
                eps((sole_accept(g) + 1) as i32, (start_of(g.states()) + 1) as i32),
            ],
        ),
        wf_parts(
            demote(g.states(), seq![sole_accept(g)]).push(
                ((max_id(g.states()) + 1) as i32, match_text(), None::<LexemeCategory>),
            ),
            g.edges() + seq![
                eps(start_of(g.states()), (max_id(g.states()) + 1) as i32),
                eps(sole_accept(g), start_of(g.states())),
                eps(sole_accept(g), (max_id(g.states()) + 1) as i32),
            ],
        ),
        wf_parts(g.states(), g.edges() + seq![eps(start_of(g.states()), sole_accept(g)), eps(sole_accept(g), start_of(g.states()))]),
{
    let st = g.states();
    let n = st.len() as int;
    lemma_all_match_ids_in(st, 0, n);
    assert(0 <= sole_accept(g) < n);
    assert(start_of(st) == 0);
    lemma_wf_max_id(st);
    let s2 = seq![(0i32, unmatch_text(), None::<LexemeCategory>)] + shift_s(st, 1);
    assert forall|k: int| 0 <= k < s2.len() implies (#[trigger] s2[k]).0 == k by {
        if k > 0 {
            assert(s2[k] == shift_s(st, 1)[k - 1]);
        }
    }
    let e1 = shift_e(g.edges(), 1);
    let t2 = seq![
        eps(0, (start_of(st) + 1) as i32),
        eps(0, (sole_accept(g) + 1) as i32),
        eps((sole_accept(g) + 1) as i32, (start_of(st) + 1) as i32),
    ];
    let e2 = e1 + t2;
    assert forall|j: int| 0 <= j < e2.len() implies 0 <= (#[trigger] e2[j]).0 < s2.len() && 0 <= e2[j].1 < s2.len() by {
        if j < e1.len() {
            assert(e2[j] == e1[j]);
        } else {
            assert(e2[j] == t2[j - e1.len()]);
        }
    }
    let s3 = demote(st, seq![sole_accept(g)]).push(((max_id(st) + 1) as i32, match_text(), None::<LexemeCategory>));
    assert forall|k: int| 0 <= k < s3.len() implies (#[trigger] s3[k]).0 == k by {
        if k < n {
            assert(s3[k].0 == st[k].0);
        }
    }
    let t3 = seq![
        eps(start_of(st), (max_id(st) + 1) as i32),
        eps(sole_accept(g), start_of(st)),
        eps(sole_accept(g), (max_id(st) + 1) as i32),
    ];
    let e3 = g.edges() + t3;
    assert forall|j: int| 0 <= j < e3.len() implies 0 <= (#[trigger] e3[j]).0 < s3.len() && 0 <= e3[j].1 < s3.len() by {
        if j >= g.edges().len() {
            assert(e3[j] == t3[j - g.edges().len()]);
        }
    }
    let t4 = seq![eps(start_of(st), sole_accept(g)), eps(sole_accept(g), start_of(st))];
    let e4 = g.edges() + t4;
    assert forall|j: int| 0 <= j < e4.len() implies 0 <= (#[trigger] e4[j]).0 < n && 0 <= e4[j].1 < n by {
        if j >= g.edges().len() {
            assert(e4[j] == t4[j - g.edges().len()]);
        }
    }
}

} // verus!
