//! Merging equivalent NFA states by partition refinement: states start in
//! groups of equal acceptance and category, and groups are split by the
//! blocks their edges lead to until no group splits.
use vstd::prelude::*;
use std::collections::HashSet;
use crate::lab1::category::LexemeCategory;
use crate::lab1::dfa::{pick_preferred_category_from_ids, pref_scan, set_has_match, set_matches};
use crate::lab1::graph::{
    contains_i32_pub, is_match, lemma_view_edges_push, lemma_view_states_push, match_text, state_is_match,
    unmatch_text, view_edges, view_states, Edge, EdgeV, Graph, GraphCounter, State, StateV,
};
use crate::lab1::minimize::{ef_state, rebuild_edges};
use crate::text::{bool_text, int_text, lemma_int_text_injective, lex_less, str_eq, str_less, usize_list_debug};

verus! {

broadcast use vstd::std_specs::hash::group_hash_axioms;

/// The number used for a category in state signatures.
pub open spec fn category_num(c: Option<LexemeCategory>) -> i32 {
    match c {
        None => -1i32,
        Some(LexemeCategory::KEYWORD) => 0i32,
        Some(LexemeCategory::ASSIGN_OPERATOR) => 1,
        Some(LexemeCategory::COMPARE_OPERATOR) => 2,
        Some(LexemeCategory::NUMERIC_OPERATOR) => 3,
        Some(LexemeCategory::LOGIC_OPERATOR) => 4,
        Some(LexemeCategory::INTEGER_CONST) => 5,
        Some(LexemeCategory::FLOAT_CONST) => 6,
        Some(LexemeCategory::SCIENTIFIC_CONST) => 7,
        Some(LexemeCategory::STRING_CONST) => 8,
        Some(LexemeCategory::NOTE) => 9,
        Some(LexemeCategory::SPACE_CONST) => 10,
        Some(LexemeCategory::ID) => 11,
    }
}

/// The number used for a category in state signatures.
pub fn category_code(category: &Option<LexemeCategory>) -> (res: i32)
    ensures
        res == category_num(*category),
{
    match category {
        None => -1,
        Some(LexemeCategory::KEYWORD) => 0,
        Some(LexemeCategory::ASSIGN_OPERATOR) => 1,
        Some(LexemeCategory::COMPARE_OPERATOR) => 2,
        Some(LexemeCategory::NUMERIC_OPERATOR) => 3,
        Some(LexemeCategory::LOGIC_OPERATOR) => 4,
        Some(LexemeCategory::INTEGER_CONST) => 5,
        Some(LexemeCategory::FLOAT_CONST) => 6,
        Some(LexemeCategory::SCIENTIFIC_CONST) => 7,
        Some(LexemeCategory::STRING_CONST) => 8,
        Some(LexemeCategory::NOTE) => 9,
        Some(LexemeCategory::SPACE_CONST) => 10,
        Some(LexemeCategory::ID) => 11,
    }
}

/// What `format!("{}#{}", m, code)` gives: the flag, `#`, the code.
pub open spec fn init_key_text(m: bool, code: i32) -> Seq<char> {
    bool_text(m) + "#"@ + int_text(code as int)
}

/// What `format!("{}#{}->{:?}", ty, id, blocks)` gives.
pub open spec fn chunk_text(ty: Seq<char>, id: i32, blocks: Seq<usize>) -> Seq<char> {
    ty + "#"@ + int_text(id as int) + "->"@ + usize_list_debug(blocks)
}

/// What `format!("A:{}|C:{}|T:{}", m, code, tail)` gives.
pub open spec fn signature_text(m: bool, code: i32, tail: Seq<char>) -> Seq<char> {
    "A:"@ + bool_text(m) + "|C:"@ + int_text(code as int) + "|T:"@ + tail
}

/// `format!("{}#{}", m, code)`: the initial group key of a state.
#[verifier::external_body]
fn format_init_key(m: bool, code: i32) -> (res: String)
    ensures
        res@ == init_key_text(m, code),
{
    format!("{}#{}", m, code)
}

/// `format!("{}#{}->{:?}", ty, id, blocks)`: one driver group of a signature.
#[verifier::external_body]
fn format_chunk(ty: &str, id: i32, blocks: &Vec<usize>) -> (res: String)
    ensures
        res@ == chunk_text(ty@, id, blocks@),
{
    format!("{}#{}->{:?}", ty, id, blocks)
}

/// `format!("A:{}|C:{}|T:{}", m, code, tail)`: a state signature.
#[verifier::external_body]
fn format_signature(m: bool, code: i32, tail: &str) -> (res: String)
    ensures
        res@ == signature_text(m, code, tail@),
{
    format!("A:{}|C:{}|T:{}", m, code, tail)
}

/// Driver keys ordered as `(driver id, driver type)`.
pub open spec fn key_less(a: (i32, Seq<char>), b: (i32, Seq<char>)) -> bool {
    a.0 < b.0 || (a.0 == b.0 && lex_less(a.1, b.1))
}

/// The (driver id, driver type, target block) of every edge that leaves
/// state `sid` for a state of the table.
pub open spec fn sig_entry(e: Seq<EdgeV>, s2b: Seq<usize>, sid: i32, key: (i32, Seq<char>), b: usize) -> bool {
    exists|j: int|
        0 <= j < e.len() && (#[trigger] e[j]).0 == sid && 0 <= e[j].1 < s2b.len() && key == (e[j].2, e[j].3) && b
            == s2b[e[j].1 as int]
}

/// `ks` lists, in increasing key order, each driver key on the edges out of
/// `sid` with the increasing list of blocks those edges reach.
pub open spec fn sig_groups(e: Seq<EdgeV>, s2b: Seq<usize>, sid: i32, ks: Seq<((i32, Seq<char>), Seq<usize>)>) -> bool {
    &&& forall|a: int, b: int| 0 <= a < b < ks.len() ==> key_less(#[trigger] ks[a].0, #[trigger] ks[b].0)
    &&& forall|a: int| 0 <= a < ks.len() ==> forall|x: int, y: int|
        0 <= x < y < (#[trigger] ks[a]).1.len() ==> ks[a].1[x] < ks[a].1[y]
    &&& forall|a: int, x: int| 0 <= a < ks.len() && 0 <= x < ks[a].1.len() ==> sig_entry(e, s2b, sid, ks[a].0, #[trigger] ks[a].1[x])
    &&& forall|key: (i32, Seq<char>), b: usize| sig_entry(e, s2b, sid, key, b) ==> exists|a: int, x: int|
        0 <= a < ks.len() && 0 <= x < ks[a].1.len() && (#[trigger] ks[a]).0 == key && #[trigger] ks[a].1[x] == b
}

/// The chunk texts of `ks` joined by `|`.
pub open spec fn join_chunks(ks: Seq<((i32, Seq<char>), Seq<usize>)>) -> Seq<char>
    decreases ks.len(),
{
    if ks.len() == 0 {
        Seq::empty()
    } else if ks.len() == 1 {
        chunk_text(ks[0].0.1, ks[0].0.0, ks[0].1)
    } else {
        join_chunks(ks.drop_last()) + "|"@ + chunk_text(ks.last().0.1, ks.last().0.0, ks.last().1)
    }
}

/// Inserts `b` into the increasing list `v` unless it is there.
fn insert_block(v: &mut Vec<usize>, b: usize)
    ensures
        final(v)@.to_set() == old(v)@.to_set().insert(b),
{
    let mut q: usize = 0;
    while q < v.len() && v[q] < b
        invariant
            q <= v@.len(),
            v@ == old(v)@,
        decreases v@.len() - q,
    {
        q = q + 1;
    }
    if q < v.len() && v[q] == b {
        assert(v@.to_set() =~= old(v)@.to_set().insert(b)) by {
            assert(v@.contains(b)) by {
                assert(v@[q as int] == b);
            }
        }
        return;
    }
    let ghost before = v@;
    v.insert(q, b);
    assert(v@ =~= before.subrange(0, q as int) + seq![b] + before.subrange(q as int, before.len() as int));
    assert(before =~= before.subrange(0, q as int) + before.subrange(q as int, before.len() as int));
    assert forall|x: usize| v@.contains(x) <==> (before.contains(x) || x == b) by {
        let l = before.subrange(0, q as int);
        let r = before.subrange(q as int, before.len() as int);
        if v@.contains(x) {
            let k = choose|k: int| 0 <= k < v@.len() && v@[k] == x;
            if k < q {
                assert(before[k] == x);
            } else if k > q {
                assert(r[k - q - 1] == x);
                assert(before[k - 1] == x);
            }
        }
        if before.contains(x) {
            let k = choose|k: int| 0 <= k < before.len() && before[k] == x;
            if k < q {
                assert(v@[k] == x);
            } else {
                assert(v@[k + 1] == x);
            }
        }
        if x == b {
            assert(v@[q as int] == b);
        }
    }
    assert forall|x: usize| #[trigger] v@.to_set().contains(x) == before.to_set().insert(b).contains(x) by {
        assert(v@.contains(x) <==> (before.contains(x) || x == b));
    }
    assert(v@.to_set() =~= before.to_set().insert(b));
}

/// The signature of state `state_id` under the block numbering `state_to_block`:
/// whether it accepts, its category number, and for each driver on its
/// edges (in increasing order of driver id, then type) the increasing list
/// of blocks those edges reach.
fn build_state_signature(graph: &Graph, state_id: i32, state_to_block: &Vec<usize>) -> (res: String)
    requires
        0 <= state_id < graph.states().len(),
    ensures
        exists|tail: Seq<char>|
            res@ == signature_text(
                is_match(graph.states()[state_id as int]),
                category_num(graph.states()[state_id as int].2),
                tail,
            ),
{
    let mut groups: Vec<(i32, String, Vec<usize>)> = Vec::new();
    let mut j: usize = 0;
    while j < graph.pEdgeTable.len()
        invariant
            j <= graph.pEdgeTable@.len(),
        decreases graph.pEdgeTable@.len() - j,
    {
        let edge = &graph.pEdgeTable[j];
        if edge.fromState == state_id && 0 <= edge.nextState && (edge.nextState as usize) < state_to_block.len() {
            let target_block = state_to_block[edge.nextState as usize];
            let d = edge.driverId;
            let mut p: usize = 0;
            while p < groups.len() && (groups[p].0 < d || (groups[p].0 == d && str_less(
                groups[p].1.as_str(),
                edge.DriverType.as_str(),
            )))
                invariant
                    p <= groups@.len(),
                decreases groups@.len() - p,
            {
                p = p + 1;
            }
            if p < groups.len() && groups[p].0 == d && str_eq(groups[p].1.as_str(), edge.DriverType.as_str()) {
                let mut blocks = groups[p].2.clone();
                insert_block(&mut blocks, target_block);
                let ty = groups[p].1.clone();
                groups.set(p, (d, ty, blocks));
            } else {
                let mut blocks: Vec<usize> = Vec::new();
                blocks.push(target_block);
                groups.insert(p, (d, edge.DriverType.clone(), blocks));
            }
        }
        j = j + 1;
    }
    let mut tail = String::new();
    let mut k: usize = 0;
    while k < groups.len()
        invariant
            k <= groups@.len(),
        decreases groups@.len() - k,
    {
        if k > 0 {
            tail.append("|");
        }
        let chunk = format_chunk(groups[k].1.as_str(), groups[k].0, &groups[k].2);
        tail.append(chunk.as_str());
        k = k + 1;
    }
    let state = &graph.pStateTable[state_id as usize];
    assert(graph.states()[state_id as int] == state@);
    let m = state_is_match(state);
    let code = category_code(&state.LexemeCategory);
    let res = format_signature(m, code, tail.as_str());
    assert(res@ == signature_text(
        is_match(graph.states()[state_id as int]),
        category_num(graph.states()[state_id as int].2),
        tail@,
    ));
    res
}

/// Total number of ids in the blocks.
pub open spec fn total(p: Seq<Seq<i32>>) -> int
    decreases p.len(),
{
    if p.len() == 0 {
        0
    } else {
        total(p.drop_last()) + p.last().len()
    }
}

proof fn lemma_total_push(p: Seq<Seq<i32>>, s: Seq<i32>)
    ensures
        total(p.push(s)) == total(p) + s.len(),
{
    assert(p.push(s).drop_last() =~= p);
}

proof fn lemma_total_update(p: Seq<Seq<i32>>, j: int, s: Seq<i32>)
    requires
        0 <= j < p.len(),
    ensures
        total(p.update(j, s)) == total(p) - p[j].len() + s.len(),
    decreases p.len(),
{
    if j < p.len() - 1 {
        lemma_total_update(p.drop_last(), j, s);
        assert(p.update(j, s).drop_last() =~= p.drop_last().update(j, s));
    } else {
        assert(p.update(j, s).drop_last() =~= p.drop_last());
    }
}

proof fn lemma_total_insert(p: Seq<Seq<i32>>, i: int, s: Seq<i32>)
    requires
        0 <= i <= p.len(),
    ensures
        total(p.insert(i, s)) == total(p) + s.len(),
    decreases p.len(),
{
    if i == p.len() {
        assert(p.insert(i, s) =~= p.push(s));
        lemma_total_push(p, s);
    } else {
        lemma_total_insert(p.drop_last(), i, s);
        assert(p.insert(i, s).drop_last() =~= p.drop_last().insert(i, s));
    }
}

/// With no empty block there are no more blocks than ids.
proof fn lemma_total_bound(p: Seq<Seq<i32>>)
    requires
        forall|b: int| 0 <= b < p.len() ==> (#[trigger] p[b]).len() > 0,
    ensures
        p.len() <= total(p),
    decreases p.len(),
{
    if p.len() > 0 {
        let t = p.drop_last();
        assert forall|b: int| 0 <= b < t.len() implies (#[trigger] t[b]).len() > 0 by {
            assert(t[b] == p[b]);
        }
        lemma_total_bound(t);
    }
}

/// A copy of `v`.
fn copy_ids(v: &Vec<i32>) -> (res: Vec<i32>)
    ensures
        res@ == v@,
{
    let mut res: Vec<i32> = Vec::new();
    let mut i: usize = 0;
    while i < v.len()
        invariant
            i <= v@.len(),
            res@ == v@.subrange(0, i as int),
        decreases v@.len() - i,
    {
        res.push(v[i]);
        i = i + 1;
        assert(res@ =~= v@.subrange(0, i as int));
    }
    assert(v@.subrange(0, i as int) =~= v@);
    res
}

/// Sorts `v` in increasing order.
fn sort_ids(v: &mut Vec<i32>)
    ensures
        final(v)@.len() == old(v)@.len(),
        forall|x: i32| #[trigger] final(v)@.contains(x) <==> old(v)@.contains(x),
        forall|a: int, b: int| 0 <= a < b < final(v)@.len() ==> final(v)@[a] <= final(v)@[b],
{
    let ghost orig = v@;
    let n = v.len();
    if n == 0 {
        return;
    }
    let mut i: usize = 1;
    while i < n
        invariant
            n == v@.len(),
            1 <= i <= n,
            forall|x: i32| #[trigger] v@.contains(x) <==> orig.contains(x),
            forall|a: int, b: int| 0 <= a < b < i ==> v@[a] <= v@[b],
        decreases n - i,
    {
        let mut j: usize = i;
        while j > 0 && v[j - 1] > v[j]
            invariant
                n == v@.len(),
                0 <= j <= i < n,
                forall|x: i32| #[trigger] v@.contains(x) <==> orig.contains(x),
                forall|a: int, b: int| 0 <= a < b <= i && a != j && b != j ==> v@[a] <= v@[b],
                forall|a: int, b: int| 0 <= a < j && j < b <= i ==> v@[a] <= v@[b],
                forall|b: int| j < b <= i ==> v@[j as int] <= v@[b],
            decreases j,
        {
            let a = v[j - 1];
            let b = v[j];
            let ghost before = v@;
            v.set(j - 1, b);
            v.set(j, a);
            assert forall|x: i32| #[trigger] v@.contains(x) <==> before.contains(x) by {
                if v@.contains(x) {
                    let k = choose|k: int| 0 <= k < v@.len() && v@[k] == x;
                    if k == j - 1 {
                        assert(before[j as int] == x);
                    } else if k == j as int {
                        assert(before[j - 1] == x);
                    } else {
                        assert(before[k] == x);
                    }
                }
                if before.contains(x) {
                    let k = choose|k: int| 0 <= k < before.len() && before[k] == x;
                    if k == j - 1 {
                        assert(v@[j as int] == x);
                    } else if k == j as int {
                        assert(v@[j - 1] == x);
                    } else {
                        assert(v@[k] == x);
                    }
                }
            }
            j = j - 1;
        }
        i = i + 1;
    }
}

/// Block of each id below `n` under partition `p`: the last block holding
/// it, or -1.
pub open spec fn block_map(p: Seq<Seq<i32>>, n: int) -> Seq<i32> {
    Seq::new(n as nat, |x: int| last_block(p, x as i32, p.len() as int))
}

/// The last of the first `k` blocks of `p` that holds `x`, or -1.
pub open spec fn last_block(p: Seq<Seq<i32>>, x: i32, k: int) -> i32
    decreases k,
{
    if k <= 0 {
        -1i32
    } else if p[k - 1].contains(x) {
        (k - 1) as i32
    } else {
        last_block(p, x, k - 1)
    }
}

/// The first `k` edges mapped through `m` (ends outside it or without a
/// block dropped), each kept once.
pub open spec fn quotient_edges(e: Seq<EdgeV>, m: Seq<i32>, k: int) -> Seq<EdgeV>
    decreases k,
{
    if k <= 0 {
        Seq::empty()
    } else {
        let prev = quotient_edges(e, m, k - 1);
        let ed = e[k - 1];
        if 0 <= ed.0 < m.len() && 0 <= ed.1 < m.len() && m[ed.0 as int] >= 0 && m[ed.1 as int] >= 0 {
            let c = (m[ed.0 as int], m[ed.1 as int], ed.2, ed.3);
            if prev.contains(c) {
                prev
            } else {
                prev.push(c)
            }
        } else {
            prev
        }
    }
}

/// Some block of `p` holds `x`.
pub open spec fn in_some_block(p: Seq<Seq<i32>>, x: i32) -> bool {
    exists|b: int| 0 <= b < p.len() && (#[trigger] p[b]).contains(x)
}

/// `p` partitions the states of `g`: no block is empty, every member is a
/// state number, every state number is in a block, and all members of a
/// block have the same acceptance and category.
pub open spec fn partition_of(g: Graph, p: Seq<Seq<i32>>) -> bool {
    let st = g.states();
    &&& forall|b: int| 0 <= b < p.len() ==> (#[trigger] p[b]).len() > 0
    &&& forall|b: int, x: int| 0 <= b < p.len() && 0 <= x < p[b].len() ==> 0 <= #[trigger] p[b][x] < st.len()
    &&& forall|k: int| 0 <= k < st.len() ==> #[trigger] in_some_block(p, st[k].0)
    &&& forall|b: int, x: int, y: int|
        0 <= b < p.len() && 0 <= x < p[b].len() && 0 <= y < p[b].len() ==> init_key_text(
            is_match(st[#[trigger] p[b][x] as int]),
            category_num(st[p[b][x] as int].2),
        ) == init_key_text(is_match(st[#[trigger] p[b][y] as int]), category_num(st[p[b][y] as int].2))
}

/// Blocks as sequences of ids.
pub open spec fn blocks_v(p: Seq<Vec<i32>>) -> Seq<Seq<i32>> {
    Seq::new(p.len(), |b: int| p[b]@)
}

/// Adds `sid` to the bucket with key `key`, creating it at its place in key
/// order when there is none.
fn bucket_insert(
    keys: &mut Vec<String>,
    buckets: &mut Vec<Vec<i32>>,
    key: String,
    sid: i32,
    Ghost(keyfun): Ghost<spec_fn(i32) -> Seq<char>>,
)
    requires
        old(keys)@.len() == old(buckets)@.len(),
        forall|b: int| 0 <= b < old(buckets)@.len() ==> (#[trigger] old(buckets)@[b])@.len() > 0,
        forall|b: int, x: int|
            0 <= b < old(buckets)@.len() && 0 <= x < old(buckets)@[b]@.len() ==> keyfun(#[trigger] old(buckets)@[b]@[x])
                == old(keys)@[b]@,
        keyfun(sid) == key@,
    ensures
        final(keys)@.len() == final(buckets)@.len(),
        old(buckets)@.len() <= final(buckets)@.len() <= old(buckets)@.len() + 1,
        total(blocks_v(final(buckets)@)) == total(blocks_v(old(buckets)@)) + 1,
        forall|b: int| 0 <= b < final(buckets)@.len() ==> (#[trigger] final(buckets)@[b])@.len() > 0,
        forall|b: int, x: int|
            0 <= b < final(buckets)@.len() && 0 <= x < final(buckets)@[b]@.len() ==> keyfun(#[trigger] final(buckets)@[b]@[x])
                == final(keys)@[b]@,
        forall|v: i32|
            #[trigger] in_some_block(blocks_v(final(buckets)@), v) <==> (in_some_block(blocks_v(old(buckets)@), v) || v == sid),
{
    let ghost ob = blocks_v(buckets@);
    let mut p: usize = 0;
    while p < keys.len() && str_less(keys[p].as_str(), key.as_str())
        invariant
            p <= keys@.len(),
            keys@ == old(keys)@,
            buckets@ == old(buckets)@,
        decreases keys@.len() - p,
    {
        p = p + 1;
    }
    if p < keys.len() && str_eq(keys[p].as_str(), key.as_str()) {
        let mut ids = copy_ids(&buckets[p]);
        ids.push(sid);
        let ghost nb = ids@;
        buckets.set(p, ids);
        proof {
            assert(blocks_v(buckets@) =~= ob.update(p as int, nb));
            lemma_total_update(ob, p as int, nb);
            assert forall|b: int, x: int|
                0 <= b < buckets@.len() && 0 <= x < buckets@[b]@.len() implies keyfun(#[trigger] buckets@[b]@[x]) == keys@[b]@ by {
                if b == p as int && x == nb.len() - 1 {
                } else if b == p as int {
                    assert(buckets@[b]@[x] == old(buckets)@[b]@[x]);
                }
            }
            assert forall|v: i32| #[trigger] in_some_block(blocks_v(buckets@), v) <==> (in_some_block(ob, v) || v == sid) by {
                let nv = blocks_v(buckets@);
                if in_some_block(nv, v) {
                    let b = choose|b: int| 0 <= b < nv.len() && (#[trigger] nv[b]).contains(v);
                    if b != p as int {
                        assert(ob[b] == nv[b]);
                    } else if v != sid {
                        let x = choose|x: int| 0 <= x < nv[b].len() && nv[b][x] == v;
                        assert(ob[b][x] == v);
                        assert(ob[b].contains(v));
                    }
                }
                if in_some_block(ob, v) {
                    let b = choose|b: int| 0 <= b < ob.len() && (#[trigger] ob[b]).contains(v);
                    if b != p as int {
                        assert(nv[b] == ob[b]);
                    } else {
                        let x = choose|x: int| 0 <= x < ob[b].len() && ob[b][x] == v;
                        assert(nv[b][x] == v);
                        assert(nv[b].contains(v));
                    }
                }
                if v == sid {
                    assert(nv[p as int][nb.len() - 1] == sid);
                    assert(nv[p as int].contains(sid));
                }
            }
        }
    } else {
        let mut ids: Vec<i32> = Vec::new();
        ids.push(sid);
        let ghost nb = ids@;
        keys.insert(p, key);
        buckets.insert(p, ids);
        proof {
            assert(blocks_v(buckets@) =~= ob.insert(p as int, nb));
            lemma_total_insert(ob, p as int, nb);
            assert forall|b: int| 0 <= b < buckets@.len() implies (#[trigger] buckets@[b])@.len() > 0 by {
                if b < p {
                    assert(buckets@[b] == old(buckets)@[b]);
                } else if b > p {
                    assert(buckets@[b] == old(buckets)@[b - 1]);
                }
            }
            assert forall|b: int, x: int|
                0 <= b < buckets@.len() && 0 <= x < buckets@[b]@.len() implies keyfun(#[trigger] buckets@[b]@[x]) == keys@[b]@ by {
                if b < p {
                    assert(buckets@[b] == old(buckets)@[b]);
                    assert(keys@[b] == old(keys)@[b]);
                } else if b > p {
                    assert(buckets@[b] == old(buckets)@[b - 1]);
                    assert(keys@[b] == old(keys)@[b - 1]);
                }
            }
            assert forall|v: i32| #[trigger] in_some_block(blocks_v(buckets@), v) <==> (in_some_block(ob, v) || v == sid) by {
                let nv = blocks_v(buckets@);
                if in_some_block(nv, v) {
                    let b = choose|b: int| 0 <= b < nv.len() && (#[trigger] nv[b]).contains(v);
                    if b < p {
                        assert(ob[b] == nv[b]);
                    } else if b > p {
                        assert(ob[b - 1] == nv[b]);
                    } else {
                        let x = choose|x: int| 0 <= x < nv[b].len() && nv[b][x] == v;
                        assert(x == 0);
                    }
                }
                if in_some_block(ob, v) {
                    let b = choose|b: int| 0 <= b < ob.len() && (#[trigger] ob[b]).contains(v);
                    if b < p {
                        assert(nv[b] == ob[b]);
                    } else {
                        assert(nv[b + 1] == ob[b]);
                    }
                }
                if v == sid {
                    assert(nv[p as int][0] == sid);
                    assert(nv[p as int].contains(sid));
                }
            }
        }
    }
}

/// State `k` of `g` is numbered `k`.
pub open spec fn numbered_by_position(g: Graph) -> bool {
    forall|k: int| 0 <= k < g.states().len() ==> (#[trigger] g.states()[k]).0 == k
}

/// The groups of states with equal acceptance and category, in the order of
/// their key texts, each in increasing order of state number.
fn initial_groups(g: &Graph) -> (res: Vec<Vec<i32>>)
    requires
        numbered_by_position(*g),
        g.states().len() <= i32::MAX,
    ensures
        partition_of(*g, blocks_v(res@)),
        total(blocks_v(res@)) == g.states().len(),
{
    let ghost st = g.states();
    let ghost kf = |x: i32| init_key_text(is_match(st[x as int]), category_num(st[x as int].2));
    let n = g.pStateTable.len();
    let mut keys: Vec<String> = Vec::new();
    let mut buckets: Vec<Vec<i32>> = Vec::new();
    proof {
        assert(blocks_v(buckets@) =~= Seq::<Seq<i32>>::empty());
    }
    let mut k: usize = 0;
    while k < n
        invariant
            k <= n,
            n == g.pStateTable@.len(),
            st == g.states(),
            n <= i32::MAX,
            numbered_by_position(*g),
            keys@.len() == buckets@.len(),
            forall|x: i32| #[trigger] kf(x) == init_key_text(is_match(st[x as int]), category_num(st[x as int].2)),
            total(blocks_v(buckets@)) == k,
            forall|b: int| 0 <= b < buckets@.len() ==> (#[trigger] buckets@[b])@.len() > 0,
            forall|b: int, x: int|
                0 <= b < buckets@.len() && 0 <= x < buckets@[b]@.len() ==> kf(#[trigger] buckets@[b]@[x]) == keys@[b]@,
            forall|v: i32| #[trigger] in_some_block(blocks_v(buckets@), v) ==> 0 <= v < k,
            forall|j: int| 0 <= j < k ==> #[trigger] in_some_block(blocks_v(buckets@), j as i32),
        decreases n - k,
    {
        let state = &g.pStateTable[k];
        assert(st[k as int] == state@);
        let key = format_init_key(state_is_match(state), category_code(&state.LexemeCategory));
        let ghost ob = blocks_v(buckets@);
        assert(state.stateId == k as i32);
        assert(kf(state.stateId) == key@);
        bucket_insert(&mut keys, &mut buckets, key, state.stateId, Ghost(kf));
        proof {
            assert forall|v: i32| #[trigger] in_some_block(blocks_v(buckets@), v) implies 0 <= v < k + 1 by {
                if v != k as i32 {
                    assert(in_some_block(ob, v));
                }
            }
            assert forall|j: int| 0 <= j < k + 1 implies #[trigger] in_some_block(blocks_v(buckets@), j as i32) by {
                if j < k {
                    assert(in_some_block(ob, j as i32));
                }
            }
        }
        k = k + 1;
    }
    let mut b: usize = 0;
    while b < buckets.len()
        invariant
            b <= buckets@.len(),
            n == g.pStateTable@.len(),
            st == g.states(),
            numbered_by_position(*g),
            keys@.len() == buckets@.len(),
            forall|x: i32| #[trigger] kf(x) == init_key_text(is_match(st[x as int]), category_num(st[x as int].2)),
            total(blocks_v(buckets@)) == n,
            forall|c: int| 0 <= c < buckets@.len() ==> (#[trigger] buckets@[c])@.len() > 0,
            forall|c: int, x: int|
                0 <= c < buckets@.len() && 0 <= x < buckets@[c]@.len() ==> kf(#[trigger] buckets@[c]@[x]) == keys@[c]@,
            forall|v: i32| #[trigger] in_some_block(blocks_v(buckets@), v) ==> 0 <= v < n,
            forall|j: int| 0 <= j < n ==> #[trigger] in_some_block(blocks_v(buckets@), j as i32),
        decreases buckets@.len() - b,
    {
        let mut ids = copy_ids(&buckets[b]);
        let ghost old_ids = ids@;
        sort_ids(&mut ids);
        let ghost nb = ids@;
        let ghost ob = blocks_v(buckets@);
        buckets.set(b, ids);
        proof {
            assert(blocks_v(buckets@) =~= ob.update(b as int, nb));
            lemma_total_update(ob, b as int, nb);
            assert forall|c: int, x: int|
                0 <= c < buckets@.len() && 0 <= x < buckets@[c]@.len() implies kf(#[trigger] buckets@[c]@[x]) == keys@[c]@ by {
                if c == b as int {
                    assert(nb.contains(nb[x]));
                    assert(old_ids.contains(nb[x]));
                    let y = choose|y: int| 0 <= y < old_ids.len() && old_ids[y] == nb[x];
                    assert(kf(ob[c][y]) == keys@[c]@);
                }
            }
            assert forall|v: i32| #[trigger] in_some_block(blocks_v(buckets@), v) <==> in_some_block(ob, v) by {
                let nv = blocks_v(buckets@);
                if in_some_block(nv, v) {
                    let c = choose|c: int| 0 <= c < nv.len() && (#[trigger] nv[c]).contains(v);
                    if c == b as int {
                        assert(nv[c] == nb);
                        assert(old_ids.contains(v));
                        assert(ob[c] == old_ids);
                    } else {
                        assert(ob[c] == nv[c]);
                    }
                }
                if in_some_block(ob, v) {
                    let c = choose|c: int| 0 <= c < ob.len() && (#[trigger] ob[c]).contains(v);
                    if c == b as int {
                        assert(ob[c] == old_ids);
                        assert(nb.contains(v));
                        assert(nv[c] == nb);
                    } else {
                        assert(ob[c] == nv[c]);
                    }
                }
            }
        }
        b = b + 1;
    }
    proof {
        let p = blocks_v(buckets@);
        assert forall|c: int, x: int| 0 <= c < p.len() && 0 <= x < p[c].len() implies 0 <= #[trigger] p[c][x] < st.len() by {
            assert(p[c].contains(p[c][x]));
            assert(in_some_block(p, p[c][x]));
        }
        assert forall|j: int| 0 <= j < st.len() implies #[trigger] in_some_block(p, st[j].0) by {
            assert(in_some_block(p, j as i32));
        }
        assert forall|c: int, x: int, y: int| 0 <= c < p.len() && 0 <= x < p[c].len() && 0 <= y < p[c].len() implies init_key_text(
            is_match(st[#[trigger] p[c][x] as int]),
            category_num(st[p[c][x] as int].2),
        ) == init_key_text(is_match(st[#[trigger] p[c][y] as int]), category_num(st[p[c][y] as int].2)) by {
            assert(kf(buckets@[c]@[x]) == keys@[c]@);
            assert(kf(buckets@[c]@[y]) == keys@[c]@);
        }
    }
    buckets
}

proof fn lemma_total_prefix(p: Seq<Seq<i32>>, k: int)
    requires
        0 <= k < p.len(),
    ensures
        total(p.subrange(0, k + 1)) == total(p.subrange(0, k)) + p[k].len(),
{
    assert(p.subrange(0, k + 1).drop_last() =~= p.subrange(0, k));
}

/// Whether every member of `s` is in block `ob` of `parts` (by value).
pub open spec fn within_block(s: Seq<i32>, blk: Seq<i32>) -> bool {
    forall|x: int| 0 <= x < s.len() ==> blk.contains(#[trigger] s[x])
}

/// Members of one block of a partition agree on their initial key, so any
/// list drawn from one block does.
pub open spec fn agree(g: Graph, s: Seq<i32>) -> bool {
    let st = g.states();
    forall|x: int, y: int|
        0 <= x < s.len() && 0 <= y < s.len() ==> init_key_text(
            is_match(st[#[trigger] s[x] as int]),
            category_num(st[s[x] as int].2),
        ) == init_key_text(is_match(st[#[trigger] s[y] as int]), category_num(st[s[y] as int].2))
}

/// The new block made of the members of `block` at the positions in
/// `bucket`, in increasing order.
fn pick_members(block: &Vec<i32>, bucket: &Vec<i32>) -> (res: Vec<i32>)
    requires
        forall|t: int| 0 <= t < bucket@.len() ==> 0 <= #[trigger] bucket@[t] < block@.len(),
    ensures
        res@.len() == bucket@.len(),
        forall|v: i32| #[trigger] res@.contains(v) <==> exists|t: int| 0 <= t < bucket@.len() && block@[bucket@[t] as int] == v,
{
    let mut ids: Vec<i32> = Vec::new();
    let mut t: usize = 0;
    while t < bucket.len()
        invariant
            t <= bucket@.len(),
            ids@.len() == t,
            forall|t2: int| 0 <= t2 < bucket@.len() ==> 0 <= #[trigger] bucket@[t2] < block@.len(),
            forall|u: int| 0 <= u < t ==> ids@[u] == block@[#[trigger] bucket@[u] as int],
        decreases bucket@.len() - t,
    {
        ids.push(block[bucket[t] as usize]);
        t = t + 1;
    }
    let ghost before = ids@;
    sort_ids(&mut ids);
    proof {
        assert forall|v: i32| #[trigger] ids@.contains(v) <==> exists|u: int| 0 <= u < bucket@.len() && block@[bucket@[u] as int] == v by {
            if ids@.contains(v) {
                assert(before.contains(v));
                let u = choose|u: int| 0 <= u < before.len() && before[u] == v;
                assert(block@[bucket@[u] as int] == v);
            }
            if exists|u: int| 0 <= u < bucket@.len() && block@[bucket@[u] as int] == v {
                let u = choose|u: int| 0 <= u < bucket@.len() && block@[bucket@[u] as int] == v;
                assert(before[u] == v);
                assert(before.contains(v));
            }
        }
    }
    ids
}

/// Splits `block` by the signatures of its states under `state_to_block`:
/// one new block per distinct signature, in signature order, each in
/// increasing order of state number.
fn split_block(g: &Graph, block: &Vec<i32>, state_to_block: &Vec<usize>) -> (res: Vec<Vec<i32>>)
    requires
        block@.len() > 0,
        block@.len() <= i32::MAX,
        forall|x: int| 0 <= x < block@.len() ==> 0 <= #[trigger] block@[x] < g.states().len(),
    ensures
        1 <= res@.len(),
        total(blocks_v(res@)) == block@.len(),
        forall|c: int| 0 <= c < res@.len() ==> (#[trigger] res@[c])@.len() > 0,
        forall|c: int| 0 <= c < res@.len() ==> within_block((#[trigger] res@[c])@, block@),
        forall|x: int| 0 <= x < block@.len() ==> #[trigger] in_some_block(blocks_v(res@), block@[x]),
{
    let m = block.len();
    let mut sigs: Vec<String> = Vec::new();
    let mut i: usize = 0;
    while i < m
        invariant
            i <= m,
            m == block@.len(),
            sigs@.len() == i,
            forall|x: int| 0 <= x < block@.len() ==> 0 <= #[trigger] block@[x] < g.states().len(),
        decreases m - i,
    {
        let sig = build_state_signature(g, block[i], state_to_block);
        sigs.push(sig);
        i = i + 1;
    }
    let ghost sv = Seq::new(sigs@.len(), |k: int| sigs@[k]@);
    let ghost kf = |x: i32| sv[x as int];
    let mut keys: Vec<String> = Vec::new();
    let mut buckets: Vec<Vec<i32>> = Vec::new();
    proof {
        assert(blocks_v(buckets@) =~= Seq::<Seq<i32>>::empty());
    }
    let mut i: usize = 0;
    while i < m
        invariant
            i <= m,
            m == block@.len(),
            m <= i32::MAX,
            sigs@.len() == m,
            forall|x: i32| #[trigger] kf(x) == sv[x as int],
            forall|k: int| 0 <= k < m ==> #[trigger] sv[k] == sigs@[k]@,
            keys@.len() == buckets@.len(),
            total(blocks_v(buckets@)) == i,
            forall|b: int| 0 <= b < buckets@.len() ==> (#[trigger] buckets@[b])@.len() > 0,
            forall|b: int, x: int|
                0 <= b < buckets@.len() && 0 <= x < buckets@[b]@.len() ==> kf(#[trigger] buckets@[b]@[x]) == keys@[b]@,
            forall|v: i32| #[trigger] in_some_block(blocks_v(buckets@), v) ==> 0 <= v < i,
            forall|j: int| 0 <= j < i ==> #[trigger] in_some_block(blocks_v(buckets@), j as i32),
        decreases m - i,
    {
        let key = sigs[i].clone();
        let ghost ob = blocks_v(buckets@);
        assert(kf(i as i32) == key@);
        bucket_insert(&mut keys, &mut buckets, key, i as i32, Ghost(kf));
        proof {
            assert forall|v: i32| #[trigger] in_some_block(blocks_v(buckets@), v) implies 0 <= v < i + 1 by {
                if v != i as i32 {
                    assert(in_some_block(ob, v));
                }
            }
            assert forall|j: int| 0 <= j < i + 1 implies #[trigger] in_some_block(blocks_v(buckets@), j as i32) by {
                if j < i {
                    assert(in_some_block(ob, j as i32));
                }
            }
        }
        i = i + 1;
    }
    proof {
        let z: int = 0;
        assert(in_some_block(blocks_v(buckets@), z as i32));
        assert(buckets@.len() >= 1);
        lemma_total_bound(blocks_v(buckets@));
    }
    let mut res: Vec<Vec<i32>> = Vec::new();
    let mut c: usize = 0;
    proof {
        assert(blocks_v(res@) =~= Seq::<Seq<i32>>::empty());
        assert(blocks_v(buckets@).subrange(0, 0) =~= Seq::<Seq<i32>>::empty());
    }
    while c < buckets.len()
        invariant
            c <= buckets@.len(),
            m == block@.len(),
            res@.len() == c,
            total(blocks_v(buckets@)) == m,
            forall|b: int| 0 <= b < buckets@.len() ==> (#[trigger] buckets@[b])@.len() > 0,
            forall|v: i32| #[trigger] in_some_block(blocks_v(buckets@), v) ==> 0 <= v < m,
            forall|j: int| 0 <= j < m ==> #[trigger] in_some_block(blocks_v(buckets@), j as i32),
            total(blocks_v(res@)) == total(blocks_v(buckets@).subrange(0, c as int)),
            forall|b: int| 0 <= b < c ==> (#[trigger] res@[b])@.len() == buckets@[b]@.len(),
            forall|b: int| 0 <= b < c ==> within_block((#[trigger] res@[b])@, block@),
            forall|b: int, t: int|
                0 <= b < c && 0 <= t < buckets@[b]@.len() ==> (#[trigger] res@[b])@.contains(block@[#[trigger] buckets@[b]@[t] as int]),
        decreases buckets@.len() - c,
    {
        let ghost bk = buckets@[c as int]@;
        proof {
            assert forall|t: int| 0 <= t < bk.len() implies 0 <= #[trigger] bk[t] < block@.len() by {
                assert(blocks_v(buckets@)[c as int].contains(bk[t]));
                assert(in_some_block(blocks_v(buckets@), bk[t]));
            }
        }
        let ids = pick_members(block, &buckets[c]);
        let ghost ob = blocks_v(res@);
        proof {
            assert forall|x: int| 0 <= x < ids@.len() implies block@.contains(#[trigger] ids@[x]) by {
                assert(ids@.contains(ids@[x]));
                let t = choose|t: int| 0 <= t < bk.len() && block@[bk[t] as int] == ids@[x];
            }
            assert forall|t: int| 0 <= t < bk.len() implies ids@.contains(block@[#[trigger] bk[t] as int]) by {
            }
            lemma_total_push(ob, ids@);
            lemma_total_prefix(blocks_v(buckets@), c as int);
        }
        res.push(ids);
        proof {
            assert(blocks_v(res@) =~= ob.push(ids@));
        }
        c = c + 1;
    }
    proof {
        assert(blocks_v(buckets@).subrange(0, c as int) =~= blocks_v(buckets@));
        let rv = blocks_v(res@);
        assert forall|x: int| 0 <= x < block@.len() implies #[trigger] in_some_block(rv, block@[x]) by {
            assert(in_some_block(blocks_v(buckets@), x as i32));
            let b = choose|b: int| 0 <= b < buckets@.len() && (#[trigger] blocks_v(buckets@)[b]).contains(x as i32);
            let t = choose|t: int| 0 <= t < buckets@[b]@.len() && buckets@[b]@[t] == x as i32;
            assert(res@[b]@.contains(block@[buckets@[b]@[t] as int]));
            assert(rv[b].contains(block@[x]));
        }
    }
    res
}

proof fn lemma_block_le_total(p: Seq<Seq<i32>>, b: int)
    requires
        0 <= b < p.len(),
    ensures
        p[b].len() <= total(p),
    decreases p.len(),
{
    if b < p.len() - 1 {
        lemma_block_le_total(p.drop_last(), b);
        assert(p.drop_last()[b] == p[b]);
    }
    lemma_total_nonneg(p.drop_last());
}

proof fn lemma_total_nonneg(p: Seq<Seq<i32>>)
    ensures
        total(p) >= 0,
    decreases p.len(),
{
    if p.len() > 0 {
        lemma_total_nonneg(p.drop_last());
    }
}

/// One round of refinement: every block is split by the signatures of its
/// states under the current block numbering. Reports whether some block
/// split.
fn refine_round(g: &Graph, parts: &Vec<Vec<i32>>) -> (res: (Vec<Vec<i32>>, bool))
    requires
        numbered_by_position(*g),
        g.states().len() <= i32::MAX,
        partition_of(*g, blocks_v(parts@)),
        total(blocks_v(parts@)) == g.states().len(),
    ensures
        partition_of(*g, blocks_v(res.0@)),
        total(blocks_v(res.0@)) == g.states().len(),
        res.1 ==> res.0@.len() > parts@.len(),
        !res.1 ==> res.0@.len() == parts@.len(),
{
    let ghost st = g.states();
    let ghost pv = blocks_v(parts@);
    let n = g.pStateTable.len();
    let mut s2b: Vec<usize> = Vec::new();
    let mut i: usize = 0;
    while i < n
        invariant
            i <= n,
            s2b@.len() == i,
        decreases n - i,
    {
        s2b.push(0);
        i = i + 1;
    }
    let mut bid: usize = 0;
    while bid < parts.len()
        invariant
            bid <= parts@.len(),
            s2b@.len() == n,
        decreases parts@.len() - bid,
    {
        let mut t: usize = 0;
        while t < parts[bid].len()
            invariant
                bid < parts@.len(),
                t <= parts@[bid as int]@.len(),
                s2b@.len() == n,
            decreases parts@[bid as int]@.len() - t,
        {
            let sid = parts[bid][t];
            if 0 <= sid && (sid as usize) < n {
                s2b.set(sid as usize, bid);
            }
            t = t + 1;
        }
        bid = bid + 1;
    }
    let mut next: Vec<Vec<i32>> = Vec::new();
    let mut changed = false;
    let mut bid: usize = 0;
    proof {
        assert(blocks_v(next@) =~= Seq::<Seq<i32>>::empty());
        assert(pv.subrange(0, 0) =~= Seq::<Seq<i32>>::empty());
    }
    while bid < parts.len()
        invariant
            bid <= parts@.len(),
            pv == blocks_v(parts@),
            st == g.states(),
            n == st.len(),
            n <= i32::MAX,
            partition_of(*g, pv),
            total(pv) == n,
            total(blocks_v(next@)) == total(pv.subrange(0, bid as int)),
            next@.len() >= bid,
            changed <==> next@.len() > bid,
            forall|c: int| 0 <= c < next@.len() ==> (#[trigger] next@[c])@.len() > 0,
            forall|c: int, x: int| 0 <= c < next@.len() && 0 <= x < next@[c]@.len() ==> 0 <= #[trigger] next@[c]@[x] < n,
            forall|c: int| 0 <= c < next@.len() ==> agree(*g, (#[trigger] next@[c])@),
            forall|b: int, x: int| 0 <= b < bid && 0 <= x < pv[b].len() ==> #[trigger] in_some_block(blocks_v(next@), pv[b][x]),
        decreases parts@.len() - bid,
    {
        proof {
            lemma_block_le_total(pv, bid as int);
            assert(pv[bid as int] == parts@[bid as int]@);
        }
        let split = split_block(g, &parts[bid], &s2b);
        if split.len() > 1 {
            changed = true;
        }
        let ghost base = next@;
        let ghost sv = blocks_v(split@);
        let mut c: usize = 0;
        proof {
            assert(sv.subrange(0, 0) =~= Seq::<Seq<i32>>::empty());
            assert(blocks_v(next@) =~= blocks_v(base) + sv.subrange(0, 0));
        }
        while c < split.len()
            invariant
                c <= split@.len(),
                sv == blocks_v(split@),
                next@.len() == base.len() + c,
                forall|k: int| 0 <= k < base.len() ==> next@[k] == base[k],
                forall|k: int| 0 <= k < c ==> next@[base.len() + k]@ == split@[k]@,
            decreases split@.len() - c,
        {
            next.push(copy_ids(&split[c]));
            proof {
                assert(next@[base.len() + c]@ == split@[c as int]@);
            }
            c = c + 1;
        }
        proof {
            let nv = blocks_v(next@);
            let bv0 = blocks_v(base);
            assert(nv =~= bv0 + sv) by {
                assert forall|k: int| 0 <= k < nv.len() implies nv[k] == (bv0 + sv)[k] by {
                    if k >= base.len() {
                        assert(next@[k]@ == split@[k - base.len()]@);
                    }
                }
            }
            lemma_total_concat(bv0, sv);
            lemma_total_prefix(pv, bid as int);
            let blk = pv[bid as int];
            assert forall|c2: int| 0 <= c2 < next@.len() implies agree(*g, (#[trigger] next@[c2])@) by {
                if c2 >= base.len() {
                    let sb = split@[c2 - base.len()]@;
                    assert(next@[c2]@ == sb);
                    assert(within_block(sb, blk));
                    assert forall|x: int, y: int| 0 <= x < sb.len() && 0 <= y < sb.len() implies init_key_text(
                        is_match(st[#[trigger] sb[x] as int]),
                        category_num(st[sb[x] as int].2),
                    ) == init_key_text(is_match(st[#[trigger] sb[y] as int]), category_num(st[sb[y] as int].2)) by {
                        assert(blk.contains(sb[x]));
                        assert(blk.contains(sb[y]));
                        let xi = choose|xi: int| 0 <= xi < blk.len() && blk[xi] == sb[x];
                        let yi = choose|yi: int| 0 <= yi < blk.len() && blk[yi] == sb[y];
                        assert(init_key_text(is_match(st[pv[bid as int][xi] as int]), category_num(st[pv[bid as int][xi] as int].2))
                            == init_key_text(is_match(st[pv[bid as int][yi] as int]), category_num(st[pv[bid as int][yi] as int].2)));
                    }
                } else {
                    assert(next@[c2] == base[c2]);
                }
            }
            assert forall|c2: int, x: int| 0 <= c2 < next@.len() && 0 <= x < next@[c2]@.len() implies 0 <= #[trigger] next@[c2]@[x] < n by {
                if c2 >= base.len() {
                    let sb = split@[c2 - base.len()]@;
                    assert(next@[c2]@ == sb);
                    assert(blk.contains(sb[x]));
                    let xi = choose|xi: int| 0 <= xi < blk.len() && blk[xi] == sb[x];
                    assert(0 <= pv[bid as int][xi] < n);
                } else {
                    assert(next@[c2] == base[c2]);
                }
            }
            assert forall|c2: int| 0 <= c2 < next@.len() implies (#[trigger] next@[c2])@.len() > 0 by {
                if c2 >= base.len() {
                    assert(next@[c2]@ == split@[c2 - base.len()]@);
                } else {
                    assert(next@[c2] == base[c2]);
                }
            }
            assert forall|b: int, x: int| 0 <= b < bid + 1 && 0 <= x < pv[b].len() implies #[trigger] in_some_block(nv, pv[b][x]) by {
                if b < bid {
                    assert(in_some_block(bv0, pv[b][x]));
                    let k = choose|k: int| 0 <= k < bv0.len() && (#[trigger] bv0[k]).contains(pv[b][x]);
                    assert(nv[k] == bv0[k]);
                } else {
                    assert(pv[b] == parts@[bid as int]@);
                    assert(in_some_block(sv, pv[b][x]));
                    let k = choose|k: int| 0 <= k < sv.len() && (#[trigger] sv[k]).contains(pv[b][x]);
                    assert(nv[base.len() + k] == sv[k]);
                }
            }
        }
        bid = bid + 1;
    }
    proof {
        assert(pv.subrange(0, bid as int) =~= pv);
        let nv = blocks_v(next@);
        assert forall|c2: int| 0 <= c2 < nv.len() implies (#[trigger] nv[c2]).len() > 0 by {
            assert(nv[c2] == next@[c2]@);
        }
        assert forall|c2: int, x: int| 0 <= c2 < nv.len() && 0 <= x < nv[c2].len() implies 0 <= #[trigger] nv[c2][x] < st.len() by {
            assert(nv[c2][x] == next@[c2]@[x]);
        }
        assert forall|k: int| 0 <= k < st.len() implies #[trigger] in_some_block(nv, st[k].0) by {
            assert(in_some_block(pv, st[k].0));
            let b = choose|b: int| 0 <= b < pv.len() && (#[trigger] pv[b]).contains(st[k].0);
            let x = choose|x: int| 0 <= x < pv[b].len() && pv[b][x] == st[k].0;
            assert(in_some_block(nv, pv[b][x]));
        }
        assert forall|c2: int, x: int, y: int| 0 <= c2 < nv.len() && 0 <= x < nv[c2].len() && 0 <= y < nv[c2].len() implies init_key_text(
            is_match(st[#[trigger] nv[c2][x] as int]),
            category_num(st[nv[c2][x] as int].2),
        ) == init_key_text(is_match(st[#[trigger] nv[c2][y] as int]), category_num(st[nv[c2][y] as int].2)) by {
            assert(agree(*g, next@[c2]@));
            assert(nv[c2] == next@[c2]@);
        }
    }
    (next, changed)
}

proof fn lemma_total_concat(a: Seq<Seq<i32>>, b: Seq<Seq<i32>>)
    ensures
        total(a + b) == total(a) + total(b),
    decreases b.len(),
{
    if b.len() == 0 {
        assert(a + b =~= a);
    } else {
        lemma_total_concat(a, b.drop_last());
        assert((a + b).drop_last() =~= a + b.drop_last());
    }
}

/// `g` is `nfa` with the blocks of partition `p` merged: state `b` stands for
/// block `b` (the block of state 0 first), accepting when a member accepts,
/// with its category chosen as in the subset construction; edges are those
/// of `nfa` between blocks, each kept once.
pub open spec fn merged_of(nfa: Graph, p: Seq<Seq<i32>>, g: Graph) -> bool {
    &&& partition_of(nfa, p)
    &&& p.len() >= 1
    &&& (in_some_block(p, 0) ==> p[0].contains(0))
    &&& g.states() == Seq::new(p.len(), |b: int| ef_state(nfa.states(), p[b].to_set(), b as i32))
    &&& g.edges() == quotient_edges(nfa.edges(), block_map(p, nfa.states().len() as int), nfa.edges().len() as int)
}

/// Different match flags or category numbers give different group keys.
pub proof fn lemma_init_key_injective(m1: bool, c1: i32, m2: bool, c2: i32)
    requires
        init_key_text(m1, c1) == init_key_text(m2, c2),
    ensures
        m1 == m2,
        c1 == c2,
{
    reveal_strlit("true");
    reveal_strlit("false");
    reveal_strlit("#");
    let k1 = init_key_text(m1, c1);
    let k2 = init_key_text(m2, c2);
    if m1 != m2 {
        assert(k1[0] == bool_text(m1)[0]);
        assert(k2[0] == bool_text(m2)[0]);
    } else {
        let n = bool_text(m1).len() + 1;
        assert(k1.skip(n as int) =~= int_text(c1 as int));
        assert(k2.skip(n as int) =~= int_text(c2 as int));
        lemma_int_text_injective(c1 as int, c2 as int);
    }
}

/// Merging only joins states that agree: the states of one block of the
/// partition all accept or all reject, and all carry the same category.
pub proof fn lemma_merged_blocks_agree(nfa: Graph, p: Seq<Seq<i32>>, g: Graph)
    requires
        merged_of(nfa, p, g),
    ensures
        forall|b: int, x: int, y: int|
            0 <= b < p.len() && 0 <= x < p[b].len() && 0 <= y < p[b].len() ==> is_match(nfa.states()[#[trigger] p[b][x] as int])
                == is_match(nfa.states()[#[trigger] p[b][y] as int]) && nfa.states()[p[b][x] as int].2 == nfa.states()[p[b][y] as int].2,
{
    let st = nfa.states();
    assert forall|b: int, x: int, y: int|
        0 <= b < p.len() && 0 <= x < p[b].len() && 0 <= y < p[b].len() implies is_match(st[#[trigger] p[b][x] as int]) == is_match(
        st[#[trigger] p[b][y] as int],
    ) && st[p[b][x] as int].2 == st[p[b][y] as int].2 by {
        let sx = st[p[b][x] as int];
        let sy = st[p[b][y] as int];
        lemma_init_key_injective(is_match(sx), category_num(sx.2), is_match(sy), category_num(sy.2));
    }
}

/// Where every member of `s` carries category `c`, the preferred category
/// from position `i` on is `c` if `s` has a member there, else none.
proof fn lemma_pref_scan_uniform(st: Seq<StateV>, s: Set<i32>, i: int, c: Option<LexemeCategory>)
    requires
        0 <= i,
        forall|k: int| 0 <= k < st.len() && s.contains(k as i32) ==> (#[trigger] st[k]).2 == c,
    ensures
        pref_scan(st, s, i) == (if exists|k: int| i <= k < st.len() && #[trigger] s.contains(k as i32) { c } else { None }),
    decreases st.len() - i,
{
    if i < st.len() {
        lemma_pref_scan_uniform(st, s, i + 1, c);
        if s.contains(i as i32) {
            assert(st[i].2 == c);
        } else {
            assert((exists|k: int| i <= k < st.len() && #[trigger] s.contains(k as i32)) == (exists|k: int| i + 1 <= k < st.len() && #[trigger] s.contains(k as i32)))
                by {
                if exists|k: int| i <= k < st.len() && #[trigger] s.contains(k as i32) {
                    let k = choose|k: int| i <= k < st.len() && #[trigger] s.contains(k as i32);
                    assert(k != i);
                }
            }
        }
    }
}

/// Each merged state takes the flag and category its members share: state
/// `b` of the merged graph accepts exactly when the states of block `b` do,
/// and then with their category.
pub proof fn lemma_merged_states_keep_members(nfa: Graph, p: Seq<Seq<i32>>, g: Graph)
    requires
        merged_of(nfa, p, g),
        nfa.states().len() <= i32::MAX,
    ensures
        forall|b: int, x: int|
            0 <= b < p.len() && 0 <= x < p[b].len() ==> {
                let m = nfa.states()[#[trigger] p[b][x] as int];
                &&& is_match(g.states()[b]) == is_match(m)
                &&& g.states()[b].2 == (if is_match(m) { m.2 } else { None })
            },
{
    lemma_merged_blocks_agree(nfa, p, g);
    let st = nfa.states();
    assert forall|b: int, x: int| 0 <= b < p.len() && 0 <= x < p[b].len() implies {
        let m = st[#[trigger] p[b][x] as int];
        &&& is_match(g.states()[b]) == is_match(m)
        &&& g.states()[b].2 == (if is_match(m) { m.2 } else { None })
    } by {
        let m = st[p[b][x] as int];
        let set = p[b].to_set();
        assert(g.states()[b] == ef_state(st, set, b as i32));
        assert forall|k: int| 0 <= k < st.len() && set.contains(k as i32) implies is_match(#[trigger] st[k]) == is_match(m) && st[k].2
            == m.2 by {
            assert(p[b].contains(k as i32));
            let y = choose|y: int| 0 <= y < p[b].len() && p[b][y] == k as i32;
            assert(p[b][y] as int == k);
        }
        assert(set.contains(p[b][x]));
        let kx = p[b][x] as int;
        assert(0 <= kx < st.len() && set.contains(kx as i32));
        reveal_strlit("MATCH");
        reveal_strlit("UNMATCH");
        assert(match_text().len() != unmatch_text().len());
        lemma_pref_scan_uniform(st, set, 0, m.2);
        assert(exists|k: int| 0 <= k < st.len() && #[trigger] set.contains(k as i32)) by {
            assert(set.contains(kx as i32));
        }
        let es = ef_state(st, set, b as i32);
        if is_match(m) {
            assert(set_matches(st, set));
            assert(es.1 == match_text());
            assert(es.2 == m.2);
        } else {
            assert(!set_matches(st, set));
            assert(es.1 == unmatch_text());
            assert(!is_match(es));
        }
    }
}

/// `g` is `src` minimised: made epsilon-free, pruned, with equivalent
/// states merged, and pruned again.
pub open spec fn minimized_of(src: Graph, g: Graph) -> bool {
    exists|ef: Graph, pr: Graph, mg: Graph|
        {
            &&& exists|cl: Seq<Set<i32>>| crate::lab1::minimize::epsilon_free_of(src, cl, ef)
            &&& crate::lab1::minimize::pruned_of(ef, pr)
            &&& merge_result(pr, mg)
            &&& crate::lab1::minimize::pruned_of(mg, g)
        }
}

/// `g` is `src` with equivalent states merged; a graph with at most one
/// state stays as it is.
pub open spec fn merge_result(src: Graph, g: Graph) -> bool {
    if src.states().len() <= 1 {
        g.states() == src.states() && g.edges() == src.edges()
    } else {
        exists|p: Seq<Seq<i32>>| merged_of(src, p, g)
    }
}

/// The members of `v` as a set.
fn set_of(v: &Vec<i32>) -> (res: HashSet<i32>)
    ensures
        res@ == v@.to_set(),
{
    let mut res: HashSet<i32> = HashSet::new();
    let mut i: usize = 0;
    while i < v.len()
        invariant
            i <= v@.len(),
            res@ == v@.subrange(0, i as int).to_set(),
        decreases v@.len() - i,
    {
        res.insert(v[i]);
        proof {
            assert(v@.subrange(0, i + 1) =~= v@.subrange(0, i as int).push(v@[i as int]));
            v@.subrange(0, i as int).lemma_push_to_set_commute(v@[i as int]);
        }
        i = i + 1;
    }
    assert(v@.subrange(0, i as int) =~= v@);
    res
}

impl Graph {
    /// Merges equivalent states. States start in groups of equal acceptance
    /// and category (ordered by the text of that key); each round splits
    /// every group by the signatures of its states (acceptance, category,
    /// and for each driver the groups its edges reach), ordered by signature
    /// text, until no group splits. The group of state 0 then comes first.
    /// A graph with at most one state is copied.
    pub fn merge_equivalent_states(&self, counter: &mut GraphCounter) -> (g: Graph)
        requires
            old(counter).count < i32::MAX,
            numbered_by_position(*self),
            self.pStateTable@.len() <= i32::MAX,
        ensures
            self.states().len() <= 1 ==> g.states() == self.states() && g.edges() == self.edges() && g.graphId
                == self.graphId && g.numOfStates == self.numOfStates && final(counter).count == old(counter).count,
            self.states().len() > 1 ==> g.graphId == old(counter).count + 1 && final(counter).count == g.graphId
                && g.numOfStates == g.states().len() && exists|p: Seq<Seq<i32>>| merged_of(*self, p, g),
            merge_result(*self, g),
            g.states().len() <= self.states().len(),
    {
        let n = self.pStateTable.len();
        if n <= 1 {
            return self.copyGraph();
        }
        let ghost st = self.states();
        let ghost e = self.edges();
        let mut parts = initial_groups(self);
        let mut changed = true;
        proof {
            lemma_total_bound(blocks_v(parts@));
        }
        while changed
            invariant
                n == self.pStateTable@.len(),
                n <= i32::MAX,
                numbered_by_position(*self),
                partition_of(*self, blocks_v(parts@)),
                total(blocks_v(parts@)) == n,
                parts@.len() <= n,
            decreases 2 * (n - parts@.len()) + if changed { 1int } else { 0int },
        {
            let (next, ch) = refine_round(self, &parts);
            proof {
                lemma_total_bound(blocks_v(next@));
            }
            parts = next;
            changed = ch;
        }
        let ghost p0 = blocks_v(parts@);
        proof {
            assert(in_some_block(p0, st[0].0));
            assert(p0.len() >= 1);
        }
        let mut pos: usize = 0;
        while pos < parts.len() && !contains_i32_pub(&parts[pos], 0)
            invariant
                pos <= parts@.len(),
                p0 == blocks_v(parts@),
                forall|b: int| 0 <= b < pos ==> !(#[trigger] p0[b]).contains(0),
            decreases parts@.len() - pos,
        {
            pos = pos + 1;
        }
        if pos < parts.len() && pos > 0 {
            let first = copy_ids(&parts[0]);
            let other = copy_ids(&parts[pos]);
            parts.set(0, other);
            parts.set(pos, first);
            proof {
                let p1 = blocks_v(parts@);
                assert(p1 =~= p0.update(0, p0[pos as int]).update(pos as int, p0[0]));
                lemma_total_update(p0, 0, p0[pos as int]);
                lemma_total_update(p0.update(0, p0[pos as int]), pos as int, p0[0]);
                assert forall|v: i32| #[trigger] in_some_block(p1, v) <==> in_some_block(p0, v) by {
                    if in_some_block(p0, v) {
                        let b = choose|b: int| 0 <= b < p0.len() && (#[trigger] p0[b]).contains(v);
                        if b == 0 {
                            assert(p1[pos as int] == p0[0]);
                        } else if b == pos {
                            assert(p1[0] == p0[b]);
                        } else {
                            assert(p1[b] == p0[b]);
                        }
                    }
                    if in_some_block(p1, v) {
                        let b = choose|b: int| 0 <= b < p1.len() && (#[trigger] p1[b]).contains(v);
                        if b == 0 {
                            assert(p0[pos as int] == p1[0]);
                        } else if b == pos {
                            assert(p0[0] == p1[b]);
                        } else {
                            assert(p1[b] == p0[b]);
                        }
                    }
                }
                assert forall|k: int| 0 <= k < st.len() implies #[trigger] in_some_block(p1, st[k].0) by {
                    assert(in_some_block(p0, st[k].0));
                }
                assert forall|b: int| 0 <= b < p1.len() implies (#[trigger] p1[b]).len() > 0 by {
                    if b == 0 {
                        assert(p1[0] == p0[pos as int]);
                    } else if b == pos {
                        assert(p1[b] == p0[0]);
                    } else {
                        assert(p1[b] == p0[b]);
                    }
                }
                assert forall|b: int, x: int| 0 <= b < p1.len() && 0 <= x < p1[b].len() implies 0 <= #[trigger] p1[b][x] < st.len() by {
                    if b == 0 {
                        assert(p1[0] == p0[pos as int]);
                    } else if b == pos {
                        assert(p1[b] == p0[0]);
                    } else {
                        assert(p1[b] == p0[b]);
                    }
                }
                assert forall|b: int, x: int, y: int| 0 <= b < p1.len() && 0 <= x < p1[b].len() && 0 <= y < p1[b].len() implies init_key_text(
                    is_match(st[#[trigger] p1[b][x] as int]),
                    category_num(st[p1[b][x] as int].2),
                ) == init_key_text(is_match(st[#[trigger] p1[b][y] as int]), category_num(st[p1[b][y] as int].2)) by {
                    let ob = if b == 0 { pos as int } else if b == pos { 0 } else { b };
                    assert(p1[b] == p0[ob]);
                    assert(p0[ob][x] == p1[b][x]);
                    assert(p0[ob][y] == p1[b][y]);
                }
                assert(p1[0].contains(0));
            }
        }
        let ghost pf = blocks_v(parts@);
        proof {
            if in_some_block(pf, 0) && pos >= parts@.len() {
                let b = choose|b: int| 0 <= b < pf.len() && (#[trigger] pf[b]).contains(0);
                assert(pf == p0);
                assert(!p0[b].contains(0));
            }
        }
        let mut map: Vec<i32> = Vec::new();
        let mut i: usize = 0;
        while i < n
            invariant
                i <= n,
                map@.len() == i,
                forall|x: int| 0 <= x < i ==> map@[x] == -1,
            decreases n - i,
        {
            map.push(-1);
            i = i + 1;
        }
        let mut b: usize = 0;
        while b < parts.len()
            invariant
                b <= parts@.len(),
                pf == blocks_v(parts@),
                parts@.len() <= n,
                n <= i32::MAX,
                map@.len() == n,
                forall|x: int| 0 <= x < n ==> #[trigger] map@[x] == last_block(pf, x as i32, b as int),
            decreases parts@.len() - b,
        {
            let mut t: usize = 0;
            while t < parts[b].len()
                invariant
                    b < parts@.len(),
                    pf == blocks_v(parts@),
                    parts@.len() <= n,
                    n <= i32::MAX,
                    map@.len() == n,
                    t <= pf[b as int].len(),
                    forall|x: int| 0 <= x < n ==> #[trigger] map@[x] == if pf[b as int].subrange(0, t as int).contains(x as i32) {
                        b as i32
                    } else {
                        last_block(pf, x as i32, b as int)
                    },
                decreases pf[b as int].len() - t,
            {
                let sid = parts[b][t];
                proof {
                    assert(pf[b as int].subrange(0, t + 1) =~= pf[b as int].subrange(0, t as int).push(sid));
                }
                if 0 <= sid && (sid as usize) < n {
                    map.set(sid as usize, b as i32);
                }
                proof {
                    assert forall|x: int| 0 <= x < n implies #[trigger] map@[x] == if pf[b as int].subrange(0, t + 1).contains(x as i32) {
                        b as i32
                    } else {
                        last_block(pf, x as i32, b as int)
                    } by {
                        let lo = pf[b as int].subrange(0, t as int);
                        let hi = pf[b as int].subrange(0, t + 1);
                        if lo.contains(x as i32) {
                            let k = choose|k: int| 0 <= k < lo.len() && #[trigger] lo[k] == x as i32;
                            assert(hi[k] == x as i32);
                        }
                        if hi.contains(x as i32) && x as i32 != sid {
                            let k = choose|k: int| 0 <= k < hi.len() && #[trigger] hi[k] == x as i32;
                            assert(lo[k] == x as i32);
                        }
                        if x as i32 == sid {
                            assert(pf[b as int].subrange(0, t + 1)[t as int] == sid);
                        }
                    }
                }
                t = t + 1;
            }
            proof {
                assert(pf[b as int].subrange(0, t as int) =~= pf[b as int]);
            }
            b = b + 1;
        }
        let ghost m = map@;
        proof {
            assert(m =~= block_map(pf, n as int));
        }
        let mut states: Vec<State> = Vec::new();
        let mut b: usize = 0;
        while b < parts.len()
            invariant
                b <= parts@.len(),
                pf == blocks_v(parts@),
                parts@.len() <= n,
                n == self.pStateTable@.len(),
                n <= i32::MAX,
                st == self.states(),
                states@.len() == b,
                forall|k: int| 0 <= k < b ==> (#[trigger] states@[k])@ == ef_state(st, pf[k].to_set(), k as i32),
            decreases parts@.len() - b,
        {
            let set = set_of(&parts[b]);
            let is_match = set_has_match(&self.pStateTable, &set);
            let category = if is_match {
                pick_preferred_category_from_ids(&self.pStateTable, &set)
            } else {
                None
            };
            let ty = if is_match {
                String::from_str("MATCH")
            } else {
                String::from_str("UNMATCH")
            };
            states.push(State { stateId: b as i32, StateType: ty, LexemeCategory: category });
            b = b + 1;
        }
        let mut edges: Vec<Edge> = Vec::new();
        let mut j: usize = 0;
        proof {
            assert(view_edges(edges@) =~= Seq::<EdgeV>::empty());
        }
        while j < self.pEdgeTable.len()
            invariant
                j <= self.pEdgeTable@.len(),
                e == self.edges(),
                n == self.pStateTable@.len(),
                map@ == m,
                m.len() == n,
                view_edges(edges@) == quotient_edges(e, m, j as int),
            decreases self.pEdgeTable@.len() - j,
        {
            let ed = &self.pEdgeTable[j];
            assert(e[j as int] == ed@);
            let from = ed.fromState;
            let to = ed.nextState;
            if 0 <= from && (from as usize) < n && 0 <= to && (to as usize) < n {
                let nf = map[from as usize];
                let nt = map[to as usize];
                if nf >= 0 && nt >= 0 {
                    let c = Edge { fromState: nf, nextState: nt, driverId: ed.driverId, DriverType: ed.DriverType.clone() };
                    if !crate::lab1::minimize::edge_list_contains_pub(&edges, &c) {
                        proof {
                            lemma_view_edges_push(edges@, c);
                        }
                        edges.push(c);
                    }
                }
            }
            j = j + 1;
        }
        let id = crate::lab1::graph::next_graph_id_pub(counter);
        let cnt = states.len() as i32;
        let g = Graph { graphId: id, numOfStates: cnt, pEdgeTable: edges, pStateTable: states };
        proof {
            assert(g.states() =~= Seq::new(pf.len(), |b: int| ef_state(st, pf[b].to_set(), b as i32)));
            assert(merged_of(*self, pf, g));
        }
        assert(g.states().len() <= n);
        g
    }
}

impl Graph {
    /// Minimises the NFA: removes epsilon edges, drops useless states, merges
    /// equivalent states, and drops useless states once more.
    pub fn minimize_nfa(&self, counter: &mut GraphCounter) -> (g: Graph)
        requires
            old(counter).count < i32::MAX - 4,
            self.pStateTable@.len() <= i32::MAX,
        ensures
            old(counter).count < final(counter).count <= old(counter).count + 4,
            g.pStateTable@.len() <= self.pStateTable@.len(),
            minimized_of(*self, g),
    {
        let epsilon_free = self.build_epsilon_free_nfa(counter);
        let pruned = epsilon_free.prune_useless_states(counter);
        let merged = pruned.merge_equivalent_states(counter);
        merged.prune_useless_states(counter)
    }
}

} // verus!
