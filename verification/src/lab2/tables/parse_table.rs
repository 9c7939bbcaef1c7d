//! The ACTION and GOTO tables as rows by state number, each a map from
//! terminals or non-terminal names to cells.
use vstd::prelude::*;
use crate::lab2::tables::items::{ActionCell, GotoCell};
use crate::lab2::tables::supplementary::{skeys_unique, smap, sput};
use crate::lab2::tables::symbols::{tkey, ts_same, TerminalSymbol};

verus! {

/// No two rows carry the same state number.
pub open spec fn rows_unique<X>(v: Seq<(i64, X)>) -> bool {
    forall|i: int, j: int| 0 <= i < v.len() && 0 <= j < v.len() && i != j ==> (#[trigger] v[i]).0 != (#[trigger] v[j]).0
}

/// The position of the row numbered `k`.
pub open spec fn row_at<X>(v: Seq<(i64, X)>, k: i64) -> int {
    choose|i: int| 0 <= i < v.len() && (#[trigger] v[i]).0 == k
}

/// The state numbers that have rows.
pub open spec fn row_keys<X>(v: Seq<(i64, X)>) -> Set<i64> {
    Set::new(|k: i64| exists|i: int| 0 <= i < v.len() && (#[trigger] v[i]).0 == k)
}

/// With distinct numbers, the row numbered `v[i].0` is at `i`.
pub proof fn lemma_row_at<X>(v: Seq<(i64, X)>, i: int)
    requires
        rows_unique(v),
        0 <= i < v.len(),
    ensures
        row_keys(v).contains(v[i].0),
        row_at(v, v[i].0) == i,
{
    assert(row_keys(v).contains(v[i].0));
    let j = row_at(v, v[i].0);
    assert(v[j].0 == v[i].0);
}

/// The position of the row numbered `k`, if any.
pub fn row_index<X>(v: &Vec<(i64, X)>, k: i64) -> (res: Option<usize>)
    requires
        rows_unique(v@),
    ensures
        res is Some <==> row_keys(v@).contains(k),
        res matches Some(i) ==> i < v@.len() && v@[i as int].0 == k && row_at(v@, k) == i,
{
    let mut i: usize = 0;
    while i < v.len()
        invariant
            i <= v@.len(),
            rows_unique(v@),
            forall|j: int| 0 <= j < i ==> (#[trigger] v@[j]).0 != k,
        decreases v@.len() - i,
    {
        if v[i].0 == k {
            proof {
                lemma_row_at(v@, i as int);
            }
            return Some(i);
        }
        i = i + 1;
    }
    proof {
        if row_keys(v@).contains(k) {
            let j = choose|j: int| 0 <= j < v@.len() && (#[trigger] v@[j]).0 == k;
        }
    }
    None
}

/// An ACTION cell as plain values: state, terminal name, kind, target.
pub open spec fn acv(c: ActionCell) -> (i64, Seq<char>, Seq<char>, i64) {
    (c.stateId, c.terminalSymbolName@, c.actionType@, c.actionId)
}

/// A GOTO cell as plain values: state, non-terminal name, target.
pub open spec fn gcv(c: GotoCell) -> (i64, Seq<char>, i64) {
    (c.stateId, c.nonTerminalStmbolName@, c.nextStateId)
}

/// No terminal has two cells in a row.
pub open spec fn akeys_unique(r: Seq<(TerminalSymbol, ActionCell)>) -> bool {
    forall|i: int, j: int| 0 <= i < r.len() && 0 <= j < r.len() && i != j ==> tkey((#[trigger] r[i]).0) != tkey((#[trigger] r[j]).0)
}

/// An ACTION row as a map from terminals to cells.
pub open spec fn arow(r: Seq<(TerminalSymbol, ActionCell)>) -> Map<(Seq<char>, Seq<char>), (i64, Seq<char>, Seq<char>, i64)> {
    Map::new(
        |k: (Seq<char>, Seq<char>)| exists|i: int| 0 <= i < r.len() && tkey((#[trigger] r[i]).0) == k,
        |k: (Seq<char>, Seq<char>)| acv(r[choose|i: int| 0 <= i < r.len() && tkey((#[trigger] r[i]).0) == k].1),
    )
}

/// With distinct terminals, the cell of `r[i].0` is `r[i].1`.
proof fn lemma_arow_at(r: Seq<(TerminalSymbol, ActionCell)>, i: int)
    requires
        akeys_unique(r),
        0 <= i < r.len(),
    ensures
        arow(r).contains_key(tkey(r[i].0)),
        arow(r)[tkey(r[i].0)] == acv(r[i].1),
{
    assert(arow(r).dom().contains(tkey(r[i].0)));
    let j = choose|j: int| 0 <= j < r.len() && tkey((#[trigger] r[j]).0) == tkey(r[i].0);
    assert(j == i);
}

/// Puts cell `c` under terminal `t` in an ACTION row.
pub fn action_put(r: &mut Vec<(TerminalSymbol, ActionCell)>, t: &TerminalSymbol, c: ActionCell)
    requires
        akeys_unique(old(r)@),
    ensures
        akeys_unique(final(r)@),
        arow(final(r)@) == arow(old(r)@).insert(tkey(*t), acv(c)),
{
    let ghost r0 = r@;
    let ghost cv = acv(c);
    let mut i: usize = 0;
    while i < r.len()
        invariant
            i <= r@.len(),
            r@ == r0,
            r0 == old(r)@,
            akeys_unique(r0),
            cv == acv(c),
            forall|q: int| 0 <= q < i ==> tkey((#[trigger] r0[q]).0) != tkey(*t),
        decreases r@.len() - i,
    {
        if ts_same(&r[i].0, t) {
            let tc = crate::lab2::tables::symbols::copy_ts(t);
            r.set(i, (tc, c));
            proof {
                let r1 = r@;
                assert forall|a: int, b: int| 0 <= a < r1.len() && 0 <= b < r1.len() && a != b
                    implies tkey((#[trigger] r1[a]).0) != tkey((#[trigger] r1[b]).0) by {
                    assert(tkey(r1[a].0) == tkey(r0[a].0));
                    assert(tkey(r1[b].0) == tkey(r0[b].0));
                }
                assert forall|k: (Seq<char>, Seq<char>)| #[trigger] arow(r1).dom().contains(k) <==> arow(r0).insert(tkey(*t), cv).dom().contains(k) by {
                    if arow(r1).dom().contains(k) {
                        let j = choose|j: int| 0 <= j < r1.len() && tkey((#[trigger] r1[j]).0) == k;
                        assert(tkey(r0[j].0) == k);
                    }
                    if arow(r0).dom().contains(k) {
                        let j = choose|j: int| 0 <= j < r0.len() && tkey((#[trigger] r0[j]).0) == k;
                        assert(tkey(r1[j].0) == k);
                    }
                    if k == tkey(*t) {
                        assert(tkey(r1[i as int].0) == k);
                    }
                }
                assert forall|k: (Seq<char>, Seq<char>)| #[trigger] arow(r1).dom().contains(k) implies arow(r1)[k] == arow(r0).insert(tkey(*t), cv)[k] by {
                    let j = choose|j: int| 0 <= j < r1.len() && tkey((#[trigger] r1[j]).0) == k;
                    lemma_arow_at(r1, j);
                    if j != i {
                        assert(r1[j] == r0[j]);
                        lemma_arow_at(r0, j);
                    }
                }
                assert(arow(r1) =~= arow(r0).insert(tkey(*t), cv));
            }
            return;
        }
        i = i + 1;
    }
    let tc = crate::lab2::tables::symbols::copy_ts(t);
    r.push((tc, c));
    proof {
        let r1 = r@;
        let n = r0.len() as int;
        assert forall|a: int, b: int| 0 <= a < r1.len() && 0 <= b < r1.len() && a != b
            implies tkey((#[trigger] r1[a]).0) != tkey((#[trigger] r1[b]).0) by {
            if a < n {
                assert(r1[a] == r0[a]);
            }
            if b < n {
                assert(r1[b] == r0[b]);
            }
        }
        assert forall|k: (Seq<char>, Seq<char>)| #[trigger] arow(r1).dom().contains(k) <==> arow(r0).insert(tkey(*t), cv).dom().contains(k) by {
            if arow(r1).dom().contains(k) {
                let j = choose|j: int| 0 <= j < r1.len() && tkey((#[trigger] r1[j]).0) == k;
                if j < n {
                    assert(r1[j] == r0[j]);
                }
            }
            if arow(r0).dom().contains(k) {
                let j = choose|j: int| 0 <= j < r0.len() && tkey((#[trigger] r0[j]).0) == k;
                assert(r1[j] == r0[j]);
            }
            if k == tkey(*t) {
                assert(tkey(r1[n].0) == k);
            }
        }
        assert forall|k: (Seq<char>, Seq<char>)| #[trigger] arow(r1).dom().contains(k) implies arow(r1)[k] == arow(r0).insert(tkey(*t), cv)[k] by {
            let j = choose|j: int| 0 <= j < r1.len() && tkey((#[trigger] r1[j]).0) == k;
            lemma_arow_at(r1, j);
            if j < n {
                assert(r1[j] == r0[j]);
                lemma_arow_at(r0, j);
            }
        }
        assert(arow(r1) =~= arow(r0).insert(tkey(*t), cv));
    }
}

/// The ACTION table: by state number, the row as a map.
pub open spec fn amap(v: Seq<(i64, Vec<(TerminalSymbol, ActionCell)>)>) -> Map<i64, Map<(Seq<char>, Seq<char>), (i64, Seq<char>, Seq<char>, i64)>> {
    Map::new(|k: i64| row_keys(v).contains(k), |k: i64| arow(v[row_at(v, k)].1@))
}

/// A GOTO row as a map from non-terminal names to cells.
pub open spec fn grow(r: Seq<(String, GotoCell)>) -> Map<Seq<char>, (i64, Seq<char>, i64)> {
    smap(r).map_values(|c: GotoCell| gcv(c))
}

/// The GOTO table: by state number, the row as a map.
pub open spec fn gmap(v: Seq<(i64, Vec<(String, GotoCell)>)>) -> Map<i64, Map<Seq<char>, (i64, Seq<char>, i64)>> {
    Map::new(|k: i64| row_keys(v).contains(k), |k: i64| grow(v[row_at(v, k)].1@))
}

/// Every ACTION row has distinct terminals.
pub open spec fn arows_wf(v: Seq<(i64, Vec<(TerminalSymbol, ActionCell)>)>) -> bool {
    rows_unique(v) && forall|i: int| 0 <= i < v.len() ==> akeys_unique((#[trigger] v[i]).1@)
}

/// Every GOTO row has distinct names.
pub open spec fn grows_wf(v: Seq<(i64, Vec<(String, GotoCell)>)>) -> bool {
    rows_unique(v) && forall|i: int| 0 <= i < v.len() ==> skeys_unique((#[trigger] v[i]).1@)
}

/// Gives state `k` an empty ACTION row, in place of any it had.
pub fn action_row_reset(v: &mut Vec<(i64, Vec<(TerminalSymbol, ActionCell)>)>, k: i64)
    requires
        arows_wf(old(v)@),
    ensures
        arows_wf(final(v)@),
        amap(final(v)@) == amap(old(v)@).insert(k, Map::empty()),
{
    let ghost v0 = v@;
    match row_index(v, k) {
        Some(i) => {
            v.set(i, (k, Vec::new()));
            proof {
                let v1 = v@;
                assert forall|a: int, b: int| 0 <= a < v1.len() && 0 <= b < v1.len() && a != b implies (#[trigger] v1[a]).0 != (#[trigger] v1[b]).0 by {
                    assert(v1[a].0 == v0[a].0 && v1[b].0 == v0[b].0);
                }
                assert(row_keys(v1) =~= row_keys(v0)) by {
                    assert forall|q: i64| row_keys(v1).contains(q) <==> row_keys(v0).contains(q) by {
                        if row_keys(v1).contains(q) {
                            let j = choose|j: int| 0 <= j < v1.len() && (#[trigger] v1[j]).0 == q;
                            assert(v0[j].0 == q);
                        }
                        if row_keys(v0).contains(q) {
                            let j = choose|j: int| 0 <= j < v0.len() && (#[trigger] v0[j]).0 == q;
                            assert(v1[j].0 == q);
                        }
                    }
                }
                assert forall|q: i64| #[trigger] row_keys(v1).contains(q) implies amap(v1)[q] == amap(v0).insert(k, Map::empty())[q] by {
                    let j = choose|j: int| 0 <= j < v1.len() && (#[trigger] v1[j]).0 == q;
                    lemma_row_at(v1, j);
                    lemma_row_at(v0, j);
                    if j == i {
                        assert(arow(v1[j].1@) =~= Map::empty());
                    }
                }
                assert(amap(v1) =~= amap(v0).insert(k, Map::empty()));
            }
        },
        None => {
            v.push((k, Vec::new()));
            proof {
                let v1 = v@;
                let n = v0.len() as int;
                assert forall|a: int, b: int| 0 <= a < v1.len() && 0 <= b < v1.len() && a != b implies (#[trigger] v1[a]).0 != (#[trigger] v1[b]).0 by {
                    if a < n {
                        assert(v1[a] == v0[a]);
                    }
                    if b < n {
                        assert(v1[b] == v0[b]);
                    }
                }
                assert forall|q: i64| row_keys(v1).contains(q) <==> row_keys(v0).insert(k).contains(q) by {
                    if row_keys(v1).contains(q) {
                        let j = choose|j: int| 0 <= j < v1.len() && (#[trigger] v1[j]).0 == q;
                        if j < n {
                            assert(v1[j] == v0[j]);
                        }
                    }
                    if row_keys(v0).contains(q) {
                        let j = choose|j: int| 0 <= j < v0.len() && (#[trigger] v0[j]).0 == q;
                        assert(v1[j] == v0[j]);
                    }
                    if q == k {
                        assert(v1[n].0 == k);
                    }
                }
                assert forall|q: i64| #[trigger] row_keys(v1).contains(q) implies amap(v1)[q] == amap(v0).insert(k, Map::empty())[q] by {
                    let j = choose|j: int| 0 <= j < v1.len() && (#[trigger] v1[j]).0 == q;
                    lemma_row_at(v1, j);
                    if j < n {
                        assert(v1[j] == v0[j]);
                        lemma_row_at(v0, j);
                    } else {
                        assert(arow(v1[j].1@) =~= Map::empty());
                    }
                }
                assert(amap(v1) =~= amap(v0).insert(k, Map::empty()));
            }
        },
    }
}

/// Gives state `k` an empty GOTO row, in place of any it had.
pub fn goto_row_reset(v: &mut Vec<(i64, Vec<(String, GotoCell)>)>, k: i64)
    requires
        grows_wf(old(v)@),
    ensures
        grows_wf(final(v)@),
        gmap(final(v)@) == gmap(old(v)@).insert(k, Map::empty()),
{
    let ghost v0 = v@;
    match row_index(v, k) {
        Some(i) => {
            v.set(i, (k, Vec::new()));
            proof {
                let v1 = v@;
                assert forall|a: int, b: int| 0 <= a < v1.len() && 0 <= b < v1.len() && a != b implies (#[trigger] v1[a]).0 != (#[trigger] v1[b]).0 by {
                    assert(v1[a].0 == v0[a].0 && v1[b].0 == v0[b].0);
                }
                assert(row_keys(v1) =~= row_keys(v0)) by {
                    assert forall|q: i64| row_keys(v1).contains(q) <==> row_keys(v0).contains(q) by {
                        if row_keys(v1).contains(q) {
                            let j = choose|j: int| 0 <= j < v1.len() && (#[trigger] v1[j]).0 == q;
                            assert(v0[j].0 == q);
                        }
                        if row_keys(v0).contains(q) {
                            let j = choose|j: int| 0 <= j < v0.len() && (#[trigger] v0[j]).0 == q;
                            assert(v1[j].0 == q);
                        }
                    }
                }
                assert forall|q: i64| #[trigger] row_keys(v1).contains(q) implies gmap(v1)[q] == gmap(v0).insert(k, Map::empty())[q] by {
                    let j = choose|j: int| 0 <= j < v1.len() && (#[trigger] v1[j]).0 == q;
                    lemma_row_at(v1, j);
                    lemma_row_at(v0, j);
                    if j == i {
                        assert(smap(v1[j].1@) =~= Map::empty());
                        assert(grow(v1[j].1@) =~= Map::empty());
                    }
                }
                assert(gmap(v1) =~= gmap(v0).insert(k, Map::empty()));
            }
        },
        None => {
            v.push((k, Vec::new()));
            proof {
                let v1 = v@;
                let n = v0.len() as int;
                assert forall|a: int, b: int| 0 <= a < v1.len() && 0 <= b < v1.len() && a != b implies (#[trigger] v1[a]).0 != (#[trigger] v1[b]).0 by {
                    if a < n {
                        assert(v1[a] == v0[a]);
                    }
                    if b < n {
                        assert(v1[b] == v0[b]);
                    }
                }
                assert forall|q: i64| row_keys(v1).contains(q) <==> row_keys(v0).insert(k).contains(q) by {
                    if row_keys(v1).contains(q) {
                        let j = choose|j: int| 0 <= j < v1.len() && (#[trigger] v1[j]).0 == q;
                        if j < n {
                            assert(v1[j] == v0[j]);
                        }
                    }
                    if row_keys(v0).contains(q) {
                        let j = choose|j: int| 0 <= j < v0.len() && (#[trigger] v0[j]).0 == q;
                        assert(v1[j] == v0[j]);
                    }
                    if q == k {
                        assert(v1[n].0 == k);
                    }
                }
                assert forall|q: i64| #[trigger] row_keys(v1).contains(q) implies gmap(v1)[q] == gmap(v0).insert(k, Map::empty())[q] by {
                    let j = choose|j: int| 0 <= j < v1.len() && (#[trigger] v1[j]).0 == q;
                    lemma_row_at(v1, j);
                    if j < n {
                        assert(v1[j] == v0[j]);
                        lemma_row_at(v0, j);
                    } else {
                        assert(smap(v1[j].1@) =~= Map::empty());
                        assert(grow(v1[j].1@) =~= Map::empty());
                    }
                }
                assert(gmap(v1) =~= gmap(v0).insert(k, Map::empty()));
            }
        },
    }
}

/// A write of a cell under state `s` and key `k`, made where the state has
/// a row.
pub open spec fn put2<K, V>(m: Map<i64, Map<K, V>>, s: i64, k: K, x: V) -> Map<i64, Map<K, V>> {
    if m.contains_key(s) {
        m.insert(s, m[s].insert(k, x))
    } else {
        m
    }
}

/// Puts ACTION cell `c` under state `s` and terminal `t`, where `s` has a
/// row.
pub fn action_write(v: &mut Vec<(i64, Vec<(TerminalSymbol, ActionCell)>)>, s: i64, t: &TerminalSymbol, c: ActionCell)
    requires
        arows_wf(old(v)@),
    ensures
        arows_wf(final(v)@),
        amap(final(v)@) == put2(amap(old(v)@), s, tkey(*t), acv(c)),
{
    let ghost v0 = v@;
    match row_index(v, s) {
        Some(i) => {
            let ghost r0 = v@[i as int].1@;
            action_put(&mut v[i].1, t, c);
            proof {
                let v1 = v@;
                assert forall|a: int, b: int| 0 <= a < v1.len() && 0 <= b < v1.len() && a != b implies (#[trigger] v1[a]).0 != (#[trigger] v1[b]).0 by {
                    assert(v1[a].0 == v0[a].0 && v1[b].0 == v0[b].0);
                }
                assert forall|j: int| 0 <= j < v1.len() implies akeys_unique((#[trigger] v1[j]).1@) by {
                    if j != i {
                        assert(v1[j] == v0[j]);
                    }
                }
                assert forall|q: i64| row_keys(v1).contains(q) <==> row_keys(v0).contains(q) by {
                    if row_keys(v1).contains(q) {
                        let j = choose|j: int| 0 <= j < v1.len() && (#[trigger] v1[j]).0 == q;
                        assert(v0[j].0 == q);
                    }
                    if row_keys(v0).contains(q) {
                        let j = choose|j: int| 0 <= j < v0.len() && (#[trigger] v0[j]).0 == q;
                        assert(v1[j].0 == q);
                    }
                }
                lemma_row_at(v0, i as int);
                assert forall|q: i64| #[trigger] row_keys(v1).contains(q) implies amap(v1)[q] == put2(amap(v0), s, tkey(*t), acv(c))[q] by {
                    let j = choose|j: int| 0 <= j < v1.len() && (#[trigger] v1[j]).0 == q;
                    lemma_row_at(v1, j);
                    lemma_row_at(v0, j);
                    if j != i {
                        assert(v1[j] == v0[j]);
                    }
                }
                assert(amap(v1) =~= put2(amap(v0), s, tkey(*t), acv(c)));
            }
        },
        None => {},
    }
}

/// Puts GOTO cell `c` under state `s` and non-terminal `n`, where `s` has a
/// row.
pub fn goto_write(v: &mut Vec<(i64, Vec<(String, GotoCell)>)>, s: i64, n: &str, c: GotoCell)
    requires
        grows_wf(old(v)@),
    ensures
        grows_wf(final(v)@),
        gmap(final(v)@) == put2(gmap(old(v)@), s, n@, gcv(c)),
{
    let ghost v0 = v@;
    let ghost cv = gcv(c);
    match row_index(v, s) {
        Some(i) => {
            let ghost r0 = v@[i as int].1@;
            let ghost cc = c;
            sput(&mut v[i].1, n, c);
            proof {
                let v1 = v@;
                assert forall|a: int, b: int| 0 <= a < v1.len() && 0 <= b < v1.len() && a != b implies (#[trigger] v1[a]).0 != (#[trigger] v1[b]).0 by {
                    assert(v1[a].0 == v0[a].0 && v1[b].0 == v0[b].0);
                }
                assert forall|j: int| 0 <= j < v1.len() implies skeys_unique((#[trigger] v1[j]).1@) by {
                    if j != i {
                        assert(v1[j] == v0[j]);
                    }
                }
                assert forall|q: i64| row_keys(v1).contains(q) <==> row_keys(v0).contains(q) by {
                    if row_keys(v1).contains(q) {
                        let j = choose|j: int| 0 <= j < v1.len() && (#[trigger] v1[j]).0 == q;
                        assert(v0[j].0 == q);
                    }
                    if row_keys(v0).contains(q) {
                        let j = choose|j: int| 0 <= j < v0.len() && (#[trigger] v0[j]).0 == q;
                        assert(v1[j].0 == q);
                    }
                }
                lemma_row_at(v0, i as int);
                assert(grow(v1[i as int].1@) =~= grow(r0).insert(n@, cv));
                assert forall|q: i64| #[trigger] row_keys(v1).contains(q) implies gmap(v1)[q] == put2(gmap(v0), s, n@, cv)[q] by {
                    let j = choose|j: int| 0 <= j < v1.len() && (#[trigger] v1[j]).0 == q;
                    lemma_row_at(v1, j);
                    lemma_row_at(v0, j);
                    if j != i {
                        assert(v1[j] == v0[j]);
                    }
                }
                assert(gmap(v1) =~= put2(gmap(v0), s, n@, cv));
            }
        },
        None => {},
    }
}


/// The ACTION entry of state `s` on terminal `t`, as its kind and target,
/// if the state has a row holding one.
pub fn action_lookup(v: &Vec<(i64, Vec<(TerminalSymbol, ActionCell)>)>, s: i64, t: &TerminalSymbol) -> (res: Option<(String, i64)>)
    requires
        arows_wf(v@),
    ensures
        res is Some <==> amap(v@).contains_key(s) && amap(v@)[s].contains_key(tkey(*t)),
        res matches Some(r) ==> r.0@ == amap(v@)[s][tkey(*t)].2 && r.1 == amap(v@)[s][tkey(*t)].3,
{
    match row_index(v, s) {
        Some(i) => {
            let row = &v[i].1;
            proof {
                lemma_row_at(v@, i as int);
                assert(amap(v@)[s] == arow(row@));
            }
            let mut j: usize = 0;
            while j < row.len()
                invariant
                    j <= row@.len(),
                    akeys_unique(row@),
                    amap(v@).contains_key(s),
                    amap(v@)[s] == arow(row@),
                    forall|q: int| 0 <= q < j ==> tkey((#[trigger] row@[q]).0) != tkey(*t),
                decreases row@.len() - j,
            {
                if ts_same(&row[j].0, t) {
                    proof {
                        lemma_arow_at(row@, j as int);
                    }
                    return Some((row[j].1.actionType.clone(), row[j].1.actionId));
                }
                j = j + 1;
            }
            proof {
                if arow(row@).contains_key(tkey(*t)) {
                    let q = choose|q: int| 0 <= q < row@.len() && tkey((#[trigger] row@[q]).0) == tkey(*t);
                }
            }
            None
        },
        None => None,
    }
}

/// Whether state `s` has a GOTO row, and its entry for the non-terminal
/// named `n` if it has one.
pub fn goto_lookup(v: &Vec<(i64, Vec<(String, GotoCell)>)>, s: i64, n: &str) -> (res: (bool, Option<i64>))
    requires
        grows_wf(v@),
    ensures
        res.0 == gmap(v@).contains_key(s),
        res.1 is Some <==> res.0 && gmap(v@)[s].contains_key(n@),
        res.1 matches Some(x) ==> x == gmap(v@)[s][n@].2,
{
    match row_index(v, s) {
        Some(i) => {
            proof {
                lemma_row_at(v@, i as int);
                assert(gmap(v@)[s] == grow(v@[i as int].1@));
            }
            match crate::lab2::tables::supplementary::sfind(&v[i].1, n) {
                Some(j) => (true, Some(v[i].1[j].1.nextStateId)),
                None => (true, None),
            }
        },
        None => (false, None),
    }
}
} // verus!
