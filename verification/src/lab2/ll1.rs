//! The LL(1) parse table of a grammar whose FIRST and FOLLOW sets are
//! computed, and its conflicts.
use vstd::prelude::*;
use crate::lab2::first::{first_of_sequence, fl, fos, heads, bodies, lemma_name_idx, sf};
use crate::lab2::follow::flw;
use crate::lab2::str_set::{members, set_copy, strs};
use crate::lab2::types::{eps, sym_names, Grammar, LL1ParseTable};
use crate::text::{lemma_lex_irreflexive, lemma_lex_total, lemma_lex_transitive, lex_less, str_eq, str_less, i64_to_string, usize_list_debug};

verus! {

/// The order of table keys: by non-terminal, then by terminal.
pub open spec fn pair_less(a: (Seq<char>, Seq<char>), b: (Seq<char>, Seq<char>)) -> bool {
    lex_less(a.0, b.0) || (a.0 == b.0 && lex_less(a.1, b.1))
}

/// `pair_less` is irreflexive.
pub proof fn lemma_pair_irreflexive(a: (Seq<char>, Seq<char>))
    ensures
        !pair_less(a, a),
{
    lemma_lex_irreflexive(a.0);
    lemma_lex_irreflexive(a.1);
}

/// `pair_less` is transitive.
pub proof fn lemma_pair_transitive(a: (Seq<char>, Seq<char>), b: (Seq<char>, Seq<char>), c: (Seq<char>, Seq<char>))
    requires
        pair_less(a, b),
        pair_less(b, c),
    ensures
        pair_less(a, c),
{
    if lex_less(a.0, b.0) && lex_less(b.0, c.0) {
        lemma_lex_transitive(a.0, b.0, c.0);
    } else if lex_less(a.0, b.0) {
    } else if lex_less(b.0, c.0) {
    } else {
        lemma_lex_transitive(a.1, b.1, c.1);
    }
}

/// Any two different keys are ordered one way or the other.
pub proof fn lemma_pair_total(a: (Seq<char>, Seq<char>), b: (Seq<char>, Seq<char>))
    requires
        a != b,
    ensures
        pair_less(a, b) || pair_less(b, a),
{
    if a.0 != b.0 {
        lemma_lex_total(a.0, b.0);
    } else {
        lemma_lex_total(a.1, b.1);
    }
}

/// Whether `a` comes before `b` as a table key.
fn key_before(a0: &str, a1: &str, b0: &str, b1: &str) -> (res: bool)
    ensures
        res == pair_less((a0@, a1@), (b0@, b1@)),
{
    if str_less(a0, b0) {
        true
    } else if str_eq(a0, b0) {
        str_less(a1, b1)
    } else {
        false
    }
}

/// The key of a table entry.
pub open spec fn cell_key(e: ((String, String), Vec<usize>)) -> (Seq<char>, Seq<char>) {
    (e.0.0@, e.0.1@)
}

/// The keys of the table, in order.
pub open spec fn cell_keys(c: Seq<((String, String), Vec<usize>)>) -> Seq<(Seq<char>, Seq<char>)> {
    c.map_values(|e: ((String, String), Vec<usize>)| cell_key(e))
}

/// Keys strictly ascending.
pub open spec fn keys_ascending(k: Seq<(Seq<char>, Seq<char>)>) -> bool {
    forall|i: int, j: int| 0 <= i < j < k.len() ==> pair_less(#[trigger] k[i], #[trigger] k[j])
}

/// Production `p` goes into the cell of `(head, a)`: `a` is in FIRST of its
/// body (not as `ε`), or the body derives `ε` and `a` is in FOLLOW of its
/// head.
pub open spec fn ll1_target(g: Grammar, p: int, a: Seq<char>) -> bool {
    let f = fos(sym_names(g.symbols@), sf(g.symbols@), bodies(g.productions@)[p]);
    (a != eps() && f.contains(a)) || (f.contains(eps()) && fl(sym_names(g.symbols@), flw(g.symbols@), heads(g.productions@)[p]).contains(a))
}

/// The productions numbered from 1 up to `k - 1` in the cell of `(n, a)`,
/// ascending.
pub open spec fn ll1_ids(g: Grammar, n: Seq<char>, a: Seq<char>, k: int) -> Seq<usize>
    decreases k,
{
    if k <= 1 {
        Seq::empty()
    } else {
        ll1_ids(g, n, a, k - 1) + (if heads(g.productions@)[k - 1] == n && ll1_target(g, k - 1, a) {
            seq![(k - 1) as usize]
        } else {
            Seq::empty()
        })
    }
}

/// Whether the table has an entry for key `k`.
pub open spec fn has_key(c: Seq<((String, String), Vec<usize>)>, k: (Seq<char>, Seq<char>)) -> bool {
    exists|i: int| 0 <= i < c.len() && cell_key(#[trigger] c[i]) == k
}

/// The position of the entry for key `k`.
pub open spec fn key_idx(c: Seq<((String, String), Vec<usize>)>, k: (Seq<char>, Seq<char>)) -> int {
    choose|i: int| 0 <= i < c.len() && cell_key(#[trigger] c[i]) == k
}

/// The productions in the cell of key `k`.
pub open spec fn list_of(c: Seq<((String, String), Vec<usize>)>, k: (Seq<char>, Seq<char>)) -> Seq<usize> {
    c[key_idx(c, k)].1@
}

/// In a table with ascending keys the entry for `cell_key(c[i])` is `c[i]`.
pub proof fn lemma_key_at(c: Seq<((String, String), Vec<usize>)>, i: int)
    requires
        keys_ascending(cell_keys(c)),
        0 <= i < c.len(),
    ensures
        has_key(c, cell_key(c[i])),
        key_idx(c, cell_key(c[i])) == i,
{
    assert(cell_keys(c)[i] == cell_key(c[i]));
    assert(has_key(c, cell_key(c[i])));
    let j = key_idx(c, cell_key(c[i]));
    assert(cell_keys(c)[j] == cell_key(c[j]));
    if j < i {
        assert(pair_less(cell_keys(c)[j], cell_keys(c)[i]));
        lemma_pair_irreflexive(cell_key(c[i]));
    } else if j > i {
        assert(pair_less(cell_keys(c)[i], cell_keys(c)[j]));
        lemma_pair_irreflexive(cell_key(c[i]));
    }
}

/// The table while production `p` (head `h`) is being entered, with its
/// targets in `vis` done: each cell lists the earlier productions for it,
/// then `p` where it is a done target, and every non-empty cell has an entry.
pub open spec fn ll1_mid(g: Grammar, c: Seq<((String, String), Vec<usize>)>, p: int, h: Seq<char>, vis: Set<Seq<char>>) -> bool {
    &&& keys_ascending(cell_keys(c))
    &&& forall|k: (Seq<char>, Seq<char>)| #[trigger] has_key(c, k) ==> {
        &&& list_of(c, k) == ll1_ids(g, k.0, k.1, p) + (if k.0 == h && vis.contains(k.1) { seq![p as usize] } else { Seq::empty() })
        &&& list_of(c, k).len() > 0
    }
    &&& forall|n: Seq<char>, a: Seq<char>| (#[trigger] ll1_ids(g, n, a, p).len() > 0 || (n == h && vis.contains(a))) ==> has_key(c, (n, a))
}

/// The numbers in `ll1_ids(.., k)` are below `k`.
pub proof fn lemma_ll1_ids_below(g: Grammar, n: Seq<char>, a: Seq<char>, k: int)
    ensures
        forall|q: int| 0 <= q < ll1_ids(g, n, a, k).len() ==> #[trigger] ll1_ids(g, n, a, k)[q] < k,
    decreases k,
{
    if k > 1 {
        lemma_ll1_ids_below(g, n, a, k - 1);
        let s = ll1_ids(g, n, a, k - 1);
        assert forall|q: int| 0 <= q < ll1_ids(g, n, a, k).len() implies #[trigger] ll1_ids(g, n, a, k)[q] < k by {
            if q < s.len() {
                assert(ll1_ids(g, n, a, k)[q] == s[q]);
            }
        }
    }
}

/// Enters production `p` into the cell of `(h, a)`, where `a` is one of its
/// targets.
fn cell_add(
    cells: &mut Vec<((String, String), Vec<usize>)>,
    h: &str,
    a: &str,
    p: usize,
    Ghost(g): Ghost<Grammar>,
    Ghost(vis): Ghost<Set<Seq<char>>>,
)
    requires
        ll1_mid(g, old(cells)@, p as int, h@, vis),
        p >= 1,
    ensures
        ll1_mid(g, final(cells)@, p as int, h@, vis.insert(a@)),
{
    let ghost c0 = cells@;
    let ghost key = (h@, a@);
    let mut i: usize = 0;
    while i < cells.len() && key_before(cells[i].0.0.as_str(), cells[i].0.1.as_str(), h, a)
        invariant
            i <= cells@.len(),
            cells@ == c0,
            key == (h@, a@),
            forall|q: int| 0 <= q < i ==> pair_less(#[trigger] cell_keys(c0)[q], key),
        decreases cells@.len() - i,
    {
        assert(cell_keys(c0)[i as int] == cell_key(c0[i as int]));
        i = i + 1;
    }
    proof {
        lemma_ll1_ids_below(g, h@, a@, p as int);
    }
    if i < cells.len() && str_eq(cells[i].0.0.as_str(), h) && str_eq(cells[i].0.1.as_str(), a) {
        proof {
            lemma_key_at(c0, i as int);
            assert(cell_key(c0[i as int]) == key);
        }
        let mut found = false;
        let mut q: usize = 0;
        while q < cells[i].1.len()
            invariant
                cells@ == c0,
                i < cells@.len(),
                q <= cells@[i as int].1@.len(),
                found == cells@[i as int].1@.subrange(0, q as int).contains(p),
            decreases cells@[i as int].1@.len() - q,
        {
            let ghost sub = cells@[i as int].1@.subrange(0, q as int);
            assert(cells@[i as int].1@.subrange(0, q + 1) =~= sub.push(cells@[i as int].1@[q as int]));
            if cells[i].1[q] == p {
                found = true;
            }
            q = q + 1;
            proof {
                let s2 = cells@[i as int].1@.subrange(0, q as int);
                if found && !sub.contains(p) {
                    assert(s2[q - 1] == p);
                }
                if sub.contains(p) {
                    let w = choose|w: int| 0 <= w < sub.len() && sub[w] == p;
                    assert(s2[w] == p);
                }
                if s2.contains(p) && !sub.contains(p) {
                    let w = choose|w: int| 0 <= w < s2.len() && s2[w] == p;
                    if w < q - 1 {
                        assert(sub[w] == p);
                    }
                }
            }
        }
        proof {
            assert(cells@[i as int].1@.subrange(0, q as int) =~= cells@[i as int].1@);
        }
        if !found {
            let ghost old_list = cells@[i as int].1@;
            cells[i].1.push(p);
            proof {
                let c1 = cells@;
                assert(cell_keys(c1) =~= cell_keys(c0));
                assert(!vis.contains(a@)) by {
                    if vis.contains(a@) {
                        assert(list_of(c0, key) == ll1_ids(g, h@, a@, p as int) + seq![p as usize]);
                        let l = ll1_ids(g, h@, a@, p as int);
                        assert(list_of(c0, key)[l.len() as int] == p);
                    }
                }
                assert forall|k: (Seq<char>, Seq<char>)| #[trigger] has_key(c1, k) implies {
                    &&& list_of(c1, k) == ll1_ids(g, k.0, k.1, p as int) + (if k.0 == h@ && vis.insert(a@).contains(k.1) { seq![p as usize] } else { Seq::empty() })
                    &&& list_of(c1, k).len() > 0
                } by {
                    let j = choose|j: int| 0 <= j < c1.len() && cell_key(#[trigger] c1[j]) == k;
                    lemma_key_at(c1, j);
                    assert(cell_key(c0[j]) == k);
                    lemma_key_at(c0, j);
                    assert(has_key(c0, k));
                    if j == i {
                        assert(list_of(c1, k) =~= old_list.push(p));
                    } else {
                        assert(k != key);
                    }
                }
                assert forall|n: Seq<char>, a2: Seq<char>| (#[trigger] ll1_ids(g, n, a2, p as int).len() > 0 || (n == h@ && vis.insert(a@).contains(a2)))
                    implies has_key(c1, (n, a2)) by {
                    if ll1_ids(g, n, a2, p as int).len() > 0 || (n == h@ && vis.contains(a2)) {
                        assert(has_key(c0, (n, a2)));
                        let j = choose|j: int| 0 <= j < c0.len() && cell_key(#[trigger] c0[j]) == (n, a2);
                        assert(cell_key(c1[j]) == (n, a2));
                    } else {
                        assert(cell_key(c1[i as int]) == (n, a2));
                    }
                }
            }
        } else {
            proof {
                assert(vis.contains(a@)) by {
                    let l = list_of(c0, key);
                    let w = choose|w: int| 0 <= w < l.len() && l[w] == p;
                    if !vis.contains(a@) {
                        assert(l == ll1_ids(g, h@, a@, p as int) + Seq::<usize>::empty());
                        assert(l[w] == ll1_ids(g, h@, a@, p as int)[w]);
                    }
                }
                assert(vis.insert(a@) =~= vis);
            }
        }
        return;
    }
    proof {
        if i < cells@.len() {
            assert(cell_keys(c0)[i as int] == cell_key(c0[i as int]));
            lemma_pair_total(cell_keys(c0)[i as int], key);
        }
        assert(!has_key(c0, key)) by {
            if has_key(c0, key) {
                let j = choose|j: int| 0 <= j < c0.len() && cell_key(#[trigger] c0[j]) == key;
                assert(cell_keys(c0)[j] == key);
                if j < i {
                    lemma_pair_irreflexive(key);
                } else if j == i {
                } else {
                    assert(pair_less(cell_keys(c0)[i as int], cell_keys(c0)[j]));
                    lemma_pair_transitive(key, cell_keys(c0)[i as int], key);
                    lemma_pair_irreflexive(key);
                }
            }
        }
        assert(ll1_ids(g, h@, a@, p as int).len() == 0);
    }
    let mut ids: Vec<usize> = Vec::new();
    ids.push(p);
    let entry = ((String::from_str(h), String::from_str(a)), ids);
    let ghost ev = entry;
    cells.insert(i, entry);
    proof {
        let c1 = cells@;
        let k1 = cell_keys(c1);
        let k0 = cell_keys(c0);
        assert(k1 =~= k0.insert(i as int, key));
        assert forall|x: int, y: int| 0 <= x < y < k1.len() implies pair_less(#[trigger] k1[x], #[trigger] k1[y]) by {
            if y < i {
                assert(k1[x] == k0[x] && k1[y] == k0[y]);
            } else if y == i {
                assert(k1[x] == k0[x]);
            } else if x < i {
                assert(k1[x] == k0[x] && k1[y] == k0[y - 1]);
                if y - 1 > i {
                    assert(pair_less(k0[i as int], k0[y - 1]));
                    lemma_pair_transitive(key, k0[i as int], k0[y - 1]);
                }
                lemma_pair_transitive(k0[x], key, k0[y - 1]);
            } else if x == i {
                assert(k1[y] == k0[y - 1]);
                if y - 1 > i {
                    assert(pair_less(k0[i as int], k0[y - 1]));
                    lemma_pair_transitive(key, k0[i as int], k0[y - 1]);
                }
            } else {
                assert(k1[x] == k0[x - 1] && k1[y] == k0[y - 1]);
            }
        }
        assert forall|k: (Seq<char>, Seq<char>)| #[trigger] has_key(c1, k) implies {
            &&& list_of(c1, k) == ll1_ids(g, k.0, k.1, p as int) + (if k.0 == h@ && vis.insert(a@).contains(k.1) { seq![p as usize] } else { Seq::empty() })
            &&& list_of(c1, k).len() > 0
        } by {
            let j = choose|j: int| 0 <= j < c1.len() && cell_key(#[trigger] c1[j]) == k;
            lemma_key_at(c1, j);
            if j == i {
                assert(k == key);
                assert(!vis.contains(a@)) by {
                    if vis.contains(a@) {
                        assert(has_key(c0, key));
                    }
                }
                assert(list_of(c1, k) =~= seq![p as usize]);
                assert(ll1_ids(g, h@, a@, p as int) =~= Seq::<usize>::empty());
            } else {
                let j0 = if j < i { j } else { j - 1 };
                assert(c1[j] == c0[j0]);
                lemma_key_at(c0, j0);
                assert(has_key(c0, k));
                assert(k != key) by {
                    lemma_key_at(c1, i as int);
                }
            }
        }
        assert forall|n: Seq<char>, a2: Seq<char>| (#[trigger] ll1_ids(g, n, a2, p as int).len() > 0 || (n == h@ && vis.insert(a@).contains(a2)))
            implies has_key(c1, (n, a2)) by {
            if ll1_ids(g, n, a2, p as int).len() > 0 || (n == h@ && vis.contains(a2)) {
                assert(has_key(c0, (n, a2)));
                let j = choose|j: int| 0 <= j < c0.len() && cell_key(#[trigger] c0[j]) == (n, a2);
                if j < i {
                    assert(cell_key(c1[j]) == (n, a2));
                } else {
                    assert(cell_key(c1[j + 1]) == (n, a2));
                }
            } else {
                assert(cell_key(c1[i as int]) == (n, a2));
            }
        }
        assert(ll1_mid(g, c1, p as int, h@, vis.insert(a@)));
    }
}

/// Going from production `p`, all its targets done, to production `p + 1`.
proof fn lemma_mid_advance(g: Grammar, c: Seq<((String, String), Vec<usize>)>, p: int, h: Seq<char>, vis: Set<Seq<char>>, h2: Seq<char>)
    requires
        ll1_mid(g, c, p, h, vis),
        1 <= p,
        h == heads(g.productions@)[p],
        forall|a: Seq<char>| vis.contains(a) <==> ll1_target(g, p, a),
    ensures
        ll1_mid(g, c, p + 1, h2, Set::empty()),
{
    assert forall|n: Seq<char>, a: Seq<char>| #[trigger] ll1_ids(g, n, a, p + 1) == ll1_ids(g, n, a, p)
        + (if n == h && vis.contains(a) { seq![p as usize] } else { Seq::empty() }) by {}
    assert forall|k: (Seq<char>, Seq<char>)| #[trigger] has_key(c, k) implies {
        &&& list_of(c, k) == ll1_ids(g, k.0, k.1, p + 1) + (if k.0 == h2 && Set::<Seq<char>>::empty().contains(k.1) { seq![(p + 1) as usize] } else { Seq::empty() })
        &&& list_of(c, k).len() > 0
    } by {
        assert(ll1_ids(g, k.0, k.1, p + 1) + Seq::<usize>::empty() =~= ll1_ids(g, k.0, k.1, p + 1));
    }
    assert forall|n: Seq<char>, a: Seq<char>| (#[trigger] ll1_ids(g, n, a, p + 1).len() > 0 || (n == h2 && Set::<Seq<char>>::empty().contains(a)))
        implies has_key(c, (n, a)) by {
        assert(ll1_ids(g, n, a, p + 1) == ll1_ids(g, n, a, p) + (if n == h && vis.contains(a) { seq![p as usize] } else { Seq::empty() }));
    }
}

/// The LL(1) table: every cell that some production goes into, keys
/// ascending, each listing (ascending) the productions from 1 on whose head
/// is its non-terminal and whose targets hold its terminal.
pub open spec fn ll1_table_is(g: Grammar, c: Seq<((String, String), Vec<usize>)>) -> bool {
    &&& keys_ascending(cell_keys(c))
    &&& forall|k: (Seq<char>, Seq<char>)| #[trigger] has_key(c, k) ==> {
        &&& list_of(c, k) == ll1_ids(g, k.0, k.1, g.productions@.len() as int)
        &&& list_of(c, k).len() > 0
    }
    &&& forall|n: Seq<char>, a: Seq<char>| #[trigger] ll1_ids(g, n, a, g.productions@.len() as int).len() > 0 ==> has_key(c, (n, a))
}

/// The LL(1) parse table of the grammar: production `p` (from 1 on) goes
/// into the cell of `(A, a)` for its head `A` and each `a` in FIRST of its
/// body other than `ε`, and, where the body derives `ε`, for each `a` in
/// FOLLOW(A).
pub fn build_ll1_parse_table(grammar: &Grammar) -> (res: LL1ParseTable)
    requires
        grammar.wf(),
    ensures
        ll1_table_is(*grammar, res.cells@),
{
    let ghost g = *grammar;
    let ghost names = sym_names(g.symbols@);
    let mut cells: Vec<((String, String), Vec<usize>)> = Vec::new();
    let np = grammar.productions.len();
    let mut p: usize = 1;
    proof {
        reveal_strlit("ε");
        assert("ε"@ =~= eps());
        assert(ll1_mid(g, cells@, 1, seq![], Set::empty()));
    }
    while p < np
        invariant
            g == *grammar,
            grammar.wf(),
            names == sym_names(g.symbols@),
            np == g.productions@.len(),
            1 <= p,
            p <= (if np < 1 { 1 } else { np }),
            "ε"@ == eps(),
            ll1_mid(g, cells@, p as int, seq![], Set::empty()),
        decreases np - p,
    {
        let ghost h = heads(g.productions@)[p as int];
        assert(h == grammar.productions@[p as int].head@);
        assert(bodies(g.productions@)[p as int] == strs(grammar.productions@[p as int].body@));
        let first_alpha = first_of_sequence(grammar, grammar.productions[p].body.as_slice());
        let ghost fa = fos(names, sf(g.symbols@), bodies(g.productions@)[p as int]);
        let follow = match grammar.find_symbol(grammar.productions[p].head.as_str()) {
            Some(j) => {
                let c = set_copy(&grammar.symbols[j].follow_set);
                proof {
                    assert(names[j as int] == h);
                    lemma_name_idx(names, j as int);
                }
                c
            },
            None => {
                let c: Vec<String> = Vec::new();
                proof {
                    if names.contains(h) {
                        let j = crate::lab2::first::name_idx(names, h);
                        assert(names[j] == grammar.symbols@[j].name@);
                    }
                    assert(members(c@) =~= Set::<Seq<char>>::empty());
                }
                c
            },
        };
        let ghost fw = fl(names, flw(g.symbols@), h);
        assert(members(follow@) == fw);
        let ghost mut vis: Set<Seq<char>> = Set::empty();
        proof {
            assert(ll1_mid(g, cells@, p as int, h, vis)) by {
                assert forall|k: (Seq<char>, Seq<char>)| #[trigger] has_key(cells@, k) implies {
                    &&& list_of(cells@, k) == ll1_ids(g, k.0, k.1, p as int) + (if k.0 == h && vis.contains(k.1) { seq![p as usize] } else { Seq::empty() })
                    &&& list_of(cells@, k).len() > 0
                } by {}
            }
        }
        let mut k: usize = 0;
        while k < first_alpha.len()
            invariant
                g == *grammar,
                grammar.wf(),
                names == sym_names(g.symbols@),
                np == g.productions@.len(),
                1 <= p < np,
                "ε"@ == eps(),
                h == heads(g.productions@)[p as int],
                fa == fos(names, sf(g.symbols@), bodies(g.productions@)[p as int]),
                fw == fl(names, flw(g.symbols@), h),
                members(first_alpha@) == fa,
                members(follow@) == fw,
                k <= first_alpha@.len(),
                ll1_mid(g, cells@, p as int, h, vis),
                forall|a: Seq<char>| vis.contains(a) ==> ll1_target(g, p as int, a),
                forall|q: int| 0 <= q < k && first_alpha@[q]@ != eps() ==> vis.contains(#[trigger] first_alpha@[q]@),
                forall|q: int| 0 <= q < k && first_alpha@[q]@ == eps() ==> fw.subset_of(vis),
            decreases first_alpha@.len() - k,
        {
            let ghost x = first_alpha@[k as int]@;
            proof {
                assert(strs(first_alpha@)[k as int] == x);
                assert(fa.contains(x));
            }
            if str_eq(first_alpha[k].as_str(), "ε") {
                let mut m: usize = 0;
                while m < follow.len()
                    invariant
                        g == *grammar,
                        "ε"@ == eps(),
                        1 <= p < np,
                        np == g.productions@.len(),
                        h == heads(g.productions@)[p as int],
                        h == grammar.productions@[p as int].head@,
                        fa == fos(names, sf(g.symbols@), bodies(g.productions@)[p as int]),
                        names == sym_names(g.symbols@),
                        fw == fl(names, flw(g.symbols@), h),
                        fa.contains(eps()),
                        members(follow@) == fw,
                        m <= follow@.len(),
                        k < first_alpha@.len(),
                        first_alpha@[k as int]@ == eps(),
                        forall|q: int| 0 <= q < k && first_alpha@[q]@ != eps() ==> vis.contains(#[trigger] first_alpha@[q]@),
                        forall|q: int| 0 <= q < k && first_alpha@[q]@ == eps() ==> fw.subset_of(vis),
                        ll1_mid(g, cells@, p as int, h, vis),
                        forall|a: Seq<char>| vis.contains(a) ==> ll1_target(g, p as int, a),
                        forall|q: int| 0 <= q < m ==> vis.contains(#[trigger] follow@[q]@),
                    decreases follow@.len() - m,
                {
                    proof {
                        assert(strs(follow@)[m as int] == follow@[m as int]@);
                        assert(fw.contains(follow@[m as int]@));
                    }
                    cell_add(&mut cells, grammar.productions[p].head.as_str(), follow[m].as_str(), p, Ghost(g), Ghost(vis));
                    proof {
                        vis = vis.insert(follow@[m as int]@);
                    }
                    m = m + 1;
                }
                proof {
                    assert forall|y: Seq<char>| fw.contains(y) implies vis.contains(y) by {
                        let q = choose|q: int| 0 <= q < strs(follow@).len() && strs(follow@)[q] == y;
                        assert(follow@[q]@ == y);
                    }
                }
            } else {
                assert(x != eps());
                cell_add(&mut cells, grammar.productions[p].head.as_str(), first_alpha[k].as_str(), p, Ghost(g), Ghost(vis));
                proof {
                    vis = vis.insert(x);
                }
            }
            k = k + 1;
        }
        proof {
            assert forall|a: Seq<char>| vis.contains(a) <==> ll1_target(g, p as int, a) by {
                if ll1_target(g, p as int, a) {
                    if a != eps() && fa.contains(a) {
                        let q = choose|q: int| 0 <= q < strs(first_alpha@).len() && strs(first_alpha@)[q] == a;
                        assert(first_alpha@[q]@ == a);
                    } else {
                        let q = choose|q: int| 0 <= q < strs(first_alpha@).len() && strs(first_alpha@)[q] == eps();
                        assert(first_alpha@[q]@ == eps());
                    }
                }
            }
            lemma_mid_advance(g, cells@, p as int, h, vis, seq![]);
        }
        p = p + 1;
    }
    proof {
        if np <= 1 {
            assert forall|n: Seq<char>, a: Seq<char>| #[trigger] ll1_ids(g, n, a, np as int) == ll1_ids(g, n, a, p as int) by {}
        }
        assert(ll1_table_is(g, cells@)) by {
            assert forall|k: (Seq<char>, Seq<char>)| #[trigger] has_key(cells@, k) implies {
                &&& list_of(cells@, k) == ll1_ids(g, k.0, k.1, np as int)
                &&& list_of(cells@, k).len() > 0
            } by {
                assert(ll1_ids(g, k.0, k.1, p as int) + Seq::<usize>::empty() =~= ll1_ids(g, k.0, k.1, p as int));
                if np <= 1 {
                    assert(ll1_ids(g, k.0, k.1, np as int) == ll1_ids(g, k.0, k.1, p as int));
                }
            }
            assert forall|n: Seq<char>, a: Seq<char>| #[trigger] ll1_ids(g, n, a, np as int).len() > 0 implies has_key(cells@, (n, a)) by {
                if np <= 1 {
                    assert(ll1_ids(g, n, a, np as int) == ll1_ids(g, n, a, p as int));
                }
                assert(ll1_ids(g, n, a, p as int).len() > 0);
            }
        }
    }
    LL1ParseTable { cells }
}

/// `format!("{:?}", v)`: the `Debug` text of a list of production numbers,
/// as std's list formatting writes it.
#[verifier::external_body]
fn debug_usizes(v: &Vec<usize>) -> (res: String)
    ensures
        res@ == usize_list_debug(v@),
{
    format!("{:?}", v)
}

/// The message for a cell with more than one production.
pub open spec fn ll1_conflict_text(e: ((String, String), Vec<usize>)) -> Seq<char> {
    "M["@ + e.0.0@ + ", "@ + e.0.1@ + "] 中存在多条产生式 "@ + usize_list_debug(e.1@)
}

/// The messages for the cells of `c` that hold more than one production, in
/// order.
pub open spec fn ll1_conflicts(c: Seq<((String, String), Vec<usize>)>) -> Seq<Seq<char>>
    decreases c.len(),
{
    if c.len() == 0 {
        Seq::empty()
    } else {
        ll1_conflicts(c.drop_last()) + (if c.last().1@.len() > 1 { seq![ll1_conflict_text(c.last())] } else { Seq::empty() })
    }
}

/// Checks the LL(1) condition: one message per cell holding more than one
/// production, in key order; the grammar is LL(1) where there is none.
pub fn check_ll1(table: &LL1ParseTable) -> (res: (bool, Vec<String>))
    ensures
        strs(res.1@) == ll1_conflicts(table.cells@),
        res.0 == (res.1@.len() == 0),
{
    let mut conflicts: Vec<String> = Vec::new();
    let mut i: usize = 0;
    while i < table.cells.len()
        invariant
            i <= table.cells@.len(),
            strs(conflicts@) == ll1_conflicts(table.cells@.subrange(0, i as int)),
        decreases table.cells@.len() - i,
    {
        let ghost sub = table.cells@.subrange(0, i as int);
        assert(table.cells@.subrange(0, i + 1).drop_last() =~= sub);
        if table.cells[i].1.len() > 1 {
            let mut m = String::from_str("M[");
            m.append(table.cells[i].0.0.as_str());
            m.append(", ");
            m.append(table.cells[i].0.1.as_str());
            m.append("] 中存在多条产生式 ");
            let d = debug_usizes(&table.cells[i].1);
            m.append(d.as_str());
            assert(m@ == ll1_conflict_text(table.cells@[i as int]));
            let ghost before = conflicts@;
            conflicts.push(m);
            assert(strs(conflicts@) =~= strs(before).push(m@));
        }
        i = i + 1;
        assert(strs(conflicts@) =~= ll1_conflicts(table.cells@.subrange(0, i as int)));
    }
    assert(table.cells@.subrange(0, i as int) =~= table.cells@);
    let ok = conflicts.len() == 0;
    (ok, conflicts)
}
} // verus!
