//! Sets of strings kept as strictly ascending vectors: the order in which a
//! `BTreeSet<String>` holds and walks its members.
use vstd::prelude::*;
use crate::text::{lemma_lex_asymmetric, lemma_lex_irreflexive, lemma_lex_total, lemma_lex_transitive, lex_less, str_eq, str_less};

verus! {

/// The character sequences of a list of strings.
pub open spec fn strs(v: Seq<String>) -> Seq<Seq<char>> {
    v.map_values(|s: String| s@)
}

/// Strictly ascending in the order of strings.
pub open spec fn ascending(s: Seq<Seq<char>>) -> bool {
    forall|i: int, j: int| 0 <= i < j < s.len() ==> lex_less(#[trigger] s[i], #[trigger] s[j])
}

/// The members of a string set.
pub open spec fn members(v: Seq<String>) -> Set<Seq<char>> {
    strs(v).to_set()
}

/// A well-formed string set: strictly ascending.
pub open spec fn is_str_set(v: Seq<String>) -> bool {
    ascending(strs(v))
}

/// An ascending sequence holds no member twice, so its length is the size of
/// its set of members.
pub proof fn lemma_set_len(v: Seq<String>)
    requires
        is_str_set(v),
    ensures
        members(v).finite(),
        members(v).len() == v.len(),
{
    let s = strs(v);
    assert forall|i: int, j: int| 0 <= i < s.len() && 0 <= j < s.len() && i != j implies s[i] != s[j] by {
        if i < j {
            assert(lex_less(s[i], s[j]));
        } else {
            assert(lex_less(s[j], s[i]));
        }
        lemma_lex_irreflexive(s[i]);
    }
    assert(s.no_duplicates());
    s.unique_seq_to_set();
    vstd::seq_lib::seq_to_set_is_finite(s);
}

/// The empty string set.
pub fn new_set() -> (res: Vec<String>)
    ensures
        res@.len() == 0,
        is_str_set(res@),
        members(res@) == Set::<Seq<char>>::empty(),
{
    let res: Vec<String> = Vec::new();
    assert(members(res@) =~= Set::<Seq<char>>::empty());
    res
}

/// Whether the set holds `x`.
pub fn set_contains(v: &Vec<String>, x: &str) -> (res: bool)
    ensures
        res == members(v@).contains(x@),
{
    let mut i: usize = 0;
    while i < v.len()
        invariant
            i <= v.len(),
            forall|k: int| 0 <= k < i ==> v@[k]@ != x@,
        decreases v.len() - i,
    {
        if str_eq(v[i].as_str(), x) {
            assert(strs(v@)[i as int] == x@);
            return true;
        }
        i = i + 1;
    }
    proof {
        if members(v@).contains(x@) {
            let sv = strs(v@);
            let k = choose|k: int| 0 <= k < sv.len() && sv[k] == x@;
            assert(v@[k]@ == x@);
        }
    }
    false
}

/// The set with `x` added; the result says whether `x` was new.
pub fn set_insert(v: &mut Vec<String>, x: &str) -> (res: bool)
    requires
        is_str_set(old(v)@),
    ensures
        is_str_set(final(v)@),
        members(final(v)@) == members(old(v)@).insert(x@),
        res == !members(old(v)@).contains(x@),
        res ==> final(v)@.len() == old(v)@.len() + 1,
        !res ==> final(v)@ == old(v)@,
{
    let ghost s0 = strs(v@);
    let mut p: usize = 0;
    while p < v.len() && str_less(v[p].as_str(), x)
        invariant
            p <= v.len(),
            v@ == old(v)@,
            s0 == strs(v@),
            forall|k: int| 0 <= k < p ==> lex_less(#[trigger] s0[k], x@),
        decreases v.len() - p,
    {
        assert(s0[p as int] == v@[p as int]@);
        p = p + 1;
    }
    if p < v.len() && str_eq(v[p].as_str(), x) {
        assert(s0[p as int] == x@);
        assert(members(v@).contains(x@));
        assert(members(v@).insert(x@) =~= members(v@));
        return false;
    }
    proof {
        if p < v.len() {
            assert(s0[p as int] == v@[p as int]@);
            assert(!lex_less(s0[p as int], x@));
            lemma_lex_total(s0[p as int], x@);
            assert(lex_less(x@, s0[p as int]));
        }
        assert forall|k: int| 0 <= k < s0.len() implies s0[k] != x@ by {
            if k < p {
                assert(lex_less(s0[k], x@));
                lemma_lex_irreflexive(x@);
            } else {
                if k > p {
                    assert(lex_less(s0[p as int], s0[k]));
                    lemma_lex_transitive(x@, s0[p as int], s0[k]);
                }
                lemma_lex_irreflexive(x@);
            }
        }
        assert(!members(v@).contains(x@));
    }
    let item = String::from_str(x);
    v.insert(p, item);
    proof {
        let s1 = strs(v@);
        assert(s1 =~= s0.insert(p as int, x@));
        assert forall|i: int, j: int| 0 <= i < j < s1.len() implies lex_less(#[trigger] s1[i], #[trigger] s1[j]) by {
            if j < p {
                assert(s1[i] == s0[i] && s1[j] == s0[j]);
            } else if j == p {
                assert(s1[i] == s0[i]);
            } else if i < p {
                assert(s1[i] == s0[i] && s1[j] == s0[j - 1]);
                assert(lex_less(s0[i], x@));
                if j - 1 > p {
                    assert(lex_less(s0[p as int], s0[j - 1]));
                    lemma_lex_transitive(x@, s0[p as int], s0[j - 1]);
                }
                lemma_lex_transitive(s0[i], x@, s0[j - 1]);
            } else if i == p {
                assert(s1[j] == s0[j - 1]);
                if j - 1 > p {
                    assert(lex_less(s0[p as int], s0[j - 1]));
                    lemma_lex_transitive(x@, s0[p as int], s0[j - 1]);
                }
            } else {
                assert(s1[i] == s0[i - 1] && s1[j] == s0[j - 1]);
            }
        }
        assert forall|y: Seq<char>| #[trigger] s1.to_set().contains(y) <==> s0.to_set().insert(x@).contains(y) by {
            if s1.to_set().contains(y) {
                let k = choose|k: int| 0 <= k < s1.len() && s1[k] == y;
                if k < p {
                    assert(s0[k] == y);
                } else if k > p {
                    assert(s0[k - 1] == y);
                }
            }
            if s0.to_set().contains(y) {
                let k = choose|k: int| 0 <= k < s0.len() && s0[k] == y;
                if k < p {
                    assert(s1[k] == y);
                } else {
                    assert(s1[k + 1] == y);
                }
            }
            if y == x@ {
                assert(s1[p as int] == y);
            }
        }
        assert(members(v@) =~= members(old(v)@).insert(x@));
    }
    true
}

/// A copy of the set.
pub fn set_copy(v: &Vec<String>) -> (res: Vec<String>)
    ensures
        strs(res@) == strs(v@),
        members(res@) == members(v@),
        res@.len() == v@.len(),
{
    let mut res: Vec<String> = Vec::new();
    let mut i: usize = 0;
    while i < v.len()
        invariant
            i <= v.len(),
            res@.len() == i,
            strs(res@) == strs(v@).subrange(0, i as int),
        decreases v.len() - i,
    {
        let c = v[i].clone();
        assert(c@ == v@[i as int]@);
        let ghost before = res@;
        res.push(c);
        proof {
            assert(res@ == before.push(c));
            assert forall|k: int| 0 <= k <= i implies #[trigger] strs(res@)[k] == strs(v@)[k] by {
                if k < i {
                    assert(strs(before)[k] == strs(v@).subrange(0, i as int)[k]);
                }
            }
        }
        i = i + 1;
        assert(strs(res@) =~= strs(v@).subrange(0, i as int));
    }
    assert(strs(v@).subrange(0, i as int) =~= strs(v@));
    res
}


/// Adds every member of `src` to `dst`; the result says whether `dst` grew.
pub fn set_union_into(dst: &mut Vec<String>, src: &Vec<String>) -> (res: bool)
    requires
        is_str_set(old(dst)@),
    ensures
        is_str_set(final(dst)@),
        members(final(dst)@) == members(old(dst)@).union(members(src@)),
        final(dst)@.len() >= old(dst)@.len(),
        res == (final(dst)@.len() > old(dst)@.len()),
        !res ==> final(dst)@ == old(dst)@,
{
    let mut grew = false;
    let mut i: usize = 0;
    while i < src.len()
        invariant
            i <= src@.len(),
            is_str_set(dst@),
            members(dst@) == members(old(dst)@).union(strs(src@).subrange(0, i as int).to_set()),
            dst@.len() >= old(dst)@.len(),
            grew == (dst@.len() > old(dst)@.len()),
            !grew ==> dst@ == old(dst)@,
        decreases src@.len() - i,
    {
        let ghost sub = strs(src@).subrange(0, i as int);
        if set_insert(dst, src[i].as_str()) {
            grew = true;
        }
        proof {
            let sub2 = strs(src@).subrange(0, i + 1);
            assert(sub2 =~= sub.push(src@[i as int]@));
            sub.lemma_push_to_set_commute(src@[i as int]@);
        }
        i = i + 1;
        assert(members(dst@) =~= members(old(dst)@).union(strs(src@).subrange(0, i as int).to_set()));
    }
    assert(strs(src@).subrange(0, i as int) =~= strs(src@));
    grew
}

/// The ascending enumeration of a set of strings.
pub open spec fn asc_seq(s: Set<Seq<char>>) -> Seq<Seq<char>> {
    choose|q: Seq<Seq<char>>| ascending(q) && q.to_set() == s
}

/// An ascending sequence is fixed by its members.
pub proof fn lemma_ascending_unique(a: Seq<Seq<char>>, b: Seq<Seq<char>>)
    requires
        ascending(a),
        ascending(b),
        a.to_set() == b.to_set(),
    ensures
        a == b,
    decreases a.len(),
{
    if a.len() > 0 {
        assert(b.to_set().contains(a[0]));
        let i = choose|i: int| 0 <= i < b.len() && b[i] == a[0];
        assert(a.to_set().contains(b[0]));
        let j = choose|j: int| 0 <= j < a.len() && a[j] == b[0];
        if i > 0 && j > 0 {
            assert(lex_less(b[0], b[i]));
            assert(lex_less(a[0], a[j]));
            lemma_lex_asymmetric(a[0], b[0]);
        } else if i > 0 {
            assert(lex_less(b[0], b[i]));
            lemma_lex_irreflexive(a[0]);
        } else if j > 0 {
            assert(lex_less(a[0], a[j]));
            lemma_lex_irreflexive(b[0]);
        }
        assert(a[0] == b[0]);
        let a2 = a.drop_first();
        let b2 = b.drop_first();
        assert forall|x: Seq<char>| a2.to_set().contains(x) <==> b2.to_set().contains(x) by {
            if a2.to_set().contains(x) {
                let k = choose|k: int| 0 <= k < a2.len() && a2[k] == x;
                assert(a[k + 1] == x);
                assert(lex_less(a[0], a[k + 1]));
                assert(a.to_set().contains(x));
                let m = choose|m: int| 0 <= m < b.len() && b[m] == x;
                if m == 0 {
                    lemma_lex_irreflexive(x);
                }
                assert(b2[m - 1] == x);
            }
            if b2.to_set().contains(x) {
                let k = choose|k: int| 0 <= k < b2.len() && b2[k] == x;
                assert(b[k + 1] == x);
                assert(lex_less(b[0], b[k + 1]));
                assert(b.to_set().contains(x));
                let m = choose|m: int| 0 <= m < a.len() && a[m] == x;
                if m == 0 {
                    lemma_lex_irreflexive(x);
                }
                assert(a2[m - 1] == x);
            }
        }
        assert(a2.to_set() =~= b2.to_set());
        lemma_ascending_unique(a2, b2);
        assert(a =~= seq![a[0]] + a2);
        assert(b =~= seq![b[0]] + b2);
    } else {
        if b.len() > 0 {
            assert(b.to_set().contains(b[0]));
        }
        assert(a =~= b);
    }
}

/// A string set's members in order are the ascending enumeration of them.
pub proof fn lemma_asc_seq(v: Seq<String>)
    requires
        is_str_set(v),
    ensures
        asc_seq(members(v)) == strs(v),
{
    let q = asc_seq(members(v));
    assert(ascending(strs(v)) && strs(v).to_set() == members(v));
    lemma_ascending_unique(q, strs(v));
}
} // verus!
