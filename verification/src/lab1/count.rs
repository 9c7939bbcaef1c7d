//! A counting bound: a family of subsets of an `n`-element set has at most
//! `2^n` members. It bounds the number of states of a subset construction.
use vstd::prelude::*;

verus! {

/// `2^n`.
pub open spec fn two_pow(n: nat) -> nat
    decreases n,
{
    if n == 0 {
        1
    } else {
        2 * two_pow((n - 1) as nat)
    }
}

/// A finite family of sets drawn from the members of `u` has at most
/// `2^|u|` members.
pub proof fn lemma_family_bound<A>(u: Seq<A>, f: Set<Set<A>>)
    requires
        f.finite(),
        forall|s: Set<A>| #[trigger] f.contains(s) ==> s.subset_of(u.to_set()),
    ensures
        f.len() <= two_pow(u.len() as nat),
    decreases u.len(),
{
    if u.len() == 0 {
        let e = Set::<A>::empty();
        assert forall|s: Set<A>| #[trigger] f.contains(s) implies set![e].contains(s) by {
            assert(s =~= e);
        }
        vstd::set_lib::lemma_len_subset(f, set![e]);
        assert(set![e].len() == 1) by {
            assert(set![e] =~= Set::<Set<A>>::empty().insert(e));
        }
    } else {
        let x = u.last();
        let u2 = u.drop_last();
        assert forall|y: A| u.to_set().contains(y) && y != x implies u2.to_set().contains(y) by {
            let k = choose|k: int| 0 <= k < u.len() && u[k] == y;
            assert(k < u.len() - 1);
            assert(u2[k] == y);
        }
        let f1 = f.filter(|s: Set<A>| !s.contains(x));
        let f2 = f.filter(|s: Set<A>| s.contains(x));
        let rm = |s: Set<A>| s.remove(x);
        let g2 = f2.map(rm);
        assert forall|s: Set<A>| #[trigger] f1.contains(s) implies s.subset_of(u2.to_set()) by {
            assert(f.contains(s));
        }
        lemma_family_bound(u2, f1);
        assert(vstd::relations::injective_on(rm, f2)) by {
            assert forall|a: Set<A>, b: Set<A>| f2.contains(a) && f2.contains(b) && #[trigger] rm(a) == #[trigger] rm(b) implies a == b by {
                assert(a =~= rm(a).insert(x));
                assert(b =~= rm(b).insert(x));
            }
        }
        vstd::set_lib::lemma_map_size(f2, g2, rm);
        assert forall|s: Set<A>| #[trigger] g2.contains(s) implies s.subset_of(u2.to_set()) by {
            let a = choose|a: Set<A>| f2.contains(a) && rm(a) == s;
            assert(f.contains(a));
        }
        lemma_family_bound(u2, g2);
        assert(f =~= f1.union(f2));
        vstd::set_lib::lemma_len_union(f1, f2);
    }
}

} // verus!
