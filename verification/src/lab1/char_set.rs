//! Character sets stored as numbered segment lists in a shared table.
//!
//! A character set is identified by an index; its members are the characters
//! covered by the segments `[fromChar, toChar]` that carry that index.
use vstd::prelude::*;
use crate::text::{char_from_u32, is_scalar};

verus! {

/// One segment `[fromChar, toChar]` of the character set `indexId`.
#[derive(Clone, Copy, Debug, PartialEq, Eq, Structural)]
pub struct CharSet {
    pub indexId: i32,
    pub segementId: i32,
    pub fromChar: char,
    pub toChar: char,
}

/// The table of all segments, and the index the next new set receives.
pub struct CharSetTable {
    pub segments: Vec<CharSet>,
    pub next_index: i32,
}

/// `c` lies in the segment `s`.
pub open spec fn seg_has(s: CharSet, c: char) -> bool {
    (s.fromChar as u32) <= (c as u32) && (c as u32) <= (s.toChar as u32)
}

/// The segments of set `id`, in table order.
pub open spec fn segs_of(segs: Seq<CharSet>, id: i32) -> Seq<CharSet>
    decreases segs.len(),
{
    if segs.len() == 0 {
        Seq::empty()
    } else if segs.last().indexId == id {
        segs_of(segs.drop_last(), id).push(segs.last())
    } else {
        segs_of(segs.drop_last(), id)
    }
}

/// `c` is a member of set `id` in the table `segs`.
pub open spec fn set_has(segs: Seq<CharSet>, id: i32, c: char) -> bool {
    exists|i: int| 0 <= i < segs.len() && segs[i].indexId == id && #[trigger] seg_has(segs[i], c)
}

/// Every segment belongs to a set that was already handed out.
pub open spec fn table_wf(t: CharSetTable) -> bool {
    &&& 1 <= t.next_index
    &&& forall|i: int| 0 <= i < t.segments@.len() ==> 1 <= #[trigger] t.segments@[i].indexId < t.next_index
}

/// The members of a segment list.
pub open spec fn list_has(l: Seq<CharSet>, c: char) -> bool {
    exists|i: int| 0 <= i < l.len() && #[trigger] seg_has(l[i], c)
}

proof fn lemma_segs_of_members(segs: Seq<CharSet>, id: i32)
    ensures
        forall|c: char| #[trigger] list_has(segs_of(segs, id), c) <==> set_has(segs, id, c),
        forall|i: int| 0 <= i < segs_of(segs, id).len() ==> #[trigger] segs_of(segs, id)[i].indexId == id,
    decreases segs.len(),
{
    if segs.len() > 0 {
        let p = segs.drop_last();
        lemma_segs_of_members(p, id);
        assert forall|c: char| #[trigger] list_has(segs_of(segs, id), c) <==> set_has(segs, id, c) by {
            if list_has(segs_of(segs, id), c) {
                let k = choose|k: int| 0 <= k < segs_of(segs, id).len() && #[trigger] seg_has(segs_of(segs, id)[k], c);
                if segs.last().indexId == id && k == segs_of(segs, id).len() - 1 {
                    assert(seg_has(segs[segs.len() - 1], c));
                } else {
                    assert(seg_has(segs_of(p, id)[k], c));
                    assert(list_has(segs_of(p, id), c));
                    let j = choose|j: int| 0 <= j < p.len() && p[j].indexId == id && #[trigger] seg_has(p[j], c);
                    assert(segs[j] == p[j]);
                }
            }
            if set_has(segs, id, c) {
                let j = choose|j: int| 0 <= j < segs.len() && segs[j].indexId == id && #[trigger] seg_has(segs[j], c);
                if j == segs.len() - 1 {
                    let l = segs_of(segs, id);
                    assert(seg_has(l[l.len() - 1], c));
                } else {
                    assert(p[j] == segs[j]);
                    assert(set_has(p, id, c));
                    assert(list_has(segs_of(p, id), c));
                    let k = choose|k: int| 0 <= k < segs_of(p, id).len() && #[trigger] seg_has(segs_of(p, id)[k], c);
                    assert(segs_of(segs, id)[k] == segs_of(p, id)[k]);
                }
            }
        }
    }
}

/// Appending segments of a fresh set leaves the members of older sets unchanged.
proof fn lemma_set_has_append(old_segs: Seq<CharSet>, extra: Seq<CharSet>, id: i32, c: char)
    requires
        forall|i: int| 0 <= i < extra.len() ==> #[trigger] extra[i].indexId != id,
    ensures
        set_has(old_segs + extra, id, c) == set_has(old_segs, id, c),
{
    let all = old_segs + extra;
    if set_has(all, id, c) {
        let j = choose|j: int| 0 <= j < all.len() && all[j].indexId == id && #[trigger] seg_has(all[j], c);
        if j >= old_segs.len() {
            assert(extra[j - old_segs.len()].indexId != id);
        }
        assert(all[j] == old_segs[j]);
    }
    if set_has(old_segs, id, c) {
        let j = choose|j: int| 0 <= j < old_segs.len() && old_segs[j].indexId == id && #[trigger] seg_has(old_segs[j], c);
        assert(all[j] == old_segs[j]);
    }
}

impl CharSetTable {
    /// An empty table whose first set receives index 1.
    pub fn new() -> (t: CharSetTable)
        ensures
            t.segments@ == Seq::<CharSet>::empty(),
            t.next_index == 1,
            table_wf(t),
    {
        CharSetTable { segments: Vec::new(), next_index: 1 }
    }
}

/// Hands out the next set index.
fn next_char_set_index(t: &mut CharSetTable) -> (index: i32)
    requires
        old(t).next_index < i32::MAX,
    ensures
        index == old(t).next_index,
        final(t).next_index == old(t).next_index + 1,
        final(t).segments@ == old(t).segments@,
{
    let next = t.next_index;
    t.next_index = t.next_index + 1;
    next
}

/// Appends the segment `[from_char, to_char]` of set `index` to the table.
fn push_segment(t: &mut CharSetTable, index: i32, segement_id: i32, from_char: char, to_char: char)
    ensures
        final(t).segments@ == old(t).segments@.push(
            CharSet { indexId: index, segementId: segement_id, fromChar: from_char, toChar: to_char },
        ),
        final(t).next_index == old(t).next_index,
{
    t.segments.push(CharSet { indexId: index, segementId: segement_id, fromChar: from_char, toChar: to_char });
}

/// All segments of set `char_set_id`, in table order.
pub fn segments_of(t: &CharSetTable, char_set_id: i32) -> (res: Vec<CharSet>)
    ensures
        res@ == segs_of(t.segments@, char_set_id),
{
    let mut res: Vec<CharSet> = Vec::new();
    let mut i: usize = 0;
    while i < t.segments.len()
        invariant
            i <= t.segments@.len(),
            res@ == segs_of(t.segments@.subrange(0, i as int), char_set_id),
        decreases t.segments@.len() - i,
    {
        let seg = t.segments[i];
        assert(t.segments@.subrange(0, i + 1).drop_last() =~= t.segments@.subrange(0, i as int));
        if seg.indexId == char_set_id {
            res.push(seg);
        }
        i = i + 1;
    }
    assert(t.segments@.subrange(0, i as int) =~= t.segments@);
    res
}

/// Whether `c` belongs to set `driver_id`.
pub fn is_subset(t: &CharSetTable, c: char, driver_id: i32) -> (res: bool)
    ensures
        res == set_has(t.segments@, driver_id, c),
{
    let mut i: usize = 0;
    while i < t.segments.len()
        invariant
            i <= t.segments@.len(),
            forall|j: int| 0 <= j < i ==> !(t.segments@[j].indexId == driver_id && #[trigger] seg_has(t.segments@[j], c)),
        decreases t.segments@.len() - i,
    {
        let seg = t.segments[i];
        if seg.indexId == driver_id && (seg.fromChar as u32) <= (c as u32) && (c as u32) <= (seg.toChar as u32) {
            assert(seg_has(t.segments@[i as int], c));
            return true;
        }
        i = i + 1;
    }
    false
}

/// Whether set `char_set_id` contains `c` (the same test as [`is_subset`]).
pub fn has_contain_char(t: &CharSetTable, char_set_id: i32, c: char) -> (res: bool)
    ensures
        res == set_has(t.segments@, char_set_id, c),
{
    is_subset(t, c, char_set_id)
}

/// The code point of `c`.
pub fn get_index(c: char) -> (res: i32)
    ensures
        res as int == c as u32 as int,
{
    proof {
        vstd::utf8::char_is_scalar(c);
    }
    (c as u32) as i32
}

/// A new set holding the single segment `[from_char, to_char]`.
pub fn range(t: &mut CharSetTable, from_char: char, to_char: char) -> (index: i32)
    requires
        old(t).next_index < i32::MAX,
    ensures
        index == old(t).next_index,
        final(t).next_index == old(t).next_index + 1,
        final(t).segments@ == old(t).segments@.push(
            CharSet { indexId: index, segementId: 1, fromChar: from_char, toChar: to_char },
        ),
{
    let index = next_char_set_index(t);
    push_segment(t, index, 1, from_char, to_char);
    index
}

/// Empties the table and restarts numbering at 1.
pub fn reset_char_sets(t: &mut CharSetTable)
    ensures
        final(t).segments@ == Seq::<CharSet>::empty(),
        final(t).next_index == 1,
{
    t.segments.clear();
    t.next_index = 1;
}

/// Each segment is non-empty, and the segments share no character.
pub open spec fn disjoint_valid(l: Seq<CharSet>) -> bool {
    &&& forall|i: int| 0 <= i < l.len() ==> (#[trigger] l[i]).fromChar as u32 <= l[i].toChar as u32
    &&& forall|i: int, j: int|
        0 <= i < l.len() && 0 <= j < l.len() && i != j ==> ((#[trigger] l[i]).toChar as u32)
            < (#[trigger] l[j]).fromChar as u32 || (l[j].toChar as u32) < l[i].fromChar as u32
}

/// Non-empty segments in increasing order, separated by at least one
/// character that neither holds: the canonical form of a set.
pub open spec fn canonical(l: Seq<CharSet>) -> bool {
    &&& forall|i: int| 0 <= i < l.len() ==> (#[trigger] l[i]).fromChar as u32 <= l[i].toChar as u32
    &&& forall|i: int, j: int|
        0 <= i < j < l.len() ==> ((#[trigger] l[i]).toChar as u32) + 1 < (#[trigger] l[j]).fromChar as u32
}

/// Non-empty segments in increasing order with no shared character.
pub open spec fn sorted_disjoint(l: Seq<CharSet>) -> bool {
    &&& forall|i: int| 0 <= i < l.len() ==> (#[trigger] l[i]).fromChar as u32 <= l[i].toChar as u32
    &&& forall|i: int, j: int|
        0 <= i < j < l.len() ==> ((#[trigger] l[i]).toChar as u32) < (#[trigger] l[j]).fromChar as u32
}

/// `a` comes no later than `b` in segment order: by start, then (when
/// `by_to`) by end.
pub open spec fn seg_le(a: CharSet, b: CharSet, by_to: bool) -> bool {
    (a.fromChar as u32) < (b.fromChar as u32) || ((a.fromChar as u32) == (b.fromChar as u32) && (!by_to
        || (a.toChar as u32) <= (b.toChar as u32)))
}

/// Stable insertion sort of segments by start (and, when `by_to`, by end).
fn sort_segments(v: &mut Vec<CharSet>, by_to: bool)
    ensures
        final(v)@.len() == old(v)@.len(),
        forall|x: CharSet| #[trigger] final(v)@.contains(x) <==> old(v)@.contains(x),
        forall|i: int, j: int| 0 <= i < j < final(v)@.len() ==> seg_le(final(v)@[i], final(v)@[j], by_to),
        final(v)@.to_multiset() == old(v)@.to_multiset(),
{
    let ghost orig = v@;
    let n = v.len();
    let mut i: usize = 1;
    if n == 0 {
        return;
    }
    while i < n
        invariant
            n == v@.len(),
            1 <= i <= n,
            orig.len() == n,
            forall|x: CharSet| #[trigger] v@.contains(x) <==> orig.contains(x),
            forall|a: int, b: int| 0 <= a < b < i ==> seg_le(v@[a], v@[b], by_to),
            v@.to_multiset() == orig.to_multiset(),
        decreases n - i,
    {
        let mut j: usize = i;
        while j > 0 && !seg_le_exec(v[j - 1], v[j], by_to)
            invariant
                n == v@.len(),
                0 <= j <= i < n,
                forall|x: CharSet| #[trigger] v@.contains(x) <==> orig.contains(x),
                v@.to_multiset() == orig.to_multiset(),
                forall|a: int, b: int| 0 <= a < b <= i && a != j && b != j ==> seg_le(v@[a], v@[b], by_to),
                forall|a: int, b: int| 0 <= a < j && j < b <= i ==> seg_le(v@[a], v@[b], by_to),
                forall|b: int| j < b <= i ==> seg_le(v@[j as int], v@[b], by_to),
            decreases j,
        {
            let a = v[j - 1];
            let b = v[j];
            let ghost before = v@;
            v.set(j - 1, b);
            v.set(j, a);
            proof {
                let mid = before.update(j - 1, b);
                vstd::seq_lib::to_multiset_update(before, j - 1, b);
                vstd::seq_lib::to_multiset_update(mid, j as int, a);
                assert(v@ == mid.update(j as int, a));
                broadcast use vstd::multiset::group_multiset_axioms;
                assert(before[j - 1] == a && before[j as int] == b);
                assert(before.contains(a) && before.contains(b));
                vstd::seq_lib::to_multiset_contains(before, a);
                vstd::seq_lib::to_multiset_contains(before, b);
                assert(before.to_multiset().insert(b).remove(a).insert(a).remove(b) =~= before.to_multiset());
            }
            assert forall|x: CharSet| #[trigger] v@.contains(x) <==> before.contains(x) by {
                if v@.contains(x) {
                    let k = choose|k: int| 0 <= k < v@.len() && v@[k] == x;
                    if k == j - 1 {
                        assert(before[j as int] == x);
                    } else if k == j as int {
                        assert(before[j - 1] == x);
                    } else {
                        assert(before[k] == x);
                    }
                }
                if before.contains(x) {
                    let k = choose|k: int| 0 <= k < before.len() && before[k] == x;
                    if k == j - 1 {
                        assert(v@[j as int] == x);
                    } else if k == j as int {
                        assert(v@[j - 1] == x);
                    } else {
                        assert(v@[k] == x);
                    }
                }
            }
            j = j - 1;
        }
        assert forall|a: int, b: int| 0 <= a < b <= i implies seg_le(v@[a], v@[b], by_to) by {
            if b == j && a < j - 1 {
                assert(seg_le(v@[a], v@[j - 1], by_to));
            }
        }
        i = i + 1;
    }
}

fn seg_le_exec(a: CharSet, b: CharSet, by_to: bool) -> (res: bool)
    ensures
        res == seg_le(a, b, by_to),
{
    (a.fromChar as u32) < (b.fromChar as u32) || ((a.fromChar as u32) == (b.fromChar as u32) && (!by_to
        || (a.toChar as u32) <= (b.toChar as u32)))
}

/// The table after handing out set `index`, whose segments (numbered from 1)
/// are exactly `extra`.
pub open spec fn fresh_set(old_t: Seq<CharSet>, new_t: Seq<CharSet>, index: i32, extra: Seq<CharSet>) -> bool {
    &&& new_t == old_t + extra
    &&& forall|i: int| 0 <= i < extra.len() ==> (#[trigger] extra[i]).indexId == index && extra[i].segementId == i + 1
}

proof fn lemma_list_has_concat(a: Seq<CharSet>, b: Seq<CharSet>, c: char)
    ensures
        list_has(a + b, c) == (list_has(a, c) || list_has(b, c)),
{
    let ab = a + b;
    if list_has(ab, c) {
        let k = choose|k: int| 0 <= k < ab.len() && #[trigger] seg_has(ab[k], c);
        if k < a.len() {
            assert(seg_has(a[k], c));
        } else {
            assert(seg_has(b[k - a.len()], c));
        }
    }
    if list_has(a, c) {
        let k = choose|k: int| 0 <= k < a.len() && #[trigger] seg_has(a[k], c);
        assert(seg_has(ab[k], c));
    }
    if list_has(b, c) {
        let k = choose|k: int| 0 <= k < b.len() && #[trigger] seg_has(b[k], c);
        assert(seg_has(ab[k + a.len()], c));
    }
}

proof fn lemma_list_has_same_elems(a: Seq<CharSet>, b: Seq<CharSet>, c: char)
    requires
        forall|x: CharSet| #[trigger] a.contains(x) <==> b.contains(x),
    ensures
        list_has(a, c) == list_has(b, c),
{
    if list_has(a, c) {
        let k = choose|k: int| 0 <= k < a.len() && #[trigger] seg_has(a[k], c);
        assert(a.contains(a[k]));
        assert(b.contains(a[k]));
        let j = choose|j: int| 0 <= j < b.len() && b[j] == a[k];
        assert(seg_has(b[j], c));
    }
    if list_has(b, c) {
        let k = choose|k: int| 0 <= k < b.len() && #[trigger] seg_has(b[k], c);
        assert(b.contains(b[k]));
        assert(a.contains(b[k]));
        let j = choose|j: int| 0 <= j < a.len() && a[j] == b[k];
        assert(seg_has(a[j], c));
    }
}

proof fn lemma_segs_of_fresh(old_t: Seq<CharSet>, extra: Seq<CharSet>, id: i32)
    requires
        forall|i: int| 0 <= i < old_t.len() ==> (#[trigger] old_t[i]).indexId != id,
        forall|i: int| 0 <= i < extra.len() ==> (#[trigger] extra[i]).indexId == id,
    ensures
        segs_of(old_t + extra, id) == extra,
    decreases extra.len(),
{
    if extra.len() == 0 {
        assert(old_t + extra =~= old_t);
        lemma_segs_of_none(old_t, id);
    } else {
        lemma_segs_of_fresh(old_t, extra.drop_last(), id);
        assert((old_t + extra).drop_last() =~= old_t + extra.drop_last());
        assert(extra.drop_last().push(extra.last()) =~= extra);
    }
}

proof fn lemma_segs_of_none(segs: Seq<CharSet>, id: i32)
    requires
        forall|i: int| 0 <= i < segs.len() ==> (#[trigger] segs[i]).indexId != id,
    ensures
        segs_of(segs, id) == Seq::<CharSet>::empty(),
    decreases segs.len(),
{
    if segs.len() > 0 {
        lemma_segs_of_none(segs.drop_last(), id);
    }
}

proof fn lemma_segs_of_other(old_t: Seq<CharSet>, extra: Seq<CharSet>, id: i32)
    requires
        forall|i: int| 0 <= i < extra.len() ==> (#[trigger] extra[i]).indexId != id,
    ensures
        segs_of(old_t + extra, id) == segs_of(old_t, id),
    decreases extra.len(),
{
    if extra.len() == 0 {
        assert(old_t + extra =~= old_t);
    } else {
        lemma_segs_of_other(old_t, extra.drop_last(), id);
        assert((old_t + extra).drop_last() =~= old_t + extra.drop_last());
    }
}

/// The segments appended to `old_t` to give `new_t`.
pub open spec fn added(old_t: Seq<CharSet>, new_t: Seq<CharSet>) -> Seq<CharSet> {
    new_t.subrange(old_t.len() as int, new_t.len() as int)
}

/// What a caller learns about the table after a fresh set was added.
pub proof fn lemma_fresh_set_members(old_t: CharSetTable, new_t: Seq<CharSet>, index: i32, extra: Seq<CharSet>)
    requires
        table_wf(old_t),
        index == old_t.next_index,
        fresh_set(old_t.segments@, new_t, index, extra),
    ensures
        segs_of(new_t, index) == extra,
        forall|c: char| #[trigger] set_has(new_t, index, c) <==> list_has(extra, c),
        forall|id: i32| id != index ==> #[trigger] segs_of(new_t, id) == segs_of(old_t.segments@, id),
        forall|id: i32, c: char| id != index ==> #[trigger] set_has(new_t, id, c) == set_has(old_t.segments@, id, c),
{
    lemma_segs_of_fresh(old_t.segments@, extra, index);
    lemma_segs_of_members(new_t, index);
    assert forall|id: i32| id != index implies #[trigger] segs_of(new_t, id) == segs_of(old_t.segments@, id) by {
        lemma_segs_of_other(old_t.segments@, extra, id);
    }
    assert forall|id: i32, c: char| id != index implies #[trigger] set_has(new_t, id, c) == set_has(old_t.segments@, id, c) by {
        lemma_set_has_append(old_t.segments@, extra, id, c);
    }
}

/// A new set holding exactly the two characters `c1` and `c2`.
pub fn union_chars(t: &mut CharSetTable, c1: char, c2: char) -> (index: i32)
    requires
        old(t).next_index < i32::MAX,
    ensures
        index == old(t).next_index,
        final(t).next_index == old(t).next_index + 1,
        ({
            let (lo, hi) = if (c1 as u32) <= (c2 as u32) { (c1, c2) } else { (c2, c1) };
            final(t).segments@ == old(t).segments@ + (if lo == hi {
                seq![CharSet { indexId: index, segementId: 1, fromChar: lo, toChar: lo }]
            } else if (hi as u32) == (lo as u32) + 1 {
                seq![CharSet { indexId: index, segementId: 1, fromChar: lo, toChar: hi }]
            } else {
                seq![
                    CharSet { indexId: index, segementId: 1, fromChar: lo, toChar: lo },
                    CharSet { indexId: index, segementId: 2, fromChar: hi, toChar: hi },
                ]
            })
        }),
        table_wf(*old(t)) ==> table_wf(*final(t)),
        table_wf(*old(t)) ==> forall|c: char| #[trigger] set_has(final(t).segments@, index, c) <==> (c == c1 || c == c2),
        table_wf(*old(t)) ==> canonical(segs_of(final(t).segments@, index)),
{
    let ghost old_t = *t;
    let (lo, hi) = if (c1 as u32) <= (c2 as u32) { (c1, c2) } else { (c2, c1) };
    let index = next_char_set_index(t);
    if lo == hi {
        push_segment(t, index, 1, lo, lo);
    } else if (hi as u32) == (lo as u32) + 1 {
        push_segment(t, index, 1, lo, hi);
    } else {
        push_segment(t, index, 1, lo, lo);
        push_segment(t, index, 2, hi, hi);
    }
    proof {
        let extra = t.segments@.subrange(old_t.segments@.len() as int, t.segments@.len() as int);
        assert(t.segments@ =~= old_t.segments@ + extra);
        if table_wf(old_t) {
            lemma_fresh_set_members(old_t, t.segments@, index, extra);
            assert forall|c: char| #[trigger] set_has(t.segments@, index, c) <==> (c == c1 || c == c2) by {
                if list_has(extra, c) {
                    let k = choose|k: int| 0 <= k < extra.len() && #[trigger] seg_has(extra[k], c);
                    vstd::utf8::char_u32_cast(c, c as u32);
                    vstd::utf8::char_u32_cast(c1, c1 as u32);
                    vstd::utf8::char_u32_cast(c2, c2 as u32);
                }
                if c == c1 || c == c2 {
                    assert(seg_has(extra[0], c) || seg_has(extra[extra.len() - 1], c));
                }
            }
        }
    }
    index
}

/// Every segment of the list is non-empty.
pub open spec fn all_valid(l: Seq<CharSet>) -> bool {
    forall|i: int| 0 <= i < l.len() ==> (#[trigger] l[i]).fromChar as u32 <= l[i].toChar as u32
}

/// Union of two sets: a new set whose members are those of `char_set_id1`
/// and those of `char_set_id2`, stored in canonical form.
#[verifier::spinoff_prover]
#[verifier::rlimit(40)]
pub fn union_charsets(t: &mut CharSetTable, char_set_id1: i32, char_set_id2: i32) -> (index: i32)
    requires
        old(t).next_index < i32::MAX,
        segs_of(old(t).segments@, char_set_id1).len() + segs_of(old(t).segments@, char_set_id2).len() < i32::MAX,
    ensures
        index == old(t).next_index,
        final(t).next_index == old(t).next_index + 1,
        ({
            let extra = added(old(t).segments@, final(t).segments@);
            &&& fresh_set(old(t).segments@, final(t).segments@, index, extra)
            &&& extra.len() <= segs_of(old(t).segments@, char_set_id1).len() + segs_of(old(t).segments@, char_set_id2).len()
            &&& forall|c: char| #[trigger] list_has(extra, c) <==> (set_has(old(t).segments@, char_set_id1, c)
                || set_has(old(t).segments@, char_set_id2, c))
            &&& (all_valid(segs_of(old(t).segments@, char_set_id1)) && all_valid(segs_of(old(t).segments@, char_set_id2)))
                ==> canonical(extra)
        }),
{
    let ghost old_segs = t.segments@;
    let mut merged = segments_of(t, char_set_id1);
    let mut second = segments_of(t, char_set_id2);
    let ghost s1 = merged@;
    let ghost s2 = second@;
    merged.append(&mut second);
    let ghost unsorted = merged@;
    assert(unsorted == s1 + s2);
    sort_segments(&mut merged, true);
    proof {
        lemma_segs_of_members(old_segs, char_set_id1);
        lemma_segs_of_members(old_segs, char_set_id2);
        assert forall|c: char| #[trigger] list_has(merged@, c) <==> (set_has(old_segs, char_set_id1, c)
            || set_has(old_segs, char_set_id2, c)) by {
            lemma_list_has_same_elems(merged@, unsorted, c);
            lemma_list_has_concat(s1, s2, c);
        }
        if all_valid(s1) && all_valid(s2) {
            assert forall|i: int| 0 <= i < merged@.len() implies (#[trigger] merged@[i]).fromChar as u32
                <= merged@[i].toChar as u32 by {
                assert(merged@.contains(merged@[i]));
                assert(unsorted.contains(merged@[i]));
                let j = choose|j: int| 0 <= j < unsorted.len() && unsorted[j] == merged@[i];
                if j < s1.len() {
                    assert(unsorted[j] == s1[j]);
                } else {
                    assert(unsorted[j] == s2[j - s1.len()]);
                }
            }
        }
    }
    let new_index = next_char_set_index(t);
    let mut segement_id: i32 = 1;
    let n = merged.len();
    if n == 0 {
        proof {
            let extra = Seq::<CharSet>::empty();
            assert(t.segments@ =~= old_segs + extra);
            assert forall|c: char| #[trigger] list_has(extra, c) <==> (set_has(old_segs, char_set_id1, c)
                || set_has(old_segs, char_set_id2, c)) by {
                assert(!list_has(merged@, c));
            }
            assert(fresh_set(old_segs, t.segments@, new_index, extra));
            assert(added(old_segs, t.segments@) =~= extra);
        }
        return new_index;
    }
    let ghost valid = all_valid(merged@);
    let mut current = merged[0];
    let ghost mut out: Seq<CharSet> = Seq::empty();
    let mut k: usize = 1;
    proof {
        assert forall|c: char| (#[trigger] list_has(out, c) || seg_has(current, c)) <==> list_has(merged@.subrange(0, 1), c) by {
            if seg_has(current, c) {
                assert(seg_has(merged@.subrange(0, 1)[0], c));
            }
            if list_has(merged@.subrange(0, 1), c) {
                let z = choose|z: int| 0 <= z < 1 && #[trigger] seg_has(merged@.subrange(0, 1)[z], c);
            }
        }
        assert forall|j: int| 1 <= j < n implies (current.fromChar as u32) <= (#[trigger] merged@[j]).fromChar as u32 by {
            assert(seg_le(merged@[0], merged@[j], true));
        }
    }
    while k < n
        invariant
            n == merged@.len(),
            1 <= k <= n,
            t.segments@ == old_segs + out,
            t.next_index == new_index + 1,
            segement_id == out.len() + 1,
            out.len() < k,
            n < i32::MAX,
            forall|i: int| 0 <= i < out.len() ==> (#[trigger] out[i]).indexId == new_index && out[i].segementId == i + 1,
            forall|c: char| (#[trigger] list_has(out, c) || seg_has(current, c)) <==> list_has(merged@.subrange(0, k as int), c),
            forall|j: int| k <= j < n ==> (current.fromChar as u32) <= (#[trigger] merged@[j]).fromChar as u32,
            forall|a: int, b: int| 0 <= a < b < n ==> seg_le(merged@[a], merged@[b], true),
            valid == all_valid(merged@),
            valid ==> current.fromChar as u32 <= current.toChar as u32,
            valid ==> canonical(out),
            valid ==> forall|i: int| 0 <= i < out.len() ==> ((#[trigger] out[i]).toChar as u32) + 1 < current.fromChar as u32,
        decreases n - k,
    {
        let seg = merged[k];
        let ghost prev_out = out;
        let ghost prev_cur = current;
        assert(merged@.subrange(0, k + 1) =~= merged@.subrange(0, k as int).push(seg));
        assert(forall|c: char| list_has(out, c) || seg_has(prev_cur, c) <==> list_has(merged@.subrange(0, k as int), c));
        // The scalar after `current.toChar`, when one exists, bounds the
        // starts that can be merged; past the surrogate gap or the last
        // scalar the bound is `current.toChar` itself.  Both read as
        // `from <= to + 1` because `seg.fromChar` is a scalar.
        if (seg.fromChar as u32) <= (current.toChar as u32) + 1 {
            if (seg.toChar as u32) > (current.toChar as u32) {
                current.toChar = seg.toChar;
            }
            proof {
                assert forall|c: char| (#[trigger] list_has(out, c) || seg_has(current, c)) <==> list_has(
                    merged@.subrange(0, k + 1),
                    c,
                ) by {
                    lemma_list_has_concat(merged@.subrange(0, k as int), seq![seg], c);
                    assert(merged@.subrange(0, k as int) + seq![seg] =~= merged@.subrange(0, k + 1));
                    if seg_has(seg, c) {
                        assert(seg_has(seq![seg][0], c));
                    }
                    if list_has(seq![seg], c) {
                        let z = choose|z: int| 0 <= z < 1 && #[trigger] seg_has(seq![seg][z], c);
                    }
                    assert(list_has(out, c) || seg_has(prev_cur, c) <==> list_has(merged@.subrange(0, k as int), c));
                }
                if valid {
                    assert(seg.fromChar as u32 <= seg.toChar as u32);
                }
            }
        } else {
            proof {
                out = out.push(CharSet { indexId: new_index, segementId: segement_id, fromChar: current.fromChar, toChar: current.toChar });
            }
            push_segment(t, new_index, segement_id, current.fromChar, current.toChar);
            segement_id = segement_id + 1;
            current = seg;
            proof {
                assert(t.segments@ =~= old_segs + out);
                assert forall|c: char| (#[trigger] list_has(out, c) || seg_has(current, c)) <==> list_has(
                    merged@.subrange(0, k + 1),
                    c,
                ) by {
                    lemma_list_has_concat(merged@.subrange(0, k as int), seq![seg], c);
                    let lab = out.last();
                    lemma_list_has_concat(prev_out, seq![lab], c);
                    assert(prev_out + seq![lab] =~= out);
                    assert(merged@.subrange(0, k as int) + seq![seg] =~= merged@.subrange(0, k + 1));
                    if seg_has(seg, c) {
                        assert(seg_has(seq![seg][0], c));
                    }
                    if list_has(seq![seg], c) {
                        let z = choose|z: int| 0 <= z < 1 && #[trigger] seg_has(seq![seg][z], c);
                    }
                    if seg_has(prev_cur, c) {
                        assert(seg_has(seq![lab][0], c));
                    }
                    if list_has(seq![lab], c) {
                        let z = choose|z: int| 0 <= z < 1 && #[trigger] seg_has(seq![lab][z], c);
                    }
                    assert(list_has(prev_out, c) || seg_has(prev_cur, c) <==> list_has(merged@.subrange(0, k as int), c));
                }
                assert forall|j: int| k + 1 <= j < n implies (current.fromChar as u32) <= (#[trigger] merged@[j]).fromChar as u32 by {
                    assert(seg_le(merged@[k as int], merged@[j], true));
                }
                if valid {
                    assert(seg.fromChar as u32 <= seg.toChar as u32);
                    assert forall|a: int, b: int| 0 <= a < b < out.len() implies ((#[trigger] out[a]).toChar as u32) + 1
                        < (#[trigger] out[b]).fromChar as u32 by {
                        if b < prev_out.len() {
                            assert(out[a] == prev_out[a] && out[b] == prev_out[b]);
                        } else {
                            assert(out[a] == prev_out[a]);
                        }
                    }
                }
            }
        }
        k = k + 1;
    }
    let ghost loop_out = out;
    assert(merged@.subrange(0, n as int) =~= merged@);
    assert(forall|c: char| list_has(loop_out, c) || seg_has(current, c) <==> list_has(merged@, c));
    proof {
        out = out.push(CharSet { indexId: new_index, segementId: segement_id, fromChar: current.fromChar, toChar: current.toChar });
    }
    push_segment(t, new_index, segement_id, current.fromChar, current.toChar);
    proof {
        assert(t.segments@ =~= old_segs + out);
        assert(loop_out =~= out.drop_last());
        assert(fresh_set(old_segs, t.segments@, new_index, out));
        assert(added(old_segs, t.segments@) =~= out);
        assert forall|c: char| #[trigger] list_has(out, c) <==> (set_has(old_segs, char_set_id1, c)
            || set_has(old_segs, char_set_id2, c)) by {
            let prev_out = out.drop_last();
            let lab = out.last();
            assert(prev_out + seq![lab] =~= out);
            lemma_list_has_concat(prev_out, seq![lab], c);
            if seg_has(current, c) {
                assert(seg_has(seq![lab][0], c));
            }
            if list_has(seq![lab], c) {
                let z = choose|z: int| 0 <= z < 1 && #[trigger] seg_has(seq![lab][z], c);
            }
            assert(list_has(prev_out, c) || seg_has(current, c) <==> list_has(merged@, c));
        }
        if all_valid(s1) && all_valid(s2) {
            let prev_out = out.drop_last();
            assert forall|a: int, b: int| 0 <= a < b < out.len() implies ((#[trigger] out[a]).toChar as u32) + 1
                < (#[trigger] out[b]).fromChar as u32 by {
                if b < prev_out.len() {
                    assert(out[a] == prev_out[a] && out[b] == prev_out[b]);
                } else {
                    assert(out[a] == prev_out[a]);
                }
            }
        }
    }
    new_index
}

/// The character with scalar value `v`, which must exist.
pub(crate) fn scalar_char(v: u32) -> (res: char)
    requires
        is_scalar(v as int),
    ensures
        res as u32 == v,
{
    match char_from_u32(v) {
        Some(ch) => ch,
        None => {
            proof {
                assert(false);
            }
            ' '
        },
    }
}

/// Removing `c` from set `id` would need a character next to the surrogate
/// gap that does not exist (the original's `char::from_u32(..).unwrap()`
/// fails there).
pub open spec fn diff_char_blocked(l: Seq<CharSet>, c: char) -> bool {
    exists|i: int|
        0 <= i < l.len() && ((c as u32 == 0xE000 && ((#[trigger] l[i]).fromChar as u32) < c as u32 && c as u32
            <= l[i].toChar as u32) || (c as u32 == 0xD7FF && (l[i].fromChar as u32) <= c as u32 && (c as u32)
            < l[i].toChar as u32))
}

proof fn lemma_seg_singleton(s: CharSet, c: char)
    ensures
        seq![s].len() == 1,
        list_has(seq![s], c) == seg_has(s, c),
{
    if seg_has(s, c) {
        assert(seg_has(seq![s][0], c));
    }
    if list_has(seq![s], c) {
        let z = choose|z: int| 0 <= z < 1 && #[trigger] seg_has(seq![s][z], c);
    }
}

/// Difference of a set and a character: a new set whose members are those of
/// `char_set_id` except `c`.
pub fn difference_charset_char(t: &mut CharSetTable, char_set_id: i32, c: char) -> (index: i32)
    requires
        old(t).next_index < i32::MAX,
        2 * segs_of(old(t).segments@, char_set_id).len() + 1 < i32::MAX,
        !diff_char_blocked(segs_of(old(t).segments@, char_set_id), c),
    ensures
        index == old(t).next_index,
        final(t).next_index == old(t).next_index + 1,
        ({
            let extra = added(old(t).segments@, final(t).segments@);
            &&& fresh_set(old(t).segments@, final(t).segments@, index, extra)
            &&& extra.len() <= 2 * segs_of(old(t).segments@, char_set_id).len()
            &&& forall|x: char| #[trigger] list_has(extra, x) <==> (set_has(old(t).segments@, char_set_id, x) && x != c)
            &&& canonical(segs_of(old(t).segments@, char_set_id)) ==> canonical(extra)
        }),
{
    let ghost old_segs = t.segments@;
    let segs = segments_of(t, char_set_id);
    proof {
        lemma_segs_of_members(old_segs, char_set_id);
    }
    let mut segement_id: i32 = 1;
    let new_index = next_char_set_index(t);
    let ghost canon = canonical(segs@);
    let ghost mut out: Seq<CharSet> = Seq::empty();
    let n = segs.len();
    let mut k: usize = 0;
    while k < n
        invariant
            n == segs@.len(),
            k <= n,
            2 * n + 1 < i32::MAX,
            segs@ == segs_of(old_segs, char_set_id),
            !diff_char_blocked(segs@, c),
            t.segments@ == old_segs + out,
            t.next_index == new_index + 1,
            segement_id == out.len() + 1,
            out.len() <= 2 * k,
            forall|i: int| 0 <= i < out.len() ==> (#[trigger] out[i]).indexId == new_index && out[i].segementId == i + 1,
            forall|x: char| #[trigger] list_has(out, x) <==> (list_has(segs@.subrange(0, k as int), x) && x != c),
            canon == canonical(segs@),
            canon ==> canonical(out),
            canon ==> forall|i: int, j: int| 0 <= i < out.len() && k <= j < n ==> ((#[trigger] out[i]).toChar as u32) + 1
                < (#[trigger] segs@[j]).fromChar as u32,
            canon ==> forall|i: int| 0 <= i < out.len() ==> (#[trigger] out[i]).fromChar as u32 <= out[i].toChar as u32,
        decreases n - k,
    {
        let seg = segs[k];
        let ghost prev_out = out;
        assert(segs@.subrange(0, k + 1) =~= segs@.subrange(0, k as int) + seq![seg]);
        assert(forall|x: char| #[trigger] list_has(prev_out, x) <==> (list_has(segs@.subrange(0, k as int), x) && x != c));
        let ghost mut piece: Seq<CharSet> = Seq::empty();
        proof {
            vstd::utf8::char_u32_cast(c, c as u32);
            vstd::utf8::char_u32_cast(seg.fromChar, seg.fromChar as u32);
            vstd::utf8::char_u32_cast(seg.toChar, seg.toChar as u32);
        }
        if (seg.toChar as u32) < (c as u32) || (seg.fromChar as u32) > (c as u32) {
            push_segment(t, new_index, segement_id, seg.fromChar, seg.toChar);
            proof {
                piece = seq![CharSet { indexId: new_index, segementId: segement_id, fromChar: seg.fromChar, toChar: seg.toChar }];
                assert(t.segments@ =~= old_segs + (prev_out + piece));
                assert forall|x: char| #[trigger] list_has(piece, x) <==> (seg_has(seg, x) && x != c) by {
                    lemma_seg_singleton(piece[0], x);
                }
            }
            segement_id = segement_id + 1;
        } else if seg.fromChar == seg.toChar {
            proof {
                assert(t.segments@ =~= old_segs + (prev_out + piece));
                assert forall|x: char| #[trigger] list_has(piece, x) <==> (seg_has(seg, x) && x != c) by {
                    if seg_has(seg, x) {
                        vstd::utf8::char_u32_cast(x, x as u32);
                        assert(x as u32 == c as u32);
                    }
                }
            }
        } else if seg.toChar == c {
            let below = scalar_char((c as u32) - 1);
            push_segment(t, new_index, segement_id, seg.fromChar, below);
            proof {
                piece = seq![CharSet { indexId: new_index, segementId: segement_id, fromChar: seg.fromChar, toChar: below }];
                assert(t.segments@ =~= old_segs + (prev_out + piece));
                assert forall|x: char| #[trigger] list_has(piece, x) <==> (seg_has(seg, x) && x != c) by {
                    lemma_seg_singleton(piece[0], x);
                    vstd::utf8::char_u32_cast(x, x as u32);
                }
            }
            segement_id = segement_id + 1;
        } else if seg.fromChar == c {
            let above = scalar_char((c as u32) + 1);
            push_segment(t, new_index, segement_id, above, seg.toChar);
            proof {
                piece = seq![CharSet { indexId: new_index, segementId: segement_id, fromChar: above, toChar: seg.toChar }];
                assert(t.segments@ =~= old_segs + (prev_out + piece));
                assert forall|x: char| #[trigger] list_has(piece, x) <==> (seg_has(seg, x) && x != c) by {
                    lemma_seg_singleton(piece[0], x);
                    vstd::utf8::char_u32_cast(x, x as u32);
                }
            }
            segement_id = segement_id + 1;
        } else {
            let below = scalar_char((c as u32) - 1);
            let above = scalar_char((c as u32) + 1);
            push_segment(t, new_index, segement_id, seg.fromChar, below);
            push_segment(t, new_index, segement_id + 1, above, seg.toChar);
            proof {
                let p0 = CharSet { indexId: new_index, segementId: segement_id, fromChar: seg.fromChar, toChar: below };
                let p1 = CharSet { indexId: new_index, segementId: (segement_id + 1) as i32, fromChar: above, toChar: seg.toChar };
                piece = seq![p0, p1];
                assert(t.segments@ =~= old_segs + (prev_out + piece));
                assert forall|x: char| #[trigger] list_has(piece, x) <==> (seg_has(seg, x) && x != c) by {
                    lemma_list_has_concat(seq![p0], seq![p1], x);
                    assert(seq![p0] + seq![p1] =~= piece);
                    lemma_seg_singleton(p0, x);
                    lemma_seg_singleton(p1, x);
                    vstd::utf8::char_u32_cast(x, x as u32);
                }
            }
            segement_id = segement_id + 2;
        }
        proof {
            out = prev_out + piece;
            assert forall|x: char| #[trigger] list_has(out, x) <==> (list_has(segs@.subrange(0, k + 1), x) && x != c) by {
                lemma_list_has_concat(prev_out, piece, x);
                lemma_list_has_concat(segs@.subrange(0, k as int), seq![seg], x);
                lemma_seg_singleton(seg, x);
            }
            if canon {
                assert(seg.fromChar as u32 <= seg.toChar as u32);
                assert forall|i: int, j: int| 0 <= i < out.len() && k + 1 <= j < n implies ((#[trigger] out[i]).toChar as u32) + 1
                    < (#[trigger] segs@[j]).fromChar as u32 by {
                    assert(((segs@[k as int]).toChar as u32) + 1 < segs@[j].fromChar as u32);
                    if i < prev_out.len() {
                        assert(out[i] == prev_out[i]);
                    } else {
                        assert(out[i] == piece[i - prev_out.len()]);
                    }
                }
                assert forall|a: int, b: int| 0 <= a < b < out.len() implies ((#[trigger] out[a]).toChar as u32) + 1
                    < (#[trigger] out[b]).fromChar as u32 by {
                    if b < prev_out.len() {
                        assert(out[a] == prev_out[a] && out[b] == prev_out[b]);
                    } else if a < prev_out.len() {
                        assert(out[a] == prev_out[a] && out[b] == piece[b - prev_out.len()]);
                    } else {
                        assert(out[a] == piece[a - prev_out.len()] && out[b] == piece[b - prev_out.len()]);
                    }
                }
                assert forall|i: int| 0 <= i < out.len() implies (#[trigger] out[i]).fromChar as u32 <= out[i].toChar as u32 by {
                    if i < prev_out.len() {
                        assert(out[i] == prev_out[i]);
                    } else {
                        assert(out[i] == piece[i - prev_out.len()]);
                    }
                }
            }
        }
        k = k + 1;
    }
    proof {
        assert(segs@.subrange(0, n as int) =~= segs@);
        assert(fresh_set(old_segs, t.segments@, new_index, out));
        assert(added(old_segs, t.segments@) =~= out);
    }
    new_index
}

proof fn lemma_sorted_no_dup(orig: Seq<CharSet>, sorted: Seq<CharSet>)
    requires
        orig.no_duplicates(),
        sorted.to_multiset() == orig.to_multiset(),
    ensures
        sorted.no_duplicates(),
{
    orig.lemma_multiset_has_no_duplicates();
    sorted.lemma_multiset_has_no_duplicates_conv();
}

/// In a start-sorted list of disjoint segments none of which holds `c`, a
/// segment ending just before `c` is immediately followed by any segment
/// starting just after `c`.
proof fn lemma_adjacent_around(l: Seq<CharSet>, a: int, b: int, c: char)
    requires
        disjoint_valid(l),
        l.no_duplicates(),
        forall|i: int, j: int| 0 <= i < j < l.len() ==> seg_le(l[i], l[j], false),
        forall|i: int| 0 <= i < l.len() ==> !#[trigger] seg_has(l[i], c),
        0 <= a < l.len(),
        0 <= b < l.len(),
        (l[a].toChar as u32) + 1 == c as u32,
        l[b].fromChar as u32 == (c as u32) + 1,
    ensures
        b == a + 1,
{
    if b <= a {
        assert(seg_le(l[b], l[a], false) || b == a);
    }
    if b > a + 1 {
        let x = l[a + 1];
        assert(seg_le(l[a], x, false));
        assert(seg_le(x, l[b], false));
        assert(!seg_has(x, c));
    }
}

/// `s` ends right before `c`.
pub open spec fn ends_before(s: CharSet, c: char) -> bool {
    (s.toChar as u32) + 1 == c as u32
}

/// `s` starts right after `c`.
pub open spec fn starts_after(s: CharSet, c: char) -> bool {
    s.fromChar as u32 == (c as u32) + 1
}

/// Valid segments, no two of which share or border on a character: each
/// pair is separated by at least one character that neither holds.
pub open spec fn apart(l: Seq<CharSet>) -> bool {
    &&& forall|i: int| 0 <= i < l.len() ==> (#[trigger] l[i]).fromChar as u32 <= l[i].toChar as u32
    &&& forall|i: int, j: int|
        0 <= i < l.len() && 0 <= j < l.len() && i != j ==> ((#[trigger] l[i]).toChar as u32) + 1 < (#[trigger] l[j]).fromChar as u32
            || (l[j].toChar as u32) + 1 < l[i].fromChar as u32
}

proof fn lemma_canonical_apart(l: Seq<CharSet>)
    requires
        canonical(l),
    ensures
        apart(l),
{
    assert forall|i: int, j: int| 0 <= i < l.len() && 0 <= j < l.len() && i != j implies ((#[trigger] l[i]).toChar as u32) + 1
        < (#[trigger] l[j]).fromChar as u32 || (l[j].toChar as u32) + 1 < l[i].fromChar as u32 by {
        if i < j {
        } else {
        }
    }
}

proof fn lemma_canonical_push(l: Seq<CharSet>, s: CharSet)
    requires
        canonical(l),
        s.fromChar as u32 <= s.toChar as u32,
        l.len() > 0 ==> (l.last().toChar as u32) + 1 < s.fromChar as u32,
    ensures
        canonical(l.push(s)),
{
    let m = l.push(s);
    assert forall|i: int, j: int| 0 <= i < j < m.len() implies ((#[trigger] m[i]).toChar as u32) + 1 < (#[trigger] m[j]).fromChar as u32 by {
        if j == l.len() {
            if i < l.len() - 1 {
                assert((l[i].toChar as u32) + 1 < l[l.len() - 1].fromChar as u32);
                assert(l[l.len() - 1].fromChar as u32 <= l[l.len() - 1].toChar as u32);
            }
        } else {
            assert(m[i] == l[i] && m[j] == l[j]);
        }
    }
    assert forall|i: int| 0 <= i < m.len() implies (#[trigger] m[i]).fromChar as u32 <= m[i].toChar as u32 by {
        if i < l.len() {
            assert(m[i] == l[i]);
        }
    }
}

/// Segment `s` with its start moved to `c` where it starts right after `c`
/// (`right`), or its end moved to `c` where it ends right before `c`
/// (`left`).
pub open spec fn widened(s: CharSet, c: char, left: bool, right: bool) -> (char, char) {
    (
        if !left && right && starts_after(s, c) { c } else { s.fromChar },
        if left && ends_before(s, c) { c } else { s.toChar },
    )
}

proof fn lemma_apart_widened(src: Seq<CharSet>, out: Seq<CharSet>, c: char, left: bool, right: bool)
    requires
        apart(src),
        !(left && right),
        forall|i: int| 0 <= i < src.len() ==> !#[trigger] seg_has(src[i], c),
        !left ==> forall|i: int| 0 <= i < src.len() ==> !#[trigger] ends_before(src[i], c),
        !right ==> forall|i: int| 0 <= i < src.len() ==> !#[trigger] starts_after(src[i], c),
        out.len() == src.len() + (if !left && !right { 1int } else { 0int }),
        forall|i: int| 0 <= i < src.len() ==> ((#[trigger] out[i]).fromChar, out[i].toChar) == widened(src[i], c, left, right),
        !left && !right ==> out[src.len() as int].fromChar == c && out[src.len() as int].toChar == c,
    ensures
        apart(out),
{
    let n = src.len() as int;
    assert forall|i: int| 0 <= i < out.len() implies (#[trigger] out[i]).fromChar as u32 <= out[i].toChar as u32 by {
        if i < n {
            assert(!seg_has(src[i], c));
            assert(src[i].fromChar as u32 <= src[i].toChar as u32);
        }
    }
    assert forall|i: int, j: int| 0 <= i < out.len() && 0 <= j < out.len() && i != j implies ((#[trigger] out[i]).toChar as u32) + 1
        < (#[trigger] out[j]).fromChar as u32 || (out[j].toChar as u32) + 1 < out[i].fromChar as u32 by {
        if i < n && j < n {
            let a = src[i];
            let b = src[j];
            assert(!seg_has(a, c) && !seg_has(b, c));
            assert((a.toChar as u32) + 1 < b.fromChar as u32 || (b.toChar as u32) + 1 < a.fromChar as u32);
            assert(a.fromChar as u32 <= a.toChar as u32);
            assert(b.fromChar as u32 <= b.toChar as u32);
            if !left {
                assert(!ends_before(a, c) && !ends_before(b, c));
            }
            if !right {
                assert(!starts_after(a, c) && !starts_after(b, c));
            }
            assert((out[i].fromChar, out[i].toChar) == widened(a, c, left, right));
            assert((out[j].fromChar, out[j].toChar) == widened(b, c, left, right));
        } else if i < n {
            assert(!seg_has(src[i], c));
            assert(!ends_before(src[i], c) && !starts_after(src[i], c));
        } else {
            assert(!seg_has(src[j], c));
            assert(!ends_before(src[j], c) && !starts_after(src[j], c));
        }
    }
}

/// Union of a set and a character: a new set holding the members of
/// `char_set_id` and `c`. A segment next to `c` is widened to take it in
/// (the two around it, when both are, become one); otherwise `c` is added as
/// a segment of its own after the others. Segments that are apart stay apart.
pub fn union_charset_char(t: &mut CharSetTable, char_set_id: i32, c: char) -> (index: i32)
    requires
        old(t).next_index < i32::MAX,
        segs_of(old(t).segments@, char_set_id).len() + 1 < i32::MAX,
    ensures
        index == old(t).next_index,
        final(t).next_index == old(t).next_index + 1,
        ({
            let extra = added(old(t).segments@, final(t).segments@);
            &&& fresh_set(old(t).segments@, final(t).segments@, index, extra)
            &&& extra.len() <= segs_of(old(t).segments@, char_set_id).len() + 1
            &&& disjoint_valid(segs_of(old(t).segments@, char_set_id)) ==> forall|x: char| #[trigger] list_has(extra, x)
                <==> (set_has(old(t).segments@, char_set_id, x) || x == c)
            &&& apart(segs_of(old(t).segments@, char_set_id)) ==> apart(extra)
        }),
{
    let ghost old_segs = t.segments@;
    let src = segments_of(t, char_set_id);
    proof {
        lemma_segs_of_members(old_segs, char_set_id);
    }
    let ghost dv = disjoint_valid(src@);
    let ghost ap = apart(src@);
    let mut segments: Vec<CharSet> = Vec::new();
    let mut is_contain = false;
    let mut left_next = false;
    let mut right_next = false;
    let n = src.len();
    let mut k: usize = 0;
    while k < n
        invariant
            n == src@.len(),
            k <= n,
            segments@ == src@.subrange(0, k as int),
            is_contain ==> exists|i: int| 0 <= i < n && #[trigger] seg_has(src@[i], c),
            !is_contain ==> forall|i: int| 0 <= i < k ==> !#[trigger] seg_has(src@[i], c),
            left_next ==> exists|i: int| 0 <= i < n && #[trigger] ends_before(src@[i], c),
            !left_next ==> forall|i: int| 0 <= i < k ==> !#[trigger] ends_before(src@[i], c),
            right_next ==> exists|i: int| 0 <= i < n && #[trigger] starts_after(src@[i], c),
            !right_next ==> forall|i: int| 0 <= i < k ==> !#[trigger] starts_after(src@[i], c),
        decreases n - k,
    {
        let seg = src[k];
        if (seg.fromChar as u32) <= (c as u32) && (seg.toChar as u32) >= (c as u32) {
            is_contain = true;
            assert(seg_has(src@[k as int], c));
        }
        // `fromChar - 1 == c` with the subtraction wrapping at 0, which no
        // character then equals.
        if (seg.fromChar as u32) == (c as u32) + 1 {
            right_next = true;
            assert(starts_after(src@[k as int], c));
        }
        if (seg.toChar as u32) + 1 == (c as u32) {
            left_next = true;
            assert(ends_before(src@[k as int], c));
        }
        segments.push(seg);
        k = k + 1;
        assert(segments@ =~= src@.subrange(0, k as int));
    }
    assert(segments@ =~= src@);
    let new_index = next_char_set_index(t);
    let mut segement_id: i32 = 1;
    let ghost mut out: Seq<CharSet> = Seq::empty();
    if is_contain {
        let mut k: usize = 0;
        while k < n
            invariant
                n == segments@.len(),
                segments@ == src@,
                k <= n,
                n + 1 < i32::MAX,
                t.segments@ == old_segs + out,
                t.next_index == new_index + 1,
                segement_id == out.len() + 1,
                out.len() == k,
                forall|i: int| 0 <= i < out.len() ==> (#[trigger] out[i]).indexId == new_index && out[i].segementId == i + 1,
                forall|x: char| #[trigger] list_has(out, x) <==> list_has(src@.subrange(0, k as int), x),
                forall|i: int| 0 <= i < out.len() ==> (#[trigger] out[i]).fromChar == src@[i].fromChar && out[i].toChar == src@[i].toChar,
            decreases n - k,
        {
            let seg = segments[k];
            let ghost prev = out;
            push_segment(t, new_index, segement_id, seg.fromChar, seg.toChar);
            proof {
                let lab = CharSet { indexId: new_index, segementId: segement_id, fromChar: seg.fromChar, toChar: seg.toChar };
                out = prev.push(lab);
                assert(t.segments@ =~= old_segs + out);
                assert forall|x: char| #[trigger] list_has(out, x) <==> list_has(src@.subrange(0, k + 1), x) by {
                    assert(prev + seq![lab] =~= out);
                    assert(src@.subrange(0, k as int) + seq![seg] =~= src@.subrange(0, k + 1));
                    lemma_list_has_concat(prev, seq![lab], x);
                    lemma_list_has_concat(src@.subrange(0, k as int), seq![seg], x);
                    lemma_seg_singleton(lab, x);
                    lemma_seg_singleton(seg, x);
                }
            }
            segement_id = segement_id + 1;
            k = k + 1;
        }
        proof {
            assert(src@.subrange(0, n as int) =~= src@);
            let i = choose|i: int| 0 <= i < n && #[trigger] seg_has(src@[i], c);
            assert forall|x: char| #[trigger] list_has(out, x) <==> (set_has(old_segs, char_set_id, x) || x == c) by {
                if x == c {
                    assert(list_has(src@, c));
                }
            }
            assert(added(old_segs, t.segments@) =~= out);
            if ap {
                assert forall|i: int, j: int| 0 <= i < out.len() && 0 <= j < out.len() && i != j implies ((#[trigger] out[i]).toChar
                    as u32) + 1 < (#[trigger] out[j]).fromChar as u32 || (out[j].toChar as u32) + 1 < out[i].fromChar as u32 by {
                    assert(src@[i].toChar as u32 + 1 < src@[j].fromChar as u32 || (src@[j].toChar as u32) + 1 < src@[i].fromChar as u32);
                }
                assert forall|i: int| 0 <= i < out.len() implies (#[trigger] out[i]).fromChar as u32 <= out[i].toChar as u32 by {
                    assert(src@[i].fromChar as u32 <= src@[i].toChar as u32);
                }
            }
        }
        return new_index;
    }
    if left_next && right_next {
        sort_segments(&mut segments, false);
        let ghost sorted = segments@;
        proof {
            if dv {
                assert forall|i: int, j: int| 0 <= i < src@.len() && 0 <= j < src@.len() && i != j implies src@[i] != src@[j] by {
                    assert(((src@[i]).toChar as u32) < (src@[j]).fromChar as u32 || (src@[j].toChar as u32) < src@[i].fromChar as u32);
                }
                lemma_sorted_no_dup(src@, sorted);
                assert forall|i: int| 0 <= i < sorted.len() implies !#[trigger] seg_has(sorted[i], c) by {
                    assert(sorted.contains(sorted[i]));
                    assert(src@.contains(sorted[i]));
                }
                assert forall|i: int| 0 <= i < sorted.len() implies (#[trigger] sorted[i]).fromChar as u32 <= sorted[i].toChar as u32 by {
                    assert(sorted.contains(sorted[i]));
                    assert(src@.contains(sorted[i]));
                }
                assert forall|i: int, j: int| 0 <= i < sorted.len() && 0 <= j < sorted.len() && i != j implies ((#[trigger] sorted[i]).toChar as u32)
                    < (#[trigger] sorted[j]).fromChar as u32 || (sorted[j].toChar as u32) < sorted[i].fromChar as u32 by {
                    assert(sorted.contains(sorted[i]));
                    assert(src@.contains(sorted[i]));
                    assert(sorted.contains(sorted[j]));
                    assert(src@.contains(sorted[j]));
                    let p = choose|p: int| 0 <= p < src@.len() && src@[p] == sorted[i];
                    let q = choose|q: int| 0 <= q < src@.len() && src@[q] == sorted[j];
                }
            }
        }
        proof {
            if ap {
                assert(dv);
                assert forall|a: int, b: int| 0 <= a < b < sorted.len() implies ((#[trigger] sorted[a]).toChar as u32) + 1
                    < (#[trigger] sorted[b]).fromChar as u32 by {
                    assert(seg_le(sorted[a], sorted[b], false));
                    assert(sorted[a] != sorted[b]);
                    assert(sorted.contains(sorted[a]) && sorted.contains(sorted[b]));
                    assert(src@.contains(sorted[a]) && src@.contains(sorted[b]));
                    let p = choose|p: int| 0 <= p < src@.len() && src@[p] == sorted[a];
                    let q = choose|q: int| 0 <= q < src@.len() && src@[q] == sorted[b];
                    assert(p != q);
                    assert((src@[p].toChar as u32) + 1 < src@[q].fromChar as u32 || (src@[q].toChar as u32) + 1 < src@[p].fromChar as u32);
                    assert(src@[q].fromChar as u32 <= src@[q].toChar as u32);
                }
                assert(canonical(sorted));
            }
        }
        let ghost mut merged_c = false;
        let mut idx: usize = 0;
        while idx < n
            invariant
                n == segments@.len(),
                n == src@.len(),
                segments@ == sorted,
                idx <= n,
                n + 1 < i32::MAX,
                right_next,
                right_next ==> exists|i: int| 0 <= i < n && #[trigger] starts_after(src@[i], c),
                forall|x: CharSet| #[trigger] sorted.contains(x) <==> src@.contains(x),
                forall|a: int, b: int| 0 <= a < b < n ==> seg_le(sorted[a], sorted[b], false),
                t.segments@ == old_segs + out,
                t.next_index == new_index + 1,
                segement_id == out.len() + 1,
                out.len() <= idx,
                forall|i: int| 0 <= i < out.len() ==> (#[trigger] out[i]).indexId == new_index && out[i].segementId == i + 1,
                dv ==> forall|x: char| #[trigger] list_has(out, x) <==> (list_has(sorted.subrange(0, idx as int), x) || (merged_c && x == c)),
                dv && !merged_c ==> forall|j: int| 0 <= j < idx ==> !#[trigger] ends_before(sorted[j], c),
                dv ==> disjoint_valid(sorted) && sorted.no_duplicates(),
                dv ==> forall|i: int| 0 <= i < sorted.len() ==> !#[trigger] seg_has(sorted[i], c),
                ap ==> dv && canonical(sorted) && canonical(out),
                ap && out.len() > 0 && idx < n ==> (out.last().toChar as u32) + 1 < sorted[idx as int].fromChar as u32,
            decreases n - idx,
        {
            let ghost prev = out;
            let cur = segments[idx];
            if (cur.toChar as u32) + 1 == (c as u32) && idx + 1 < n && (segments[idx + 1].fromChar as u32) == (c as u32) + 1 {
                let nxt = segments[idx + 1];
                push_segment(t, new_index, segement_id, cur.fromChar, nxt.toChar);
                proof {
                    let lab = CharSet { indexId: new_index, segementId: segement_id, fromChar: cur.fromChar, toChar: nxt.toChar };
                    out = prev.push(lab);
                    merged_c = true;
                    assert(t.segments@ =~= old_segs + out);
                    if ap {
                        assert((cur.toChar as u32) + 1 < nxt.fromChar as u32);
                        assert(cur.fromChar as u32 <= cur.toChar as u32 && nxt.fromChar as u32 <= nxt.toChar as u32);
                        lemma_canonical_push(prev, lab);
                        if idx + 2 < n {
                            assert((sorted[idx + 1].toChar as u32) + 1 < sorted[idx + 2].fromChar as u32);
                        }
                    }
                    if dv {
                        assert(nxt.fromChar as u32 <= nxt.toChar as u32);
                        assert(cur.fromChar as u32 <= cur.toChar as u32);
                        assert forall|x: char| #[trigger] list_has(out, x) <==> (list_has(sorted.subrange(0, idx + 2), x) || (merged_c && x == c)) by {
                            assert(prev + seq![lab] =~= out);
                            assert(sorted.subrange(0, idx as int) + seq![cur, nxt] =~= sorted.subrange(0, idx + 2));
                            assert(seq![cur] + seq![nxt] =~= seq![cur, nxt]);
                            lemma_list_has_concat(prev, seq![lab], x);
                            lemma_list_has_concat(sorted.subrange(0, idx as int), seq![cur, nxt], x);
                            lemma_list_has_concat(seq![cur], seq![nxt], x);
                            lemma_seg_singleton(lab, x);
                            lemma_seg_singleton(cur, x);
                            lemma_seg_singleton(nxt, x);
                            vstd::utf8::char_u32_cast(x, x as u32);
                            vstd::utf8::char_u32_cast(c, c as u32);
                        }
                    }
                }
                segement_id = segement_id + 1;
                idx = idx + 2;
            } else {
                push_segment(t, new_index, segement_id, cur.fromChar, cur.toChar);
                proof {
                    let lab = CharSet { indexId: new_index, segementId: segement_id, fromChar: cur.fromChar, toChar: cur.toChar };
                    out = prev.push(lab);
                    assert(t.segments@ =~= old_segs + out);
                    if ap {
                        assert(cur.fromChar as u32 <= cur.toChar as u32);
                        lemma_canonical_push(prev, lab);
                        if idx + 1 < n {
                            assert((sorted[idx as int].toChar as u32) + 1 < sorted[idx + 1].fromChar as u32);
                        }
                    }
                    if dv {
                        assert forall|x: char| #[trigger] list_has(out, x) <==> (list_has(sorted.subrange(0, idx + 1), x) || (merged_c && x == c)) by {
                            assert(prev + seq![lab] =~= out);
                            assert(sorted.subrange(0, idx as int) + seq![cur] =~= sorted.subrange(0, idx + 1));
                            lemma_list_has_concat(prev, seq![lab], x);
                            lemma_list_has_concat(sorted.subrange(0, idx as int), seq![cur], x);
                            lemma_seg_singleton(lab, x);
                            lemma_seg_singleton(cur, x);
                        }
                        if !merged_c && ends_before(cur, c) {
                            // A segment starting right after `c` exists, and it
                            // must follow `cur` directly.
                            let b0 = choose|i: int| 0 <= i < n && #[trigger] starts_after(src@[i], c);
                            assert(src@.contains(src@[b0]));
                            assert(sorted.contains(src@[b0]));
                            let b = choose|b: int| 0 <= b < sorted.len() && sorted[b] == src@[b0];
                            lemma_adjacent_around(sorted, idx as int, b, c);
                        }
                    }
                }
                segement_id = segement_id + 1;
                idx = idx + 1;
            }
        }
        proof {
            assert(sorted.subrange(0, n as int) =~= sorted);
            if dv {
                let a0 = choose|i: int| 0 <= i < n && #[trigger] ends_before(src@[i], c);
                assert(src@.contains(src@[a0]));
                assert(sorted.contains(src@[a0]));
                let a = choose|a: int| 0 <= a < sorted.len() && sorted[a] == src@[a0];
                assert(ends_before(sorted[a], c));
                assert(merged_c);
                assert forall|x: char| #[trigger] list_has(out, x) <==> (set_has(old_segs, char_set_id, x) || x == c) by {
                    lemma_list_has_same_elems(sorted, src@, x);
                }
            }
            if ap {
                lemma_canonical_apart(out);
            }
            assert(added(old_segs, t.segments@) =~= out);
        }
        return new_index;
    }
    let ghost mut hit = false;
    let mut k: usize = 0;
    while k < n
        invariant
            n == segments@.len(),
            segments@ == src@,
            k <= n,
            n + 1 < i32::MAX,
            !(left_next && right_next),
            t.segments@ == old_segs + out,
            t.next_index == new_index + 1,
            segement_id == out.len() + 1,
            out.len() == k,
            forall|i: int| 0 <= i < out.len() ==> (#[trigger] out[i]).indexId == new_index && out[i].segementId == i + 1,
            dv ==> forall|x: char| #[trigger] list_has(out, x) <==> (list_has(src@.subrange(0, k as int), x) || (hit && x == c)),
            hit ==> (left_next || right_next),
            !hit && left_next ==> forall|i: int| 0 <= i < k ==> !#[trigger] ends_before(src@[i], c),
            !hit && right_next ==> forall|i: int| 0 <= i < k ==> !#[trigger] starts_after(src@[i], c),
            dv ==> all_valid(src@),
            forall|i: int| 0 <= i < n ==> !#[trigger] seg_has(src@[i], c),
            !left_next ==> forall|i: int| 0 <= i < n ==> !#[trigger] ends_before(src@[i], c),
            !right_next ==> forall|i: int| 0 <= i < n ==> !#[trigger] starts_after(src@[i], c),
            forall|i: int| 0 <= i < out.len() ==> ((#[trigger] out[i]).fromChar, out[i].toChar) == widened(src@[i], c, left_next, right_next),
        decreases n - k,
    {
        let mut seg = segments[k];
        let ghost orig_seg = seg;
        let ghost prev_hit = hit;
        if left_next {
            if (seg.toChar as u32) + 1 == (c as u32) {
                seg.toChar = c;
                proof {
                    hit = true;
                }
            }
        } else if right_next {
            if (seg.fromChar as u32) == (c as u32) + 1 {
                seg.fromChar = c;
                proof {
                    hit = true;
                }
            }
        }
        let ghost prev = out;
        push_segment(t, new_index, segement_id, seg.fromChar, seg.toChar);
        proof {
            let lab = CharSet { indexId: new_index, segementId: segement_id, fromChar: seg.fromChar, toChar: seg.toChar };
            out = prev.push(lab);
            assert(t.segments@ =~= old_segs + out);
            if dv {
                assert(orig_seg.fromChar as u32 <= orig_seg.toChar as u32);
                assert forall|x: char| #[trigger] list_has(out, x) <==> (list_has(src@.subrange(0, k + 1), x) || (hit && x == c)) by {
                    assert(prev + seq![lab] =~= out);
                    assert(src@.subrange(0, k as int) + seq![orig_seg] =~= src@.subrange(0, k + 1));
                    lemma_list_has_concat(prev, seq![lab], x);
                    lemma_list_has_concat(src@.subrange(0, k as int), seq![orig_seg], x);
                    lemma_seg_singleton(lab, x);
                    lemma_seg_singleton(orig_seg, x);
                    vstd::utf8::char_u32_cast(x, x as u32);
                    vstd::utf8::char_u32_cast(c, c as u32);
                }
            }
        }
        segement_id = segement_id + 1;
        k = k + 1;
    }
    assert(src@.subrange(0, n as int) =~= src@);
    if !left_next && !right_next {
        let ghost prev = out;
        push_segment(t, new_index, segement_id, c, c);
        proof {
            let lab = CharSet { indexId: new_index, segementId: segement_id, fromChar: c, toChar: c };
            out = prev.push(lab);
            assert(t.segments@ =~= old_segs + out);
            if dv {
                assert forall|x: char| #[trigger] list_has(out, x) <==> (set_has(old_segs, char_set_id, x) || x == c) by {
                    assert(prev + seq![lab] =~= out);
                    lemma_list_has_concat(prev, seq![lab], x);
                    lemma_seg_singleton(lab, x);
                    vstd::utf8::char_u32_cast(x, x as u32);
                    vstd::utf8::char_u32_cast(c, c as u32);
                }
            }
        }
    } else {
        proof {
            if left_next {
                let i = choose|i: int| 0 <= i < n && #[trigger] ends_before(src@[i], c);
            } else {
                let i = choose|i: int| 0 <= i < n && #[trigger] starts_after(src@[i], c);
            }
            assert(hit);
        }
    }
    proof {
        assert(added(old_segs, t.segments@) =~= out);
        if ap {
            lemma_apart_widened(src@, out, c, left_next, right_next);
        }
    }
    new_index
}
/// A segment list of set `char_set_id2` that the difference cannot take
/// apart: one starting at U+E000 or ending at U+D7FF, next to the surrogate
/// gap.
pub open spec fn diff_blocked(l: Seq<CharSet>) -> bool {
    exists|i: int| 0 <= i < l.len() && ((#[trigger] l[i]).fromChar as u32 == 0xE000 || l[i].toChar as u32 == 0xD7FF)
}

/// Segment `s2` of the second set overlaps segment `s1` of the first at the
/// surrogate gap: it ends at U+D7FF while `s1` runs past it, or it starts at
/// U+E000 while `s1` starts below it. Taking it out of `s1` would leave a
/// piece that starts or ends inside the gap.
pub open spec fn gap_clash(s1: CharSet, s2: CharSet) -> bool {
    &&& (s2.fromChar as u32) <= (s1.toChar as u32)
    &&& (s1.fromChar as u32) <= (s2.toChar as u32)
    &&& ((s2.toChar as u32 == 0xD7FF && (s1.toChar as u32) > 0xD7FF) || (s2.fromChar as u32 == 0xE000 && (s1.fromChar as u32)
        < 0xE000))
}

/// The inputs on which the difference of `l1` and `l2` is defined: either
/// no segment of `l2` borders the surrogate gap, or both lists are sorted
/// and disjoint and no segment of `l2` clashes with one of `l1` at the gap.
pub open spec fn diff_ok(l1: Seq<CharSet>, l2: Seq<CharSet>) -> bool {
    ||| !diff_blocked(l2)
    ||| {
        &&& sorted_disjoint(l1)
        &&& sorted_disjoint(l2)
        &&& !exists|i: int, j: int| 0 <= i < l1.len() && 0 <= j < l2.len() && #[trigger] gap_clash(l1[i], l2[j])
    }
}

/// The characters `lo..=hi` (as scalar values) that the list does not hold.
pub open spec fn span_minus(lo: int, hi: int, x: char, l2: Seq<CharSet>) -> bool {
    lo <= x as u32 <= hi && !list_has(l2, x)
}

proof fn lemma_mul_step(k: int, m: int)
    requires
        0 <= k,
        0 <= m,
    ensures
        (k + 1) * m == k * m + m,
        k * m >= 0,
{
    assert((k + 1) * m == k * m + m) by (nonlinear_arith);
    assert(k * m >= 0) by (nonlinear_arith)
        requires
            0 <= k,
            0 <= m,
    ;
}

proof fn lemma_mul_mono(k: int, n: int, m: int)
    requires
        0 <= k <= n,
        0 <= m,
    ensures
        k * m <= n * m,
{
    assert(k * m <= n * m) by (nonlinear_arith)
        requires
            0 <= k <= n,
            0 <= m,
    ;
}

/// Difference of two sets: a new set whose members are those of
/// `char_set_id1` that `char_set_id2` does not hold.  The two segment lists
/// are walked in step, so the result is exact when both lists are in
/// increasing order with no shared character (as every union produces).
pub fn difference_charsets(t: &mut CharSetTable, char_set_id1: i32, char_set_id2: i32) -> (index: i32)
    requires
        old(t).next_index < i32::MAX,
        segs_of(old(t).segments@, char_set_id1).len() * (segs_of(old(t).segments@, char_set_id2).len() + 1) < i32::MAX,
        diff_ok(segs_of(old(t).segments@, char_set_id1), segs_of(old(t).segments@, char_set_id2)),
    ensures
        index == old(t).next_index,
        final(t).next_index == old(t).next_index + 1,
        ({
            let extra = added(old(t).segments@, final(t).segments@);
            let l1 = segs_of(old(t).segments@, char_set_id1);
            let l2 = segs_of(old(t).segments@, char_set_id2);
            &&& fresh_set(old(t).segments@, final(t).segments@, index, extra)
            &&& extra.len() <= l1.len() * (l2.len() + 1)
            &&& (sorted_disjoint(l1) && sorted_disjoint(l2)) ==> {
                &&& sorted_disjoint(extra)
                &&& forall|x: char| #[trigger] list_has(extra, x) <==> (set_has(old(t).segments@, char_set_id1, x)
                    && !set_has(old(t).segments@, char_set_id2, x))
            }
        }),
{
    let ghost old_segs = t.segments@;
    let list1 = segments_of(t, char_set_id1);
    let list2 = segments_of(t, char_set_id2);
    proof {
        lemma_segs_of_members(old_segs, char_set_id1);
        lemma_segs_of_members(old_segs, char_set_id2);
    }
    let ghost l1 = list1@;
    let ghost l2 = list2@;
    let ghost canon = sorted_disjoint(l1) && sorted_disjoint(l2);
    let n1 = list1.len();
    let n2 = list2.len();
    let mut idx2: usize = 0;
    let mut segement_id: i32 = 1;
    let new_index = next_char_set_index(t);
    let ghost mut out: Seq<CharSet> = Seq::empty();
    let mut k: usize = 0;
    while k < n1
        invariant
            n1 == l1.len(),
            n2 == l2.len(),
            list1@ == l1,
            list2@ == l2,
            l1 == segs_of(old_segs, char_set_id1),
            l2 == segs_of(old_segs, char_set_id2),
            diff_ok(l1, l2),
            n1 * (n2 + 1) < i32::MAX,
            k <= n1,
            idx2 <= n2,
            t.segments@ == old_segs + out,
            t.next_index == new_index + 1,
            segement_id == out.len() + 1,
            out.len() <= k * (n2 + 1),
            forall|i: int| 0 <= i < out.len() ==> (#[trigger] out[i]).indexId == new_index && out[i].segementId == i + 1,
            canon == (sorted_disjoint(l1) && sorted_disjoint(l2)),
            canon ==> forall|x: char| #[trigger] list_has(out, x) <==> (list_has(l1.subrange(0, k as int), x) && !list_has(l2, x)),
            canon ==> sorted_disjoint(out),
            canon && k < n1 ==> forall|i: int| 0 <= i < out.len() ==> ((#[trigger] out[i]).toChar as u32) < l1[k as int].fromChar as u32,
            canon && k < n1 ==> forall|j: int| 0 <= j < idx2 ==> ((#[trigger] l2[j]).toChar as u32) < l1[k as int].fromChar as u32,
        decreases n1 - k,
    {
        let seg1 = list1[k];
        let seg_start: u32 = seg1.fromChar as u32;
        let mut start1: u32 = seg1.fromChar as u32;
        let end1: u32 = seg1.toChar as u32;
        proof {
            vstd::utf8::char_is_scalar(seg1.fromChar);
            vstd::utf8::char_is_scalar(seg1.toChar);
        }
        while idx2 < n2 && (list2[idx2].toChar as u32) < start1
            invariant
                n2 == l2.len(),
                list2@ == l2,
                idx2 <= n2,
                start1 == seg1.fromChar as u32,
                canon && k < n1 ==> forall|j: int| 0 <= j < idx2 ==> ((#[trigger] l2[j]).toChar as u32) < l1[k as int].fromChar as u32,
                seg1 == l1[k as int],
            decreases n2 - idx2,
        {
            idx2 = idx2 + 1;
        }
        let ghost pushes_before = out.len();
        proof {
            lemma_mul_step(k as int, n2 + 1);
            lemma_mul_mono(k + 1, n1 as int, n2 + 1);
        }
        let mut j: usize = idx2;
        let mut covered = false;
        while !covered && j < n2 && (list2[j].fromChar as u32) <= end1
            invariant
                n1 == l1.len(),
                n2 == l2.len(),
                list1@ == l1,
                list2@ == l2,
                diff_ok(l1, l2),
                k < n1,
                seg1 == l1[k as int],
                seg_start == seg1.fromChar as u32,
                end1 == seg1.toChar as u32,
                end1 < 0x110000,
                idx2 <= j <= n2,
                covered ==> start1 > end1,
                start1 <= end1 ==> is_scalar(start1 as int),
                canon ==> start1 <= end1 + 1,
                k * (n2 + 1) + n2 + 1 <= n1 * (n2 + 1),
                t.segments@ == old_segs + out,
                t.next_index == new_index + 1,
                segement_id == out.len() + 1,
                out.len() <= pushes_before + (j - idx2) + (if covered { 1int } else { 0int }),
                covered ==> j < n2,
                pushes_before <= k * (n2 + 1),
                n1 * (n2 + 1) < i32::MAX,
                forall|i: int| 0 <= i < out.len() ==> (#[trigger] out[i]).indexId == new_index && out[i].segementId == i + 1,
                canon == (sorted_disjoint(l1) && sorted_disjoint(l2)),
                canon ==> seg_start <= start1,
                canon ==> forall|x: char| #[trigger] list_has(out, x) <==> ((list_has(l1.subrange(0, k as int), x) && !list_has(l2, x))
                    || span_minus(seg_start as int, start1 - 1, x, l2)),
                canon ==> sorted_disjoint(out),
                canon ==> forall|i: int| 0 <= i < out.len() ==> ((#[trigger] out[i]).toChar as u32) < start1,
                canon ==> forall|i: int| 0 <= i < j ==> ((#[trigger] l2[i]).toChar as u32) < start1,
                canon && j < n2 && !covered ==> (l2[j as int].toChar as u32) >= start1,
            decreases n2 - j + (if covered { 0int } else { 1int }),
        {
            let seg2 = list2[j];
            let start2: u32 = seg2.fromChar as u32;
            let end2: u32 = seg2.toChar as u32;
            proof {
                vstd::utf8::char_is_scalar(seg2.fromChar);
                vstd::utf8::char_is_scalar(seg2.toChar);
                if !diff_blocked(l2) {
                    assert(!(l2[j as int].fromChar as u32 == 0xE000 || l2[j as int].toChar as u32 == 0xD7FF));
                } else {
                    assert(!gap_clash(l1[k as int], l2[j as int]));
                }
                assert(seg2.toChar as u32 == 0xD7FF ==> end1 <= 0xD7FF);
                assert(seg2.fromChar as u32 == 0xE000 ==> start1 >= 0xE000);
            }
            let overlap_start: u32 = if start1 > start2 { start1 } else { start2 };
            let overlap_end: u32 = if end1 < end2 { end1 } else { end2 };
            let ghost prev = out;
            let ghost prev_start = start1;
            if overlap_start > start1 {
                let lo = scalar_char(start1);
                let hi = scalar_char(overlap_start - 1);
                push_segment(t, new_index, segement_id, lo, hi);
                proof {
                    let lab = CharSet { indexId: new_index, segementId: segement_id, fromChar: lo, toChar: hi };
                    out = prev.push(lab);
                    assert(t.segments@ =~= old_segs + out);
                }
                segement_id = segement_id + 1;
            }
            start1 = overlap_end + 1;
            proof {
                if canon {
                    assert(sorted_disjoint(l2));
                    assert((l2[j as int].toChar as u32) >= prev_start);
                    assert forall|x: char| #[trigger] list_has(out, x) <==> ((list_has(l1.subrange(0, k as int), x) && !list_has(l2, x))
                        || span_minus(seg_start as int, start1 - 1, x, l2)) by {
                        vstd::utf8::char_is_scalar(x);
                        if prev.len() < out.len() {
                            let lab = out.last();
                            assert(prev + seq![lab] =~= out);
                            lemma_list_has_concat(prev, seq![lab], x);
                            lemma_seg_singleton(lab, x);
                            if seg_has(lab, x) {
                                // `x` lies before `seg2` and after every earlier
                                // segment of the second list.
                                if list_has(l2, x) {
                                    let q = choose|q: int| 0 <= q < l2.len() && #[trigger] seg_has(l2[q], x);
                                    if q < j {
                                    } else if q > j {
                                        assert(((l2[j as int]).toChar as u32) < l2[q].fromChar as u32);
                                    }
                                }
                            }
                        }
                        if seg_has(seg2, x) {
                            assert(seg_has(l2[j as int], x));
                        }
                    }
                    assert forall|a: int, b: int| 0 <= a < b < out.len() implies ((#[trigger] out[a]).toChar as u32) < (#[trigger] out[b]).fromChar as u32 by {
                        if b < prev.len() {
                            assert(out[a] == prev[a] && out[b] == prev[b]);
                        } else {
                            assert(out[a] == prev[a]);
                        }
                    }
                    assert forall|i: int| 0 <= i < out.len() implies (#[trigger] out[i]).fromChar as u32 <= out[i].toChar as u32 by {
                        if i < prev.len() {
                            assert(out[i] == prev[i]);
                        }
                    }
                    assert forall|i: int| 0 <= i < out.len() implies ((#[trigger] out[i]).toChar as u32) < start1 by {
                        if i < prev.len() {
                            assert(out[i] == prev[i]);
                        }
                    }
                    assert forall|i: int| 0 <= i < j + 1 implies ((#[trigger] l2[i]).toChar as u32) < start1 || start1 > end1 by {
                        if i < j {
                        }
                    }
                    if j + 1 < n2 {
                        assert(((l2[j as int]).toChar as u32) < l2[j + 1].fromChar as u32);
                    }
                }
            }
            if start1 > end1 {
                covered = true;
            } else {
                j = j + 1;
            }
        }
        let ghost pre_final = out;
        if !covered && start1 <= end1 {
            let lo = scalar_char(start1);
            let hi = scalar_char(end1);
            push_segment(t, new_index, segement_id, lo, hi);
            proof {
                let lab = CharSet { indexId: new_index, segementId: segement_id, fromChar: lo, toChar: hi };
                out = pre_final.push(lab);
                assert(t.segments@ =~= old_segs + out);
            }
            segement_id = segement_id + 1;
        }
        proof {
            if canon {
                assert(l1.subrange(0, k as int) + seq![seg1] =~= l1.subrange(0, k + 1));
                assert forall|x: char| #[trigger] list_has(out, x) <==> (list_has(l1.subrange(0, k + 1), x) && !list_has(l2, x)) by {
                    lemma_list_has_concat(l1.subrange(0, k as int), seq![seg1], x);
                    lemma_seg_singleton(seg1, x);
                    vstd::utf8::char_is_scalar(x);
                    if out.len() > pre_final.len() {
                        let lab = out.last();
                        assert(pre_final + seq![lab] =~= out);
                        lemma_list_has_concat(pre_final, seq![lab], x);
                        lemma_seg_singleton(lab, x);
                        if seg_has(lab, x) && list_has(l2, x) {
                            let q = choose|q: int| 0 <= q < l2.len() && #[trigger] seg_has(l2[q], x);
                            if q > j {
                                assert(((l2[j as int]).toChar as u32) < l2[q].fromChar as u32);
                            }
                        }
                    }
                }
                assert forall|a: int, b: int| 0 <= a < b < out.len() implies ((#[trigger] out[a]).toChar as u32) < (#[trigger] out[b]).fromChar as u32 by {
                    if b < pre_final.len() {
                        assert(out[a] == pre_final[a] && out[b] == pre_final[b]);
                    } else {
                        assert(out[a] == pre_final[a]);
                    }
                }
                assert forall|i: int| 0 <= i < out.len() implies (#[trigger] out[i]).fromChar as u32 <= out[i].toChar as u32 by {
                    if i < pre_final.len() {
                        assert(out[i] == pre_final[i]);
                    }
                }
                if k + 1 < n1 {
                    assert((seg1.toChar as u32) < l1[k + 1].fromChar as u32);
                    assert forall|i: int| 0 <= i < out.len() implies ((#[trigger] out[i]).toChar as u32) < l1[k + 1].fromChar as u32 by {
                        if i < pre_final.len() {
                            assert(out[i] == pre_final[i]);
                        }
                    }
                    assert forall|i: int| 0 <= i < idx2 implies ((#[trigger] l2[i]).toChar as u32) < l1[k + 1].fromChar as u32 by {
                        assert(((l2[i]).toChar as u32) < seg_start);
                    }
                }
            }
        }
        k = k + 1;
    }
    proof {
        assert(l1.subrange(0, n1 as int) =~= l1);
        assert(fresh_set(old_segs, t.segments@, new_index, out));
        assert(added(old_segs, t.segments@) =~= out);
    }
    new_index
}

} // verus!
