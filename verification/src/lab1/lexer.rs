//! The TINY lexer: character sets and token NFAs combined, minimised and
//! turned into a DFA.
use vstd::prelude::*;
use crate::lab1::category::LexemeCategory;
use crate::lab1::char_set::{
    lemma_fresh_set_members, list_has, range, reset_char_sets, seg_has, segs_of, set_has, table_wf, union_charsets, CharSet, CharSetTable,
};
use crate::lab1::dfa::subset_dfa;
use crate::lab1::graph::{
    all_match_ids, closure, closure_shape, eps_from, match_text, product_edges, product_states, start_of, union_edges,
    union_states, unmatch_text, generateBasicNFA, lemma_wf_shift_fits, plusClosure, product, reset_graph_counter, union, wf, Graph,
    GraphCounter,
};
use crate::lab1::merge::minimized_of;
use crate::lab1::regular_expression::{clear_regular_table, RegularTable};

verus! {

/// Empties the character-set table, restarts graph numbering and empties the
/// regular-expression table.
pub fn reset_global_tables(t: &mut CharSetTable, counter: &mut GraphCounter, regs: &mut RegularTable)
    ensures
        final(t).segments@.len() == 0,
        final(t).next_index == 1,
        final(counter).count == 0,
        final(regs).entries@.len() == 0,
{
    reset_char_sets(t);
    reset_graph_counter(counter);
    clear_regular_table(regs);
}

/// Sets up to this many are small enough for the lexer's unions.
pub open spec fn small_set(t: CharSetTable, id: i32) -> bool {
    segs_of(t.segments@, id).len() <= 100
}

/// A new set holding the characters `from..=to`.
fn rng(t: &mut CharSetTable, from: char, to: char) -> (id: i32)
    requires
        table_wf(*old(t)),
        old(t).next_index < 10000,
    ensures
        table_wf(*final(t)),
        id == old(t).next_index,
        final(t).next_index == id + 1,
        segs_of(final(t).segments@, id).len() == 1,
        forall|x: i32| x != id ==> #[trigger] segs_of(final(t).segments@, x) == segs_of(old(t).segments@, x),
        forall|c: char| #[trigger] set_has(final(t).segments@, id, c) <==> (from as u32) <= (c as u32) <= (to as u32),
        forall|x: i32, c: char| x != id ==> #[trigger] set_has(final(t).segments@, x, c) == set_has(old(t).segments@, x, c),
{
    let ghost ot = *t;
    let id = range(t, from, to);
    proof {
        let extra = seq![CharSet { indexId: id, segementId: 1, fromChar: from, toChar: to }];
        assert(t.segments@ == ot.segments@ + extra);
        lemma_fresh_set_members(ot, t.segments@, id, extra);
        assert forall|c: char| #[trigger] list_has(extra, c) <==> (from as u32) <= (c as u32) <= (to as u32) by {
            if (from as u32) <= (c as u32) <= (to as u32) {
                assert(seg_has(extra[0], c));
            }
        }
    }
    id
}

/// A new set holding the members of sets `a` and `b`.
fn uni(t: &mut CharSetTable, a: i32, b: i32) -> (id: i32)
    requires
        table_wf(*old(t)),
        old(t).next_index < 10000,
        small_set(*old(t), a),
        small_set(*old(t), b),
    ensures
        table_wf(*final(t)),
        id == old(t).next_index,
        final(t).next_index == id + 1,
        segs_of(final(t).segments@, id).len() <= segs_of(old(t).segments@, a).len() + segs_of(old(t).segments@, b).len(),
        forall|x: i32| x != id ==> #[trigger] segs_of(final(t).segments@, x) == segs_of(old(t).segments@, x),
        forall|c: char| #[trigger] set_has(final(t).segments@, id, c) <==> (set_has(old(t).segments@, a, c) || set_has(old(t).segments@, b, c)),
        forall|x: i32, c: char| x != id ==> #[trigger] set_has(final(t).segments@, x, c) == set_has(old(t).segments@, x, c),
{
    let ghost ot = *t;
    let id = union_charsets(t, a, b);
    proof {
        let extra = crate::lab1::char_set::added(ot.segments@, t.segments@);
        lemma_fresh_set_members(ot, t.segments@, id, extra);
    }
    id
}

/// One set per lower-case letter, `a` to `z`.
fn create_single_letter_sets(t: &mut CharSetTable) -> (res: Vec<i32>)
    requires
        table_wf(*old(t)),
        old(t).next_index < 5000,
    ensures
        table_wf(*final(t)),
        res@.len() == 26,
        final(t).next_index == old(t).next_index + 26,
        forall|i: int| 0 <= i < 26 ==> #[trigger] res@[i] == old(t).next_index + i,
        forall|x: i32| x < old(t).next_index ==> #[trigger] segs_of(final(t).segments@, x) == segs_of(old(t).segments@, x),
        forall|i: int, c: char| 0 <= i < 26 ==> (#[trigger] set_has(final(t).segments@, res@[i], c) <==> (c as u32) == 97 + i),
        forall|x: i32, c: char| x < old(t).next_index ==> #[trigger] set_has(final(t).segments@, x, c) == set_has(old(t).segments@, x, c),
{
    let mut res: Vec<i32> = Vec::new();
    let mut k: u32 = 0;
    while k < 26
        invariant
            k <= 26,
            table_wf(*t),
            res@.len() == k,
            t.next_index == old(t).next_index + k,
            old(t).next_index < 5000,
            forall|i: int| 0 <= i < k ==> #[trigger] res@[i] == old(t).next_index + i,
            forall|x: i32| x < old(t).next_index ==> #[trigger] segs_of(t.segments@, x) == segs_of(old(t).segments@, x),
            forall|i: int, c: char| 0 <= i < k ==> (#[trigger] set_has(t.segments@, res@[i], c) <==> (c as u32) == 97 + i),
            forall|x: i32, c: char| x < old(t).next_index ==> #[trigger] set_has(t.segments@, x, c) == set_has(old(t).segments@, x, c),
        decreases 26 - k,
    {
        let c = crate::lab1::char_set::scalar_char('a' as u32 + k);
        let id = rng(t, c, c);
        res.push(id);
        k = k + 1;
    }
    res
}

/// The set for lower-case letter `ch`.
fn char_set_for(single_letters: &Vec<i32>, ch: char) -> (id: i32)
    requires
        single_letters@.len() == 26,
        'a' <= ch <= 'z',
    ensures
        id == single_letters@[(ch as u32 - 'a' as u32) as int],
{
    let idx = (ch as u32 - 'a' as u32) as usize;
    single_letters[idx]
}

/// The set of lower-case letter `c` among the single-letter sets.
pub open spec fn letter_set(singles: Seq<i32>, c: char) -> i32 {
    singles[(c as u32 - 'a' as u32) as int]
}

/// The category of the `i`-th letter's accepting state in a keyword.
pub open spec fn kw_cat(w: Seq<char>, i: int) -> Option<LexemeCategory> {
    if i == w.len() - 1 {
        Some(LexemeCategory::KEYWORD)
    } else {
        None
    }
}

/// The automata of the first letters of `w` concatenated (`chain`), from
/// the one-letter automata `nexts`.
pub open spec fn keyword_chain(w: Seq<char>, singles: Seq<i32>, chain: Seq<Graph>, nexts: Seq<Graph>, k: int) -> bool {
    &&& 0 < k <= w.len()
    &&& chain.len() == k
    &&& nexts.len() == k
    &&& forall|i: int| 0 <= i < k ==> #[trigger] is_basic(nexts[i], "CHAR"@, letter_set(singles, w[i]), kw_cat(w, i))
    &&& same_graph(chain[0], nexts[0])
    &&& forall|i: int| 1 <= i < k ==> #[trigger] is_product(chain[i - 1], nexts[i], chain[i])
}

/// Keyword `w`: its letters in sequence, the last accepting as `KEYWORD`.
pub open spec fn keyword_nfa(w: Seq<char>, singles: Seq<i32>, g: Graph) -> bool {
    exists|chain: Seq<Graph>, nexts: Seq<Graph>| #[trigger] keyword_chain(w, singles, chain, nexts, w.len() as int)
        && same_graph(chain[w.len() - 1], g)
}

/// The NFA of keyword `word`: its letters in sequence, the last accepting as
/// `KEYWORD`.
fn build_keyword_graph(counter: &mut GraphCounter, word: &str, single_letters: &Vec<i32>) -> (g: Graph)
    requires
        0 < word@.len() <= 100,
        forall|i: int| 0 <= i < word@.len() ==> 'a' <= #[trigger] word@[i] <= 'z',
        single_letters@.len() == 26,
        old(counter).count < 10000,
    ensures
        wf(g),
        g.states().len() == 2 * word@.len(),
        old(counter).count < final(counter).count <= old(counter).count + 2 * word@.len(),
        keyword_nfa(word@, single_letters@, g),
{
    let chars = crate::text::chars_of(word);
    let first = chars[0];
    let mut graph = generateBasicNFA(counter, "CHAR", char_set_for(single_letters, first), None);
    if chars.len() == 1 {
        let last = graph.pStateTable.len() - 1;
        let mut st = crate::lab1::graph::copy_state(&graph.pStateTable[last]);
        st.LexemeCategory = Some(LexemeCategory::KEYWORD);
        let ghost before = graph.states();
        graph.pStateTable.set(last, st);
        assert(graph.states() =~= before.update(last as int, graph.pStateTable@[last as int]@));
        proof {
            assert(graph.states() =~= seq![(0i32, unmatch_text(), None::<LexemeCategory>), (1i32, match_text(), Some(LexemeCategory::KEYWORD))]);
            assert(keyword_chain(word@, single_letters@, seq![graph], seq![graph], 1));
        }
        return graph;
    }
    let ghost mut chain: Seq<Graph> = seq![graph];
    let ghost mut nexts: Seq<Graph> = seq![graph];
    proof {
        assert(keyword_chain(word@, single_letters@, chain, nexts, 1));
    }
    let mut index: usize = 1;
    while index < chars.len()
        invariant
            1 <= index <= chars@.len(),
            chars@ == word@,
            chars@.len() <= 100,
            forall|i: int| 0 <= i < word@.len() ==> 'a' <= #[trigger] word@[i] <= 'z',
            single_letters@.len() == 26,
            wf(graph),
            graph.states().len() == 2 * index,
            old(counter).count < counter.count <= old(counter).count + 2 * index - 1,
            old(counter).count < 10000,
            keyword_chain(word@, single_letters@, chain, nexts, index as int),
            chain[index - 1] == graph,
        decreases chars@.len() - index,
    {
        let category = if index == chars.len() - 1 {
            Some(LexemeCategory::KEYWORD)
        } else {
            None
        };
        let ch = chars[index];
        assert('a' <= word@[index as int] <= 'z');
        let next = generateBasicNFA(counter, "CHAR", char_set_for(single_letters, ch), category);
        proof {
            lemma_wf_shift_fits(next, graph.states().len() as int);
        }
        let ghost prev = graph;
        let ghost nx = next;
        graph = product(counter, graph, next);
        proof {
            let c2 = chain.push(graph);
            let n2 = nexts.push(nx);
            assert forall|i: int| 0 <= i < index + 1 implies #[trigger] is_basic(n2[i], "CHAR"@, letter_set(single_letters@, word@[i]), kw_cat(word@, i)) by {
                if i < index {
                    assert(n2[i] == nexts[i]);
                }
            }
            assert forall|i: int| 1 <= i < index + 1 implies #[trigger] is_product(c2[i - 1], n2[i], c2[i]) by {
                if i < index {
                    assert(c2[i - 1] == chain[i - 1] && n2[i] == nexts[i] && c2[i] == chain[i]);
                }
            }
            chain = c2;
            nexts = n2;
        }
        index = index + 1;
    }
    graph
}

/// The number of states of all graphs together.
pub open spec fn total_states(gs: Seq<Graph>) -> int
    decreases gs.len(),
{
    if gs.len() == 0 {
        0
    } else {
        total_states(gs.drop_last()) + gs.last().states().len()
    }
}

/// Sizes for which `union_many` stays within bounds.
pub open spec fn unionable(gs: Seq<Graph>) -> bool {
    &&& gs.len() > 0
    &&& gs.len() <= 100
    &&& forall|i: int| 0 <= i < gs.len() ==> wf(#[trigger] gs[i]) && gs[i].states().len() <= 10000
}

/// The union of all graphs, taken from the first one on.
fn union_many(counter: &mut GraphCounter, graphs: Vec<Graph>) -> (g: Graph)
    requires
        unionable(graphs@),
        old(counter).count < 100000,
    ensures
        wf(g),
        g.states().len() == total_states(graphs@) + 2 * (graphs@.len() - 1),
        old(counter).count <= final(counter).count <= old(counter).count + graphs@.len(),
        union_fold(graphs@, g),
{
    let mut graphs = graphs;
    let ghost gs = graphs@;
    let mut acc = graphs.remove(0);
    let ghost mut accs: Seq<Graph> = seq![acc];
    proof {
        assert(gs.subrange(0, 1).drop_last() =~= Seq::<Graph>::empty());
        assert(gs.subrange(0, 1).last() == gs[0]);
        assert(total_states(Seq::<Graph>::empty()) == 0);
        assert(total_states(gs.subrange(0, 1)) == gs[0].states().len());
    }
    let mut i: usize = 1;
    while graphs.len() > 0
        invariant
            1 <= i <= gs.len(),
            gs.len() <= 100,
            graphs@ == gs.subrange(i as int, gs.len() as int),
            forall|k: int| 0 <= k < gs.len() ==> wf(#[trigger] gs[k]) && gs[k].states().len() <= 10000,
            wf(acc),
            acc.states().len() == total_states(gs.subrange(0, i as int)) + 2 * (i - 1),
            total_states(gs.subrange(0, i as int)) <= i * 10000,
            old(counter).count <= counter.count <= old(counter).count + i - 1,
            old(counter).count < 100000,
            accs.len() == i,
            same_graph(accs[0], gs[0]),
            forall|k: int| 1 <= k < i ==> #[trigger] is_union(accs[k - 1], gs[k], accs[k]),
            accs[i - 1] == acc,
        decreases graphs@.len(),
    {
        let ghost prev = acc;
        let next = graphs.remove(0);
        assert(next == gs[i as int]);
        assert(gs.subrange(0, i + 1).drop_last() =~= gs.subrange(0, i as int));
        assert(gs.subrange(0, i + 1).last() == gs[i as int]);
        proof {
            lemma_wf_shift_fits(acc, 1);
            lemma_wf_shift_fits(next, 1 + acc.states().len() as int);
        }
        acc = union(counter, acc, next);
        proof {
            let accs2 = accs.push(acc);
            assert(is_union(accs2[i - 1], gs[i as int], accs2[i as int]));
            assert forall|k: int| 1 <= k < i + 1 implies #[trigger] is_union(accs2[k - 1], gs[k], accs2[k]) by {
                if k < i {
                    assert(accs2[k - 1] == accs[k - 1] && accs2[k] == accs[k]);
                }
            }
            accs = accs2;
        }
        i = i + 1;
        assert(graphs@ =~= gs.subrange(i as int, gs.len() as int));
    }
    assert(gs.subrange(0, i as int) =~= gs);
    proof {
        assert(union_chain(gs, accs));
        assert(same_graph(accs[gs.len() - 1], acc));
    }
    acc
}

/// The character sets the TINY token rules use.
pub struct TinySets {
    pub letters: i32,
    pub letter_digit: i32,
    pub digit: i32,
    pub singles: Vec<i32>,
    pub ops: Vec<i32>,
    pub note: i32,
    pub left_note: i32,
    pub right_note: i32,
}

/// The characters of the TINY operator sets, in the order of `ops`.
pub open spec fn tiny_op_chars() -> Seq<char> {
    seq!['+', '-', '*', '/', '=', '<', '(', ')', ';', ':', ' ']
}

/// An ASCII letter.
pub open spec fn is_letter(c: char) -> bool {
    ('a' as u32 <= c as u32 <= 'z' as u32) || ('A' as u32 <= c as u32 <= 'Z' as u32)
}

/// An ASCII digit.
pub open spec fn is_digit(c: char) -> bool {
    '0' as u32 <= c as u32 <= '9' as u32
}

/// The members of the TINY sets other than the comment body, in table `segs`.
pub open spec fn tiny_base_sets(
    segs: Seq<CharSet>,
    letters: i32,
    letter_digit: i32,
    digit: i32,
    singles: Seq<i32>,
    ops: Seq<i32>,
    left_note: i32,
    right_note: i32,
) -> bool {
    &&& singles.len() == 26
    &&& ops.len() == 11
    &&& forall|c: char| #[trigger] set_has(segs, letters, c) <==> is_letter(c)
    &&& forall|c: char| #[trigger] set_has(segs, digit, c) <==> is_digit(c)
    &&& forall|c: char| #[trigger] set_has(segs, letter_digit, c) <==> (is_letter(c) || is_digit(c))
    &&& forall|i: int, c: char| 0 <= i < 26 ==> (#[trigger] set_has(segs, singles[i], c) <==> (c as u32) == 97 + i)
    &&& forall|i: int, c: char| 0 <= i < 11 ==> (#[trigger] set_has(segs, ops[i], c) <==> c == tiny_op_chars()[i])
    &&& forall|c: char| #[trigger] set_has(segs, left_note, c) <==> c == '{'
    &&& forall|c: char| #[trigger] set_has(segs, right_note, c) <==> c == '}'
}

/// The TINY sets hold, in table `segs`, the characters their names say:
/// letters, digits, each lower-case letter alone, each operator character
/// alone, the comment brackets, and for the comment body the letters,
/// digits and operator characters.
pub open spec fn tiny_sets_ok(segs: Seq<CharSet>, s: TinySets) -> bool {
    &&& tiny_base_sets(segs, s.letters, s.letter_digit, s.digit, s.singles@, s.ops@, s.left_note, s.right_note)
    &&& forall|c: char| #[trigger] set_has(segs, s.note, c) <==> (is_letter(c) || is_digit(c) || tiny_op_chars().contains(c))
}

proof fn lemma_same_code(a: char, b: char)
    requires
        (a as u32) == (b as u32),
    ensures
        a == b,
{
}

proof fn lemma_base_sets_kept(
    s1: Seq<CharSet>,
    s2: Seq<CharSet>,
    n: i32,
    letters: i32,
    letter_digit: i32,
    digit: i32,
    singles: Seq<i32>,
    ops: Seq<i32>,
    left_note: i32,
    right_note: i32,
)
    requires
        tiny_base_sets(s1, letters, letter_digit, digit, singles, ops, left_note, right_note),
        letters < n && letter_digit < n && digit < n && left_note < n && right_note < n,
        forall|i: int| 0 <= i < 26 ==> #[trigger] singles[i] < n,
        forall|i: int| 0 <= i < 11 ==> #[trigger] ops[i] < n,
        forall|x: i32, c: char| x < n ==> #[trigger] set_has(s2, x, c) == set_has(s1, x, c),
    ensures
        tiny_base_sets(s2, letters, letter_digit, digit, singles, ops, left_note, right_note),
{
    assert forall|i: int, c: char| 0 <= i < 26 implies (#[trigger] set_has(s2, singles[i], c) <==> (c as u32) == 97 + i) by {
        assert(set_has(s2, singles[i], c) == set_has(s1, singles[i], c));
    }
    assert forall|i: int, c: char| 0 <= i < 11 implies (#[trigger] set_has(s2, ops[i], c) <==> c == tiny_op_chars()[i]) by {
        assert(set_has(s2, ops[i], c) == set_has(s1, ops[i], c));
    }
}

/// Builds the TINY character sets into an empty table. `ops` holds, in
/// order: `+ - * / = < ( ) ; :` and the space.
#[verifier::rlimit(60)]
fn build_tiny_sets(t: &mut CharSetTable) -> (s: TinySets)
    requires
        table_wf(*old(t)),
        old(t).segments@.len() == 0,
        old(t).next_index == 1,
    ensures
        table_wf(*final(t)),
        final(t).next_index < 200,
        s.singles@.len() == 26,
        s.ops@.len() == 11,
        tiny_sets_ok(final(t).segments@, s),
{
    let lower = rng(t, 'a', 'z');
    let upper = rng(t, 'A', 'Z');
    let digit = rng(t, '0', '9');
    let letters = uni(t, lower, upper);
    let letter_digit = uni(t, letters, digit);
    let ghost t5 = t.segments@;
    proof {
        assert forall|c: char| #[trigger] set_has(t5, letters, c) <==> is_letter(c) by {}
        assert forall|c: char| #[trigger] set_has(t5, letter_digit, c) <==> (is_letter(c) || is_digit(c)) by {}
        assert forall|c: char| #[trigger] set_has(t5, digit, c) <==> is_digit(c) by {}
    }
    let singles = create_single_letter_sets(t);
    let ghost t6 = t.segments@;
    let op_chars: Vec<char> = vec!['+', '-', '*', '/', '=', '<', '(', ')', ';', ':', ' '];
    assert(op_chars@ == tiny_op_chars());
    let mut ops: Vec<i32> = Vec::new();
    let mut j: usize = 0;
    while j < op_chars.len()
        invariant
            j <= op_chars@.len(),
            op_chars@ == tiny_op_chars(),
            ops@.len() == j,
            table_wf(*t),
            t.next_index == 32 + j,
            forall|i: int| 0 <= i < j ==> #[trigger] ops@[i] == 32 + i,
            forall|i: int| 0 <= i < j ==> segs_of(t.segments@, #[trigger] ops@[i]).len() == 1,
            forall|i: int, c: char| 0 <= i < j ==> (#[trigger] set_has(t.segments@, ops@[i], c) <==> c == tiny_op_chars()[i]),
            forall|x: i32| x < 32 ==> #[trigger] segs_of(t.segments@, x) == segs_of(t6, x),
            forall|x: i32, c: char| x < 32 ==> #[trigger] set_has(t.segments@, x, c) == set_has(t6, x, c),
        decreases op_chars@.len() - j,
    {
        let ch = op_chars[j];
        let ghost before = t.segments@;
        let id = rng(t, ch, ch);
        proof {
            assert forall|c: char| #[trigger] set_has(t.segments@, id, c) <==> c == tiny_op_chars()[j as int] by {
                if (c as u32) == (ch as u32) {
                    lemma_same_code(c, ch);
                }
            }
            assert forall|i: int, c: char| 0 <= i < j implies (#[trigger] set_has(t.segments@, ops@[i], c) <==> c == tiny_op_chars()[i]) by {
                assert(set_has(t.segments@, ops@[i], c) == set_has(before, ops@[i], c));
            }
            assert forall|i: int| 0 <= i < j implies segs_of(t.segments@, #[trigger] ops@[i]).len() == 1 by {
                assert(segs_of(t.segments@, ops@[i]) == segs_of(before, ops@[i]));
            }
        }
        ops.push(id);
        j = j + 1;
    }
    let ghost t6b = t.segments@;
    let left_note = rng(t, '{', '{');
    let right_note = rng(t, '}', '}');
    let ghost t7 = t.segments@;
    proof {
        assert forall|c: char| #[trigger] set_has(t7, left_note, c) <==> c == '{' by {
            if (c as u32) == ('{' as u32) {
                lemma_same_code(c, '{');
            }
        }
        assert forall|c: char| #[trigger] set_has(t7, right_note, c) <==> c == '}' by {
            if (c as u32) == ('}' as u32) {
                lemma_same_code(c, '}');
            }
        }
        assert forall|x: i32, c: char| x < 43 implies #[trigger] set_has(t7, x, c) == set_has(t6b, x, c) by {}
        assert forall|x: i32, c: char| x < 32 implies #[trigger] set_has(t7, x, c) == set_has(t6, x, c) by {
            assert(set_has(t7, x, c) == set_has(t6b, x, c));
        }
        assert forall|i: int, c: char| 0 <= i < 26 implies (#[trigger] set_has(t7, singles@[i], c) <==> (c as u32) == 97 + i) by {
            assert(set_has(t7, singles@[i], c) == set_has(t6, singles@[i], c));
        }
        assert forall|c: char| #[trigger] set_has(t7, letters, c) <==> is_letter(c) by {
            assert(set_has(t6, letters, c) == set_has(t5, letters, c));
        }
        assert forall|c: char| #[trigger] set_has(t7, letter_digit, c) <==> (is_letter(c) || is_digit(c)) by {
            assert(set_has(t6, letter_digit, c) == set_has(t5, letter_digit, c));
        }
        assert forall|c: char| #[trigger] set_has(t7, digit, c) <==> is_digit(c) by {
            assert(set_has(t6, digit, c) == set_has(t5, digit, c));
        }
        assert forall|i: int, c: char| 0 <= i < 11 implies (#[trigger] set_has(t7, ops@[i], c) <==> c == tiny_op_chars()[i]) by {
            assert(ops@[i] == 32 + i);
            assert(set_has(t7, ops@[i], c) == set_has(t6b, ops@[i], c));
        }
        assert forall|i: int| 0 <= i < 11 implies segs_of(t7, #[trigger] ops@[i]).len() == 1 by {
            assert(segs_of(t7, ops@[i]) == segs_of(t6b, ops@[i]));
        }
        assert(tiny_base_sets(t7, letters, letter_digit, digit, singles@, ops@, left_note, right_note));
        assert(tiny_op_chars().subrange(0, 0) =~= Seq::<char>::empty());
    }
    let mut note_pool = letters;
    let mut k: usize = 0;
    while k < ops.len()
        invariant
            k <= ops@.len(),
            ops@.len() == 11,
            table_wf(*t),
            t.next_index == 45 + k,
            segs_of(t.segments@, note_pool).len() <= 2 + k,
            forall|i: int| 0 <= i < 11 ==> segs_of(t.segments@, #[trigger] ops@[i]).len() == 1,
            forall|i: int| 0 <= i < 11 ==> #[trigger] ops@[i] < 45,
            forall|i: int| 0 <= i < 26 ==> #[trigger] singles@[i] < 45,
            segs_of(t.segments@, letter_digit).len() <= 3,
            letter_digit < 45 && letters < 45 && digit < 45 && left_note < 45 && right_note < 45,
            note_pool < t.next_index,
            tiny_base_sets(t.segments@, letters, letter_digit, digit, singles@, ops@, left_note, right_note),
            forall|c: char| #[trigger] set_has(t.segments@, note_pool, c) <==> (is_letter(c) || tiny_op_chars().subrange(0, k as int).contains(c)),
        decreases ops@.len() - k,
    {
        let ghost before = t.segments@;
        let ghost pool0 = note_pool;
        let next = uni(t, note_pool, ops[k]);
        proof {
            lemma_base_sets_kept(before, t.segments@, 45, letters, letter_digit, digit, singles@, ops@, left_note, right_note);
            let sub0 = tiny_op_chars().subrange(0, k as int);
            let sub1 = tiny_op_chars().subrange(0, k + 1);
            assert(sub1 =~= sub0.push(tiny_op_chars()[k as int]));
            assert forall|c: char| #[trigger] set_has(t.segments@, next, c) <==> (is_letter(c) || sub1.contains(c)) by {
                assert(set_has(before, ops@[k as int], c) <==> c == tiny_op_chars()[k as int]);
                if sub1.contains(c) && !sub0.contains(c) {
                    let j = choose|j: int| 0 <= j < sub1.len() && sub1[j] == c;
                    assert(j == k);
                }
                if sub0.contains(c) {
                    let j = choose|j: int| 0 <= j < sub0.len() && sub0[j] == c;
                    assert(sub1[j] == c);
                }
                if c == tiny_op_chars()[k as int] {
                    assert(sub1[k as int] == c);
                }
            }
        }
        note_pool = next;
        k = k + 1;
    }
    let ghost before = t.segments@;
    let note = uni(t, note_pool, letter_digit);
    proof {
        lemma_base_sets_kept(before, t.segments@, 45, letters, letter_digit, digit, singles@, ops@, left_note, right_note);
        assert(tiny_op_chars().subrange(0, 11) =~= tiny_op_chars());
    }
    TinySets { letters, letter_digit, digit, singles, ops, note, left_note, right_note }
}

/// `g` is the two-state automaton `0 --id--> 1` of driver type `ty`, state
/// 1 accepting with category `cat`.
pub open spec fn is_basic(g: Graph, ty: Seq<char>, id: i32, cat: Option<LexemeCategory>) -> bool {
    &&& g.states() == seq![(0i32, unmatch_text(), None::<LexemeCategory>), (1i32, match_text(), cat)]
    &&& g.edges() == seq![(0i32, 1i32, id, ty)]
}

/// `g` has the states and edges of the concatenation of `g1` and `g2`.
pub open spec fn is_product(g1: Graph, g2: Graph, g: Graph) -> bool {
    g.states() == product_states(g1, g2) && g.edges() == product_edges(g1, g2)
}

/// `g` has the states and edges of the union of `g1` and `g2`.
pub open spec fn is_union(g1: Graph, g2: Graph, g: Graph) -> bool {
    g.states() == union_states(g1, g2) && g.edges() == union_edges(g1, g2)
}

/// `a` and `b` have the same states and edges.
pub open spec fn same_graph(a: Graph, b: Graph) -> bool {
    a.states() == b.states() && a.edges() == b.edges()
}

/// `accs` are the unions of `gs` taken from the first on: the first is
/// `gs[0]`, each next the union of the one before with the next of `gs`.
pub open spec fn union_chain(gs: Seq<Graph>, accs: Seq<Graph>) -> bool {
    &&& accs.len() == gs.len()
    &&& gs.len() > 0
    &&& same_graph(accs[0], gs[0])
    &&& forall|i: int| 1 <= i < gs.len() ==> #[trigger] is_union(accs[i - 1], gs[i], accs[i])
}

/// `g` is the union of all of `gs`, taken from the first on.
pub open spec fn union_fold(gs: Seq<Graph>, g: Graph) -> bool {
    exists|accs: Seq<Graph>| #[trigger] union_chain(gs, accs) && same_graph(accs[gs.len() - 1], g)
}

/// Identifiers: a letter (set `letters`), then any letters and digits
/// (set `letter_digit`), accepted as `ID`.
pub open spec fn identifier_nfa(letters: i32, letter_digit: i32, g: Graph) -> bool {
    exists|head: Graph, tail: Graph, star: Graph|
        #![trigger is_product(head, star, g), closure_shape(tail, star)]
        is_basic(head, "CHARSET"@, letters, None) && is_basic(tail, "CHARSET"@, letter_digit, Some(LexemeCategory::ID))
            && closure_shape(tail, star) && is_product(head, star, g)
}

/// Comments: `{` (set `left`), any characters of set `body`, `}` (set
/// `right`), accepted as `NOTE`.
pub open spec fn note_nfa(left: i32, body: i32, right: i32, g: Graph) -> bool {
    exists|open: Graph, inner: Graph, star: Graph, front: Graph, close: Graph|
        #![trigger is_product(open, star, front), closure_shape(inner, star), is_product(front, close, g)]
        is_basic(open, "CHAR"@, left, None) && is_basic(inner, "CHARSET"@, body, None) && closure_shape(inner, star)
            && is_product(open, star, front) && is_basic(close, "CHAR"@, right, Some(LexemeCategory::NOTE))
            && is_product(front, close, g)
}

/// The category of the `k`-th single-character operator of TINY.
pub open spec fn op_cat(k: int) -> Option<LexemeCategory> {
    if k < 4 {
        Some(LexemeCategory::NUMERIC_OPERATOR)
    } else if k < 6 {
        Some(LexemeCategory::COMPARE_OPERATOR)
    } else {
        Some(LexemeCategory::LOGIC_OPERATOR)
    }
}

/// Operators and delimiters: the union of the single characters of sets
/// `ops[0..9]` (numeric, comparison, logic operators in turn) and of
/// `:` then `=` (sets `ops[9]`, `ops[4]`) as an assignment.
pub open spec fn operator_nfa(ops: Seq<i32>, g: Graph) -> bool {
    exists|parts: Seq<Graph>, colon: Graph, eqa: Graph|
        #![trigger union_fold(parts, g), is_product(colon, eqa, parts[9])]
        parts.len() == 10 && (forall|k: int| 0 <= k < 9 ==> #[trigger] is_basic(parts[k], "CHAR"@, ops[k], op_cat(k)))
            && is_basic(colon, "CHAR"@, ops[9], None) && is_basic(eqa, "CHAR"@, ops[4], Some(LexemeCategory::ASSIGN_OPERATOR))
            && is_product(colon, eqa, parts[9]) && union_fold(parts, g)
}

/// A basic NFA, with its size and well-formedness.
fn basic(counter: &mut GraphCounter, ty: &str, id: i32, category: Option<LexemeCategory>) -> (g: Graph)
    requires
        old(counter).count < 100000,
    ensures
        wf(g),
        g.states().len() == 2,
        final(counter).count == old(counter).count + 1,
        is_basic(g, ty@, id, category),
{
    generateBasicNFA(counter, ty, id, category)
}

/// The keywords of TINY (`if`, `then`, `else`, `end`, `repeat`, `until`,
/// `read`, `write`), unioned in that order.
pub open spec fn keywords_nfa(singles: Seq<i32>, g: Graph) -> bool {
    exists|parts: Seq<Graph>| #[trigger] union_fold(parts, g) && parts.len() == 8 && keyword_nfa("if"@, singles, parts[0]) && keyword_nfa("then"@, singles, parts[1]) && keyword_nfa("else"@, singles, parts[2]) && keyword_nfa("end"@, singles, parts[3]) && keyword_nfa("repeat"@, singles, parts[4]) && keyword_nfa("until"@, singles, parts[5]) && keyword_nfa("read"@, singles, parts[6]) && keyword_nfa("write"@, singles, parts[7])
}

/// The keywords of TINY, unioned.
fn keyword_graph(counter: &mut GraphCounter, singles: &Vec<i32>) -> (g: Graph)
    requires
        singles@.len() == 26,
        old(counter).count < 1000,
    ensures
        wf(g),
        g.states().len() <= 200,
        old(counter).count <= final(counter).count <= old(counter).count + 200,
        keywords_nfa(singles@, g),
{
    proof {
        reveal_strlit("if");
        reveal_strlit("then");
        reveal_strlit("else");
        reveal_strlit("end");
        reveal_strlit("repeat");
        reveal_strlit("until");
        reveal_strlit("read");
        reveal_strlit("write");
    }
    let mut gs: Vec<Graph> = Vec::new();
    gs.push(build_keyword_graph(counter, "if", singles));
    gs.push(build_keyword_graph(counter, "then", singles));
    gs.push(build_keyword_graph(counter, "else", singles));
    gs.push(build_keyword_graph(counter, "end", singles));
    gs.push(build_keyword_graph(counter, "repeat", singles));
    gs.push(build_keyword_graph(counter, "until", singles));
    gs.push(build_keyword_graph(counter, "read", singles));
    gs.push(build_keyword_graph(counter, "write", singles));
    proof {
        lemma_total_states_8(gs@);
    }
    let ghost parts = gs@;
    let g = union_many(counter, gs);
    proof {
        assert(union_fold(parts, g));
    }
    g
}

proof fn lemma_total_states_8(gs: Seq<Graph>)
    requires
        gs.len() == 8,
        forall|i: int| 0 <= i < 8 ==> (#[trigger] gs[i]).states().len() <= 12,
    ensures
        total_states(gs) <= 96,
{
    lemma_total_states_bound(gs, 12);
}

/// Each of `gs` has at most `b` states, so all together at most `len * b`.
proof fn lemma_total_states_bound(gs: Seq<Graph>, b: int)
    requires
        forall|i: int| 0 <= i < gs.len() ==> (#[trigger] gs[i]).states().len() <= b,
    ensures
        total_states(gs) <= gs.len() * b,
        total_states(gs) >= 0,
    decreases gs.len(),
{
    if gs.len() > 0 {
        let t = gs.drop_last();
        assert forall|i: int| 0 <= i < t.len() implies (#[trigger] t[i]).states().len() <= b by {
            assert(t[i] == gs[i]);
        }
        lemma_total_states_bound(t, b);
        assert(gs.last() == gs[gs.len() - 1]);
        assert((gs.len() - 1) * b + b == gs.len() * b) by (nonlinear_arith);
    }
}

/// Operators and delimiters of TINY (`:=` as `:` then `=`), unioned.
fn operator_graph(counter: &mut GraphCounter, ops: &Vec<i32>) -> (g: Graph)
    requires
        ops@.len() == 11,
        old(counter).count < 2000,
    ensures
        wf(g),
        g.states().len() <= 200,
        old(counter).count <= final(counter).count <= old(counter).count + 200,
        operator_nfa(ops@, g),
{
    let colon = basic(counter, "CHAR", ops[9], None);
    let eq_assign = basic(counter, "CHAR", ops[4], Some(LexemeCategory::ASSIGN_OPERATOR));
    proof {
        lemma_wf_shift_fits(eq_assign, 2);
    }
    let ghost colon_g = colon;
    let ghost eq_g = eq_assign;
    let graph_assign = product(counter, colon, eq_assign);
    let mut gs: Vec<Graph> = Vec::new();
    gs.push(basic(counter, "CHAR", ops[0], Some(LexemeCategory::NUMERIC_OPERATOR)));
    gs.push(basic(counter, "CHAR", ops[1], Some(LexemeCategory::NUMERIC_OPERATOR)));
    gs.push(basic(counter, "CHAR", ops[2], Some(LexemeCategory::NUMERIC_OPERATOR)));
    gs.push(basic(counter, "CHAR", ops[3], Some(LexemeCategory::NUMERIC_OPERATOR)));
    gs.push(basic(counter, "CHAR", ops[4], Some(LexemeCategory::COMPARE_OPERATOR)));
    gs.push(basic(counter, "CHAR", ops[5], Some(LexemeCategory::COMPARE_OPERATOR)));
    gs.push(basic(counter, "CHAR", ops[6], Some(LexemeCategory::LOGIC_OPERATOR)));
    gs.push(basic(counter, "CHAR", ops[7], Some(LexemeCategory::LOGIC_OPERATOR)));
    gs.push(basic(counter, "CHAR", ops[8], Some(LexemeCategory::LOGIC_OPERATOR)));
    gs.push(graph_assign);
    proof {
        lemma_total_states_bound(gs@, 4);
    }
    let ghost parts = gs@;
    let g = union_many(counter, gs);
    proof {
        assert forall|k: int| 0 <= k < 9 implies #[trigger] is_basic(parts[k], "CHAR"@, ops@[k], op_cat(k)) by {}
        assert(is_product(colon_g, eq_g, parts[9]));
        assert(union_fold(parts, g));
    }
    g
}

/// Identifiers: a letter, then letters and digits.
fn identifier_graph(counter: &mut GraphCounter, letters: i32, letter_digit: i32) -> (g: Graph)
    requires
        old(counter).count < 3000,
    ensures
        wf(g),
        g.states().len() <= 10,
        old(counter).count <= final(counter).count <= old(counter).count + 10,
        identifier_nfa(letters, letter_digit, g),
{
    let head = basic(counter, "CHARSET", letters, None);
    let tail = basic(counter, "CHARSET", letter_digit, Some(LexemeCategory::ID));
    proof {
        lemma_wf_shift_fits(tail, 1);
        crate::lab1::graph::lemma_wf_max_id_pub(tail);
    }
    let star = closure(counter, tail);
    proof {
        lemma_wf_shift_fits(star, 2);
    }
    let g = product(counter, head, star);
    assert(closure_shape(tail, star) && is_product(head, star, g));
    g
}

/// Comments: `{`, any characters of the comment set, `}`.
fn note_graph(counter: &mut GraphCounter, left: i32, body: i32, right: i32) -> (g: Graph)
    requires
        old(counter).count < 4000,
    ensures
        wf(g),
        g.states().len() <= 10,
        old(counter).count <= final(counter).count <= old(counter).count + 10,
        note_nfa(left, body, right, g),
{
    let open = basic(counter, "CHAR", left, None);
    let inner = basic(counter, "CHARSET", body, None);
    proof {
        lemma_wf_shift_fits(inner, 1);
        crate::lab1::graph::lemma_wf_max_id_pub(inner);
    }
    let star = closure(counter, inner);
    proof {
        lemma_wf_shift_fits(star, 2);
    }
    let front = product(counter, open, star);
    let close = basic(counter, "CHAR", right, Some(LexemeCategory::NOTE));
    proof {
        lemma_wf_shift_fits(close, front.states().len() as int);
    }
    let g = product(counter, front, close);
    assert(is_product(open, star, front) && closure_shape(inner, star) && is_product(front, close, g));
    g
}

/// Integers: one or more digits (set `digit`), accepted as
/// `INTEGER_CONST`.
pub open spec fn number_nfa(digit: i32, g: Graph) -> bool {
    exists|d: Graph| #[trigger] is_basic(d, "CHARSET"@, digit, Some(LexemeCategory::INTEGER_CONST)) && g.states() == d.states()
        && g.edges() == d.edges() + eps_from(all_match_ids(d.states()), start_of(d.states()))
}

/// The NFA of all TINY tokens: keywords, operators, identifiers, comments,
/// integers and the blank, unioned in that order.
pub open spec fn tiny_tokens_nfa(sets: TinySets, g: Graph) -> bool {
    exists|parts: Seq<Graph>| #[trigger] union_fold(parts, g) && parts.len() == 6 && keywords_nfa(sets.singles@, parts[0])
        && operator_nfa(sets.ops@, parts[1]) && identifier_nfa(sets.letters, sets.letter_digit, parts[2])
        && note_nfa(sets.left_note, sets.note, sets.right_note, parts[3]) && number_nfa(sets.digit, parts[4])
        && is_basic(parts[5], "CHAR"@, sets.ops@[10], Some(LexemeCategory::SPACE_CONST))
}

/// The NFA of all TINY tokens.
fn tiny_nfa(counter: &mut GraphCounter, sets: &TinySets) -> (g: Graph)
    requires
        old(counter).count == 0,
        sets.singles@.len() == 26,
        sets.ops@.len() == 11,
    ensures
        wf(g),
        g.states().len() <= 2000,
        final(counter).count <= 1000,
        tiny_tokens_nfa(*sets, g),
{
    let mut gs: Vec<Graph> = Vec::new();
    gs.push(keyword_graph(counter, &sets.singles));
    gs.push(operator_graph(counter, &sets.ops));
    gs.push(identifier_graph(counter, sets.letters, sets.letter_digit));
    gs.push(note_graph(counter, sets.left_note, sets.note, sets.right_note));
    let digits = basic(counter, "CHARSET", sets.digit, Some(LexemeCategory::INTEGER_CONST));
    let number = plusClosure(counter, digits);
    assert(number_nfa(sets.digit, number));
    gs.push(number);
    gs.push(basic(counter, "CHAR", sets.ops[10], Some(LexemeCategory::SPACE_CONST)));
    proof {
        lemma_total_states_bound(gs@, 200);
    }
    let ghost parts = gs@;
    let g = union_many(counter, gs);
    proof {
        assert(union_fold(parts, g));
    }
    g
}

/// `g` is the TINY lexer over the character sets `segs`: the subset
/// construction of the minimised automaton of all TINY tokens, built on the
/// TINY character sets `sets`, which hold in `segs` the characters their
/// names say.
pub open spec fn tiny_lexer(segs: Seq<CharSet>, g: Graph) -> bool {
    exists|sets: TinySets, nfa: Graph, min: Graph, sv: Seq<Set<i32>>, pairs: Seq<(int, int)>|
        #![trigger tiny_tokens_nfa(sets, nfa), subset_dfa(min, segs, sv, pairs, g)]
        tiny_sets_ok(segs, sets) && tiny_tokens_nfa(sets, nfa) && wf(nfa) && minimized_of(nfa, min) && subset_dfa(
            min,
            segs,
            sv,
            pairs,
            g,
        )
}

/// The DFA of the TINY lexer: the tables are reset, the character sets and
/// token NFAs built, their union minimised and determinised.
pub fn create_tiny_lexical_dfa(t: &mut CharSetTable, counter: &mut GraphCounter, regs: &mut RegularTable) -> (g: Graph)
    ensures
        final(regs).entries@.len() == 0,
        table_wf(*final(t)),
        tiny_lexer(final(t).segments@, g),
{
    reset_global_tables(t, counter, regs);
    proof {
        assert(table_wf(*t));
    }
    let sets = build_tiny_sets(t);
    let nfa = tiny_nfa(counter, &sets);
    let min = nfa.minimize_nfa(counter);
    let g = min.NFA_to_DFA(t, counter);
    proof {
        let (sv, pairs) = choose|sv: Seq<Set<i32>>, pairs: Seq<(int, int)>| subset_dfa(min, t.segments@, sv, pairs, g);
        assert(tiny_sets_ok(t.segments@, sets) && tiny_tokens_nfa(sets, nfa) && subset_dfa(min, t.segments@, sv, pairs, g));
    }
    g
}

} // verus!
