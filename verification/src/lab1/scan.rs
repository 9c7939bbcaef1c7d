//! Running a DFA over text: classifying a whole lexeme, and cutting a long
//! text into tokens.
use vstd::prelude::*;
use crate::lab1::category::LexemeCategory;
use crate::lab1::char_set::{has_contain_char, set_has, CharSet, CharSetTable};
use crate::lab1::graph::{EdgeV, Graph, StateV};
use crate::lab1::token::{lemma_view_tokens_push, view_tokens, Token, TokenV};
use crate::text::{chars_of, parse_i64, push_char, spec_parse_i64};

verus! {

/// The first of the first `n` edges that leaves `s` on a character set
/// holding `c`: its target.
pub open spec fn step_upto(segs: Seq<CharSet>, e: Seq<EdgeV>, s: i32, c: char, n: int) -> Option<i32>
    decreases n,
{
    if n <= 0 {
        None
    } else {
        let r = step_upto(segs, e, s, c, n - 1);
        if r is Some {
            r
        } else if e[n - 1].0 == s && e[n - 1].2 != -1 && set_has(segs, e[n - 1].2, c) {
            Some(e[n - 1].1)
        } else {
            None
        }
    }
}

/// The DFA move from `s` on `c`: along the first matching edge.
pub open spec fn dfa_step(segs: Seq<CharSet>, e: Seq<EdgeV>, s: i32, c: char) -> Option<i32> {
    step_upto(segs, e, s, c, e.len() as int)
}

/// The state reached from state 0 on `text`, or `None` where a character
/// has no move.
pub open spec fn dfa_run(segs: Seq<CharSet>, e: Seq<EdgeV>, text: Seq<char>) -> Option<i32>
    decreases text.len(),
{
    if text.len() == 0 {
        Some(0)
    } else {
        match dfa_run(segs, e, text.drop_last()) {
            Some(s) => dfa_step(segs, e, s, text.last()),
            None => None,
        }
    }
}

pub open spec fn terminal_text() -> Seq<char> {
    "TERMINAL"@
}

/// Categories whose tokens keep their text.
pub open spec fn keeps_text(c: LexemeCategory) -> bool {
    c == LexemeCategory::ID || c == LexemeCategory::KEYWORD || c == LexemeCategory::COMPARE_OPERATOR
        || c == LexemeCategory::LOGIC_OPERATOR || c == LexemeCategory::NUMERIC_OPERATOR
        || c == LexemeCategory::ASSIGN_OPERATOR
}

/// The token for lexeme `buf` ending in the state at position `idx`: none
/// outside the table, for a state without category, and for blanks and
/// comments.
pub open spec fn token_of(st: Seq<StateV>, idx: i32, buf: Seq<char>) -> Option<TokenV> {
    if idx < 0 || idx >= st.len() {
        None
    } else {
        match st[idx as int].2 {
            None => None,
            Some(cat) => if cat == LexemeCategory::SPACE_CONST || cat == LexemeCategory::NOTE {
                None
            } else {
                Some(
                    (
                        cat,
                        terminal_text(),
                        if keeps_text(cat) { Some(buf) } else { None },
                        if cat == LexemeCategory::INTEGER_CONST { spec_parse_i64(buf) } else { None },
                    ),
                )
            },
        }
    }
}

/// Scanner state: current DFA state, pending lexeme, tokens so far.
pub type ScanV = (i32, Seq<char>, Seq<TokenV>);

/// One character of a long-text scan: follow the DFA, or close the pending
/// lexeme and start a new one with `c`.
pub open spec fn scan_char(segs: Seq<CharSet>, e: Seq<EdgeV>, st: Seq<StateV>, acc: ScanV, c: char) -> ScanV {
    match dfa_step(segs, e, acc.0, c) {
        Some(n) => (n, acc.1.push(c), acc.2),
        None => {
            let toks = match token_of(st, acc.0, acc.1) {
                Some(tk) => acc.2.push(tk),
                None => acc.2,
            };
            let ns = match dfa_step(segs, e, 0, c) {
                Some(n) => n,
                None => 0,
            };
            (ns, seq![c], toks)
        },
    }
}

/// The scanner state after `text`.
pub open spec fn scan_fold(segs: Seq<CharSet>, e: Seq<EdgeV>, st: Seq<StateV>, text: Seq<char>) -> ScanV
    decreases text.len(),
{
    if text.len() == 0 {
        (0, Seq::empty(), Seq::empty())
    } else {
        scan_char(segs, e, st, scan_fold(segs, e, st, text.drop_last()), text.last())
    }
}

/// The tokens of `text`: those closed during the scan, then the last lexeme.
pub open spec fn scan_text(segs: Seq<CharSet>, e: Seq<EdgeV>, st: Seq<StateV>, text: Seq<char>) -> Seq<TokenV> {
    let f = scan_fold(segs, e, st, text);
    match token_of(st, f.0, f.1) {
        Some(tk) => f.2.push(tk),
        None => f.2,
    }
}

/// A token that neither is a blank nor a comment.
pub open spec fn kept_category(tk: TokenV) -> bool {
    tk.0 != LexemeCategory::SPACE_CONST && tk.0 != LexemeCategory::NOTE
}

proof fn lemma_scan_fold_kept(segs: Seq<CharSet>, e: Seq<EdgeV>, st: Seq<StateV>, text: Seq<char>)
    ensures
        forall|i: int| 0 <= i < scan_fold(segs, e, st, text).2.len() ==> kept_category(#[trigger] scan_fold(segs, e, st, text).2[i]),
    decreases text.len(),
{
    if text.len() > 0 {
        lemma_scan_fold_kept(segs, e, st, text.drop_last());
        let prev = scan_fold(segs, e, st, text.drop_last());
        let cur = scan_fold(segs, e, st, text);
        assert(cur == scan_char(segs, e, st, prev, text.last()));
        assert forall|i: int| 0 <= i < cur.2.len() implies kept_category(#[trigger] cur.2[i]) by {
            if i < prev.2.len() {
                assert(kept_category(prev.2[i]));
            }
        }
    }
}

/// Blanks and comments never come out of a long-text scan: no token of
/// `scan_text` has category `SPACE_CONST` or `NOTE`, whatever the automaton
/// and the text.
pub proof fn lemma_scan_drops_blanks_and_comments(segs: Seq<CharSet>, e: Seq<EdgeV>, st: Seq<StateV>, text: Seq<char>)
    ensures
        forall|i: int|
            0 <= i < scan_text(segs, e, st, text).len() ==> (#[trigger] scan_text(segs, e, st, text)[i]).0 != LexemeCategory::SPACE_CONST
                && scan_text(segs, e, st, text)[i].0 != LexemeCategory::NOTE,
{
    lemma_scan_fold_kept(segs, e, st, text);
    let f = scan_fold(segs, e, st, text);
    assert forall|i: int| 0 <= i < scan_text(segs, e, st, text).len() implies kept_category(#[trigger] scan_text(segs, e, st, text)[i]) by {
        if i < f.2.len() {
            assert(kept_category(f.2[i]));
        }
    }
}

impl Graph {
    /// The DFA move from `state` on `c`.
    fn find_move(&self, t: &CharSetTable, state: i32, c: char) -> (res: Option<i32>)
        ensures
            res == dfa_step(t.segments@, self.edges(), state, c),
    {
        let ghost e = self.edges();
        let mut i: usize = 0;
        while i < self.pEdgeTable.len()
            invariant
                i <= self.pEdgeTable@.len(),
                e == self.edges(),
                step_upto(t.segments@, e, state, c, i as int) is None,
            decreases self.pEdgeTable@.len() - i,
        {
            let edge = &self.pEdgeTable[i];
            assert(e[i as int] == edge@);
            if edge.fromState == state && edge.driverId != -1 && has_contain_char(t, edge.driverId, c) {
                proof {
                    lemma_step_upto_found(t.segments@, e, state, c, i as int);
                }
                return Some(edge.nextState);
            }
            i = i + 1;
        }
        None
    }

    /// The category of the state reached from state 0 on `text`, or `None`
    /// where some character has no move.
    pub fn get_lexeme_category(&self, t: &CharSetTable, text: &str) -> (res: Option<LexemeCategory>)
        requires
            dfa_run(t.segments@, self.edges(), text@) matches Some(s) ==> 0 <= s < self.states().len(),
        ensures
            res == match dfa_run(t.segments@, self.edges(), text@) {
                Some(s) => self.states()[s as int].2,
                None => None,
            },
    {
        let cs = chars_of(text);
        let mut curr_state: i32 = 0;
        let mut i: usize = 0;
        while i < cs.len()
            invariant
                i <= cs@.len(),
                cs@ == text@,
                dfa_run(t.segments@, self.edges(), cs@.subrange(0, i as int)) == Some(curr_state),
            decreases cs@.len() - i,
        {
            assert(cs@.subrange(0, i + 1).drop_last() =~= cs@.subrange(0, i as int));
            match self.find_move(t, curr_state, cs[i]) {
                Some(n) => {
                    curr_state = n;
                },
                None => {
                    proof {
                        lemma_run_stuck(t.segments@, self.edges(), cs@, i as int + 1);
                    }
                    return None;
                },
            }
            i = i + 1;
        }
        assert(cs@.subrange(0, i as int) =~= cs@);
        self.pStateTable[curr_state as usize].LexemeCategory
    }

    /// The token for lexeme `buffer` ending in the state at position
    /// `state_idx`.
    fn build_token(&self, state_idx: i32, buffer: &String) -> (res: Option<Token>)
        ensures
            match res {
                Some(tk) => token_of(self.states(), state_idx, buffer@) == Some(tk@),
                None => token_of(self.states(), state_idx, buffer@) is None,
            },
    {
        if state_idx < 0 || state_idx as usize >= self.pStateTable.len() {
            return None;
        }
        let state = &self.pStateTable[state_idx as usize];
        assert(self.states()[state_idx as int] == state@);
        let category = match state.LexemeCategory {
            Some(c) => c,
            None => {
                return None;
            },
        };
        if category == LexemeCategory::SPACE_CONST || category == LexemeCategory::NOTE {
            return None;
        }
        let keep = category == LexemeCategory::ID || category == LexemeCategory::KEYWORD || category
            == LexemeCategory::COMPARE_OPERATOR || category == LexemeCategory::LOGIC_OPERATOR || category
            == LexemeCategory::NUMERIC_OPERATOR || category == LexemeCategory::ASSIGN_OPERATOR;
        let identify = if keep {
            Some(buffer.clone())
        } else {
            None
        };
        let value = if category == LexemeCategory::INTEGER_CONST {
            parse_i64(buffer.as_str())
        } else {
            None
        };
        Some(Token { lexeme_category: category, symbol_type: String::from_str("TERMINAL"), identify, value })
    }

    /// Cuts `text` into tokens: the DFA is followed from state 0 as far as it
    /// goes; where a character has no move, the pending lexeme becomes a token
    /// (unless its state has no category or is a blank or comment) and a new
    /// lexeme starts with that character.
    pub fn long_text_search(&self, t: &CharSetTable, text: &str) -> (res: Vec<Token>)
        ensures
            view_tokens(res@) == scan_text(t.segments@, self.edges(), self.states(), text@),
            forall|i: int| 0 <= i < res@.len() ==> (#[trigger] res@[i]).lexeme_category != LexemeCategory::SPACE_CONST
                && res@[i].lexeme_category != LexemeCategory::NOTE,
    {
        let ghost segs = t.segments@;
        let ghost e = self.edges();
        let ghost st = self.states();
        let cs = chars_of(text);
        let mut result: Vec<Token> = Vec::new();
        let mut next_state: i32 = 0;
        let mut buffer = String::new();
        let mut i: usize = 0;
        proof {
            assert(view_tokens(result@) =~= Seq::<TokenV>::empty());
            assert(cs@.subrange(0, 0) =~= Seq::<char>::empty());
        }
        while i < cs.len()
            invariant
                i <= cs@.len(),
                cs@ == text@,
                segs == t.segments@,
                e == self.edges(),
                st == self.states(),
                scan_fold(segs, e, st, cs@.subrange(0, i as int)) == (next_state, buffer@, view_tokens(result@)),
            decreases cs@.len() - i,
        {
            assert(cs@.subrange(0, i + 1).drop_last() =~= cs@.subrange(0, i as int));
            let c = cs[i];
            match self.find_move(t, next_state, c) {
                Some(n) => {
                    next_state = n;
                    push_char(&mut buffer, c);
                },
                None => {
                    let tk = self.build_token(next_state, &buffer);
                    match tk {
                        Some(tok) => {
                            proof {
                                lemma_view_tokens_push(result@, tok);
                            }
                            result.push(tok);
                        },
                        None => {},
                    }
                    buffer = String::new();
                    push_char(&mut buffer, c);
                    assert(buffer@ =~= seq![c]);
                    next_state = match self.find_move(t, 0, c) {
                        Some(n) => n,
                        None => 0,
                    };
                },
            }
            i = i + 1;
        }
        assert(cs@.subrange(0, i as int) =~= cs@);
        match self.build_token(next_state, &buffer) {
            Some(tok) => {
                proof {
                    lemma_view_tokens_push(result@, tok);
                }
                result.push(tok);
            },
            None => {},
        }
        proof {
            lemma_scan_drops_blanks_and_comments(segs, e, st, text@);
            assert forall|i: int| 0 <= i < result@.len() implies (#[trigger] result@[i]).lexeme_category != LexemeCategory::SPACE_CONST
                && result@[i].lexeme_category != LexemeCategory::NOTE by {
                assert(view_tokens(result@)[i] == result@[i]@);
            }
        }
        result
    }
}

/// The first matching edge at index `i`, after none before it, gives the move.
proof fn lemma_step_upto_found(segs: Seq<CharSet>, e: Seq<EdgeV>, s: i32, c: char, i: int)
    requires
        0 <= i < e.len(),
        step_upto(segs, e, s, c, i) is None,
        e[i].0 == s && e[i].2 != -1 && set_has(segs, e[i].2, c),
    ensures
        dfa_step(segs, e, s, c) == Some(e[i].1),
{
    lemma_step_upto_stable(segs, e, s, c, i + 1, e.len() as int);
}

/// Once found among the first `m` edges, the move stays the same.
proof fn lemma_step_upto_stable(segs: Seq<CharSet>, e: Seq<EdgeV>, s: i32, c: char, m: int, n: int)
    requires
        0 <= m <= n,
        step_upto(segs, e, s, c, m) is Some,
    ensures
        step_upto(segs, e, s, c, n) == step_upto(segs, e, s, c, m),
    decreases n - m,
{
    if m < n {
        lemma_step_upto_stable(segs, e, s, c, m, n - 1);
    }
}

/// A run that is stuck on a prefix stays stuck.
proof fn lemma_run_stuck(segs: Seq<CharSet>, e: Seq<EdgeV>, text: Seq<char>, k: int)
    requires
        0 < k <= text.len(),
        dfa_run(segs, e, text.subrange(0, k)) is None,
    ensures
        dfa_run(segs, e, text) is None,
    decreases text.len() - k,
{
    if k < text.len() {
        assert(text.subrange(0, k + 1).drop_last() =~= text.subrange(0, k));
        lemma_run_stuck(segs, e, text, k + 1);
    } else {
        assert(text.subrange(0, k) =~= text);
    }
}

} // verus!
