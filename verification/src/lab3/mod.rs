//! A lexer construction tool: regular definitions of a language's lexemes,
//! and scanning source text with a lexical DFA.
pub mod scanner;
pub mod regex_lang;
mod pattern;

use vstd::prelude::*;
use crate::lab1::char_set::{CharSet, CharSetTable};
use crate::lab1::dfa::subset_dfa;
use crate::lab1::graph::{Graph, GraphCounter};
use crate::lab1::lexer::reset_global_tables;
use crate::lab1::regular_expression::RegularTable;
use crate::lab3::pattern::tv;
use crate::lab3::regex_lang::{build_nfa_from_defs, nfa_built, parse_regex_definitions, rdviews, regex_defs, RegexDef};

verus! {

/// The lexemes of the language of regular definitions, written in it: one
/// definition per line, `[@]name -> pattern`, a `@` marking a lexeme
/// category; the last line joins the categories.
pub const TINY_LEX_DEF: &'static str = r#"
character -> '\0'..'\127'
letter -> 'a'..'z' | 'A'..'Z'
@reserved -> '(' | ')' | '|' | '·' | '*' | '+' | '?' | '→' | '@' | '$' | '-' | '~'
@id -> letter+
@cc -> ''' character '''
@space -> ' '+
@crlf -> ('\r' · '\n')+
lexeme -> reserved | id | cc | space | crlf
"#;

/// The lexemes of TINY: keywords, operators, delimiters, identifiers,
/// integers, comments and blanks.
pub const TINY_LEX_FULL_DEF: &'static str = r#"
digit           -> '0'..'9'
letter          -> 'a'..'z' | 'A'..'Z'
letter_or_digit -> letter | digit

@keyword    -> 'i' 'f' | 't' 'h' 'e' 'n' | 'e' 'l' 's' 'e' | 'e' 'n' 'd'
             | 'r' 'e' 'p' 'e' 'a' 't' | 'u' 'n' 't' 'i' 'l'
             | 'r' 'e' 'a' 'd' | 'w' 'r' 'i' 't' 'e'

@numeric_op    -> '+' | '-' | '*' | '/'
@compare_op    -> '<' | '='
@logic_op      -> '(' | ')' | ';'
@assign        -> ':' '='

@id            -> letter letter_or_digit*

@integer_const -> digit+
@note          -> '{' character* '}'
@space         -> ' ' | '\t' | '\r' | '\n'

lexeme -> keyword | numeric_op | compare_op | logic_op | assign
        | id | integer_const | note | space
"#;

/// `g` is the subset construction of some automaton over the sets `segs`.
pub open spec fn determinised(segs: Seq<crate::lab1::char_set::CharSet>, g: Graph) -> bool {
    exists|nfa: Graph, sv: Seq<Set<i32>>, pairs: Seq<(int, int)>| #[trigger] subset_dfa(nfa, segs, sv, pairs, g)
}

/// `g` is a subset construction of `nfa` over the sets `segs`.
pub open spec fn subset_of(nfa: Graph, segs: Seq<CharSet>, g: Graph) -> bool {
    exists|sv: Seq<Set<i32>>, pairs: Seq<(int, int)>| #[trigger] subset_dfa(nfa, segs, sv, pairs, g)
}

/// The DFA of the automaton `built` (tables `tn`, counter `cn`), where the
/// counter and the size leave room for it.
pub open spec fn dfa_step(built: Option<Graph>, tn: (Seq<CharSet>, i32), cn: i32, res: Option<Graph>, c1: i32) -> bool {
    match built {
        None => res is None,
        Some(nfa) => if cn < i32::MAX && nfa.pStateTable@.len() <= 0x7fff_ffff {
            &&& res is Some
            &&& c1 == cn + 1
            &&& subset_of(nfa, tn.0, res->0)
        } else {
            res is None
        },
    }
}

/// The TINY lexer DFA built from its regular definitions: the tables reset,
/// the definitions read, their automaton built and determinised; `None`
/// where a number would leave `i32`.
pub fn build_tiny_lexer_dfa(t: &mut CharSetTable, counter: &mut GraphCounter, regs: &mut RegularTable) -> (res: Option<Graph>)
    ensures
        exists|defs: Seq<RegexDef>, built: Option<Graph>, tn: (Seq<CharSet>, i32), cn: i32| {
            &&& #[trigger] nfa_built(defs, (Seq::<CharSet>::empty(), 1i32), 0i32, built, tn, cn)
            &&& rdviews(defs) == regex_defs(TINY_LEX_FULL_DEF@)
            &&& tn == tv(*final(t))
            &&& dfa_step(built, tn, cn, res, final(counter).count)
        },
        res matches Some(g) ==> determinised(final(t).segments@, g),
{
    reset_global_tables(t, counter, regs);
    proof {
        assert(tv(*t) == (Seq::<CharSet>::empty(), 1i32));
    }
    let defs = parse_regex_definitions(TINY_LEX_FULL_DEF);
    let built = build_nfa_from_defs(&defs, t, counter);
    let ghost bg = match &built {
        Some(r) => Some(r.0),
        None => None::<Graph>,
    };
    let ghost tn = tv(*t);
    let ghost cn = counter.count;
    assert(nfa_built(defs@, (Seq::<CharSet>::empty(), 1i32), 0i32, bg, tn, cn));
    let (nfa, _categories) = match built {
        Some(r) => r,
        None => {
            assert(dfa_step(bg, tn, cn, None, counter.count));
            return None;
        },
    };
    if counter.count < i32::MAX && nfa.pStateTable.len() <= 0x7fff_ffff {
        let g = nfa.NFA_to_DFA(t, counter);
        proof {
            let (sv, pairs) = choose|sv: Seq<Set<i32>>, pairs: Seq<(int, int)>| subset_dfa(nfa, t.segments@, sv, pairs, g);
            assert(subset_dfa(nfa, t.segments@, sv, pairs, g));
            assert(subset_dfa(nfa, tn.0, sv, pairs, g));
            assert(determinised(t.segments@, g));
            assert(bg == Some(nfa));
            assert(tn == tv(*t));
            assert(rdviews(defs@) == regex_defs(TINY_LEX_FULL_DEF@));
            assert(cn < i32::MAX && nfa.pStateTable@.len() <= 0x7fff_ffff);
            assert(counter.count == cn + 1);
            assert(dfa_step(bg, tn, cn, Some(g), counter.count));
        }
        Some(g)
    } else {
        proof {
            assert(bg == Some(nfa));
            assert(dfa_step(bg, tn, cn, None, counter.count));
        }
        None
    }
}

} // verus!
