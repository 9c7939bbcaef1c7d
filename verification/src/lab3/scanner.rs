//! Scanning source text into tokens with a lexical DFA, and the token list
//! filtered and printed.
use vstd::prelude::*;
use crate::lab1::category::LexemeCategory;
use crate::lab1::char_set::{table_wf, CharSetTable};
use crate::lab1::dfa::subset_dfa;
use crate::lab1::graph::{wf, Graph, GraphCounter};
use crate::lab1::lexer::{create_tiny_lexical_dfa, tiny_lexer};
use crate::lab1::regular_expression::RegularTable;
use crate::lab1::scan::scan_text;
use crate::lab1::token::{view_tokens, Token, TokenV};
use crate::text::{i64_to_string, int_text, pad_right};

verus! {

/// The tokens of a scan, and the errors met (none are reported).
pub struct ScanResult {
    pub tokens: Vec<Token>,
    pub errors: Vec<String>,
}

/// Scans `source_text` with the DFA `dfa` over the character sets of `t`.
pub fn scan_with_dfa(dfa: &Graph, t: &CharSetTable, source_text: &str) -> (res: ScanResult)
    ensures
        view_tokens(res.tokens@) == scan_text(t.segments@, dfa.edges(), dfa.states(), source_text@),
        res.errors@.len() == 0,
{
    let tokens = dfa.long_text_search(t, source_text);
    ScanResult { tokens, errors: Vec::new() }
}

/// Scans `source_text` with the TINY lexer: fresh character-set and
/// automaton tables, the TINY DFA built in them, and the scan.
pub fn scan_with_builtin_dfa(source_text: &str) -> (res: ScanResult)
    ensures
        exists|segs: Seq<crate::lab1::char_set::CharSet>, g: Graph| {
            &&& #[trigger] tiny_lexer(segs, g)
            &&& view_tokens(res.tokens@) == scan_text(segs, g.edges(), g.states(), source_text@)
        },
        res.errors@.len() == 0,
{
    let mut t = CharSetTable::new();
    let mut counter = GraphCounter::new();
    let mut regs = RegularTable::new();
    let dfa = create_tiny_lexical_dfa(&mut t, &mut counter, &mut regs);
    let res = scan_with_dfa(&dfa, &t, source_text);
    assert(tiny_lexer(t.segments@, dfa));
    res
}

/// The tokens that are neither blanks nor comments, in order.
pub open spec fn meaningful(v: Seq<TokenV>) -> Seq<TokenV>
    decreases v.len(),
{
    if v.len() == 0 {
        Seq::empty()
    } else if v.last().0 != LexemeCategory::SPACE_CONST && v.last().0 != LexemeCategory::NOTE {
        meaningful(v.drop_last()).push(v.last())
    } else {
        meaningful(v.drop_last())
    }
}

/// A copy of a token.
pub fn copy_token(t: &Token) -> (res: Token)
    ensures
        res@ == t@,
{
    Token {
        lexeme_category: t.lexeme_category,
        symbol_type: t.symbol_type.clone(),
        identify: match &t.identify {
            Some(s) => Some(s.clone()),
            None => None,
        },
        value: t.value,
    }
}

/// The tokens that are neither blanks nor comments, in order.
pub fn filter_meaningful(tokens: &Vec<Token>) -> (res: Vec<Token>)
    ensures
        view_tokens(res@) == meaningful(view_tokens(tokens@)),
{
    let mut res: Vec<Token> = Vec::new();
    let mut i: usize = 0;
    while i < tokens.len()
        invariant
            i <= tokens@.len(),
            view_tokens(res@) == meaningful(view_tokens(tokens@.subrange(0, i as int))),
        decreases tokens@.len() - i,
    {
        let ghost sub = tokens@.subrange(0, i + 1);
        proof {
            assert(view_tokens(sub).drop_last() =~= view_tokens(tokens@.subrange(0, i as int)));
            assert(view_tokens(sub).last() == tokens@[i as int]@);
        }
        let c = tokens[i].lexeme_category;
        if c != LexemeCategory::SPACE_CONST && c != LexemeCategory::NOTE {
            let ghost before = res@;
            res.push(copy_token(&tokens[i]));
            proof {
                assert(view_tokens(res@) =~= view_tokens(before).push(tokens@[i as int]@));
            }
        }
        i = i + 1;
    }
    assert(tokens@.subrange(0, i as int) =~= tokens@);
    res
}

/// The name of a category, as `{:?}` prints it.
pub open spec fn category_text(c: LexemeCategory) -> Seq<char> {
    match c {
        LexemeCategory::INTEGER_CONST => "INTEGER_CONST"@,
        LexemeCategory::FLOAT_CONST => "FLOAT_CONST"@,
        LexemeCategory::SCIENTIFIC_CONST => "SCIENTIFIC_CONST"@,
        LexemeCategory::NUMERIC_OPERATOR => "NUMERIC_OPERATOR"@,
        LexemeCategory::NOTE => "NOTE"@,
        LexemeCategory::STRING_CONST => "STRING_CONST"@,
        LexemeCategory::SPACE_CONST => "SPACE_CONST"@,
        LexemeCategory::COMPARE_OPERATOR => "COMPARE_OPERATOR"@,
        LexemeCategory::ID => "ID"@,
        LexemeCategory::LOGIC_OPERATOR => "LOGIC_OPERATOR"@,
        LexemeCategory::KEYWORD => "KEYWORD"@,
        LexemeCategory::ASSIGN_OPERATOR => "ASSIGN_OPERATOR"@,
    }
}

/// The name of a category.
pub fn category_name(c: LexemeCategory) -> (res: &'static str)
    ensures
        res@ == category_text(c),
{
    match c {
        LexemeCategory::INTEGER_CONST => "INTEGER_CONST",
        LexemeCategory::FLOAT_CONST => "FLOAT_CONST",
        LexemeCategory::SCIENTIFIC_CONST => "SCIENTIFIC_CONST",
        LexemeCategory::NUMERIC_OPERATOR => "NUMERIC_OPERATOR",
        LexemeCategory::NOTE => "NOTE",
        LexemeCategory::STRING_CONST => "STRING_CONST",
        LexemeCategory::SPACE_CONST => "SPACE_CONST",
        LexemeCategory::COMPARE_OPERATOR => "COMPARE_OPERATOR",
        LexemeCategory::ID => "ID",
        LexemeCategory::LOGIC_OPERATOR => "LOGIC_OPERATOR",
        LexemeCategory::KEYWORD => "KEYWORD",
        LexemeCategory::ASSIGN_OPERATOR => "ASSIGN_OPERATOR",
    }
}


/// What a token's line shows of it: its value, else its text, else
/// `<none>`.
pub open spec fn token_content(t: TokenV) -> Seq<char> {
    match t.3 {
        Some(v) => int_text(v as int),
        None => match t.2 {
            Some(s) => s,
            None => "<none>"@,
        },
    }
}

/// The line of a token: two spaces, its category padded to 22 characters,
/// ` | `, its content, and a newline.
pub open spec fn token_line(t: TokenV) -> Seq<char> {
    "  "@ + pad_right(category_text(t.0), 22) + " | "@ + token_content(t) + "\n"@
}

/// The lines of the tokens, one after another.
pub open spec fn tokens_text(v: Seq<TokenV>) -> Seq<char>
    decreases v.len(),
{
    if v.len() == 0 {
        Seq::empty()
    } else {
        tokens_text(v.drop_last()) + token_line(v.last())
    }
}

/// The tokens, one line each.
#[verifier::spinoff_prover]
#[verifier::rlimit(40)]
pub fn format_tokens(tokens: &Vec<Token>) -> (res: String)
    ensures
        res@ == tokens_text(view_tokens(tokens@)),
{
    let mut out = String::new();
    let mut i: usize = 0;
    proof {
        reveal_strlit("  ");
        reveal_strlit(" | ");
        reveal_strlit("\n");
        reveal_strlit(" ");
        assert(out@ =~= tokens_text(view_tokens(tokens@.subrange(0, 0))));
    }
    while i < tokens.len()
        invariant
            i <= tokens@.len(),
            out@ == tokens_text(view_tokens(tokens@.subrange(0, i as int))),
        decreases tokens@.len() - i,
    {
        let ghost before = out@;
        let t = &tokens[i];
        let cat = category_name(t.lexeme_category);
        out.append("  ");
        out.append(cat);
        let n = cat.unicode_len();
        let mut k: usize = n;
        let ghost mid = out@;
        while k < 22
            invariant
                n <= k <= 22 || (n > 22 && k == n),
                n == cat@.len(),
                out@ == mid + Seq::new((k - n) as nat, |q: int| ' '),
            decreases 22 - k,
        {
            out.append(" ");
            proof {
                reveal_strlit(" ");
                assert(out@ =~= mid + Seq::new((k + 1 - n) as nat, |q: int| ' '));
            }
            k = k + 1;
        }
        proof {
            if n >= 22 {
                assert(out@ =~= mid);
            }
            assert(mid =~= before + "  "@ + cat@);
        }
        out.append(" | ");
        match t.value {
            Some(v) => {
                let s = i64_to_string(v);
                out.append(s.as_str());
            },
            None => match &t.identify {
                Some(s) => {
                    out.append(s.as_str());
                },
                None => {
                    out.append("<none>");
                },
            },
        }
        out.append("\n");
        proof {
            let sub = tokens@.subrange(0, i + 1);
            assert(view_tokens(sub).drop_last() =~= view_tokens(tokens@.subrange(0, i as int)));
            assert(view_tokens(sub).last() == tokens@[i as int]@);
            assert(out@ =~= before + token_line(tokens@[i as int]@));
        }
        i = i + 1;
    }
    assert(tokens@.subrange(0, i as int) =~= tokens@);
    out
}

} // verus!
