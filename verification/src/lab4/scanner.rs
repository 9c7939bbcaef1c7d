//! The TINY scanner: the TINY lexer DFA cuts the text into tokens, which are
//! then classified into TINY token kinds.
use vstd::prelude::*;
use crate::lab1::category::LexemeCategory;
use crate::lab1::char_set::CharSetTable;
use crate::lab1::graph::GraphCounter;
use crate::lab1::lexer::create_tiny_lexical_dfa;
use crate::lab1::regular_expression::RegularTable;
use crate::lab1::token::{opt_view, view_tokens, Token, TokenV};
use crate::lab4::error::CompileError;
use crate::lab4::token::{TinyToken, TinyTokenKind, TinyTokenKindV};
use crate::text::{i64_to_string, int_text, str_eq};

verus! {

/// What becomes of one lexer token.
pub enum ClassV {
    /// Blanks, comments and strings are dropped.
    Skip,
    /// A TINY token: kind and text.
    Tok(TinyTokenKindV, Seq<char>),
    /// An unknown keyword or operator, or an integer without value, with
    /// the message of the lexical error.
    LexErr(Seq<char>),
    /// A floating-point constant (TINY has integers only), with the message
    /// of the semantic error.
    SemErr(Seq<char>),
}

/// The keyword kind spelled by `s`, if any.
pub open spec fn keyword_kind(s: Seq<char>) -> Option<TinyTokenKindV> {
    if s == "if"@ {
        Some(TinyTokenKindV::If)
    } else if s == "then"@ {
        Some(TinyTokenKindV::Then)
    } else if s == "else"@ {
        Some(TinyTokenKindV::Else)
    } else if s == "end"@ {
        Some(TinyTokenKindV::End)
    } else if s == "repeat"@ {
        Some(TinyTokenKindV::Repeat)
    } else if s == "until"@ {
        Some(TinyTokenKindV::Until)
    } else if s == "read"@ {
        Some(TinyTokenKindV::Read)
    } else if s == "write"@ {
        Some(TinyTokenKindV::Write)
    } else {
        None
    }
}

/// The text of a token, or empty when it has none.
pub open spec fn text_or_empty(o: Option<Seq<char>>) -> Seq<char> {
    match o {
        Some(s) => s,
        None => Seq::empty(),
    }
}

/// How one lexer token is classified.
pub open spec fn classify_one(tv: TokenV) -> ClassV {
    let text = text_or_empty(tv.2);
    match tv.0 {
        LexemeCategory::KEYWORD => match keyword_kind(text) {
            Some(k) => ClassV::Tok(k, text),
            None => ClassV::LexErr("未知关键字: "@ + text),
        },
        LexemeCategory::ID => match keyword_kind(text) {
            Some(k) => ClassV::Tok(k, text),
            None => ClassV::Tok(TinyTokenKindV::Id(text), text),
        },
        LexemeCategory::INTEGER_CONST => match tv.3 {
            Some(v) => ClassV::Tok(TinyTokenKindV::Num(v), int_text(v as int)),
            None => ClassV::LexErr("整数 token 缺少 value 字段"@),
        },
        LexemeCategory::FLOAT_CONST | LexemeCategory::SCIENTIFIC_CONST => ClassV::SemErr(
            "当前实验四仅实现整数运算；不支持浮点常量: "@ + match tv.2 {
                Some(s) => s,
                None => "<float>"@,
            },
        ),
        LexemeCategory::ASSIGN_OPERATOR => ClassV::Tok(TinyTokenKindV::Assign, ":="@),
        LexemeCategory::COMPARE_OPERATOR => if text == "<"@ {
            ClassV::Tok(TinyTokenKindV::Lt, text)
        } else if text == "="@ {
            ClassV::Tok(TinyTokenKindV::Eq, text)
        } else {
            ClassV::LexErr("未知比较运算符: "@ + text)
        },
        LexemeCategory::NUMERIC_OPERATOR => if text == "+"@ {
            ClassV::Tok(TinyTokenKindV::Plus, text)
        } else if text == "-"@ {
            ClassV::Tok(TinyTokenKindV::Minus, text)
        } else if text == "*"@ {
            ClassV::Tok(TinyTokenKindV::Times, text)
        } else if text == "/"@ {
            ClassV::Tok(TinyTokenKindV::Over, text)
        } else {
            ClassV::LexErr("未知算术运算符: "@ + text)
        },
        LexemeCategory::LOGIC_OPERATOR => if text == "("@ {
            ClassV::Tok(TinyTokenKindV::LParen, text)
        } else if text == ")"@ {
            ClassV::Tok(TinyTokenKindV::RParen, text)
        } else if text == ";"@ {
            ClassV::Tok(TinyTokenKindV::Semi, text)
        } else {
            ClassV::LexErr("未知界符: "@ + text)
        },
        _ => ClassV::Skip,
    }
}

/// `e` is the error `ev` names: lexical (`ev.0`) or semantic, with message
/// `ev.1`.
pub open spec fn err_is(e: CompileError, ev: (bool, Seq<char>)) -> bool {
    if ev.0 {
        e is Lex && e->Lex_0@ == ev.1
    } else {
        e is Semantic && e->Semantic_0@ == ev.1
    }
}

/// The TINY tokens of a list of lexer tokens, or the first error: whether
/// it is lexical (`true`) or semantic (`false`), and its message.
pub open spec fn classified(raw: Seq<TokenV>) -> Result<Seq<(TinyTokenKindV, Seq<char>)>, (bool, Seq<char>)>
    decreases raw.len(),
{
    if raw.len() == 0 {
        Ok(Seq::empty())
    } else {
        match classified(raw.drop_last()) {
            Err(x) => Err(x),
            Ok(v) => match classify_one(raw.last()) {
                ClassV::Skip => Ok(v),
                ClassV::Tok(k, l) => Ok(v.push((k, l))),
                ClassV::LexErr(m) => Err((true, m)),
                ClassV::SemErr(m) => Err((false, m)),
            },
        }
    }
}

/// TINY tokens as plain values.
pub open spec fn tiny_view(v: Seq<TinyToken>) -> Seq<(TinyTokenKindV, Seq<char>)> {
    Seq::new(v.len(), |i: int| (v[i].kind@, v[i].lexeme@))
}

/// The keyword kind spelled by `s`, if any.
fn keyword_of(s: &str) -> (res: Option<TinyTokenKind>)
    ensures
        match res {
            Some(k) => keyword_kind(s@) == Some(k@),
            None => keyword_kind(s@) is None,
        },
{
    proof {
        reveal_strlit("if");
        reveal_strlit("then");
        reveal_strlit("else");
        reveal_strlit("end");
        reveal_strlit("repeat");
        reveal_strlit("until");
        reveal_strlit("read");
        reveal_strlit("write");
    }
    if str_eq(s, "if") {
        Some(TinyTokenKind::If)
    } else if str_eq(s, "then") {
        Some(TinyTokenKind::Then)
    } else if str_eq(s, "else") {
        Some(TinyTokenKind::Else)
    } else if str_eq(s, "end") {
        Some(TinyTokenKind::End)
    } else if str_eq(s, "repeat") {
        Some(TinyTokenKind::Repeat)
    } else if str_eq(s, "until") {
        Some(TinyTokenKind::Until)
    } else if str_eq(s, "read") {
        Some(TinyTokenKind::Read)
    } else if str_eq(s, "write") {
        Some(TinyTokenKind::Write)
    } else {
        None
    }
}

/// `prefix` followed by `s`.
fn message(prefix: &str, s: &str) -> (m: String)
    ensures
        m@ == prefix@ + s@,
{
    let mut m = String::from_str(prefix);
    m.append(s);
    m
}

/// Classifies one lexer token: `Ok(None)` to drop it.
fn classify_token(t: &Token) -> (res: Result<Option<TinyToken>, CompileError>)
    ensures
        match res {
            Ok(None) => classify_one(t@) is Skip,
            Ok(Some(tk)) => classify_one(t@) == ClassV::Tok(tk.kind@, tk.lexeme@),
            Err(e) => match classify_one(t@) {
                ClassV::LexErr(m) => err_is(e, (true, m)),
                ClassV::SemErr(m) => err_is(e, (false, m)),
                _ => false,
            },
        },
{
    proof {
        reveal_strlit(":=");
        reveal_strlit("<");
        reveal_strlit("=");
        reveal_strlit("+");
        reveal_strlit("-");
        reveal_strlit("*");
        reveal_strlit("/");
        reveal_strlit("(");
        reveal_strlit(")");
        reveal_strlit(";");
    }
    let text = match &t.identify {
        Some(s) => s.clone(),
        None => String::new(),
    };
    assert(text@ == text_or_empty(opt_view(t.identify)));
    match t.lexeme_category {
        LexemeCategory::KEYWORD => match keyword_of(text.as_str()) {
            Some(kind) => Ok(Some(TinyToken { kind, lexeme: text })),
            None => Err(CompileError::Lex(message("未知关键字: ", text.as_str()))),
        },
        LexemeCategory::ID => {
            let kind = match keyword_of(text.as_str()) {
                Some(k) => k,
                None => TinyTokenKind::Id(text.clone()),
            };
            Ok(Some(TinyToken { kind, lexeme: text }))
        },
        LexemeCategory::INTEGER_CONST => match t.value {
            Some(v) => Ok(Some(TinyToken { kind: TinyTokenKind::Num(v), lexeme: i64_to_string(v) })),
            None => Err(CompileError::Lex(String::from_str("整数 token 缺少 value 字段"))),
        },
        LexemeCategory::FLOAT_CONST | LexemeCategory::SCIENTIFIC_CONST => {
            let s = match &t.identify {
                Some(s) => s.clone(),
                None => String::from_str("<float>"),
            };
            Err(CompileError::Semantic(message("当前实验四仅实现整数运算；不支持浮点常量: ", s.as_str())))
        },
        LexemeCategory::ASSIGN_OPERATOR => Ok(Some(TinyToken { kind: TinyTokenKind::Assign, lexeme: String::from_str(":=") })),
        LexemeCategory::COMPARE_OPERATOR => {
            if str_eq(text.as_str(), "<") {
                Ok(Some(TinyToken { kind: TinyTokenKind::Lt, lexeme: text }))
            } else if str_eq(text.as_str(), "=") {
                Ok(Some(TinyToken { kind: TinyTokenKind::Eq, lexeme: text }))
            } else {
                Err(CompileError::Lex(message("未知比较运算符: ", text.as_str())))
            }
        },
        LexemeCategory::NUMERIC_OPERATOR => {
            if str_eq(text.as_str(), "+") {
                Ok(Some(TinyToken { kind: TinyTokenKind::Plus, lexeme: text }))
            } else if str_eq(text.as_str(), "-") {
                Ok(Some(TinyToken { kind: TinyTokenKind::Minus, lexeme: text }))
            } else if str_eq(text.as_str(), "*") {
                Ok(Some(TinyToken { kind: TinyTokenKind::Times, lexeme: text }))
            } else if str_eq(text.as_str(), "/") {
                Ok(Some(TinyToken { kind: TinyTokenKind::Over, lexeme: text }))
            } else {
                Err(CompileError::Lex(message("未知算术运算符: ", text.as_str())))
            }
        },
        LexemeCategory::LOGIC_OPERATOR => {
            if str_eq(text.as_str(), "(") {
                Ok(Some(TinyToken { kind: TinyTokenKind::LParen, lexeme: text }))
            } else if str_eq(text.as_str(), ")") {
                Ok(Some(TinyToken { kind: TinyTokenKind::RParen, lexeme: text }))
            } else if str_eq(text.as_str(), ";") {
                Ok(Some(TinyToken { kind: TinyTokenKind::Semi, lexeme: text }))
            } else {
                Err(CompileError::Lex(message("未知界符: ", text.as_str())))
            }
        },
        _ => Ok(None),
    }
}

/// Classifies the lexer tokens into TINY tokens and appends `Eof`: exactly
/// `classified(raw)` then `(Eof, "<eof>")`, or the error it names.
pub fn classify_tokens(raw: &Vec<Token>) -> (res: Result<Vec<TinyToken>, CompileError>)
    ensures
        match res {
            Ok(v) => classified(view_tokens(raw@)) == Ok::<Seq<(TinyTokenKindV, Seq<char>)>, (bool, Seq<char>)>(tiny_view(v@).drop_last()) && v@.len() > 0 && v@.last().kind
                == TinyTokenKind::Eof && v@.last().lexeme@ == "<eof>"@,
            Err(e) => classified(view_tokens(raw@)) matches Err(ev) && err_is(e, ev),
        },
{
    let ghost rv = view_tokens(raw@);
    let mut out: Vec<TinyToken> = Vec::new();
    let mut i: usize = 0;
    proof {
        assert(rv.subrange(0, 0) =~= Seq::<TokenV>::empty());
        assert(tiny_view(out@) =~= Seq::<(TinyTokenKindV, Seq<char>)>::empty());
    }
    while i < raw.len()
        invariant
            i <= raw@.len(),
            rv == view_tokens(raw@),
            classified(rv.subrange(0, i as int)) == Ok::<Seq<(TinyTokenKindV, Seq<char>)>, (bool, Seq<char>)>(tiny_view(out@)),
        decreases raw@.len() - i,
    {
        proof {
            assert(rv.subrange(0, i + 1).drop_last() =~= rv.subrange(0, i as int));
            assert(rv.subrange(0, i + 1).last() == raw@[i as int]@);
        }
        match classify_token(&raw[i]) {
            Ok(None) => {},
            Ok(Some(tk)) => {
                let ghost before = out@;
                out.push(tk);
                assert(tiny_view(out@) =~= tiny_view(before).push((tk.kind@, tk.lexeme@)));
            },
            Err(e) => {
                proof {
                    lemma_classified_err(rv, i as int + 1);
                }
                return Err(e);
            },
        }
        i = i + 1;
    }
    assert(rv.subrange(0, i as int) =~= rv);
    let ghost before = out@;
    out.push(TinyToken { kind: TinyTokenKind::Eof, lexeme: String::from_str("<eof>") });
    assert(tiny_view(out@).drop_last() =~= tiny_view(before));
    Ok(out)
}

/// The classification of a list after one more token of kind `k` with text
/// `text`: that token appended, or the earlier error.
pub open spec fn with_token(
    r: Result<Seq<(TinyTokenKindV, Seq<char>)>, (bool, Seq<char>)>,
    k: TinyTokenKindV,
    text: Seq<char>,
) -> Result<Seq<(TinyTokenKindV, Seq<char>)>, (bool, Seq<char>)> {
    match r {
        Ok(ts) => Ok(ts.push((k, text))),
        Err(x) => Err(x),
    }
}

/// Operators become the TINY token their own text names: a comparison `<`
/// is `Lt` and `=` is `Eq`; `+ - * /` are `Plus`, `Minus`, `Times`, `Over`;
/// `( ) ;` are `LParen`, `RParen`, `Semi`; an assignment is `Assign`; an
/// integer with value `v` is `Num(v)` spelled in decimal. Each is appended,
/// with its text, to the tokens of the list before it.
pub proof fn lemma_operator_tokens(raw: Seq<TokenV>, tv: TokenV)
    ensures
        tv.0 == LexemeCategory::COMPARE_OPERATOR && tv.2 == Some("<"@) ==> classified(raw.push(tv)) == with_token(
            classified(raw),
            TinyTokenKindV::Lt,
            "<"@,
        ),
        tv.0 == LexemeCategory::COMPARE_OPERATOR && tv.2 == Some("="@) ==> classified(raw.push(tv)) == with_token(
            classified(raw),
            TinyTokenKindV::Eq,
            "="@,
        ),
        tv.0 == LexemeCategory::NUMERIC_OPERATOR && tv.2 == Some("+"@) ==> classified(raw.push(tv)) == with_token(
            classified(raw),
            TinyTokenKindV::Plus,
            "+"@,
        ),
        tv.0 == LexemeCategory::NUMERIC_OPERATOR && tv.2 == Some("-"@) ==> classified(raw.push(tv)) == with_token(
            classified(raw),
            TinyTokenKindV::Minus,
            "-"@,
        ),
        tv.0 == LexemeCategory::NUMERIC_OPERATOR && tv.2 == Some("*"@) ==> classified(raw.push(tv)) == with_token(
            classified(raw),
            TinyTokenKindV::Times,
            "*"@,
        ),
        tv.0 == LexemeCategory::NUMERIC_OPERATOR && tv.2 == Some("/"@) ==> classified(raw.push(tv)) == with_token(
            classified(raw),
            TinyTokenKindV::Over,
            "/"@,
        ),
        tv.0 == LexemeCategory::LOGIC_OPERATOR && tv.2 == Some("("@) ==> classified(raw.push(tv)) == with_token(
            classified(raw),
            TinyTokenKindV::LParen,
            "("@,
        ),
        tv.0 == LexemeCategory::LOGIC_OPERATOR && tv.2 == Some(")"@) ==> classified(raw.push(tv)) == with_token(
            classified(raw),
            TinyTokenKindV::RParen,
            ")"@,
        ),
        tv.0 == LexemeCategory::LOGIC_OPERATOR && tv.2 == Some(";"@) ==> classified(raw.push(tv)) == with_token(
            classified(raw),
            TinyTokenKindV::Semi,
            ";"@,
        ),
        tv.0 == LexemeCategory::ASSIGN_OPERATOR ==> classified(raw.push(tv)) == with_token(
            classified(raw),
            TinyTokenKindV::Assign,
            ":="@,
        ),
        tv.0 == LexemeCategory::INTEGER_CONST && tv.3 is Some ==> classified(raw.push(tv)) == with_token(
            classified(raw),
            TinyTokenKindV::Num(tv.3->0),
            int_text(tv.3->0 as int),
        ),
{
    reveal_strlit("<");
    reveal_strlit("=");
    reveal_strlit("+");
    reveal_strlit("-");
    reveal_strlit("*");
    reveal_strlit("/");
    reveal_strlit("(");
    reveal_strlit(")");
    reveal_strlit(";");
    reveal_strlit(":=");
    assert("="@ != "<"@) by {
        assert("="@[0] != "<"@[0]);
    }
    assert("-"@ != "+"@) by {
        assert("-"@[0] != "+"@[0]);
    }
    assert("*"@ != "+"@ && "*"@ != "-"@) by {
        assert("*"@[0] != "+"@[0] && "*"@[0] != "-"@[0]);
    }
    assert("/"@ != "+"@ && "/"@ != "-"@ && "/"@ != "*"@) by {
        assert("/"@[0] != "+"@[0] && "/"@[0] != "-"@[0] && "/"@[0] != "*"@[0]);
    }
    assert(")"@ != "("@) by {
        assert(")"@[0] != "("@[0]);
    }
    assert(";"@ != "("@ && ";"@ != ")"@) by {
        assert(";"@[0] != "("@[0] && ";"@[0] != ")"@[0]);
    }
    assert(raw.push(tv).drop_last() =~= raw);
}

/// Words become keywords by their text (`if then else end repeat until read
/// write`), whether the lexer called them keywords or identifiers; any other
/// identifier is an `Id` with its own text.
pub proof fn lemma_word_tokens(raw: Seq<TokenV>, tv: TokenV, w: Seq<char>)
    requires
        tv.0 == LexemeCategory::KEYWORD || tv.0 == LexemeCategory::ID,
        tv.2 == Some(w),
    ensures
        w == "if"@ ==> classified(raw.push(tv)) == with_token(classified(raw), TinyTokenKindV::If, w),
        w == "then"@ ==> classified(raw.push(tv)) == with_token(classified(raw), TinyTokenKindV::Then, w),
        w == "else"@ ==> classified(raw.push(tv)) == with_token(classified(raw), TinyTokenKindV::Else, w),
        w == "end"@ ==> classified(raw.push(tv)) == with_token(classified(raw), TinyTokenKindV::End, w),
        w == "repeat"@ ==> classified(raw.push(tv)) == with_token(classified(raw), TinyTokenKindV::Repeat, w),
        w == "until"@ ==> classified(raw.push(tv)) == with_token(classified(raw), TinyTokenKindV::Until, w),
        w == "read"@ ==> classified(raw.push(tv)) == with_token(classified(raw), TinyTokenKindV::Read, w),
        w == "write"@ ==> classified(raw.push(tv)) == with_token(classified(raw), TinyTokenKindV::Write, w),
        tv.0 == LexemeCategory::ID && w != "if"@ && w != "then"@ && w != "else"@ && w != "end"@ && w != "repeat"@ && w != "until"@
            && w != "read"@ && w != "write"@ ==> classified(raw.push(tv)) == with_token(classified(raw), TinyTokenKindV::Id(w), w),
{
    reveal_strlit("if");
    reveal_strlit("then");
    reveal_strlit("else");
    reveal_strlit("end");
    reveal_strlit("repeat");
    reveal_strlit("until");
    reveal_strlit("read");
    reveal_strlit("write");
    let kws = seq!["if"@, "then"@, "else"@, "end"@, "repeat"@, "until"@, "read"@, "write"@];
    assert forall|i: int, j: int| 0 <= i < j < 8 implies #[trigger] kws[i] != #[trigger] kws[j] by {
        if kws[i].len() == kws[j].len() {
            assert(kws[i][0] != kws[j][0]);
        }
    }
    assert(kws[0] == "if"@ && kws[1] == "then"@ && kws[2] == "else"@ && kws[3] == "end"@);
    assert(kws[4] == "repeat"@ && kws[5] == "until"@ && kws[6] == "read"@ && kws[7] == "write"@);
    assert(raw.push(tv).drop_last() =~= raw);
}

/// An error in a prefix is the error of the whole list.
proof fn lemma_classified_err(raw: Seq<TokenV>, k: int)
    requires
        0 < k <= raw.len(),
        classified(raw.subrange(0, k)) is Err,
    ensures
        classified(raw) == classified(raw.subrange(0, k)),
    decreases raw.len() - k,
{
    if k < raw.len() {
        assert(raw.subrange(0, k + 1).drop_last() =~= raw.subrange(0, k));
        lemma_classified_err(raw, k + 1);
    } else {
        assert(raw.subrange(0, k) =~= raw);
    }
}

/// `source` with carriage returns, newlines and tabs turned into spaces.
pub open spec fn normalized(source: Seq<char>) -> Seq<char> {
    Seq::new(source.len(), |i: int| if source[i] == '\r' || source[i] == '\n' || source[i] == '\t' { ' ' } else { source[i] })
}

fn normalize(source: &str) -> (res: String)
    ensures
        res@ == normalized(source@),
{
    let cs = crate::text::chars_of(source);
    let mut out = String::new();
    let mut i: usize = 0;
    while i < cs.len()
        invariant
            i <= cs@.len(),
            cs@ == source@,
            out@ == normalized(source@).subrange(0, i as int),
        decreases cs@.len() - i,
    {
        let c = cs[i];
        let d = if c == '\r' || c == '\n' || c == '\t' {
            ' '
        } else {
            c
        };
        crate::text::push_char(&mut out, d);
        i = i + 1;
        assert(out@ =~= normalized(source@).subrange(0, i as int));
    }
    assert(normalized(source@).subrange(0, i as int) =~= normalized(source@));
    out
}

/// Scans TINY source: newlines and tabs become blanks, the TINY lexer DFA
/// cuts the text into tokens (`long_text_search`), and `classify_tokens`
/// turns them into TINY tokens ending in `Eof`.
pub fn scan(source: &str) -> (res: Result<Vec<TinyToken>, CompileError>)
    ensures
        res matches Ok(v) ==> v@.len() > 0 && v@.last().kind == TinyTokenKind::Eof,
        exists|t: CharSetTable, g: crate::lab1::graph::Graph|
            #![trigger crate::lab1::scan::scan_text(t.segments@, g.edges(), g.states(), normalized(source@))]
            {
                &&& crate::lab1::lexer::tiny_lexer(t.segments@, g)
                &&& {
                let raw = crate::lab1::scan::scan_text(t.segments@, g.edges(), g.states(), normalized(source@));
                match res {
                    Ok(v) => classified(raw) == Ok::<Seq<(TinyTokenKindV, Seq<char>)>, (bool, Seq<char>)>(tiny_view(v@).drop_last()),
                    Err(e) => classified(raw) matches Err(ev) && err_is(e, ev),
                }
                }
            },
{
    let normalized_text = normalize(source);
    let mut t = CharSetTable::new();
    let mut counter = GraphCounter::new();
    let mut regs = RegularTable::new();
    let dfa = create_tiny_lexical_dfa(&mut t, &mut counter, &mut regs);
    let raw = dfa.long_text_search(&t, normalized_text.as_str());
    let res = classify_tokens(&raw);
    proof {
        let rawv = crate::lab1::scan::scan_text(t.segments@, dfa.edges(), dfa.states(), normalized(source@));
        assert(view_tokens(raw@) == rawv);
    }
    res
}

} // verus!
