//! Patterns of regular definitions: their tokens, their syntax tree by
//! recursive descent, and the automaton that a tree denotes, built with the
//! Thompson constructions of the automaton library.
use vstd::prelude::*;
use crate::lab1::category::LexemeCategory;
use crate::lab1::char_set::{added, canonical, difference_charset_char, difference_charsets, fresh_set, list_has, range, segments_of, segs_of, set_has, sorted_disjoint, diff_blocked, diff_char_blocked, CharSet, CharSetTable};
use crate::lab1::graph::{is_match, closure, closure_case, closure_done, demote, eps, eps_from, all_match_ids, match_text, unmatch_text, optional_edges, product_edges, product_states, shift_e, shift_s, sole_accept, star_edges, star_states, start_of, union_edges, union_states, EdgeV, generateBasicNFA, max_id, plusClosure, product, shift_fits, state_is_match, union, zeroOrOne, Graph, GraphCounter, State, StateV};
use crate::text::{chars_of, str_eq};

verus! {

/// What `char::is_alphanumeric` answers for a character.
pub uninterp spec fn is_alnum(c: char) -> bool;

/// Whether `c` is alphabetic or numeric, by `char::is_alphanumeric`.
#[verifier::external_body]
fn char_is_alphanumeric(c: char) -> (res: bool)
    ensures
        res == is_alnum(c),
{
    c.is_alphanumeric()
}

/// A token of a pattern.
pub enum RegexTok {
    LParen,
    RParen,
    Pipe,
    Star,
    Plus,
    Question,
    Tilde,
    Minus,
    Dot,
    RangeOp,
    CharLit(char),
    Name(String),
    Eof,
}

/// A pattern's syntax tree. Character leaves keep their character; the
/// character set of a leaf is made when the tree is evaluated.
pub enum RegexAst {
    /// A quoted or bare character.
    Lit(char),
    /// A named single character (`空格字符`, `回车字符`, `换行字符`).
    Special(char),
    /// The empty set, where an operand is missing.
    Empty,
    Name(String),
    Union(Box<RegexAst>, Box<RegexAst>),
    Concat(Box<RegexAst>, Box<RegexAst>),
    Star(Box<RegexAst>),
    Plus(Box<RegexAst>),
    Opt(Box<RegexAst>),
    Range(char, char),
    Diff(Box<RegexAst>, Box<RegexAst>),
}

/// A token as a plain value: a kind number, its character (for a
/// character token) and its text (for a name).
pub open spec fn tk(kind: int) -> (int, char, Seq<char>) {
    (kind, '\0', Seq::empty())
}

/// A character token as a plain value.
pub open spec fn tk_char(c: char) -> (int, char, Seq<char>) {
    (10, c, Seq::empty())
}

/// A name token as a plain value.
pub open spec fn tk_name(n: Seq<char>) -> (int, char, Seq<char>) {
    (11, '\0', n)
}

/// A token as a plain value.
pub open spec fn tview(t: RegexTok) -> (int, char, Seq<char>) {
    match t {
        RegexTok::LParen => tk(0),
        RegexTok::RParen => tk(1),
        RegexTok::Pipe => tk(2),
        RegexTok::Star => tk(3),
        RegexTok::Plus => tk(4),
        RegexTok::Question => tk(5),
        RegexTok::Tilde => tk(6),
        RegexTok::Minus => tk(7),
        RegexTok::Dot => tk(8),
        RegexTok::RangeOp => tk(9),
        RegexTok::CharLit(c) => tk_char(c),
        RegexTok::Name(n) => tk_name(n@),
        RegexTok::Eof => tk(12),
    }
}

/// Tokens as plain values.
pub open spec fn tviews(v: Seq<RegexTok>) -> Seq<(int, char, Seq<char>)> {
    v.map_values(|t: RegexTok| tview(t))
}

/// A character that may continue a name.
pub open spec fn in_name(c: char) -> bool {
    is_alnum(c) || c == '_' || (c as u32) > 127
}

/// The number of name characters from position `i` on.
pub open spec fn name_len(cs: Seq<char>, i: int) -> int
    decreases cs.len() - i,
{
    if 0 <= i < cs.len() && in_name(cs[i]) {
        1 + name_len(cs, i + 1)
    } else {
        0
    }
}

/// The token of the operator character `c`, if it is one.
pub open spec fn op_tok(c: char) -> Option<(int, char, Seq<char>)> {
    if c == '(' {
        Some(tk(0))
    } else if c == ')' {
        Some(tk(1))
    } else if c == '|' {
        Some(tk(2))
    } else if c == '*' {
        Some(tk(3))
    } else if c == '+' {
        Some(tk(4))
    } else if c == '?' {
        Some(tk(5))
    } else if c == '~' {
        Some(tk(6))
    } else if c == '-' {
        Some(tk(7))
    } else if c == '\u{b7}' {
        Some(tk(8))
    } else {
        None
    }
}

/// The token of a quote at position `i`: the character after it (`'c'`,
/// or `'c` where the closing quote is missing), none for a quote at the
/// end.
pub open spec fn quote_toks(cs: Seq<char>, i: int) -> Seq<(int, char, Seq<char>)> {
    if i + 1 < cs.len() {
        seq![tk_char(cs[i + 1])]
    } else {
        Seq::empty()
    }
}

/// The position after a quoted character at position `i`.
pub open spec fn quote_next(cs: Seq<char>, i: int) -> int {
    if i + 2 < cs.len() && cs[i + 2] == '\u{27}' {
        i + 3
    } else if i + 1 < cs.len() {
        i + 2
    } else {
        i + 1
    }
}

/// The tokens that the character at position `i` (inside `cs`) starts:
/// an operator, `..`, a quoted character, a name, nothing for a blank, or
/// the character itself.
pub open spec fn step_toks(cs: Seq<char>, i: int) -> Seq<(int, char, Seq<char>)> {
    let c = cs[i];
    if op_tok(c) is Some {
        seq![op_tok(c)->0]
    } else if c == '.' {
        if i + 1 < cs.len() && cs[i + 1] == '.' {
            seq![tk(9)]
        } else {
            seq![tk_char('.')]
        }
    } else if c == '\u{27}' {
        quote_toks(cs, i)
    } else if c == ' ' || c == '\t' || c == '\r' || c == '\n' {
        Seq::empty()
    } else if is_alnum(c) || c == '_' {
        let n = name_len(cs, i);
        if n > 0 && i + n <= cs.len() {
            seq![tk_name(cs.subrange(i, i + n))]
        } else {
            Seq::empty()
        }
    } else {
        seq![tk_char(c)]
    }
}

/// Where the tokens after those of position `i` start.
pub open spec fn step_next(cs: Seq<char>, i: int) -> int {
    let c = cs[i];
    if op_tok(c) is Some {
        i + 1
    } else if c == '.' {
        if i + 1 < cs.len() && cs[i + 1] == '.' {
            i + 2
        } else {
            i + 1
        }
    } else if c == '\u{27}' {
        quote_next(cs, i)
    } else if c == ' ' || c == '\t' || c == '\r' || c == '\n' {
        i + 1
    } else if is_alnum(c) || c == '_' {
        let n = name_len(cs, i);
        if n > 0 && i + n <= cs.len() {
            i + n
        } else {
            i + 1
        }
    } else {
        i + 1
    }
}

/// The tokens of `cs` from position `i` on, ending with `Eof`: operators,
/// `..`, quoted characters (`'c'`, or `'c` where the closing quote is
/// missing, a lone quote at the end giving nothing), names (starting with
/// an alphanumeric character or `_`, going on over alphanumeric
/// characters, `_` and non-ASCII characters), any other character as
/// itself; blanks are skipped.
pub open spec fn lex(cs: Seq<char>, i: int) -> Seq<(int, char, Seq<char>)>
    decreases cs.len() - i,
{
    if i < 0 || i >= cs.len() {
        seq![tk(12)]
    } else {
        step_toks(cs, i) + lex(cs, step_next(cs, i))
    }
}

/// A character that continues a name.
fn name_char(c: char) -> (res: bool)
    ensures
        res == in_name(c),
{
    char_is_alphanumeric(c) || c == '_' || (c as u32) > 127
}

/// A character that the tokens give a meaning of its own: an operator,
/// `.`, a quote or a blank.
pub open spec fn special_char(c: char) -> bool {
    op_tok(c) is Some || c == '.' || c == '\u{27}' || c == ' ' || c == '\t' || c == '\r' || c == '\n'
}

/// Whether `c` has a meaning of its own in a pattern.
fn is_special(c: char) -> (res: bool)
    ensures
        res == special_char(c),
{
    c == '(' || c == ')' || c == '|' || c == '*' || c == '+' || c == '?' || c == '~' || c == '-' || c == '\u{b7}'
        || c == '.' || c == '\u{27}' || c == ' ' || c == '\t' || c == '\r' || c == '\n'
}

/// One token of `cs` at `i`, where no name starts there, and the
/// position after it.
fn lex_one(cs: &Vec<char>, i: usize) -> (res: (Option<RegexTok>, usize))
    requires
        i < cs@.len(),
        special_char(cs@[i as int]) || !(is_alnum(cs@[i as int]) || cs@[i as int] == '_'),
    ensures
        i < res.1 <= cs@.len(),
        res.1 == step_next(cs@, i as int),
        step_toks(cs@, i as int) == (match res.0 {
            Some(t) => seq![tview(t)],
            None => Seq::<(int, char, Seq<char>)>::empty(),
        }),
{
    let n = cs.len();
    let c = cs[i];
    proof {
        assert(c == cs@[i as int]);
    }
    if c == '(' {
        (Some(RegexTok::LParen), i + 1)
    } else if c == ')' {
        (Some(RegexTok::RParen), i + 1)
    } else if c == '|' {
        (Some(RegexTok::Pipe), i + 1)
    } else if c == '*' {
        (Some(RegexTok::Star), i + 1)
    } else if c == '+' {
        (Some(RegexTok::Plus), i + 1)
    } else if c == '?' {
        (Some(RegexTok::Question), i + 1)
    } else if c == '~' {
        (Some(RegexTok::Tilde), i + 1)
    } else if c == '-' {
        (Some(RegexTok::Minus), i + 1)
    } else if c == '\u{b7}' {
        (Some(RegexTok::Dot), i + 1)
    } else if c == '.' {
        if cs.len() - i > 1 && cs[i + 1] == '.' {
            assert(step_toks(cs@, i as int) == seq![tk(9)]);
            (Some(RegexTok::RangeOp), i + 2)
        } else {
            assert(step_toks(cs@, i as int) == seq![tk_char('.')]);
            (Some(RegexTok::CharLit('.')), i + 1)
        }
    } else if c == '\u{27}' {
        if cs.len() - i > 2 && cs[i + 2] == '\u{27}' {
            let d = cs[i + 1];
            assert(step_toks(cs@, i as int) == seq![tk_char(d)]);
            (Some(RegexTok::CharLit(d)), i + 3)
        } else if cs.len() - i > 1 {
            let d = cs[i + 1];
            assert(step_toks(cs@, i as int) == seq![tk_char(d)]);
            (Some(RegexTok::CharLit(d)), i + 2)
        } else {
            (None, i + 1)
        }
    } else if c == ' ' || c == '\t' || c == '\r' || c == '\n' {
        (None, i + 1)
    } else {
        assert(step_toks(cs@, i as int) == seq![tk_char(c)]);
        (Some(RegexTok::CharLit(c)), i + 1)
    }
}

/// The tokens of a pattern, ending with `Eof`.
pub fn tokenize_pattern(pattern: &str) -> (res: Vec<RegexTok>)
    ensures
        tviews(res@) == lex(pattern@, 0),
{
    let cs = chars_of(pattern);
    let ghost all = lex(cs@, 0);
    let mut toks: Vec<RegexTok> = Vec::new();
    let mut i: usize = 0;
    while i < cs.len()
        invariant
            i <= cs@.len(),
            cs@ == pattern@,
            all == lex(cs@, 0),
            tviews(toks@) + lex(cs@, i as int) == all,
        decreases cs@.len() - i,
    {
        let c = cs[i];
        let ghost t0 = tviews(toks@);
        let ghost i0 = i as int;
        if !is_special(c) && (char_is_alphanumeric(c) || c == '_') {
            let mut name = String::new();
            crate::text::push_char(&mut name, c);
            i = i + 1;
            proof {
                assert(name@ =~= cs@.subrange(i0, i as int));
            }
            while i < cs.len() && name_char(cs[i])
                invariant
                    0 <= i0 < i <= cs@.len(),
                    name@ == cs@.subrange(i0, i as int),
                    name_len(cs@, i0) == (i - i0) + name_len(cs@, i as int),
                decreases cs@.len() - i,
            {
                let ghost n0 = name@;
                let d = cs[i];
                crate::text::push_char(&mut name, d);
                proof {
                    assert(n0 == cs@.subrange(i0, i as int));
                    assert(name@ == n0.push(cs@[i as int]));
                    assert(cs@.subrange(i0, i + 1) =~= cs@.subrange(i0, i as int).push(cs@[i as int]));
                    assert(in_name(cs@[i as int]));
                }
                i = i + 1;
            }
            assert(name_len(cs@, i as int) == 0);
            toks.push(RegexTok::Name(name));
            proof {
                assert(tviews(toks@) =~= t0.push(tk_name(cs@.subrange(i0, i as int))));
                assert(tviews(toks@) + lex(cs@, i as int) =~= t0 + lex(cs@, i0));
            }
            continue;
        }
        let (tk, next) = lex_one(&cs, i);
        match tk {
            Some(x) => {
                let ghost tv = tview(x);
                toks.push(x);
                proof {
                    assert(tviews(toks@) =~= t0.push(tv));
                }
            },
            None => {},
        }
        i = next;
        proof {
            assert(tviews(toks@) + lex(cs@, i as int) =~= t0 + lex(cs@, i0));
        }
    }
    let ghost t1 = tviews(toks@);
    toks.push(RegexTok::Eof);
    proof {
        assert(tviews(toks@) =~= t1 + lex(cs@, i as int));
    }
    toks
}

/// Whether the token is `|`.
fn is_pipe(t: &RegexTok) -> (res: bool)
    ensures
        res == (*t is Pipe),
{
    match t {
        RegexTok::Pipe => true,
        _ => false,
    }
}

/// A postfix operator: `*`, `+` or `?`.
fn is_postfix(t: &RegexTok) -> (res: bool)
    ensures
        res == (*t is Star || *t is Plus || *t is Question),
{
    match t {
        RegexTok::Star | RegexTok::Plus | RegexTok::Question => true,
        _ => false,
    }
}

/// A range or difference operator.
fn is_range_or_diff(t: &RegexTok) -> (res: bool)
    ensures
        res == (*t is RangeOp || *t is Tilde || *t is Minus),
{
    match t {
        RegexTok::RangeOp | RegexTok::Tilde | RegexTok::Minus => true,
        _ => false,
    }
}

/// A token that ends a concatenation: `|`, `)`, the end, or a range or
/// difference operator.
fn ends_concat(t: &RegexTok) -> (res: bool)
    ensures
        res == (*t is Pipe || *t is RParen || *t is Eof || *t is RangeOp || *t is Tilde || *t is Minus),
{
    match t {
        RegexTok::Pipe | RegexTok::RParen | RegexTok::Eof | RegexTok::RangeOp | RegexTok::Tilde | RegexTok::Minus => true,
        _ => false,
    }
}

/// The character of a single-character operand.
fn extract_char(a: &RegexAst) -> (res: Option<char>)
    ensures
        res == char_of(*a),
{
    match a {
        RegexAst::Lit(c) => Some(*c),
        RegexAst::Special(c) => Some(*c),
        _ => None,
    }
}

/// The operand of a range: `..`, `~`; or a difference: `-`.
pub open spec fn range_tok(t: RegexTok) -> bool {
    t is RangeOp || t is Tilde || t is Minus
}

/// A token that ends a concatenation.
pub open spec fn ends_tok(t: RegexTok) -> bool {
    t is Pipe || t is RParen || t is Eof || t is RangeOp || t is Tilde || t is Minus
}

/// Alternatives from `pos`: `concat ('|' concat)*`, and the position after.
pub open spec fn p_union(t: Seq<RegexTok>, pos: int) -> (RegexAst, int)
    decreases t.len() - pos, 6nat,
{
    let r = p_concat(t, pos);
    if pos <= r.1 <= t.len() {
        union_more(t, r.0, r.1)
    } else {
        r
    }
}

/// The alternatives after `left`, from `p`.
pub open spec fn union_more(t: Seq<RegexTok>, left: RegexAst, p: int) -> (RegexAst, int)
    decreases t.len() - p, 0nat,
{
    if 0 <= p < t.len() && t[p] is Pipe {
        let r = p_concat(t, p + 1);
        let u = RegexAst::Union(Box::new(left), Box::new(r.0));
        if p < r.1 <= t.len() {
            union_more(t, u, r.1)
        } else {
            (u, r.1)
        }
    } else {
        (left, p)
    }
}

/// A concatenation from `pos`.
pub open spec fn p_concat(t: Seq<RegexTok>, pos: int) -> (RegexAst, int)
    decreases t.len() - pos, 5nat,
{
    let r = p_range(t, pos);
    if pos <= r.1 <= t.len() {
        concat_more(t, r.0, r.1)
    } else {
        r
    }
}

/// The operands concatenated to `left`, from `p` (after an optional `·`).
pub open spec fn concat_more(t: Seq<RegexTok>, left: RegexAst, p: int) -> (RegexAst, int)
    decreases t.len() - p, 4nat,
{
    if 0 <= p < t.len() && !ends_tok(t[p]) {
        let start = if t[p] is Dot { p + 1 } else { p };
        let r = p_range(t, start);
        let c = RegexAst::Concat(Box::new(left), Box::new(r.0));
        if p < r.1 <= t.len() {
            concat_more(t, c, r.1)
        } else {
            (c, r.1)
        }
    } else {
        (left, p)
    }
}

/// Ranges and differences from `pos`.
pub open spec fn p_range(t: Seq<RegexTok>, pos: int) -> (RegexAst, int)
    decreases t.len() - pos, 3nat,
{
    let r = p_unary(t, pos);
    if pos <= r.1 <= t.len() {
        range_more(t, r.0, r.1)
    } else {
        r
    }
}

/// The range or difference of `left` with what follows from `p`; a range
/// whose ends are not single characters is `'\0'..'\0'`.
pub open spec fn range_more(t: Seq<RegexTok>, left: RegexAst, p: int) -> (RegexAst, int)
    decreases t.len() - p, 0nat,
{
    if 0 <= p < t.len() && range_tok(t[p]) {
        let r = p_unary(t, p + 1);
        let n = if t[p] is Minus {
            RegexAst::Diff(Box::new(left), Box::new(r.0))
        } else {
            match (char_of(left), char_of(r.0)) {
                (Some(a), Some(b)) => RegexAst::Range(a, b),
                _ => RegexAst::Range('\0', '\0'),
            }
        };
        if p < r.1 <= t.len() {
            range_more(t, n, r.1)
        } else {
            (n, r.1)
        }
    } else {
        (left, p)
    }
}

/// An atom and its postfix operators, from `pos`.
pub open spec fn p_unary(t: Seq<RegexTok>, pos: int) -> (RegexAst, int)
    decreases t.len() - pos, 2nat,
{
    let r = p_atom(t, pos);
    if pos <= r.1 <= t.len() {
        unary_more(t, r.0, r.1)
    } else {
        r
    }
}

/// The `*`, `+` and `?` applied to `a`, from `p`.
pub open spec fn unary_more(t: Seq<RegexTok>, a: RegexAst, p: int) -> (RegexAst, int)
    decreases t.len() - p, 0nat,
{
    if 0 <= p < t.len() {
        if t[p] is Star {
            unary_more(t, RegexAst::Star(Box::new(a)), p + 1)
        } else if t[p] is Plus {
            unary_more(t, RegexAst::Plus(Box::new(a)), p + 1)
        } else if t[p] is Question {
            unary_more(t, RegexAst::Opt(Box::new(a)), p + 1)
        } else {
            (a, p)
        }
    } else {
        (a, p)
    }
}

/// A token that closes an atom as a postfix operator.
pub open spec fn postfix_tok(t: RegexTok) -> bool {
    t is Star || t is Plus || t is Question
}

/// One postfix operator after an atom `a` wraps it: `?` makes it optional
/// (zero or one `a`), `*` repeats it any number of times, `+` at least once.
/// The unary parse then ends right after the operator.
pub proof fn lemma_one_postfix(t: Seq<RegexTok>, pos: int)
    requires
        0 <= pos <= p_atom(t, pos).1 < t.len(),
        postfix_tok(t[p_atom(t, pos).1]),
        p_atom(t, pos).1 + 1 < t.len() ==> !postfix_tok(t[p_atom(t, pos).1 + 1]),
    ensures
        ({
            let (a, q) = p_atom(t, pos);
            &&& t[q] is Question ==> p_unary(t, pos) == (RegexAst::Opt(Box::new(a)), q + 1)
            &&& t[q] is Star ==> p_unary(t, pos) == (RegexAst::Star(Box::new(a)), q + 1)
            &&& t[q] is Plus ==> p_unary(t, pos) == (RegexAst::Plus(Box::new(a)), q + 1)
        }),
{
    let (a, q) = p_atom(t, pos);
    reveal_with_fuel(unary_more, 2);
}

/// One binary operator between two operands: `a | b` is the union of `a`
/// and `b`; `a b` and `a · b` their concatenation; `a - b` their
/// difference; `x .. y` and `x ~ y` of two characters the range from `x` to
/// `y`. Each ends where the second operand ends, where no further operator
/// of the same level follows.
pub proof fn lemma_one_binary(t: Seq<RegexTok>, pos: int)
    requires
        0 <= pos,
    ensures
        ({
            let (a, q) = p_concat(t, pos);
            let (b, q2) = p_concat(t, q + 1);
            pos <= q < t.len() && t[q] is Pipe && q < q2 <= t.len() && (q2 < t.len() ==> !(t[q2] is Pipe)) ==> p_union(t, pos) == (
            RegexAst::Union(Box::new(a), Box::new(b)), q2)
        }),
        ({
            let (a, q) = p_range(t, pos);
            let start = if 0 <= q < t.len() && t[q] is Dot { q + 1 } else { q };
            let (b, q2) = p_range(t, start);
            pos <= q < t.len() && !ends_tok(t[q]) && q < q2 <= t.len() && (q2 < t.len() ==> ends_tok(t[q2])) ==> p_concat(t, pos) == (
            RegexAst::Concat(Box::new(a), Box::new(b)), q2)
        }),
        ({
            let (a, q) = p_unary(t, pos);
            let (b, q2) = p_unary(t, q + 1);
            pos <= q < t.len() && range_tok(t[q]) && q < q2 <= t.len() && (q2 < t.len() ==> !range_tok(t[q2])) ==> p_range(t, pos) == (
            if t[q] is Minus {
                RegexAst::Diff(Box::new(a), Box::new(b))
            } else if char_of(a) is Some && char_of(b) is Some {
                RegexAst::Range(char_of(a)->0, char_of(b)->0)
            } else {
                RegexAst::Range('\0', '\0')
            }, q2)
        }),
{
    reveal_with_fuel(union_more, 2);
    reveal_with_fuel(concat_more, 2);
    reveal_with_fuel(range_more, 2);
}

/// An atom: a character token is that character, a name its name (the three
/// special names their characters), a parenthesised pattern the pattern.
pub proof fn lemma_atoms(t: Seq<RegexTok>, pos: int)
    requires
        0 <= pos < t.len(),
    ensures
        t[pos] matches RegexTok::CharLit(c) ==> p_atom(t, pos) == (RegexAst::Lit(c), pos + 1),
        ({
            let (a, q) = p_union(t, pos + 1);
            t[pos] is LParen && 0 <= q < t.len() && t[q] is RParen ==> p_atom(t, pos) == (a, q + 1)
        }),
{
}

/// An atom at `pos`: a parenthesised pattern (its `)` taken where it is
/// there), a character, a special name (`空格字符`, `回车字符`,
/// `换行字符`), a name, or, for anything else and at the end, the empty set.
pub open spec fn p_atom(t: Seq<RegexTok>, pos: int) -> (RegexAst, int)
    decreases t.len() - pos, 1nat,
{
    if pos < 0 || pos >= t.len() {
        (RegexAst::Empty, pos)
    } else {
        match t[pos] {
            RegexTok::LParen => {
                let r = p_union(t, pos + 1);
                if 0 <= r.1 < t.len() && t[r.1] is RParen {
                    (r.0, r.1 + 1)
                } else {
                    r
                }
            },
            RegexTok::CharLit(c) => (RegexAst::Lit(c), pos + 1),
            RegexTok::Name(n) => {
                if n@ == "\u{7a7a}\u{683c}\u{5b57}\u{7b26}"@ {
                    (RegexAst::Special(' '), pos + 1)
                } else if n@ == "\u{56de}\u{8f66}\u{5b57}\u{7b26}"@ {
                    (RegexAst::Special('\r'), pos + 1)
                } else if n@ == "\u{6362}\u{884c}\u{5b57}\u{7b26}"@ {
                    (RegexAst::Special('\n'), pos + 1)
                } else {
                    (RegexAst::Name(n), pos + 1)
                }
            },
            _ => (RegexAst::Empty, pos + 1),
        }
    }
}

/// Alternatives: `concat ('|' concat)*`.
pub fn parse_union(toks: &Vec<RegexTok>, pos: usize) -> (res: (RegexAst, usize))
    requires
        pos <= toks@.len(),
    ensures
        pos <= res.1 <= toks@.len(),
        pos < toks@.len() ==> pos < res.1,
        res.0 == p_union(toks@, pos as int).0,
        res.1 == p_union(toks@, pos as int).1,
    decreases toks@.len() - pos, 6nat,
{
    let (mut left, mut p) = parse_concat(toks, pos);
    while p < toks.len() && is_pipe(&toks[p])
        invariant
            pos <= p <= toks@.len(),
            pos < toks@.len() ==> pos < p,
            p_union(toks@, pos as int) == union_more(toks@, left, p as int),
        decreases toks@.len() - p,
    {
        let (right, q) = parse_concat(toks, p + 1);
        left = RegexAst::Union(Box::new(left), Box::new(right));
        p = q;
    }
    (left, p)
}

/// Concatenations, with `·` or by juxtaposition.
pub fn parse_concat(toks: &Vec<RegexTok>, pos: usize) -> (res: (RegexAst, usize))
    requires
        pos <= toks@.len(),
    ensures
        pos <= res.1 <= toks@.len(),
        pos < toks@.len() ==> pos < res.1,
        res.0 == p_concat(toks@, pos as int).0,
        res.1 == p_concat(toks@, pos as int).1,
    decreases toks@.len() - pos, 5nat,
{
    let (mut left, mut p) = parse_range_diff(toks, pos);
    while p < toks.len() && !ends_concat(&toks[p])
        invariant
            pos <= p <= toks@.len(),
            pos < toks@.len() ==> pos < p,
            p_concat(toks@, pos as int) == concat_more(toks@, left, p as int),
        decreases toks@.len() - p,
    {
        let start = match &toks[p] {
            RegexTok::Dot => p + 1,
            _ => p,
        };
        let (right, q) = parse_range_diff(toks, start);
        left = RegexAst::Concat(Box::new(left), Box::new(right));
        p = q;
    }
    (left, p)
}

/// Ranges (`..`, `~`) and differences (`-`) of unary operands; a range
/// whose ends are not single characters is `'\0'..'\0'`.
pub fn parse_range_diff(toks: &Vec<RegexTok>, pos: usize) -> (res: (RegexAst, usize))
    requires
        pos <= toks@.len(),
    ensures
        pos <= res.1 <= toks@.len(),
        pos < toks@.len() ==> pos < res.1,
        res.0 == p_range(toks@, pos as int).0,
        res.1 == p_range(toks@, pos as int).1,
    decreases toks@.len() - pos, 3nat,
{
    let (mut left, mut p) = parse_unary(toks, pos);
    while p < toks.len() && is_range_or_diff(&toks[p])
        invariant
            pos <= p <= toks@.len(),
            pos < toks@.len() ==> pos < p,
            p_range(toks@, pos as int) == range_more(toks@, left, p as int),
        decreases toks@.len() - p,
    {
        let is_minus = match &toks[p] {
            RegexTok::Minus => true,
            _ => false,
        };
        let (right, q) = parse_unary(toks, p + 1);
        if is_minus {
            left = RegexAst::Diff(Box::new(left), Box::new(right));
        } else {
            left = match (extract_char(&left), extract_char(&right)) {
                (Some(fc), Some(tc)) => RegexAst::Range(fc, tc),
                _ => RegexAst::Range('\0', '\0'),
            };
        }
        p = q;
    }
    (left, p)
}

/// An atom followed by any number of `*`, `+` and `?`.
pub fn parse_unary(toks: &Vec<RegexTok>, pos: usize) -> (res: (RegexAst, usize))
    requires
        pos <= toks@.len(),
    ensures
        pos <= res.1 <= toks@.len(),
        pos < toks@.len() ==> pos < res.1,
        res.0 == p_unary(toks@, pos as int).0,
        res.1 == p_unary(toks@, pos as int).1,
    decreases toks@.len() - pos, 2nat,
{
    let (mut ast, mut p) = parse_atom(toks, pos);
    while p < toks.len() && is_postfix(&toks[p])
        invariant
            pos <= p <= toks@.len(),
            pos < toks@.len() ==> pos < p,
            p_unary(toks@, pos as int) == unary_more(toks@, ast, p as int),
        decreases toks@.len() - p,
    {
        match &toks[p] {
            RegexTok::Star => {
                ast = RegexAst::Star(Box::new(ast));
            },
            RegexTok::Plus => {
                ast = RegexAst::Plus(Box::new(ast));
            },
            _ => {
                ast = RegexAst::Opt(Box::new(ast));
            },
        }
        p = p + 1;
    }
    (ast, p)
}

/// A parenthesised pattern (the `)` taken where it is there), a
/// character, a special name, a name, or, for anything else, the empty set.
pub fn parse_atom(toks: &Vec<RegexTok>, pos: usize) -> (res: (RegexAst, usize))
    requires
        pos <= toks@.len(),
    ensures
        pos <= res.1 <= toks@.len(),
        pos < toks@.len() ==> pos < res.1,
        res.0 == p_atom(toks@, pos as int).0,
        res.1 == p_atom(toks@, pos as int).1,
    decreases toks@.len() - pos, 1nat,
{
    if pos >= toks.len() {
        return (RegexAst::Empty, pos);
    }
    match &toks[pos] {
        RegexTok::LParen => {
            let (inner, p) = parse_union(toks, pos + 1);
            let p2 = if p < toks.len() && (match &toks[p] {
                RegexTok::RParen => true,
                _ => false,
            }) {
                p + 1
            } else {
                p
            };
            (inner, p2)
        },
        RegexTok::CharLit(c) => (RegexAst::Lit(*c), pos + 1),
        RegexTok::Name(name) => {
            if str_eq(name.as_str(), "\u{7a7a}\u{683c}\u{5b57}\u{7b26}") {
                (RegexAst::Special(' '), pos + 1)
            } else if str_eq(name.as_str(), "\u{56de}\u{8f66}\u{5b57}\u{7b26}") {
                (RegexAst::Special('\r'), pos + 1)
            } else if str_eq(name.as_str(), "\u{6362}\u{884c}\u{5b57}\u{7b26}") {
                (RegexAst::Special('\n'), pos + 1)
            } else {
                (RegexAst::Name(name.clone()), pos + 1)
            }
        },
        _ => (RegexAst::Empty, pos + 1),
    }
}

/// `ast` is the syntax tree of pattern `p`: its tokens read from the
/// first by [`p_union`].
pub open spec fn parses(p: Seq<char>, ast: RegexAst) -> bool {
    exists|toks: Seq<RegexTok>| tviews(toks) == lex(p, 0) && #[trigger] p_union(toks, 0).0 == ast
}

/// The syntax tree of a pattern: its tokens read from the first by
/// [`p_union`].
pub fn parse_regex_pattern(pattern: &str) -> (res: RegexAst)
    ensures
        parses(pattern@, res),
{
    let toks = tokenize_pattern(pattern);
    let (ast, _p) = parse_union(&toks, 0);
    assert(p_union(toks@, 0).0 == ast);
    ast
}

/// A character table as plain values: its segments and next set number.
pub open spec fn tv(t: CharSetTable) -> (Seq<CharSet>, i32) {
    (t.segments@, t.next_index)
}

/// The table with a new set `a..=b`, numbered by the next number.
pub open spec fn pushed(t0: (Seq<CharSet>, i32), a: char, b: char) -> (Seq<CharSet>, i32) {
    (t0.0.push(CharSet { indexId: t0.1, segementId: 1, fromChar: a, toChar: b }), (t0.1 + 1) as i32)
}

/// A new set `a..=b` where the table has a number left for it.
pub open spec fn range_rel(t0: (Seq<CharSet>, i32), a: char, b: char, res: Option<i32>, t1: (Seq<CharSet>, i32)) -> bool {
    if t0.1 < i32::MAX {
        res == Some(t0.1) && t1 == pushed(t0, a, b)
    } else {
        res is None && t1 == t0
    }
}

/// The two-state automaton `0 --id--> 1` (1 accepting) where the counter
/// has a number left.
pub open spec fn basic_rel(c0: i32, ty: Seq<char>, id: i32, res: Option<Graph>, c1: i32) -> bool {
    if c0 < i32::MAX {
        &&& res matches Some(g)
        &&& res->0.states() == seq![(0i32, unmatch_text(), None::<LexemeCategory>), (1i32, match_text(), None::<LexemeCategory>)]
        &&& res->0.edges() == seq![(0i32, 1i32, id, ty)]
        &&& c1 == c0 + 1
    } else {
        res is None && c1 == c0
    }
}

/// The empty automaton where the counter has a number left.
pub open spec fn empty_rel(c0: i32, res: Option<Graph>, c1: i32) -> bool {
    if c0 < i32::MAX {
        &&& res matches Some(g)
        &&& res->0.states() == Seq::<StateV>::empty()
        &&& res->0.edges() == Seq::<EdgeV>::empty()
        &&& c1 == c0 + 1
    } else {
        res is None && c1 == c0
    }
}

/// The union of `g1` and `g2` where every number fits.
pub open spec fn union_rel(g1: Graph, g2: Graph, c0: i32, res: Option<Graph>, c1: i32) -> bool {
    let n1 = g1.states().len();
    let n2 = g2.states().len();
    if c0 < i32::MAX && n1 < 0x7fff_ffff && n2 < 0x7fff_ffff && n1 + n2 + 1 < 0x7fff_ffff && shift_fits(g1, 1) && shift_fits(
        g2,
        (1 + n1) as int,
    ) {
        &&& res matches Some(g)
        &&& res->0.states() == union_states(g1, g2)
        &&& res->0.edges() == union_edges(g1, g2)
        &&& c1 == c0 + 1
    } else {
        res is None && c1 == c0
    }
}

/// The concatenation of `g1` and `g2` where every number fits.
pub open spec fn product_rel(g1: Graph, g2: Graph, c0: i32, res: Option<Graph>, c1: i32) -> bool {
    let n1 = g1.states().len();
    let n2 = g2.states().len();
    if c0 < i32::MAX && n1 < 0x7fff_ffff && n2 < 0x7fff_ffff && n1 + n2 < 0x7fff_ffff && shift_fits(g2, n1 as int) {
        &&& res matches Some(g)
        &&& res->0.states() == product_states(g1, g2)
        &&& res->0.edges() == product_edges(g1, g2)
        &&& c1 == c0 + 1
    } else {
        res is None && c1 == c0
    }
}

/// The Kleene closure of `g` where every number fits.
pub open spec fn closure_rel(g: Graph, c0: i32, res: Option<Graph>, c1: i32) -> bool {
    let n = g.states().len();
    if c0 < i32::MAX && n < 0x7fff_ffff && n + 2 < 0x7fff_ffff && shift_fits(g, 1) {
        res matches Some(r) && closure_done(g, res->0, c0, c1)
    } else {
        res is None && c1 == c0
    }
}

/// The positive closure of `g` where every number fits.
pub open spec fn plus_rel(g: Graph, c0: i32, res: Option<Graph>, c1: i32) -> bool {
    if c0 < i32::MAX && g.states().len() < 0x7fff_ffff {
        &&& res matches Some(r)
        &&& res->0.states() == g.states()
        &&& res->0.edges() == g.edges() + eps_from(all_match_ids(g.states()), start_of(g.states()))
        &&& c1 == c0 + 1
    } else {
        res is None && c1 == c0
    }
}

/// The optional automaton of `g` where every number fits.
pub open spec fn optional_rel(g: Graph, c0: i32, res: Option<Graph>, c1: i32) -> bool {
    let n = g.states().len();
    if c0 < i32::MAX && n < 0x7fff_ffff && n + 2 < 0x7fff_ffff && shift_fits(g, 1) {
        &&& res matches Some(r)
        &&& res->0.states() == star_states(g)
        &&& res->0.edges() == optional_edges(g)
        &&& c1 == c0 + 1
    } else {
        res is None && c1 == c0
    }
}

/// The character of a single-character operand.
pub open spec fn char_of(a: RegexAst) -> Option<char> {
    match a {
        RegexAst::Lit(c) => Some(c),
        RegexAst::Special(c) => Some(c),
        _ => None,
    }
}

/// The position of the latest binding of `n` among the first `k`, or -1.
pub open spec fn latest(env: Seq<(String, Graph)>, n: Seq<char>, k: int) -> int
    decreases k,
{
    if k <= 0 {
        -1
    } else if env[k - 1].0@ == n {
        k - 1
    } else {
        latest(env, n, k - 1)
    }
}

/// The automaton bound to `n` (its states and edges), or the empty one
/// where there is none.
pub open spec fn name_rel(env: Seq<(String, Graph)>, n: Seq<char>, c0: i32, res: Option<Graph>, c1: i32) -> bool {
    let k = latest(env, n, env.len() as int);
    if k >= 0 {
        &&& res matches Some(g)
        &&& res->0.states() == env[k].1.states()
        &&& res->0.edges() == env[k].1.edges()
        &&& c1 == c0
    } else {
        empty_rel(c0, res, c1)
    }
}

/// The set of an operand: a new one-character set for a character, set 0
/// for the empty set, none otherwise.
pub open spec fn operand_rel(a: RegexAst, t0: (Seq<CharSet>, i32), res: Option<Option<i32>>, t1: (Seq<CharSet>, i32)) -> bool {
    match char_of(a) {
        Some(c) => if t0.1 < i32::MAX {
            res == Some(Some(t0.1)) && t1 == pushed(t0, c, c)
        } else {
            res is None && t1 == t0
        },
        None => t1 == t0 && (if a is Empty { res == Some(Some(0i32)) } else { res == Some(None::<i32>) }),
    }
}

/// The table `t1` adds to `t0` the set numbered `t0.1` of the characters of
/// set `id` but `c`.
pub open spec fn char_diff_done(t0: (Seq<CharSet>, i32), t1: (Seq<CharSet>, i32), id: i32, c: char) -> bool {
    let extra = added(t0.0, t1.0);
    &&& t1.1 == t0.1 + 1
    &&& fresh_set(t0.0, t1.0, t0.1, extra)
    &&& extra.len() <= 2 * segs_of(t0.0, id).len()
    &&& forall|x: char| #[trigger] list_has(extra, x) <==> (set_has(t0.0, id, x) && x != c)
    &&& canonical(segs_of(t0.0, id)) ==> canonical(extra)
}

/// The table `t1` adds to `t0` the set numbered `t0.1` of the characters of
/// set `id1` not in set `id2`.
pub open spec fn sets_diff_done(t0: (Seq<CharSet>, i32), t1: (Seq<CharSet>, i32), id1: i32, id2: i32) -> bool {
    let extra = added(t0.0, t1.0);
    let l1 = segs_of(t0.0, id1);
    let l2 = segs_of(t0.0, id2);
    &&& t1.1 == t0.1 + 1
    &&& fresh_set(t0.0, t1.0, t0.1, extra)
    &&& extra.len() <= l1.len() * (l2.len() + 1)
    &&& (sorted_disjoint(l1) && sorted_disjoint(l2)) ==> {
        &&& sorted_disjoint(extra)
        &&& forall|x: char| #[trigger] list_has(extra, x) <==> (set_has(t0.0, id1, x) && !set_has(t0.0, id2, x))
    }
}

/// The difference once the left operand's set is known.
pub open spec fn diff_tail(o: Option<Option<i32>>, r: RegexAst, tm: (Seq<CharSet>, i32), res: Option<i32>, t1: (Seq<CharSet>, i32)) -> bool {
    match o {
        None => res is None && t1 == tm,
        Some(None) => res == Some(0i32) && t1 == tm,
        Some(Some(lid)) => match char_of(r) {
            Some(c) => if tm.1 < i32::MAX && segs_of(tm.0, lid).len() < 0x3fff_0000 && !diff_char_blocked(segs_of(tm.0, lid), c) {
                res == Some(tm.1) && char_diff_done(tm, t1, lid, c)
            } else {
                res is None && t1 == tm
            },
            None => if r is Empty {
                if tm.1 < i32::MAX && segs_of(tm.0, lid).len() < 0x8000 && segs_of(tm.0, 0).len() < 0x8000 && !diff_blocked(
                    segs_of(tm.0, 0),
                ) {
                    res == Some(tm.1) && sets_diff_done(tm, t1, lid, 0)
                } else {
                    res is None && t1 == tm
                }
            } else {
                res == Some(0i32) && t1 == tm
            },
        },
    }
}

/// The set of `l - r`: a set less a character, a set less the empty set,
/// 0 where the left operand is no set or the right one neither a character
/// nor the empty set; none where a number or size would not fit.
pub open spec fn diff_rel(l: RegexAst, r: RegexAst, t0: (Seq<CharSet>, i32), res: Option<i32>, t1: (Seq<CharSet>, i32)) -> bool {
    exists|o: Option<Option<i32>>, tm: (Seq<CharSet>, i32)| #[trigger] operand_rel(l, t0, o, tm) && diff_tail(o, r, tm, res, t1)
}

/// A one-set leaf: a new set `a..=b` and its two-state automaton over it
/// with driver type `ty`.
pub open spec fn leaf_rel(t0: (Seq<CharSet>, i32), a: char, b: char, ty: Seq<char>, c0: i32, res: Option<Graph>, t1: (Seq<CharSet>, i32), c1: i32) -> bool {
    if t0.1 < i32::MAX {
        t1 == pushed(t0, a, b) && basic_rel(c0, ty, t0.1, res, c1)
    } else {
        res is None && t1 == t0 && c1 == c0
    }
}

/// The intermediate results of an evaluation: for an operator, what each
/// operand gave (its automaton, table and counter) and how it was reached.
pub enum EvalTrace {
    Leaf,
    One(Option<Graph>, (Seq<CharSet>, i32), i32, Box<EvalTrace>),
    Two(Option<Graph>, (Seq<CharSet>, i32), i32, Box<EvalTrace>, Option<Graph>, (Seq<CharSet>, i32), i32, Box<EvalTrace>),
}

/// The automaton of a syntax tree, with the character table and counter
/// going from `t0`, `c0` to `t1`, `c1`, the operands' results being those
/// that `tr` records: a character is a `CHAR` edge over a new set, the
/// empty set a `CHARSET` edge over set 0, a name the automaton bound to it
/// last (the empty automaton where there is none), a range a `CHARSET` edge
/// over a new set, a difference a `CHARSET` edge over the difference set
/// (the empty automaton where that is 0), and the operators the Thompson
/// constructions of their operands, left first; `None` from the first step
/// where a number would not fit.
pub open spec fn evals_by(ast: RegexAst, env: Seq<(String, Graph)>, t0: (Seq<CharSet>, i32), c0: i32, res: Option<Graph>, t1: (Seq<CharSet>, i32), c1: i32, tr: EvalTrace) -> bool
    decreases ast,
{
    match ast {
        RegexAst::Lit(c) => leaf_rel(t0, c, c, "CHAR"@, c0, res, t1, c1),
        RegexAst::Special(c) => leaf_rel(t0, c, c, "CHAR"@, c0, res, t1, c1),
        RegexAst::Empty => t1 == t0 && basic_rel(c0, "CHARSET"@, 0, res, c1),
        RegexAst::Name(n) => t1 == t0 && name_rel(env, n@, c0, res, c1),
        RegexAst::Union(l, r) => match tr {
            EvalTrace::Two(r1, ta, ca, tl, r2, tb, cb, trr) => evals_by(*l, env, t0, c0, r1, ta, ca, *tl) && match r1 {
                None => res is None && t1 == ta && c1 == ca,
                Some(g1) => evals_by(*r, env, ta, ca, r2, tb, cb, *trr) && t1 == tb && match r2 {
                    None => res is None && c1 == cb,
                    Some(g2) => union_rel(g1, g2, cb, res, c1),
                },
            },
            _ => false,
        },
        RegexAst::Concat(l, r) => match tr {
            EvalTrace::Two(r1, ta, ca, tl, r2, tb, cb, trr) => evals_by(*l, env, t0, c0, r1, ta, ca, *tl) && match r1 {
                None => res is None && t1 == ta && c1 == ca,
                Some(g1) => evals_by(*r, env, ta, ca, r2, tb, cb, *trr) && t1 == tb && match r2 {
                    None => res is None && c1 == cb,
                    Some(g2) => product_rel(g1, g2, cb, res, c1),
                },
            },
            _ => false,
        },
        RegexAst::Star(x) => match tr {
            EvalTrace::One(r1, ta, ca, tx) => evals_by(*x, env, t0, c0, r1, ta, ca, *tx) && t1 == ta && match r1 {
                None => res is None && c1 == ca,
                Some(g) => closure_rel(g, ca, res, c1),
            },
            _ => false,
        },
        RegexAst::Plus(x) => match tr {
            EvalTrace::One(r1, ta, ca, tx) => evals_by(*x, env, t0, c0, r1, ta, ca, *tx) && t1 == ta && match r1 {
                None => res is None && c1 == ca,
                Some(g) => plus_rel(g, ca, res, c1),
            },
            _ => false,
        },
        RegexAst::Opt(x) => match tr {
            EvalTrace::One(r1, ta, ca, tx) => evals_by(*x, env, t0, c0, r1, ta, ca, *tx) && t1 == ta && match r1 {
                None => res is None && c1 == ca,
                Some(g) => optional_rel(g, ca, res, c1),
            },
            _ => false,
        },
        RegexAst::Range(a, b) => leaf_rel(t0, a, b, "CHARSET"@, c0, res, t1, c1),
        RegexAst::Diff(l, r) => exists|d: Option<i32>, ta: (Seq<CharSet>, i32)| #[trigger] diff_rel(*l, *r, t0, d, ta) && t1 == ta && match d {
            None => res is None && c1 == c0,
            Some(id) => if id != 0 {
                basic_rel(c0, "CHARSET"@, id, res, c1)
            } else {
                empty_rel(c0, res, c1)
            },
        },
    }
}

/// The automaton of a syntax tree (see [`evals_by`]), for some record of
/// the operands' results.
pub open spec fn evals(ast: RegexAst, env: Seq<(String, Graph)>, t0: (Seq<CharSet>, i32), c0: i32, res: Option<Graph>, t1: (Seq<CharSet>, i32), c1: i32) -> bool {
    exists|tr: EvalTrace| #[trigger] evals_by(ast, env, t0, c0, res, t1, c1, tr)
}

/// Whether every number of `g` shifted by `off` stays an `i32`.
fn shift_ok(g: &Graph, off: i64) -> (res: bool)
    requires
        0 <= off <= 0x1_0000_0000,
    ensures
        res == shift_fits(*g, off as int),
{
    let mut i: usize = 0;
    while i < g.pStateTable.len()
        invariant
            i <= g.pStateTable@.len(),
            0 <= off <= 0x1_0000_0000,
            forall|k: int| 0 <= k < i ==> i32::MIN <= (#[trigger] g.states()[k]).0 + off <= i32::MAX,
        decreases g.pStateTable@.len() - i,
    {
        let v = g.pStateTable[i].stateId as i64 + off;
        assert(g.states()[i as int] == g.pStateTable@[i as int]@);
        if v > i32::MAX as i64 {
            return false;
        }
        i = i + 1;
    }
    let mut j: usize = 0;
    while j < g.pEdgeTable.len()
        invariant
            j <= g.pEdgeTable@.len(),
            0 <= off <= 0x1_0000_0000,
            forall|k: int| 0 <= k < g.states().len() ==> i32::MIN <= (#[trigger] g.states()[k]).0 + off <= i32::MAX,
            forall|k: int| 0 <= k < j ==> i32::MIN <= (#[trigger] g.edges()[k]).0 + off <= i32::MAX
                && i32::MIN <= g.edges()[k].1 + off <= i32::MAX,
        decreases g.pEdgeTable@.len() - j,
    {
        let a = g.pEdgeTable[j].fromState as i64 + off;
        let b = g.pEdgeTable[j].nextState as i64 + off;
        assert(g.edges()[j as int] == g.pEdgeTable@[j as int]@);
        if a > i32::MAX as i64 || b > i32::MAX as i64 {
            return false;
        }
        j = j + 1;
    }
    true
}

/// Numbers below `i32::MAX` keep the largest below it.
proof fn lemma_max_id_below(s: Seq<StateV>)
    requires
        forall|k: int| 0 <= k < s.len() ==> (#[trigger] s[k]).0 < i32::MAX,
    ensures
        max_id(s) < i32::MAX,
    decreases s.len(),
{
    if s.len() > 0 {
        lemma_max_id_below(s.drop_last());
        assert(s[s.len() - 1].0 < i32::MAX);
    }
}

/// The size of a graph, where it is below `i32::MAX`.
fn small(g: &Graph) -> (res: Option<u64>)
    ensures
        res == (if g.states().len() < 0x7fff_ffff { Some(g.states().len() as u64) } else { None::<u64> }),
{
    let n = g.pStateTable.len();
    if n < 0x7fff_ffff {
        Some(n as u64)
    } else {
        None
    }
}

/// The basic automaton over a set, where the counter has room.
fn basic_nfa(counter: &mut GraphCounter, ty: &str, id: i32) -> (res: Option<Graph>)
    ensures
        basic_rel(old(counter).count, ty@, id, res, final(counter).count),
{
    if counter.count < i32::MAX {
        Some(generateBasicNFA(counter, ty, id, None))
    } else {
        None
    }
}

/// The union of two automata, where the numbers fit.
fn union_nfa(counter: &mut GraphCounter, g1: Graph, g2: Graph) -> (res: Option<Graph>)
    ensures
        union_rel(g1, g2, old(counter).count, res, final(counter).count),
{
    match (small(&g1), small(&g2)) {
        (Some(a), Some(b)) => {
            if counter.count < i32::MAX && a + b + 1 < 0x7fff_ffff && shift_ok(&g1, 1) && shift_ok(&g2, 1 + a as i64) {
                Some(union(counter, g1, g2))
            } else {
                None
            }
        },
        _ => None,
    }
}

/// The concatenation of two automata, where the numbers fit.
fn product_nfa(counter: &mut GraphCounter, g1: Graph, g2: Graph) -> (res: Option<Graph>)
    ensures
        product_rel(g1, g2, old(counter).count, res, final(counter).count),
{
    match (small(&g1), small(&g2)) {
        (Some(a), Some(b)) => {
            if counter.count < i32::MAX && a + b < 0x7fff_ffff && shift_ok(&g2, a as i64) {
                Some(product(counter, g1, g2))
            } else {
                None
            }
        },
        _ => None,
    }
}

/// The Kleene closure of an automaton, where the numbers fit.
fn closure_nfa(counter: &mut GraphCounter, g: Graph) -> (res: Option<Graph>)
    ensures
        closure_rel(g, old(counter).count, res, final(counter).count),
{
    match small(&g) {
        Some(a) => {
            if counter.count < i32::MAX && a + 2 < 0x7fff_ffff && shift_ok(&g, 1) {
                proof {
                    assert forall|k: int| 0 <= k < g.states().len() implies (#[trigger] g.states()[k]).0 < i32::MAX by {}
                    lemma_max_id_below(g.states());
                }
                Some(closure(counter, g))
            } else {
                None
            }
        },
        None => None,
    }
}

/// The positive closure of an automaton, where the numbers fit.
fn plus_nfa(counter: &mut GraphCounter, g: Graph) -> (res: Option<Graph>)
    ensures
        plus_rel(g, old(counter).count, res, final(counter).count),
{
    match small(&g) {
        Some(_a) => {
            if counter.count < i32::MAX {
                Some(plusClosure(counter, g))
            } else {
                None
            }
        },
        None => None,
    }
}

/// The optional automaton, where the numbers fit.
fn optional_nfa(counter: &mut GraphCounter, g: Graph) -> (res: Option<Graph>)
    ensures
        optional_rel(g, old(counter).count, res, final(counter).count),
{
    match small(&g) {
        Some(a) => {
            if counter.count < i32::MAX && a + 2 < 0x7fff_ffff && shift_ok(&g, 1) {
                Some(zeroOrOne(counter, g))
            } else {
                None
            }
        },
        None => None,
    }
}

/// A new set holding the characters `a..=b`, where the table has room.
fn range_set(t: &mut CharSetTable, a: char, b: char) -> (res: Option<i32>)
    ensures
        range_rel(tv(*old(t)), a, b, res, tv(*final(t))),
{
    if t.next_index < i32::MAX {
        Some(range(t, a, b))
    } else {
        None
    }
}

/// Whether one of the segments starts at U+E000 or ends at U+D7FF.
fn blocked_sets(l: &Vec<CharSet>) -> (res: bool)
    ensures
        res == diff_blocked(l@),
{
    let mut i: usize = 0;
    while i < l.len()
        invariant
            i <= l@.len(),
            forall|k: int| 0 <= k < i ==> !((#[trigger] l@[k]).fromChar as u32 == 0xE000 || l@[k].toChar as u32 == 0xD7FF),
        decreases l@.len() - i,
    {
        if l[i].fromChar as u32 == 0xE000 || l[i].toChar as u32 == 0xD7FF {
            return true;
        }
        i = i + 1;
    }
    false
}

/// Whether removing `c` would have to step over the surrogate gap.
fn blocked_char(l: &Vec<CharSet>, c: char) -> (res: bool)
    ensures
        res == diff_char_blocked(l@, c),
{
    let cv = c as u32;
    let mut i: usize = 0;
    while i < l.len()
        invariant
            i <= l@.len(),
            cv == c as u32,
            forall|k: int| 0 <= k < i ==> !((cv == 0xE000 && ((#[trigger] l@[k]).fromChar as u32) < cv && cv <= l@[k].toChar as u32)
                || (cv == 0xD7FF && (l@[k].fromChar as u32) <= cv && cv < l@[k].toChar as u32)),
        decreases l@.len() - i,
    {
        let f = l[i].fromChar as u32;
        let t = l[i].toChar as u32;
        if (cv == 0xE000 && f < cv && cv <= t) || (cv == 0xD7FF && f <= cv && cv < t) {
            return true;
        }
        i = i + 1;
    }
    false
}

/// The set of a character operand (made here), or of the empty set (0).
fn operand_set(t: &mut CharSetTable, a: &RegexAst) -> (res: Option<Option<i32>>)
    ensures
        operand_rel(*a, tv(*old(t)), res, tv(*final(t))),
{
    match a {
        RegexAst::Lit(c) => match range_set(t, *c, *c) {
            Some(id) => Some(Some(id)),
            None => None,
        },
        RegexAst::Special(c) => match range_set(t, *c, *c) {
            Some(id) => Some(Some(id)),
            None => None,
        },
        RegexAst::Empty => Some(Some(0)),
        _ => Some(None),
    }
}

/// The difference of two operands: a set less a character, or a set less
/// a set; 0 where the left operand is not a set.
fn difference_set(t: &mut CharSetTable, l: &RegexAst, r: &RegexAst) -> (res: Option<i32>)
    ensures
        diff_rel(*l, *r, tv(*old(t)), res, tv(*final(t))),
{
    let lid = match operand_set(t, l) {
        Some(x) => x,
        None => return None,
    };
    let lid = match lid {
        Some(x) => x,
        None => return Some(0),
    };
    match extract_char(r) {
        Some(c) => {
            let segs = segments_of(t, lid);
            if t.next_index < i32::MAX && segs.len() < 0x3fff_0000 && !blocked_char(&segs, c) {
                Some(difference_charset_char(t, lid, c))
            } else {
                None
            }
        },
        None => {
            let rid = match r {
                RegexAst::Empty => 0,
                _ => return Some(0),
            };
            let s1 = segments_of(t, lid);
            let s2 = segments_of(t, rid);
            if t.next_index < i32::MAX && s1.len() < 0x8000 && s2.len() < 0x8000 && !blocked_sets(&s2) {
                proof {
                    assert(s1@.len() * (s2@.len() + 1) < i32::MAX) by (nonlinear_arith)
                        requires s1@.len() < 0x8000, s2@.len() < 0x8000;
                }
                Some(difference_charsets(t, lid, rid))
            } else {
                None
            }
        },
    }
}

/// The automaton of the graph named `name`, the latest one bound to it.
fn lookup(env: &Vec<(String, Graph)>, name: &str) -> (res: Option<Graph>)
    ensures
        match res {
            Some(g) => {
                let k = latest(env@, name@, env@.len() as int);
                &&& 0 <= k < env@.len()
                &&& g.states() == env@[k].1.states()
                &&& g.edges() == env@[k].1.edges()
                &&& g.graphId == env@[k].1.graphId
                &&& g.numOfStates == env@[k].1.numOfStates
            },
            None => latest(env@, name@, env@.len() as int) == -1,
        },
{
    let mut i: usize = env.len();
    while i > 0
        invariant
            i <= env@.len(),
            latest(env@, name@, env@.len() as int) == latest(env@, name@, i as int),
        decreases i,
    {
        if str_eq(env[i - 1].0.as_str(), name) {
            return Some(env[i - 1].1.copyGraph());
        }
        i = i - 1;
    }
    None
}

/// The automaton of a syntax tree: a character is a `CHAR` edge, the empty
/// set a `CHARSET` edge over set 0, a name the automaton bound to it (the
/// empty automaton where there is none), the operators the Thompson
/// constructions; `None` where a number would leave `i32`.
#[verifier::spinoff_prover]
#[verifier::rlimit(40)]
pub fn eval_ast(ast: &RegexAst, env: &Vec<(String, Graph)>, t: &mut CharSetTable, counter: &mut GraphCounter) -> (res: Option<Graph>)
    ensures
        evals(*ast, env@, tv(*old(t)), old(counter).count, res, tv(*final(t)), final(counter).count),
    decreases ast,
{
    let ghost t00 = tv(*t);
    let ghost c00 = counter.count;
    match ast {
        RegexAst::Lit(c) | RegexAst::Special(c) => {
            let id = match range_set(t, *c, *c) {
                Some(id) => id,
                None => {
                    assert(evals_by(*ast, env@, t00, c00, None, tv(*t), counter.count, EvalTrace::Leaf));
                    return None;
                },
            };
            let res = basic_nfa(counter, "CHAR", id);
            assert(evals_by(*ast, env@, t00, c00, res, tv(*t), counter.count, EvalTrace::Leaf));
            res
        },
        RegexAst::Empty => {
            let res = basic_nfa(counter, "CHARSET", 0);
            assert(evals_by(*ast, env@, t00, c00, res, tv(*t), counter.count, EvalTrace::Leaf));
            res
        },
        RegexAst::Name(name) => {
            let res = match lookup(env, name.as_str()) {
                Some(g) => Some(g),
                None => {
                    if counter.count < i32::MAX {
                        Some(Graph::new(counter, 0))
                    } else {
                        None
                    }
                },
            };
            assert(evals_by(*ast, env@, t00, c00, res, tv(*t), counter.count, EvalTrace::Leaf));
            res
        },
        RegexAst::Union(l, r) => {
            let ghost t0 = tv(*t);
            let ghost c0 = counter.count;
            let ra = eval_ast(l, env, t, counter);
            let ghost ta = tv(*t);
            let ghost ca = counter.count;
            let ghost trl = choose|tr: EvalTrace| evals_by(**l, env@, t0, c0, ra, ta, ca, tr);
            let a = match ra {
                Some(g) => g,
                None => {
                    assert(evals_by(*ast, env@, t0, c0, ra, ta, ca, EvalTrace::Two(ra, ta, ca, Box::new(trl), None, ta, ca, Box::new(EvalTrace::Leaf))));
                    return None;
                },
            };
            let rb = eval_ast(r, env, t, counter);
            let ghost tb = tv(*t);
            let ghost cb = counter.count;
            let ghost trr = choose|tr: EvalTrace| evals_by(**r, env@, ta, ca, rb, tb, cb, tr);
            let ghost trace = EvalTrace::Two(ra, ta, ca, Box::new(trl), rb, tb, cb, Box::new(trr));
            let b = match rb {
                Some(g) => g,
                None => {
                    assert(evals_by(*ast, env@, t0, c0, rb, tb, cb, trace));
                    return None;
                },
            };
            let res = union_nfa(counter, a, b);
            assert(evals_by(*ast, env@, t0, c0, res, tb, counter.count, trace));
            res
        },
        RegexAst::Concat(l, r) => {
            let ghost t0 = tv(*t);
            let ghost c0 = counter.count;
            let ra = eval_ast(l, env, t, counter);
            let ghost ta = tv(*t);
            let ghost ca = counter.count;
            let ghost trl = choose|tr: EvalTrace| evals_by(**l, env@, t0, c0, ra, ta, ca, tr);
            let a = match ra {
                Some(g) => g,
                None => {
                    assert(evals_by(*ast, env@, t0, c0, ra, ta, ca, EvalTrace::Two(ra, ta, ca, Box::new(trl), None, ta, ca, Box::new(EvalTrace::Leaf))));
                    return None;
                },
            };
            let rb = eval_ast(r, env, t, counter);
            let ghost tb = tv(*t);
            let ghost cb = counter.count;
            let ghost trr = choose|tr: EvalTrace| evals_by(**r, env@, ta, ca, rb, tb, cb, tr);
            let ghost trace = EvalTrace::Two(ra, ta, ca, Box::new(trl), rb, tb, cb, Box::new(trr));
            let b = match rb {
                Some(g) => g,
                None => {
                    assert(evals_by(*ast, env@, t0, c0, rb, tb, cb, trace));
                    return None;
                },
            };
            let res = product_nfa(counter, a, b);
            assert(evals_by(*ast, env@, t0, c0, res, tb, counter.count, trace));
            res
        },
        RegexAst::Star(x) => {
            let ghost t0 = tv(*t);
            let ghost c0 = counter.count;
            let ra = eval_ast(x, env, t, counter);
            let ghost ta = tv(*t);
            let ghost ca = counter.count;
            let ghost trx = choose|tr: EvalTrace| evals_by(**x, env@, t0, c0, ra, ta, ca, tr);
            let ghost trace = EvalTrace::One(ra, ta, ca, Box::new(trx));
            match ra {
                Some(g) => {
                    let res = closure_nfa(counter, g);
                    assert(evals_by(*ast, env@, t0, c0, res, ta, counter.count, trace));
                    res
                },
                None => {
                    assert(evals_by(*ast, env@, t0, c0, ra, ta, ca, trace));
                    None
                },
            }
        },
        RegexAst::Plus(x) => {
            let ghost t0 = tv(*t);
            let ghost c0 = counter.count;
            let ra = eval_ast(x, env, t, counter);
            let ghost ta = tv(*t);
            let ghost ca = counter.count;
            let ghost trx = choose|tr: EvalTrace| evals_by(**x, env@, t0, c0, ra, ta, ca, tr);
            let ghost trace = EvalTrace::One(ra, ta, ca, Box::new(trx));
            match ra {
                Some(g) => {
                    let res = plus_nfa(counter, g);
                    assert(evals_by(*ast, env@, t0, c0, res, ta, counter.count, trace));
                    res
                },
                None => {
                    assert(evals_by(*ast, env@, t0, c0, ra, ta, ca, trace));
                    None
                },
            }
        },
        RegexAst::Opt(x) => {
            let ghost t0 = tv(*t);
            let ghost c0 = counter.count;
            let ra = eval_ast(x, env, t, counter);
            let ghost ta = tv(*t);
            let ghost ca = counter.count;
            let ghost trx = choose|tr: EvalTrace| evals_by(**x, env@, t0, c0, ra, ta, ca, tr);
            let ghost trace = EvalTrace::One(ra, ta, ca, Box::new(trx));
            match ra {
                Some(g) => {
                    let res = optional_nfa(counter, g);
                    assert(evals_by(*ast, env@, t0, c0, res, ta, counter.count, trace));
                    res
                },
                None => {
                    assert(evals_by(*ast, env@, t0, c0, ra, ta, ca, trace));
                    None
                },
            }
        },
        RegexAst::Range(a, b) => {
            let id = match range_set(t, *a, *b) {
                Some(id) => id,
                None => {
                    assert(evals_by(*ast, env@, t00, c00, None, tv(*t), counter.count, EvalTrace::Leaf));
                    return None;
                },
            };
            let res = basic_nfa(counter, "CHARSET", id);
            assert(evals_by(*ast, env@, t00, c00, res, tv(*t), counter.count, EvalTrace::Leaf));
            res
        },
        RegexAst::Diff(l, r) => {
            let d = difference_set(t, l, r);
            let ghost ta = tv(*t);
            let id = match d {
                Some(id) => id,
                None => {
                    assert(diff_rel(**l, **r, t00, d, ta));
                    assert(evals_by(*ast, env@, t00, c00, None, tv(*t), counter.count, EvalTrace::Leaf));
                    return None;
                },
            };
            let res = if id != 0 {
                basic_nfa(counter, "CHARSET", id)
            } else if counter.count < i32::MAX {
                Some(Graph::new(counter, 0))
            } else {
                None
            };
            assert(diff_rel(**l, **r, t00, d, ta));
            assert(evals_by(*ast, env@, t00, c00, res, tv(*t), counter.count, EvalTrace::Leaf));
            res
        },
    }
}

/// A state with the category `cat` where it is accepting.
pub open spec fn marked(s: StateV, cat: LexemeCategory) -> StateV {
    if is_match(s) { (s.0, s.1, Some(cat)) } else { s }
}

/// Gives every accepting state of `g` the category `cat`; the rest of the
/// graph is left as it was.
pub fn mark_category(g: &mut Graph, cat: LexemeCategory)
    ensures
        final(g).states().len() == old(g).states().len(),
        forall|k: int| 0 <= k < old(g).states().len() ==> #[trigger] final(g).states()[k] == marked(old(g).states()[k], cat),
        final(g).edges() == old(g).edges(),
        final(g).graphId == old(g).graphId,
        final(g).numOfStates == old(g).numOfStates,
{
    let ghost s0 = g.states();
    let mut i: usize = 0;
    while i < g.pStateTable.len()
        invariant
            i <= g.pStateTable@.len(),
            g.pStateTable@.len() == s0.len(),
            g.edges() == old(g).edges(),
            g.graphId == old(g).graphId,
            g.numOfStates == old(g).numOfStates,
            s0 == old(g).states(),
            forall|k: int| 0 <= k < i ==> #[trigger] g.states()[k] == marked(s0[k], cat),
            forall|k: int| i <= k < s0.len() ==> #[trigger] g.states()[k] == s0[k],
        decreases g.pStateTable@.len() - i,
    {
        let ghost before = g.pStateTable@;
        let ghost sb = g.states();
        assert(sb[i as int] == before[i as int]@);
        assert(sb[i as int] == s0[i as int]);
        if state_is_match(&g.pStateTable[i]) {
            let s = State {
                stateId: g.pStateTable[i].stateId,
                StateType: g.pStateTable[i].StateType.clone(),
                LexemeCategory: Some(cat),
            };
            assert(s@ == marked(s0[i as int], cat));
            g.pStateTable.set(i, s);
            assert(g.pStateTable@ == before.update(i as int, s));
        }
        proof {
            assert forall|k: int| 0 <= k < i + 1 implies #[trigger] g.states()[k] == marked(s0[k], cat) by {
                assert(g.states()[k] == g.pStateTable@[k]@);
                assert(sb[k] == before[k]@);
                if k < i {
                    assert(g.pStateTable@[k] == before[k]);
                    assert(sb[k] == marked(s0[k], cat));
                }
            }
            assert forall|k: int| i + 1 <= k < s0.len() implies #[trigger] g.states()[k] == s0[k] by {
                assert(g.states()[k] == g.pStateTable@[k]@);
                assert(g.pStateTable@[k] == before[k]);
                assert(sb[k] == before[k]@);
                assert(sb[k] == s0[k]);
            }
        }
        i = i + 1;
    }
}

} // verus!
