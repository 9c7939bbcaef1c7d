//! The language of regular definitions: one definition per line,
//! `[@]name -> pattern`, a `@` marking a lexeme category; lines that start
//! with `|` continue the pattern of the definition before them.
use vstd::prelude::*;
use crate::lab1::category::LexemeCategory;
use crate::lab1::graph::{Graph, GraphCounter};
use crate::lab1::char_set::{CharSet, CharSetTable};
use crate::lab3::pattern::{eval_ast, evals, mark_category, marked, parse_regex_pattern, parses, tv, RegexAst};
use crate::text::{chars_of, push_char, str_eq};

verus! {

/// A regular definition: its name, its pattern, and whether it names a
/// lexeme category.
#[derive(Clone, Debug)]
pub struct RegexDef {
    pub name: String,
    pub pattern: String,
    pub is_token: bool,
}

/// A definition as plain values.
pub open spec fn rdview(d: RegexDef) -> (Seq<char>, Seq<char>, bool) {
    (d.name@, d.pattern@, d.is_token)
}

/// Definitions as plain values.
pub open spec fn rdviews(v: Seq<RegexDef>) -> Seq<(Seq<char>, Seq<char>, bool)> {
    v.map_values(|d: RegexDef| rdview(d))
}

/// An optional definition as plain values.
pub open spec fn optview(o: Option<RegexDef>) -> Option<(Seq<char>, Seq<char>, bool)> {
    match o {
        Some(d) => Some(rdview(d)),
        None => None,
    }
}

/// White space as `char::is_whitespace` takes it: the characters of the
/// Unicode `White_Space` property.
pub open spec fn is_ws(c: char) -> bool {
    let v = c as u32;
    ||| 0x9 <= v <= 0xD
    ||| v == 0x20
    ||| v == 0x85
    ||| v == 0xA0
    ||| v == 0x1680
    ||| 0x2000 <= v <= 0x200A
    ||| v == 0x2028
    ||| v == 0x2029
    ||| v == 0x202F
    ||| v == 0x205F
    ||| v == 0x3000
}

/// Whether `c` is white space.
pub fn char_is_ws(c: char) -> (res: bool)
    ensures
        res == is_ws(c),
{
    let v = c as u32;
    (0x9 <= v && v <= 0xD) || v == 0x20 || v == 0x85 || v == 0xA0 || v == 0x1680 || (0x2000 <= v && v <= 0x200A)
        || v == 0x2028 || v == 0x2029 || v == 0x202F || v == 0x205F || v == 0x3000
}

/// `s` without its leading white space.
pub open spec fn trim_start(s: Seq<char>) -> Seq<char>
    decreases s.len(),
{
    if s.len() > 0 && is_ws(s[0]) {
        trim_start(s.drop_first())
    } else {
        s
    }
}

/// `s` without its trailing white space.
pub open spec fn trim_end(s: Seq<char>) -> Seq<char>
    decreases s.len(),
{
    if s.len() > 0 && is_ws(s.last()) {
        trim_end(s.drop_last())
    } else {
        s
    }
}

/// `s` without white space at either end (`str::trim`).
pub open spec fn trim(s: Seq<char>) -> Seq<char> {
    trim_end(trim_start(s))
}

/// The characters of `v` from `lo` to `hi`.
fn slice_of(v: &Vec<char>, lo: usize, hi: usize) -> (res: Vec<char>)
    requires
        lo <= hi <= v@.len(),
    ensures
        res@ == v@.subrange(lo as int, hi as int),
{
    let mut res: Vec<char> = Vec::new();
    let mut i: usize = lo;
    while i < hi
        invariant
            lo <= i <= hi <= v@.len(),
            res@ == v@.subrange(lo as int, i as int),
        decreases hi - i,
    {
        res.push(v[i]);
        i = i + 1;
        assert(res@ =~= v@.subrange(lo as int, i as int));
    }
    res
}

/// `v` without white space at either end.
pub fn trim_chars(v: &Vec<char>) -> (res: Vec<char>)
    ensures
        res@ == trim(v@),
{
    let n = v.len();
    let mut lo: usize = 0;
    assert(v@.subrange(0, n as int) =~= v@);
    while lo < n && char_is_ws(v[lo])
        invariant
            lo <= n,
            n == v@.len(),
            trim_start(v@) == trim_start(v@.subrange(lo as int, n as int)),
        decreases n - lo,
    {
        assert(v@.subrange(lo as int, n as int).drop_first() =~= v@.subrange(lo + 1, n as int));
        lo = lo + 1;
    }
    let mut hi: usize = n;
    let ghost ts = v@.subrange(lo as int, n as int);
    assert(trim_start(v@) == ts);
    while hi > lo && char_is_ws(v[hi - 1])
        invariant
            lo <= hi <= n,
            n == v@.len(),
            ts == v@.subrange(lo as int, n as int),
            trim_end(ts) == trim_end(v@.subrange(lo as int, hi as int)),
        decreases hi - lo,
    {
        assert(v@.subrange(lo as int, hi as int).drop_last() =~= v@.subrange(lo as int, hi - 1));
        hi = hi - 1;
    }
    slice_of(v, lo, hi)
}

/// The characters as a string.
pub fn string_of(v: &Vec<char>) -> (res: String)
    ensures
        res@ == v@,
{
    let mut s = String::new();
    let mut i: usize = 0;
    while i < v.len()
        invariant
            i <= v@.len(),
            s@ == v@.subrange(0, i as int),
        decreases v@.len() - i,
    {
        push_char(&mut s, v[i]);
        i = i + 1;
        assert(s@ =~= v@.subrange(0, i as int));
    }
    assert(v@.subrange(0, i as int) =~= v@);
    s
}

/// `s` cut at each newline: the text of each line, the last one possibly
/// empty.
pub open spec fn lines_of(s: Seq<char>) -> Seq<Seq<char>>
    decreases s.len(),
{
    if s.len() == 0 {
        seq![Seq::empty()]
    } else if s.last() == '\n' {
        lines_of(s.drop_last()).push(Seq::empty())
    } else {
        let l = lines_of(s.drop_last());
        l.update(l.len() - 1, l.last().push(s.last()))
    }
}

/// There is always a line.
proof fn lemma_lines_nonempty(s: Seq<char>)
    ensures
        lines_of(s).len() > 0,
    decreases s.len(),
{
    if s.len() > 0 {
        lemma_lines_nonempty(s.drop_last());
    }
}

/// A line with the leading line number (digits and spaces) skipped; a line
/// of nothing else stays as it is.
pub open spec fn skip_number(s: Seq<char>) -> Seq<char> {
    let t = trim(s);
    if exists|k: int| 0 <= k < t.len() && !(('0' <= #[trigger] t[k] <= '9') || t[k] == ' ') {
        let k = choose|k: int| 0 <= k < t.len() && !(('0' <= #[trigger] t[k] <= '9') || t[k] == ' ')
            && forall|j: int| 0 <= j < k ==> ('0' <= #[trigger] t[j] <= '9') || t[j] == ' ';
        t.subrange(k, t.len() as int)
    } else {
        t
    }
}

/// `s` with its leading line number skipped.
fn skip_number_chars(v: &Vec<char>) -> (res: Vec<char>)
    ensures
        res@ == skip_number(v@),
{
    let t = trim_chars(v);
    let mut k: usize = 0;
    while k < t.len()
        invariant
            k <= t@.len(),
            t@ == trim(v@),
            forall|j: int| 0 <= j < k ==> ('0' <= #[trigger] t@[j] <= '9') || t@[j] == ' ',
        decreases t@.len() - k,
    {
        let c = t[k];
        if !(('0' <= c && c <= '9') || c == ' ') {
            proof {
                let tt = t@;
                let k2 = choose|k2: int| 0 <= k2 < tt.len() && !(('0' <= #[trigger] tt[k2] <= '9') || tt[k2] == ' ')
                    && forall|j: int| 0 <= j < k2 ==> ('0' <= #[trigger] tt[j] <= '9') || tt[j] == ' ';
                if k2 < k {
                    assert(('0' <= tt[k2] <= '9') || tt[k2] == ' ');
                }
                if k2 > k {
                    assert(('0' <= tt[k as int] <= '9') || tt[k as int] == ' ');
                }
            }
            return slice_of(&t, k, t.len());
        }
        k = k + 1;
    }
    t
}

/// The first position of `->` in `w`, if any.
pub open spec fn arrow_at(w: Seq<char>, k: int) -> bool {
    0 <= k && k + 1 < w.len() && w[k] == '-' && w[k + 1] == '>'
}

/// A definition line without its `@` mark.
pub open spec fn def_text(t: Seq<char>) -> Seq<char> {
    if t.len() > 0 && t[0] == '@' {
        t.subrange(1, t.len() as int)
    } else {
        t
    }
}

/// The first position of `->`.
pub open spec fn first_arrow(w: Seq<char>) -> int {
    choose|k: int| #[trigger] arrow_at(w, k) && forall|j: int| 0 <= j < k ==> !#[trigger] arrow_at(w, j)
}

/// A definition line read: `[@]name -> pattern`, both parts trimmed and
/// not empty, split at the first `->`.
pub open spec fn parse_def(line: Seq<char>) -> Option<(Seq<char>, Seq<char>, bool)> {
    let t = trim(line);
    if t.len() == 0 {
        None
    } else {
        let tok = t[0] == '@';
        let w = def_text(t);
        if exists|k: int| #[trigger] arrow_at(w, k) {
            let k = first_arrow(w);
            let name = trim(w.subrange(0, k));
            let pat = trim(w.subrange(k + 2, w.len() as int));
            if name.len() == 0 || pat.len() == 0 {
                None
            } else {
                Some((name, pat, tok))
            }
        } else {
            None
        }
    }
}

/// The first position of `->` in `w`, if any.
fn find_arrow(w: &Vec<char>) -> (res: Option<usize>)
    ensures
        match res {
            Some(k) => arrow_at(w@, k as int) && forall|j: int| 0 <= j < k ==> !#[trigger] arrow_at(w@, j),
            None => forall|j: int| !#[trigger] arrow_at(w@, j),
        },
{
    let mut k: usize = 0;
    while k < w.len()
        invariant
            k <= w@.len(),
            forall|j: int| 0 <= j < k ==> !#[trigger] arrow_at(w@, j),
        decreases w@.len() - k,
    {
        if k + 1 < w.len() && w[k] == '-' && w[k + 1] == '>' {
            return Some(k);
        }
        k = k + 1;
    }
    None
}

/// A definition line read.
fn parse_one_definition(line: &Vec<char>) -> (res: Option<RegexDef>)
    ensures
        match res {
            Some(d) => parse_def(line@) == Some(rdview(d)),
            None => parse_def(line@) is None,
        },
{
    let t = trim_chars(line);
    if t.len() == 0 {
        return None;
    }
    let tok = t[0] == '@';
    let w = if tok { slice_of(&t, 1, t.len()) } else { slice_of(&t, 0, t.len()) };
    assert(t@.subrange(0, t@.len() as int) =~= t@);
    match find_arrow(&w) {
        Some(k) => {
            proof {
                let k2 = first_arrow(w@);
                if k2 < k {
                    assert(!arrow_at(w@, k2));
                }
                if k2 > k {
                    assert(!arrow_at(w@, k as int));
                }
            }
            let name = trim_chars(&slice_of(&w, 0, k));
            let pat = trim_chars(&slice_of(&w, k + 2, w.len()));
            if name.len() == 0 || pat.len() == 0 {
                return None;
            }
            let d = RegexDef { name: string_of(&name), pattern: string_of(&pat), is_token: tok };
            proof {
                let tt = trim(line@);
                let ww = def_text(tt);
                assert(ww == w@);
                assert(exists|k3: int| #[trigger] arrow_at(ww, k3));
                let kk = first_arrow(ww);
                assert(kk == k);
                assert(trim(ww.subrange(0, kk)) == name@);
                assert(trim(ww.subrange(kk + 2, ww.len() as int)) == pat@);
                assert(rdview(d) == (name@, pat@, tok));
                assert(tt.len() > 0);
                assert(tok == (tt[0] == '@'));
                assert(parse_def(line@) == Some((name@, pat@, tok)));
            }
            Some(d)
        },
        None => None,
    }
}

/// Reading one line into the definitions read so far and the one being read.
pub open spec fn rd_step(st: (Seq<(Seq<char>, Seq<char>, bool)>, Option<(Seq<char>, Seq<char>, bool)>), line: Seq<char>)
    -> (Seq<(Seq<char>, Seq<char>, bool)>, Option<(Seq<char>, Seq<char>, bool)>) {
    if trim(line).len() == 0 {
        st
    } else {
        let l = skip_number(trim(line));
        if l.len() > 0 && l[0] == '|' {
            match st.1 {
                Some(d) => (st.0, Some((d.0, d.1 + " | "@ + trim(l.subrange(1, l.len() as int)), d.2))),
                None => st,
            }
        } else {
            let defs = match st.1 {
                Some(d) => st.0.push(d),
                None => st.0,
            };
            (defs, parse_def(l))
        }
    }
}

/// Reading the lines in order.
pub open spec fn rd_run(lines: Seq<Seq<char>>) -> (Seq<(Seq<char>, Seq<char>, bool)>, Option<(Seq<char>, Seq<char>, bool)>)
    decreases lines.len(),
{
    if lines.len() == 0 {
        (Seq::empty(), None)
    } else {
        rd_step(rd_run(lines.drop_last()), lines.last())
    }
}

/// The definitions of a text.
pub open spec fn regex_defs(text: Seq<char>) -> Seq<(Seq<char>, Seq<char>, bool)> {
    let st = rd_run(lines_of(text));
    match st.1 {
        Some(d) => st.0.push(d),
        None => st.0,
    }
}

/// Reads one line into the definitions and the one being read.
fn read_line(defs: &mut Vec<RegexDef>, current: &mut Option<RegexDef>, line: &Vec<char>)
    ensures
        (rdviews(final(defs)@), optview(*final(current)))
            == rd_step((rdviews(old(defs)@), optview(*old(current))), line@),
{
    let original = trim_chars(line);
    if original.len() == 0 {
        return;
    }
    let l = skip_number_chars(&original);
    if l.len() > 0 && l[0] == '|' {
        match current {
            Some(d) => {
                let cont = trim_chars(&slice_of(&l, 1, l.len()));
                let ghost p0 = d.pattern@;
                push_char(&mut d.pattern, ' ');
                push_char(&mut d.pattern, '|');
                push_char(&mut d.pattern, ' ');
                let c = string_of(&cont);
                d.pattern.append(c.as_str());
                proof {
                    reveal_strlit(" | ");
                    assert(d.pattern@ =~= p0 + " | "@ + cont@);
                }
            },
            None => {},
        }
        return;
    }
    let ghost dv = rdviews(defs@);
    match current.take() {
        Some(d) => {
            let ghost x = rdview(d);
            defs.push(d);
            assert(rdviews(defs@) =~= dv.push(x));
        },
        None => {},
    }
    *current = parse_one_definition(&l);
}

/// The definitions of a text: each `[@]name -> pattern` line, a leading
/// line number skipped, its pattern extended by the `|` lines after it;
/// blank lines and lines that are not definitions are passed over (the
/// latter also end the definition before them).
#[verifier::rlimit(60)]
#[verifier::spinoff_prover]
pub fn parse_regex_definitions(text: &str) -> (res: Vec<RegexDef>)
    ensures
        rdviews(res@) == regex_defs(text@),
{
    let cs = chars_of(text);
    let mut defs: Vec<RegexDef> = Vec::new();
    let mut current: Option<RegexDef> = None;
    let mut line: Vec<char> = Vec::new();
    let mut i: usize = 0;
    let ghost mut done: Seq<Seq<char>> = Seq::empty();
    proof {
        assert(cs@.subrange(0, 0) =~= Seq::<char>::empty());
        assert(lines_of(cs@.subrange(0, 0)) == done.push(line@));
        assert(rdviews(defs@) =~= Seq::<(Seq<char>, Seq<char>, bool)>::empty());
    }
    while i < cs.len()
        invariant
            i <= cs@.len(),
            cs@ == text@,
            lines_of(cs@.subrange(0, i as int)) == done.push(line@),
            (rdviews(defs@), optview(current)) == rd_run(done),
        decreases cs@.len() - i,
    {
        let c = cs[i];
        let ghost sub = cs@.subrange(0, i + 1);
        proof {
            assert(sub.drop_last() =~= cs@.subrange(0, i as int));
            assert(sub.last() == c);
        }
        if c == '\n' {
            read_line(&mut defs, &mut current, &line);
            proof {
                let d2 = done.push(line@);
                assert(d2.drop_last() =~= done);
                done = d2;
            }
            line = Vec::new();
            proof {
                assert(lines_of(sub) =~= done.push(line@));
            }
        } else {
            let ghost l0 = line@;
            line.push(c);
            proof {
                assert(lines_of(sub) =~= done.push(l0).update(done.len() as int, l0.push(c)));
                assert(lines_of(sub) =~= done.push(line@));
            }
        }
        i = i + 1;
    }
    read_line(&mut defs, &mut current, &line);
    proof {
        assert(cs@.subrange(0, i as int) =~= cs@);
        let d2 = done.push(line@);
        assert(d2.drop_last() =~= done);
    }
    match current {
        Some(d) => {
            let ghost dv = rdviews(defs@);
            let ghost x = rdview(d);
            defs.push(d);
            assert(rdviews(defs@) =~= dv.push(x));
        },
        None => {},
    }
    defs
}

/// The lexeme category that a definition's name stands for.
pub open spec fn name_cat(n: Seq<char>) -> LexemeCategory {
    if n == "reserved"@ || n == "reserved_word"@ {
        LexemeCategory::LOGIC_OPERATOR
    } else if n == "cc"@ || n == "character_constant"@ {
        LexemeCategory::STRING_CONST
    } else if n == "space"@ || n == "blank"@ || n == "crlf"@ || n == "newline"@ {
        LexemeCategory::SPACE_CONST
    } else if n == "keyword"@ {
        LexemeCategory::KEYWORD
    } else if n == "numeric_op"@ {
        LexemeCategory::NUMERIC_OPERATOR
    } else if n == "compare_op"@ {
        LexemeCategory::COMPARE_OPERATOR
    } else if n == "logic_op"@ {
        LexemeCategory::LOGIC_OPERATOR
    } else if n == "assign"@ {
        LexemeCategory::ASSIGN_OPERATOR
    } else if n == "integer_const"@ {
        LexemeCategory::INTEGER_CONST
    } else if n == "note"@ {
        LexemeCategory::NOTE
    } else {
        LexemeCategory::ID
    }
}

/// The lexeme category of a definition's name (`ID` for a name it does
/// not know).
pub fn name_to_category(name: &str) -> (res: LexemeCategory)
    ensures
        res == name_cat(name@),
{
    if str_eq(name, "reserved") || str_eq(name, "reserved_word") {
        LexemeCategory::LOGIC_OPERATOR
    } else if str_eq(name, "cc") || str_eq(name, "character_constant") {
        LexemeCategory::STRING_CONST
    } else if str_eq(name, "space") || str_eq(name, "blank") || str_eq(name, "crlf") || str_eq(name, "newline") {
        LexemeCategory::SPACE_CONST
    } else if str_eq(name, "keyword") {
        LexemeCategory::KEYWORD
    } else if str_eq(name, "numeric_op") {
        LexemeCategory::NUMERIC_OPERATOR
    } else if str_eq(name, "compare_op") {
        LexemeCategory::COMPARE_OPERATOR
    } else if str_eq(name, "logic_op") {
        LexemeCategory::LOGIC_OPERATOR
    } else if str_eq(name, "assign") {
        LexemeCategory::ASSIGN_OPERATOR
    } else if str_eq(name, "integer_const") {
        LexemeCategory::INTEGER_CONST
    } else if str_eq(name, "note") {
        LexemeCategory::NOTE
    } else {
        LexemeCategory::ID
    }
}

/// The names of the category definitions among the first `k`.
pub open spec fn token_names(d: Seq<(Seq<char>, Seq<char>, bool)>, k: int) -> Set<Seq<char>> {
    Set::new(|n: Seq<char>| exists|j: int| 0 <= j < k && (#[trigger] d[j]).2 && d[j].0 == n)
}

/// The category map: each category definition's name, once, with its
/// category.
pub open spec fn category_map_is(m: Seq<(String, LexemeCategory)>, d: Seq<(Seq<char>, Seq<char>, bool)>, k: int) -> bool {
    &&& forall|a: int, b: int| 0 <= a < b < m.len() ==> (#[trigger] m[a]).0@ != (#[trigger] m[b]).0@
    &&& forall|a: int| 0 <= a < m.len() ==> (#[trigger] m[a]).1 == name_cat(m[a].0@)
    &&& forall|n: Seq<char>| #[trigger] token_names(d, k).contains(n) <==> exists|a: int| 0 <= a < m.len() && (#[trigger] m[a]).0@ == n
}

/// The automaton `x` that definition `d` binds, from the automaton `r`
/// of its pattern: for a category definition, its accepting states get the
/// category of its name.
pub open spec fn def_graph(d: RegexDef, r: Graph, x: Graph) -> bool {
    if d.is_token {
        &&& x.states().len() == r.states().len()
        &&& forall|k: int| 0 <= k < r.states().len() ==> #[trigger] x.states()[k] == marked(r.states()[k], name_cat(d.name@))
        &&& x.edges() == r.edges()
    } else {
        x.states() == r.states() && x.edges() == r.edges()
    }
}

/// One definition read: its pattern parsed and evaluated with the bindings
/// `env`, the tables going from `t0`, `c0` to `t1`, `c1`; `g` is what it
/// binds, or `None` where the evaluation failed.
pub open spec fn def_step(d: RegexDef, env: Seq<(String, Graph)>, t0: (Seq<CharSet>, i32), c0: i32, g: Option<Graph>, t1: (Seq<CharSet>, i32), c1: i32) -> bool {
    exists|ast: RegexAst, raw: Option<Graph>|
        #![trigger parses(d.pattern@, ast), evals(ast, env, t0, c0, raw, t1, c1)]
        parses(d.pattern@, ast) && evals(ast, env, t0, c0, raw, t1, c1) && match raw {
            None => g is None,
            Some(r) => g matches Some(x) && def_graph(d, r, g->0),
        }
}

/// The bindings of the first `i` definitions to the automata `gs`.
pub open spec fn env_of(defs: Seq<RegexDef>, gs: Seq<Graph>, i: int) -> Seq<(String, Graph)> {
    Seq::new(i as nat, |j: int| (defs[j].name, gs[j]))
}

/// The first `k` definitions read in turn, binding `gs`, with the tables
/// `ts`, `cs` before and after each.
pub open spec fn defs_run(defs: Seq<RegexDef>, k: int, gs: Seq<Graph>, ts: Seq<(Seq<CharSet>, i32)>, cs: Seq<i32>) -> bool {
    &&& 0 <= k <= defs.len()
    &&& gs.len() == k
    &&& ts.len() == k + 1
    &&& cs.len() == k + 1
    &&& forall|i: int| 0 <= i < k ==> #[trigger] def_step(defs[i], env_of(defs, gs, i), ts[i], cs[i], Some(gs[i]), ts[i + 1], cs[i + 1])
}

/// The automaton of the definitions `defs`, read in turn from tables `t0`,
/// `c0` to `t1`, `c1`: that of the last definition (the empty automaton
/// where there are none); `None` where a definition's evaluation failed,
/// or, for no definitions, where the counter had no number left.
pub open spec fn nfa_built(defs: Seq<RegexDef>, t0: (Seq<CharSet>, i32), c0: i32, res: Option<Graph>, t1: (Seq<CharSet>, i32), c1: i32) -> bool {
    match res {
        Some(g) => exists|gs: Seq<Graph>, ts: Seq<(Seq<CharSet>, i32)>, cs: Seq<i32>| {
            &&& #[trigger] defs_run(defs, defs.len() as int, gs, ts, cs)
            &&& ts[0] == t0
            &&& cs[0] == c0
            &&& ts[defs.len() as int] == t1
            &&& if defs.len() > 0 {
                &&& cs[defs.len() as int] == c1
                &&& g.states() == gs[defs.len() - 1].states()
                &&& g.edges() == gs[defs.len() - 1].edges()
            } else {
                &&& c0 < i32::MAX
                &&& c1 == c0 + 1
                &&& g.states().len() == 0
                &&& g.edges().len() == 0
            }
        },
        None => {
            ||| exists|gs: Seq<Graph>, ts: Seq<(Seq<CharSet>, i32)>, cs: Seq<i32>, k: int| {
                &&& #[trigger] defs_run(defs, k, gs, ts, cs)
                &&& k < defs.len()
                &&& ts[0] == t0
                &&& cs[0] == c0
                &&& def_step(defs[k], env_of(defs, gs, k), ts[k], cs[k], None, t1, c1)
            }
            ||| (defs.len() == 0 && c0 == i32::MAX)
        },
    }
}

/// Whether the map has an entry named `name`.
fn map_has(m: &Vec<(String, LexemeCategory)>, name: &str) -> (res: bool)
    ensures
        res == exists|a: int| 0 <= a < m@.len() && (#[trigger] m@[a]).0@ == name@,
{
    let mut i: usize = 0;
    while i < m.len()
        invariant
            i <= m@.len(),
            forall|a: int| 0 <= a < i ==> (#[trigger] m@[a]).0@ != name@,
        decreases m@.len() - i,
    {
        if str_eq(m[i].0.as_str(), name) {
            return true;
        }
        i = i + 1;
    }
    false
}

/// The automaton of the definitions and the category of each category
/// definition. Each pattern is evaluated in turn with the automata of the
/// definitions before it bound to their names; a category definition's
/// accepting states get the category of its name. The automaton returned
/// is that of the last definition (the empty one where there are none);
/// `None` where a state, graph or set number would leave `i32`.
pub fn build_nfa_from_defs(defs: &Vec<RegexDef>, t: &mut CharSetTable, counter: &mut GraphCounter)
    -> (res: Option<(Graph, Vec<(String, LexemeCategory)>)>)
    ensures
        nfa_built(defs@, tv(*old(t)), old(counter).count, (match res {
            Some(r) => Some(r.0),
            None => None::<Graph>,
        }), tv(*final(t)), final(counter).count),
        res matches Some(r) ==> category_map_is(r.1@, rdviews(defs@), defs@.len() as int),
{
    let mut env: Vec<(String, Graph)> = Vec::new();
    let mut map: Vec<(String, LexemeCategory)> = Vec::new();
    let mut last: Option<Graph> = None;
    let mut i: usize = 0;
    let ghost t_init = tv(*t);
    let ghost c_init = counter.count;
    let ghost mut gs: Seq<Graph> = Seq::empty();
    let ghost mut ts: Seq<(Seq<CharSet>, i32)> = seq![t_init];
    let ghost mut cs: Seq<i32> = seq![c_init];
    proof {
        assert(env@ =~= env_of(defs@, gs, 0));
    }
    while i < defs.len()
        invariant
            i <= defs@.len(),
            category_map_is(map@, rdviews(defs@), i as int),
            t_init == tv(*old(t)),
            c_init == old(counter).count,
            defs_run(defs@, i as int, gs, ts, cs),
            ts[0] == t_init,
            cs[0] == c_init,
            ts[i as int] == tv(*t),
            cs[i as int] == counter.count,
            env@ == env_of(defs@, gs, i as int),
            i == 0 ==> last is None,
            i > 0 ==> (last is Some && last->0.states() == gs[i - 1].states() && last->0.edges() == gs[i - 1].edges()),
        decreases defs@.len() - i,
    {
        let d = &defs[i];
        let ghost tb = tv(*t);
        let ghost cb = counter.count;
        let ast = parse_regex_pattern(d.pattern.as_str());
        let evaluated = eval_ast(&ast, &env, t, counter);
        let mut nfa = match evaluated {
            Some(g) => g,
            None => {
                proof {
                    assert(parses(d.pattern@, ast) && evals(ast, env@, tb, cb, evaluated, tv(*t), counter.count));
                    assert(def_step(defs@[i as int], env_of(defs@, gs, i as int), ts[i as int], cs[i as int], None, tv(*t), counter.count));
                    assert(defs_run(defs@, i as int, gs, ts, cs));
                }
                return None;
            },
        };
        let ghost raw = nfa;
        let ghost dv = rdviews(defs@);
        proof {
            assert(dv[i as int] == rdview(defs@[i as int]));
        }
        if d.is_token {
            let cat = name_to_category(d.name.as_str());
            mark_category(&mut nfa, cat);
            if !map_has(&map, d.name.as_str()) {
                let ghost before = map@;
                map.push((d.name.clone(), cat));
                proof {
                    assert(map@[before.len() as int] == (d.name, cat));
                    assert forall|n: Seq<char>| #[trigger] token_names(dv, i + 1).contains(n) <==> exists|a: int| 0 <= a < map@.len() && (#[trigger] map@[a]).0@ == n by {
                        if token_names(dv, i + 1).contains(n) {
                            let j = choose|j: int| 0 <= j < i + 1 && (#[trigger] dv[j]).2 && dv[j].0 == n;
                            if j < i {
                                assert(token_names(dv, i as int).contains(n));
                                let a = choose|a: int| 0 <= a < before.len() && (#[trigger] before[a]).0@ == n;
                                assert(map@[a] == before[a]);
                            } else {
                                assert(map@[before.len() as int].0@ == n);
                            }
                        }
                        if exists|a: int| 0 <= a < map@.len() && (#[trigger] map@[a]).0@ == n {
                            let a = choose|a: int| 0 <= a < map@.len() && (#[trigger] map@[a]).0@ == n;
                            if a < before.len() {
                                assert(map@[a] == before[a]);
                                assert(token_names(dv, i as int).contains(n));
                                let j = choose|j: int| 0 <= j < i && (#[trigger] dv[j]).2 && dv[j].0 == n;
                                assert(0 <= j < i + 1 && dv[j].2 && dv[j].0 == n);
                            } else {
                                assert(0 <= i < i + 1 && dv[i as int].2 && dv[i as int].0 == n);
                            }
                        }
                    }
                    assert forall|a: int, b: int| 0 <= a < b < map@.len() implies (#[trigger] map@[a]).0@ != (#[trigger] map@[b]).0@ by {
                        if b < before.len() {
                            assert(map@[a] == before[a] && map@[b] == before[b]);
                        } else {
                            assert(map@[a] == before[a]);
                        }
                    }
                    assert forall|a: int| 0 <= a < map@.len() implies (#[trigger] map@[a]).1 == name_cat(map@[a].0@) by {
                        if a < before.len() {
                            assert(map@[a] == before[a]);
                        }
                    }
                }
            } else {
                proof {
                    assert forall|n: Seq<char>| #[trigger] token_names(dv, i + 1).contains(n) <==> exists|a: int| 0 <= a < map@.len() && (#[trigger] map@[a]).0@ == n by {
                        if token_names(dv, i + 1).contains(n) {
                            let j = choose|j: int| 0 <= j < i + 1 && (#[trigger] dv[j]).2 && dv[j].0 == n;
                            if j < i {
                                assert(token_names(dv, i as int).contains(n));
                            }
                        }
                        if exists|a: int| 0 <= a < map@.len() && (#[trigger] map@[a]).0@ == n {
                            assert(token_names(dv, i as int).contains(n));
                            let j = choose|j: int| 0 <= j < i && (#[trigger] dv[j]).2 && dv[j].0 == n;
                            assert(0 <= j < i + 1 && dv[j].2 && dv[j].0 == n);
                        }
                    }
                }
            }
        } else {
            proof {
                assert forall|n: Seq<char>| #[trigger] token_names(dv, i + 1).contains(n) <==> exists|a: int| 0 <= a < map@.len() && (#[trigger] map@[a]).0@ == n by {
                    if token_names(dv, i + 1).contains(n) {
                        let j = choose|j: int| 0 <= j < i + 1 && (#[trigger] dv[j]).2 && dv[j].0 == n;
                        assert(j != i);
                        assert(token_names(dv, i as int).contains(n));
                    }
                    if exists|a: int| 0 <= a < map@.len() && (#[trigger] map@[a]).0@ == n {
                        assert(token_names(dv, i as int).contains(n));
                        let j = choose|j: int| 0 <= j < i && (#[trigger] dv[j]).2 && dv[j].0 == n;
                        assert(0 <= j < i + 1 && dv[j].2 && dv[j].0 == n);
                    }
                }
            }
        }
        proof {
            assert(def_graph(*d, raw, nfa));
            assert(parses(d.pattern@, ast) && evals(ast, env@, tb, cb, evaluated, tv(*t), counter.count));
            assert(def_step(defs@[i as int], env_of(defs@, gs, i as int), ts[i as int], cs[i as int], Some(nfa), tv(*t), counter.count));
            let gs2 = gs.push(nfa);
            let ts2 = ts.push(tv(*t));
            let cs2 = cs.push(counter.count);
            assert forall|j: int| 0 <= j < i + 1 implies #[trigger] def_step(defs@[j], env_of(defs@, gs2, j), ts2[j], cs2[j], Some(gs2[j]), ts2[j + 1], cs2[j + 1]) by {
                assert(env_of(defs@, gs2, j) =~= env_of(defs@, gs, j));
                if j < i {
                    assert(def_step(defs@[j], env_of(defs@, gs, j), ts[j], cs[j], Some(gs[j]), ts[j + 1], cs[j + 1]));
                }
            }
            gs = gs2;
            ts = ts2;
            cs = cs2;
        }
        last = Some(nfa.copyGraph());
        let ghost env0 = env@;
        env.push((d.name.clone(), nfa));
        proof {
            assert(env@ =~= env_of(defs@, gs, i + 1));
        }
        i = i + 1;
    }
    let g = match last {
        Some(g) => g,
        None => {
            if counter.count < i32::MAX {
                let e = Graph::new(counter, 0);
                proof {
                    assert(ts[0] == tv(*t));
                }
                e
            } else {
                return None;
            }
        },
    };
    proof {
        assert(defs_run(defs@, defs@.len() as int, gs, ts, cs));
    }
    Some((g, map))
}

} // verus!
