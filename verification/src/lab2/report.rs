//! HTML panels of the analyses: the grammar, FIRST and FOLLOW sets, the
//! LR(0) automaton, the LR and LL(1) tables, and the conflicts found.
use vstd::prelude::*;
use crate::lab2::display::{fmt_item, fmt_production, item_text, production_text};
use crate::lab2::slr::{ekey, join_comma, joined_comma, keys_unique, lemma_tmap_at, tmap};
use crate::lab2::str_set::strs;
use crate::lab2::ll1::{cell_key, cell_keys, has_key, key_idx, keys_ascending, lemma_key_at, list_of};
use crate::lab2::lr0::{item_contains, iset};
use crate::lab2::types::{items_ascending, ActionCategory, Grammar, ItemSet, LL1ParseTable, LR0DFA, LR0Item, LRParseTable, TransitionEdge};
use crate::text::{chars_of, nat_text, push_char, str_eq, usize_to_string};

verus! {

/// A character as HTML text: `&`, `<` and `>` escaped.
pub open spec fn esc_char(c: char) -> Seq<char> {
    if c == '&' {
        "&amp;"@
    } else if c == '<' {
        "&lt;"@
    } else if c == '>' {
        "&gt;"@
    } else {
        seq![c]
    }
}

/// Text as HTML text: `&`, `<` and `>` escaped.
pub open spec fn esc(s: Seq<char>) -> Seq<char>
    decreases s.len(),
{
    if s.len() == 0 {
        Seq::empty()
    } else {
        esc(s.drop_last()) + esc_char(s.last())
    }
}

/// `s` with `&`, `<` and `>` escaped for HTML.
pub fn html_escape(s: &str) -> (res: String)
    ensures
        res@ == esc(s@),
{
    let cs = chars_of(s);
    let mut out = String::new();
    let mut i: usize = 0;
    proof {
        assert(cs@.subrange(0, 0) =~= Seq::<char>::empty());
    }
    while i < cs.len()
        invariant
            i <= cs@.len(),
            cs@ == s@,
            out@ == esc(cs@.subrange(0, i as int)),
        decreases cs@.len() - i,
    {
        let c = cs[i];
        let ghost before = out@;
        if c == '&' {
            out.append("&amp;");
        } else if c == '<' {
            out.append("&lt;");
        } else if c == '>' {
            out.append("&gt;");
        } else {
            push_char(&mut out, c);
        }
        proof {
            let sub = cs@.subrange(0, i + 1);
            assert(sub.drop_last() =~= cs@.subrange(0, i as int));
            assert(sub.last() == c);
            assert(out@ =~= before + esc_char(c));
        }
        i = i + 1;
    }
    assert(cs@.subrange(0, i as int) =~= cs@);
    out
}

/// The list items of the conflicts.
pub open spec fn conflict_items(cs: Seq<Seq<char>>) -> Seq<char>
    decreases cs.len(),
{
    if cs.len() == 0 {
        Seq::empty()
    } else {
        conflict_items(cs.drop_last()) + "<li>"@ + esc(cs.last()) + "</li>\n"@
    }
}

/// The verdict badge of a check, with the list of conflicts where it failed.
pub open spec fn conflicts_html(cs: Seq<Seq<char>>, ok: bool, kind: Seq<char>) -> Seq<char> {
    if ok {
        "<div class=\"badge badge-ok\">\u{2714} \u{8be5}\u{6587}\u{6cd5}\u{662f} "@ + kind + "</div>\n"@
    } else {
        "<div class=\"badge badge-ng\">\u{2718} \u{8be5}\u{6587}\u{6cd5}\u{4e0d}\u{662f} "@ + kind
            + "\u{ff0c}\u{68c0}\u{6d4b}\u{5230} "@ + nat_text(cs.len()) + " \u{4e2a}\u{51b2}\u{7a81}</div>\n"@
            + "<ul class=\"conflict-list\">\n"@ + conflict_items(cs) + "</ul>\n"@
    }
}

/// The verdict badge of a check of kind `kind`, and the conflicts listed
/// where it failed.
pub fn html_conflicts(conflicts: &Vec<String>, is_ok: bool, kind: &str) -> (res: String)
    ensures
        res@ == conflicts_html(strs(conflicts@), is_ok, kind@),
{
    let mut h = String::new();
    if is_ok {
        h.append("<div class=\"badge badge-ok\">\u{2714} \u{8be5}\u{6587}\u{6cd5}\u{662f} ");
        h.append(kind);
        h.append("</div>\n");
    } else {
        h.append("<div class=\"badge badge-ng\">\u{2718} \u{8be5}\u{6587}\u{6cd5}\u{4e0d}\u{662f} ");
        h.append(kind);
        h.append("\u{ff0c}\u{68c0}\u{6d4b}\u{5230} ");
        let n = usize_to_string(conflicts.len());
        h.append(n.as_str());
        h.append(" \u{4e2a}\u{51b2}\u{7a81}</div>\n");
        h.append("<ul class=\"conflict-list\">\n");
        let ghost start = h@;
        let mut i: usize = 0;
        proof {
            assert(strs(conflicts@).subrange(0, 0) =~= Seq::<Seq<char>>::empty());
            assert(h@ =~= start + conflict_items(strs(conflicts@).subrange(0, 0)));
        }
        while i < conflicts.len()
            invariant
                i <= conflicts@.len(),
                h@ == start + conflict_items(strs(conflicts@).subrange(0, i as int)),
            decreases conflicts@.len() - i,
        {
            h.append("<li>");
            let e = html_escape(conflicts[i].as_str());
            h.append(e.as_str());
            h.append("</li>\n");
            proof {
                let sub = strs(conflicts@).subrange(0, i + 1);
                assert(sub.drop_last() =~= strs(conflicts@).subrange(0, i as int));
                assert(sub.last() == conflicts@[i as int]@);
                assert(h@ =~= start + conflict_items(sub));
            }
            i = i + 1;
        }
        h.append("</ul>\n");
        proof {
            assert(strs(conflicts@).subrange(0, i as int) =~= strs(conflicts@));
        }
    }
    h
}

/// The rows of the production table.
pub open spec fn production_rows(g: Grammar, k: int) -> Seq<char>
    decreases k,
{
    if k <= 0 {
        Seq::empty()
    } else {
        let p = g.productions@[k - 1];
        production_rows(g, k - 1) + "<tr><td>"@ + nat_text(p.production_id as nat) + "</td><td><code>"@
            + esc(production_text(p.head@, strs(p.body@))) + "</code></td></tr>\n"@
    }
}

/// The grammar panel: the name, and a row per production.
pub open spec fn grammar_html(name: Seq<char>, g: Grammar) -> Seq<char> {
    "<div class=\"panel\"><div class=\"panel-head\"><span class=\"ico\">\u{1f4cb}</span>\u{6587}\u{6cd5} \u{2014} "@ + esc(name)
        + "</div>\n"@
        + "<div class=\"panel-body compact\"><table><thead><tr><th>ID</th><th>\u{4ea7}\u{751f}\u{5f0f}</th></tr></thead><tbody>\n"@
        + production_rows(g, g.productions@.len() as int) + "</tbody></table></div></div>\n"@
}

/// The grammar panel: its name, and a row per production.
pub fn html_grammar_section(name: &str, grammar: &Grammar) -> (res: String)
    ensures
        res@ == grammar_html(name@, *grammar),
{
    let mut h = String::new();
    h.append("<div class=\"panel\"><div class=\"panel-head\"><span class=\"ico\">\u{1f4cb}</span>\u{6587}\u{6cd5} \u{2014} ");
    let en = html_escape(name);
    h.append(en.as_str());
    h.append("</div>\n");
    h.append("<div class=\"panel-body compact\"><table><thead><tr><th>ID</th><th>\u{4ea7}\u{751f}\u{5f0f}</th></tr></thead><tbody>\n");
    let ghost start = h@;
    let mut i: usize = 0;
    while i < grammar.productions.len()
        invariant
            i <= grammar.productions@.len(),
            h@ == start + production_rows(*grammar, i as int),
        decreases grammar.productions@.len() - i,
    {
        let p = &grammar.productions[i];
        h.append("<tr><td>");
        let id = usize_to_string(p.production_id);
        h.append(id.as_str());
        h.append("</td><td><code>");
        let pt = fmt_production(p);
        let e = html_escape(pt.as_str());
        h.append(e.as_str());
        h.append("</code></td></tr>\n");
        proof {
            assert(h@ =~= start + production_rows(*grammar, i + 1));
        }
        i = i + 1;
    }
    h.append("</tbody></table></div></div>\n");
    h
}

/// The FIRST and FOLLOW rows of the non-terminals.
pub open spec fn first_follow_rows(g: Grammar, k: int) -> Seq<char>
    decreases k,
{
    if k <= 0 {
        Seq::empty()
    } else {
        let nt = g.non_terminals@[k - 1]@;
        let s = g.sym(nt);
        first_follow_rows(g, k - 1) + "<tr><td>"@ + esc(nt) + "</td><td><code>{"@ + esc(joined_comma(strs(s.first_set@)))
            + "}</code></td><td><code>{"@ + esc(joined_comma(strs(s.follow_set@))) + "}</code></td></tr>\n"@
    }
}

/// The FIRST and FOLLOW panel.
pub open spec fn first_follow_html(g: Grammar) -> Seq<char> {
    "<div class=\"panel\"><div class=\"panel-head\"><span class=\"ico\">\u{1f524}</span>FIRST / FOLLOW \u{96c6}</div>\n<div class=\"panel-body compact\"><table><thead><tr><th>NT</th><th>FIRST</th><th>FOLLOW</th></tr></thead><tbody>\n"@
        + first_follow_rows(g, g.non_terminals@.len() as int) + "</tbody></table></div></div>\n"@
}

/// The FIRST and FOLLOW panel: a row per non-terminal with its sets.
pub fn html_first_follow(grammar: &Grammar) -> (res: String)
    requires
        grammar.wf(),
        forall|k: int| 0 <= k < grammar.non_terminals@.len() ==> grammar.has_sym(#[trigger] grammar.non_terminals@[k]@),
    ensures
        res@ == first_follow_html(*grammar),
{
    let mut h = String::from_str("<div class=\"panel\"><div class=\"panel-head\"><span class=\"ico\">\u{1f524}</span>FIRST / FOLLOW \u{96c6}</div>\n<div class=\"panel-body compact\"><table><thead><tr><th>NT</th><th>FIRST</th><th>FOLLOW</th></tr></thead><tbody>\n");
    let ghost start = h@;
    let mut i: usize = 0;
    while i < grammar.non_terminals.len()
        invariant
            grammar.wf(),
            forall|k: int| 0 <= k < grammar.non_terminals@.len() ==> grammar.has_sym(#[trigger] grammar.non_terminals@[k]@),
            i <= grammar.non_terminals@.len(),
            h@ == start + first_follow_rows(*grammar, i as int),
        decreases grammar.non_terminals@.len() - i,
    {
        let nt = grammar.non_terminals[i].as_str();
        assert(grammar.has_sym(grammar.non_terminals@[i as int]@));
        let k = match grammar.find_symbol(nt) {
            Some(k) => k,
            None => {
                assert(false);
                0
            },
        };
        let s = &grammar.symbols[k];
        h.append("<tr><td>");
        let en = html_escape(nt);
        h.append(en.as_str());
        h.append("</td><td><code>{");
        let f = join_comma(&s.first_set);
        let ef = html_escape(f.as_str());
        h.append(ef.as_str());
        h.append("}</code></td><td><code>{");
        let fl = join_comma(&s.follow_set);
        let efl = html_escape(fl.as_str());
        h.append(efl.as_str());
        h.append("}</code></td></tr>\n");
        proof {
            assert(h@ =~= start + first_follow_rows(*grammar, i + 1));
        }
        i = i + 1;
    }
    h.append("</tbody></table></div></div>\n");
    h
}


/// The cell at state `s` and symbol `t`, if any.
fn tget<V: Copy>(v: &Vec<((usize, String), V)>, s: usize, t: &str) -> (res: Option<V>)
    requires
        keys_unique(v@),
    ensures
        res == (if tmap(v@).contains_key((s, t@)) { Some(tmap(v@)[(s, t@)]) } else { None::<V> }),
{
    let mut i: usize = 0;
    while i < v.len()
        invariant
            i <= v@.len(),
            keys_unique(v@),
            forall|q: int| 0 <= q < i ==> ekey(#[trigger] v@[q]) != (s, t@),
        decreases v@.len() - i,
    {
        if v[i].0.0 == s && str_eq(v[i].0.1.as_str(), t) {
            proof {
                lemma_tmap_at(v@, i as int);
            }
            return Some(v[i].1);
        }
        i = i + 1;
    }
    proof {
        if tmap(v@).contains_key((s, t@)) {
            let q = choose|q: int| 0 <= q < v@.len() && ekey(#[trigger] v@[q]) == (s, t@);
        }
    }
    None
}

/// The symbols of `v` other than `x`, in order.
pub open spec fn without(v: Seq<Seq<char>>, x: Seq<char>) -> Seq<Seq<char>>
    decreases v.len(),
{
    if v.len() == 0 {
        Seq::empty()
    } else if v.last() != x {
        without(v.drop_last(), x).push(v.last())
    } else {
        without(v.drop_last(), x)
    }
}

/// The copies of `x` in `v`.
pub open spec fn only(v: Seq<Seq<char>>, x: Seq<char>) -> Seq<Seq<char>>
    decreases v.len(),
{
    if v.len() == 0 {
        Seq::empty()
    } else if v.last() == x {
        only(v.drop_last(), x).push(v.last())
    } else {
        only(v.drop_last(), x)
    }
}

/// The strings of `v` other than `x`, in order.
fn without_vec(v: &Vec<String>, x: &str) -> (res: Vec<String>)
    ensures
        strs(res@) == without(strs(v@), x@),
{
    let mut r: Vec<String> = Vec::new();
    let mut i: usize = 0;
    while i < v.len()
        invariant
            i <= v@.len(),
            strs(r@) == without(strs(v@).subrange(0, i as int), x@),
        decreases v@.len() - i,
    {
        let ghost before = strs(r@);
        let ghost sub = strs(v@).subrange(0, i + 1);
        proof {
            assert(sub.drop_last() =~= strs(v@).subrange(0, i as int));
            assert(sub.last() == v@[i as int]@);
        }
        if !str_eq(v[i].as_str(), x) {
            r.push(v[i].clone());
            assert(strs(r@) =~= before.push(v@[i as int]@));
        }
        i = i + 1;
    }
    assert(strs(v@).subrange(0, i as int) =~= strs(v@));
    r
}

/// The copies of `x` in `v`.
fn only_vec(v: &Vec<String>, x: &str) -> (res: Vec<String>)
    ensures
        strs(res@) == only(strs(v@), x@),
{
    let mut r: Vec<String> = Vec::new();
    let mut i: usize = 0;
    while i < v.len()
        invariant
            i <= v@.len(),
            strs(r@) == only(strs(v@).subrange(0, i as int), x@),
        decreases v@.len() - i,
    {
        let ghost before = strs(r@);
        let ghost sub = strs(v@).subrange(0, i + 1);
        proof {
            assert(sub.drop_last() =~= strs(v@).subrange(0, i as int));
            assert(sub.last() == v@[i as int]@);
        }
        if str_eq(v[i].as_str(), x) {
            r.push(v[i].clone());
            assert(strs(r@) =~= before.push(v@[i as int]@));
        }
        i = i + 1;
    }
    assert(strs(v@).subrange(0, i as int) =~= strs(v@));
    r
}

/// The header cells of the columns.
pub open spec fn th_cells(v: Seq<Seq<char>>) -> Seq<char>
    decreases v.len(),
{
    if v.len() == 0 {
        Seq::empty()
    } else {
        th_cells(v.drop_last()) + "<th>"@ + esc(v.last()) + "</th>"@
    }
}

/// Appends a header cell per column.
fn push_th(h: &mut String, cols: &Vec<String>)
    ensures
        final(h)@ == old(h)@ + th_cells(strs(cols@)),
{
    let ghost start = h@;
    let mut i: usize = 0;
    proof {
        assert(h@ =~= start + th_cells(strs(cols@).subrange(0, 0)));
    }
    while i < cols.len()
        invariant
            i <= cols@.len(),
            start == old(h)@,
            h@ == start + th_cells(strs(cols@).subrange(0, i as int)),
        decreases cols@.len() - i,
    {
        h.append("<th>");
        let e = html_escape(cols[i].as_str());
        h.append(e.as_str());
        h.append("</th>");
        proof {
            let sub = strs(cols@).subrange(0, i + 1);
            assert(sub.drop_last() =~= strs(cols@).subrange(0, i as int));
            assert(sub.last() == cols@[i as int]@);
            assert(h@ =~= start + th_cells(sub));
        }
        i = i + 1;
    }
    assert(strs(cols@).subrange(0, i as int) =~= strs(cols@));
}

/// The ACTION cell of state `sid` on terminal `t`: `s` and the target, `r`
/// and the production, `acc`, or `·` where there is none.
pub open spec fn action_td(tb: LRParseTable, sid: usize, t: Seq<char>) -> Seq<char> {
    if tmap(tb.action@).contains_key((sid, t)) {
        let c = tmap(tb.action@)[(sid, t)];
        match c.action_type {
            ActionCategory::Shift => "<td class=\"act-shift\">"@ + "s"@ + nat_text(c.id as nat) + "</td>"@,
            ActionCategory::Reduce => "<td class=\"act-reduce\">"@ + "r"@ + nat_text(c.id as nat) + "</td>"@,
            ActionCategory::Accept => "<td class=\"act-accept\">"@ + "acc"@ + "</td>"@,
        }
    } else {
        "<td class=\"\">"@ + "\u{b7}"@ + "</td>"@
    }
}

/// The GOTO cell of state `sid` on non-terminal `n`.
pub open spec fn goto_td(tb: LRParseTable, sid: usize, n: Seq<char>) -> Seq<char> {
    if tmap(tb.goto@).contains_key((sid, n)) {
        "<td class=\"act-goto\">"@ + nat_text(tmap(tb.goto@)[(sid, n)].next_state as nat) + "</td>"@
    } else {
        "<td class=\"act-goto\">"@ + "\u{b7}"@ + "</td>"@
    }
}

/// The ACTION cells of a row.
pub open spec fn action_tds(tb: LRParseTable, sid: usize, cols: Seq<Seq<char>>) -> Seq<char>
    decreases cols.len(),
{
    if cols.len() == 0 {
        Seq::empty()
    } else {
        action_tds(tb, sid, cols.drop_last()) + action_td(tb, sid, cols.last())
    }
}

/// The GOTO cells of a row.
pub open spec fn goto_tds(tb: LRParseTable, sid: usize, cols: Seq<Seq<char>>) -> Seq<char>
    decreases cols.len(),
{
    if cols.len() == 0 {
        Seq::empty()
    } else {
        goto_tds(tb, sid, cols.drop_last()) + goto_td(tb, sid, cols.last())
    }
}

/// The rows of the LR table, one per state.
pub open spec fn lr_rows(d: LR0DFA, tb: LRParseTable, tc: Seq<Seq<char>>, nc: Seq<Seq<char>>, k: int) -> Seq<char>
    decreases k,
{
    if k <= 0 {
        Seq::empty()
    } else {
        let sid = d.item_sets@[k - 1].state_id;
        lr_rows(d, tb, tc, nc, k - 1) + "<tr><td>"@ + nat_text(sid as nat) + "</td>"@ + action_tds(tb, sid, tc)
            + goto_tds(tb, sid, nc) + "</tr>\n"@
    }
}

/// The terminal columns of the LR table: the terminals other than `ε`, with
/// `$` last.
pub open spec fn lr_term_cols(g: Grammar) -> Seq<Seq<char>> {
    let t = without(strs(g.terminals@), "\u{3b5}"@);
    without(t, "$"@) + only(t, "$"@)
}

/// The LR table panel.
pub open spec fn lr_table_html(d: LR0DFA, g: Grammar, tb: LRParseTable) -> Seq<char> {
    let tc = lr_term_cols(g);
    let nc = without(strs(g.non_terminals@), g.aug_root@);
    "<div class=\"panel\"><div class=\"panel-head\"><span class=\"ico\">\u{1f4ca}</span>LR \u{5206}\u{6790}\u{8868}</div>\n<div class=\"panel-body compact\"><div class=\"tbl-scroll\"><table><thead>\n"@
        + "<tr><th rowspan=\"2\">\u{72b6}\u{6001}</th>"@ + "<th colspan=\""@ + nat_text(tc.len()) + "\">ACTION</th>"@
        + "<th colspan=\""@ + nat_text(nc.len()) + "\">GOTO</th></tr>\n<tr>"@ + th_cells(tc) + th_cells(nc)
        + "</tr></thead><tbody>\n"@ + lr_rows(d, tb, tc, nc, d.item_sets@.len() as int) + "</tbody></table></div></div></div>\n"@
}

/// The LR table panel: a column per terminal (`$` last) and per
/// non-terminal but the augmented start, a row per state.
pub fn html_lr_parse_table(dfa: &LR0DFA, grammar: &Grammar, table: &LRParseTable) -> (res: String)
    requires
        keys_unique(table.action@),
        keys_unique(table.goto@),
    ensures
        res@ == lr_table_html(*dfa, *grammar, *table),
{
    let t0 = without_vec(&grammar.terminals, "\u{3b5}");
    let mut term_cols = without_vec(&t0, "$");
    let ends = only_vec(&t0, "$");
    let mut i: usize = 0;
    let ghost base = strs(term_cols@);
    while i < ends.len()
        invariant
            i <= ends@.len(),
            strs(term_cols@) == base + strs(ends@).subrange(0, i as int),
        decreases ends@.len() - i,
    {
        let ghost before = strs(term_cols@);
        term_cols.push(ends[i].clone());
        proof {
            assert(strs(term_cols@) =~= before.push(ends@[i as int]@));
            assert(strs(ends@).subrange(0, i + 1) =~= strs(ends@).subrange(0, i as int).push(ends@[i as int]@));
        }
        i = i + 1;
    }
    proof {
        reveal_strlit("\u{3b5}");
        assert("\u{3b5}"@ == crate::lab2::types::eps());
        assert(strs(ends@).subrange(0, i as int) =~= strs(ends@));
    }
    let nt_cols = without_vec(&grammar.non_terminals, grammar.aug_root.as_str());
    let ghost tc = strs(term_cols@);
    let ghost nc = strs(nt_cols@);
    let mut h = String::from_str("<div class=\"panel\"><div class=\"panel-head\"><span class=\"ico\">\u{1f4ca}</span>LR \u{5206}\u{6790}\u{8868}</div>\n<div class=\"panel-body compact\"><div class=\"tbl-scroll\"><table><thead>\n");
    h.append("<tr><th rowspan=\"2\">\u{72b6}\u{6001}</th>");
    h.append("<th colspan=\"");
    let a = usize_to_string(term_cols.len());
    h.append(a.as_str());
    h.append("\">ACTION</th>");
    h.append("<th colspan=\"");
    let b = usize_to_string(nt_cols.len());
    h.append(b.as_str());
    h.append("\">GOTO</th></tr>\n<tr>");
    push_th(&mut h, &term_cols);
    push_th(&mut h, &nt_cols);
    h.append("</tr></thead><tbody>\n");
    let ghost start = h@;
    let mut k: usize = 0;
    while k < dfa.item_sets.len()
        invariant
            k <= dfa.item_sets@.len(),
            keys_unique(table.action@),
            keys_unique(table.goto@),
            tc == strs(term_cols@),
            nc == strs(nt_cols@),
            h@ == start + lr_rows(*dfa, *table, tc, nc, k as int),
        decreases dfa.item_sets@.len() - k,
    {
        let sid = dfa.item_sets[k].state_id;
        let ghost row0 = h@;
        h.append("<tr><td>");
        let sn = usize_to_string(sid);
        h.append(sn.as_str());
        h.append("</td>");
        let ghost mid = h@;
        let mut j: usize = 0;
        while j < term_cols.len()
            invariant
                j <= term_cols@.len(),
                keys_unique(table.action@),
                tc == strs(term_cols@),
                h@ == mid + action_tds(*table, sid, tc.subrange(0, j as int)),
            decreases term_cols@.len() - j,
        {
            let ghost before = h@;
            match tget(&table.action, sid, term_cols[j].as_str()) {
                Some(c) => {
                    let num = usize_to_string(c.id);
                    match c.action_type {
                        ActionCategory::Shift => {
                            h.append("<td class=\"act-shift\">");
                            h.append("s");
                            h.append(num.as_str());
                            h.append("</td>");
                        },
                        ActionCategory::Reduce => {
                            h.append("<td class=\"act-reduce\">");
                            h.append("r");
                            h.append(num.as_str());
                            h.append("</td>");
                        },
                        ActionCategory::Accept => {
                            h.append("<td class=\"act-accept\">");
                            h.append("acc");
                            h.append("</td>");
                        },
                    }
                },
                None => {
                    h.append("<td class=\"\">");
                    h.append("\u{b7}");
                    h.append("</td>");
                },
            }
            proof {
                let sub = tc.subrange(0, j + 1);
                assert(sub.drop_last() =~= tc.subrange(0, j as int));
                assert(sub.last() == term_cols@[j as int]@);
                assert(h@ =~= before + action_td(*table, sid, term_cols@[j as int]@));
            }
            j = j + 1;
        }
        assert(tc.subrange(0, j as int) =~= tc);
        let ghost mid2 = h@;
        let mut j: usize = 0;
        while j < nt_cols.len()
            invariant
                j <= nt_cols@.len(),
                keys_unique(table.goto@),
                nc == strs(nt_cols@),
                h@ == mid2 + goto_tds(*table, sid, nc.subrange(0, j as int)),
            decreases nt_cols@.len() - j,
        {
            let ghost before = h@;
            match tget(&table.goto, sid, nt_cols[j].as_str()) {
                Some(g) => {
                    h.append("<td class=\"act-goto\">");
                    let num = usize_to_string(g.next_state);
                    h.append(num.as_str());
                    h.append("</td>");
                },
                None => {
                    h.append("<td class=\"act-goto\">");
                    h.append("\u{b7}");
                    h.append("</td>");
                },
            }
            proof {
                let sub = nc.subrange(0, j + 1);
                assert(sub.drop_last() =~= nc.subrange(0, j as int));
                assert(sub.last() == nt_cols@[j as int]@);
                assert(h@ =~= before + goto_td(*table, sid, nt_cols@[j as int]@));
            }
            j = j + 1;
        }
        assert(nc.subrange(0, j as int) =~= nc);
        h.append("</tr>\n");
        proof {
            assert(h@ =~= start + lr_rows(*dfa, *table, tc, nc, k + 1));
        }
        k = k + 1;
    }
    h.append("</tbody></table></div></div></div>\n");
    h
}
/// The position of the entry for `(n, t)` in a table with ascending keys.
fn cell_find(c: &Vec<((String, String), Vec<usize>)>, n: &str, t: &str) -> (res: Option<usize>)
    requires
        keys_ascending(cell_keys(c@)),
    ensures
        match res {
            Some(i) => i < c@.len() && has_key(c@, (n@, t@)) && key_idx(c@, (n@, t@)) == i,
            None => !has_key(c@, (n@, t@)),
        },
{
    let mut i: usize = 0;
    while i < c.len()
        invariant
            i <= c@.len(),
            keys_ascending(cell_keys(c@)),
            forall|q: int| 0 <= q < i ==> cell_key(#[trigger] c@[q]) != (n@, t@),
        decreases c@.len() - i,
    {
        if str_eq(c[i].0.0.as_str(), n) && str_eq(c[i].0.1.as_str(), t) {
            proof {
                assert(cell_key(c@[i as int]) == (n@, t@));
                lemma_key_at(c@, i as int);
            }
            return Some(i);
        }
        i = i + 1;
    }
    None
}

/// The LL(1) cell of `(n, t)`: `r` and the production where the cell holds
/// one, a warning sign where it holds more, `·` where it has none.
pub open spec fn ll1_td(c: Seq<((String, String), Vec<usize>)>, n: Seq<char>, t: Seq<char>) -> Seq<char> {
    if has_key(c, (n, t)) {
        let ps = list_of(c, (n, t));
        if ps.len() == 1 {
            "<td class=\"act-reduce\">"@ + "r"@ + nat_text(ps[0] as nat) + "</td>"@
        } else {
            "<td class=\"act-conflict\">"@ + "\u{26a0}"@ + "</td>"@
        }
    } else {
        "<td class=\"\">"@ + "\u{b7}"@ + "</td>"@
    }
}

/// The cells of the row of `n`.
pub open spec fn ll1_tds(c: Seq<((String, String), Vec<usize>)>, n: Seq<char>, cols: Seq<Seq<char>>) -> Seq<char>
    decreases cols.len(),
{
    if cols.len() == 0 {
        Seq::empty()
    } else {
        ll1_tds(c, n, cols.drop_last()) + ll1_td(c, n, cols.last())
    }
}

/// The rows of the LL(1) table, one per non-terminal column.
pub open spec fn ll1_rows(c: Seq<((String, String), Vec<usize>)>, tc: Seq<Seq<char>>, nc: Seq<Seq<char>>) -> Seq<char>
    decreases nc.len(),
{
    if nc.len() == 0 {
        Seq::empty()
    } else {
        ll1_rows(c, tc, nc.drop_last()) + "<tr><td>"@ + esc(nc.last()) + "</td>"@ + ll1_tds(c, nc.last(), tc) + "</tr>\n"@
    }
}

/// The LL(1) table panel.
pub open spec fn ll1_table_html(g: Grammar, tb: LL1ParseTable) -> Seq<char> {
    let tc = without(strs(g.terminals@), "\u{3b5}"@);
    let nc = without(strs(g.non_terminals@), g.aug_root@);
    "<div class=\"panel\"><div class=\"panel-head\"><span class=\"ico\">\u{1f4ca}</span>LL(1) \u{5206}\u{6790}\u{8868}</div>\n<div class=\"panel-body compact\"><div class=\"tbl-scroll\"><table><thead><tr><th></th>"@
        + th_cells(tc) + "</tr></thead><tbody>\n"@ + ll1_rows(tb.cells@, tc, nc) + "</tbody></table></div></div></div>\n"@
}

/// The LL(1) table panel: a column per terminal but `ε`, a row per
/// non-terminal but the augmented start.
pub fn html_ll1_parse_table(grammar: &Grammar, table: &LL1ParseTable) -> (res: String)
    requires
        keys_ascending(cell_keys(table.cells@)),
    ensures
        res@ == ll1_table_html(*grammar, *table),
{
    let term_cols = without_vec(&grammar.terminals, "\u{3b5}");
    let nt_cols = without_vec(&grammar.non_terminals, grammar.aug_root.as_str());
    let ghost tc = strs(term_cols@);
    let ghost nc = strs(nt_cols@);
    let ghost c = table.cells@;
    let mut h = String::from_str("<div class=\"panel\"><div class=\"panel-head\"><span class=\"ico\">\u{1f4ca}</span>LL(1) \u{5206}\u{6790}\u{8868}</div>\n<div class=\"panel-body compact\"><div class=\"tbl-scroll\"><table><thead><tr><th></th>");
    push_th(&mut h, &term_cols);
    h.append("</tr></thead><tbody>\n");
    let ghost start = h@;
    let mut k: usize = 0;
    proof {
        assert(nc.subrange(0, 0) =~= Seq::<Seq<char>>::empty());
    }
    while k < nt_cols.len()
        invariant
            k <= nt_cols@.len(),
            keys_ascending(cell_keys(table.cells@)),
            c == table.cells@,
            tc == strs(term_cols@),
            nc == strs(nt_cols@),
            h@ == start + ll1_rows(c, tc, nc.subrange(0, k as int)),
        decreases nt_cols@.len() - k,
    {
        let nt = nt_cols[k].as_str();
        h.append("<tr><td>");
        let en = html_escape(nt);
        h.append(en.as_str());
        h.append("</td>");
        let ghost mid = h@;
        let mut j: usize = 0;
        while j < term_cols.len()
            invariant
                j <= term_cols@.len(),
                keys_ascending(cell_keys(table.cells@)),
                c == table.cells@,
                tc == strs(term_cols@),
                h@ == mid + ll1_tds(c, nt@, tc.subrange(0, j as int)),
            decreases term_cols@.len() - j,
        {
            let ghost before = h@;
            match cell_find(&table.cells, nt, term_cols[j].as_str()) {
                Some(i) => {
                    let ps = &table.cells[i].1;
                    if ps.len() == 1 {
                        h.append("<td class=\"act-reduce\">");
                        h.append("r");
                        let num = usize_to_string(ps[0]);
                        h.append(num.as_str());
                        h.append("</td>");
                    } else {
                        h.append("<td class=\"act-conflict\">");
                        h.append("\u{26a0}");
                        h.append("</td>");
                    }
                },
                None => {
                    h.append("<td class=\"\">");
                    h.append("\u{b7}");
                    h.append("</td>");
                },
            }
            proof {
                let sub = tc.subrange(0, j + 1);
                assert(sub.drop_last() =~= tc.subrange(0, j as int));
                assert(sub.last() == term_cols@[j as int]@);
                assert(h@ =~= before + ll1_td(c, nt@, term_cols@[j as int]@));
            }
            j = j + 1;
        }
        assert(tc.subrange(0, j as int) =~= tc);
        h.append("</tr>\n");
        proof {
            let sub = nc.subrange(0, k + 1);
            assert(sub.drop_last() =~= nc.subrange(0, k as int));
            assert(sub.last() == nt@);
            assert(h@ =~= start + ll1_rows(c, tc, sub));
        }
        k = k + 1;
    }
    assert(nc.subrange(0, k as int) =~= nc);
    h.append("</tbody></table></div></div></div>\n");
    h
}
/// The row of item `it`: tagged `CORE` or `NC`, and its text.
pub open spec fn item_row(g: Grammar, it: LR0Item, core: bool) -> Seq<char> {
    let p = g.productions@[it.production_id as int];
    "<tr><td class=\""@ + (if core { "core-tag"@ } else { "ncore-tag"@ }) + "\">"@ + (if core { "CORE"@ } else { "NC"@ })
        + "</td><td><code>"@ + esc(item_text(p.head@, strs(p.body@), it.dot_position as int)) + "</code></td></tr>\n"@
}

/// The rows of the items of `items` that are core items (`core`) or that
/// are not (`!core`), in the order of `items`.
pub open spec fn item_rows(g: Grammar, cores: Seq<LR0Item>, items: Seq<LR0Item>, core: bool) -> Seq<char>
    decreases items.len(),
{
    if items.len() == 0 {
        Seq::empty()
    } else {
        item_rows(g, cores, items.drop_last(), core) + (if iset(cores).contains(items.last()) == core {
            item_row(g, items.last(), core)
        } else {
            Seq::empty()
        })
    }
}

/// The card of a state: its number, its core items, then the others.
pub open spec fn state_card(g: Grammar, st: ItemSet) -> Seq<char> {
    "<div class=\"state-card\"><div class=\"sid\">I"@ + nat_text(st.state_id as nat) + "</div><table><tbody>\n"@
        + item_rows(g, st.core_items@, st.items@, true) + item_rows(g, st.core_items@, st.items@, false)
        + "</tbody></table></div>\n"@
}

/// The cards of the states.
pub open spec fn state_cards(g: Grammar, s: Seq<ItemSet>) -> Seq<char>
    decreases s.len(),
{
    if s.len() == 0 {
        Seq::empty()
    } else {
        state_cards(g, s.drop_last()) + state_card(g, s.last())
    }
}

/// The chip of an edge.
pub open spec fn edge_chip(e: TransitionEdge) -> Seq<char> {
    "<span class=\"trans-chip\">I"@ + nat_text(e.from_state as nat) + " <span class=\"arr\">\u{2192}</span><span class=\"sym\">"@
        + esc(e.driver_symbol@) + "</span> <span class=\"arr\">\u{2192}</span> I"@ + nat_text(e.to_state as nat) + "</span>\n"@
}

/// The chips of the edges.
pub open spec fn edge_chips(s: Seq<TransitionEdge>) -> Seq<char>
    decreases s.len(),
{
    if s.len() == 0 {
        Seq::empty()
    } else {
        edge_chips(s.drop_last()) + edge_chip(s.last())
    }
}

/// A character of a Mermaid label: `"`, `<` and `>` escaped.
pub open spec fn mermaid_char(c: char) -> Seq<char> {
    if c == '"' {
        "#quot;"@
    } else if c == '<' {
        "#lt;"@
    } else if c == '>' {
        "#gt;"@
    } else {
        seq![c]
    }
}

/// Text as a Mermaid label.
pub open spec fn mermaid_text(s: Seq<char>) -> Seq<char>
    decreases s.len(),
{
    if s.len() == 0 {
        Seq::empty()
    } else {
        mermaid_text(s.drop_last()) + mermaid_char(s.last())
    }
}

/// The Mermaid nodes of the states.
pub open spec fn mermaid_nodes(s: Seq<ItemSet>) -> Seq<char>
    decreases s.len(),
{
    if s.len() == 0 {
        Seq::empty()
    } else {
        let n = nat_text(s.last().state_id as nat);
        mermaid_nodes(s.drop_last()) + "    I"@ + n + "((\"I"@ + n + "\"))\n"@
    }
}

/// The Mermaid arrows of the edges.
pub open spec fn mermaid_edges(s: Seq<TransitionEdge>) -> Seq<char>
    decreases s.len(),
{
    if s.len() == 0 {
        Seq::empty()
    } else {
        let e = s.last();
        mermaid_edges(s.drop_last()) + "    I"@ + nat_text(e.from_state as nat) + " -->|\""@ + mermaid_text(e.driver_symbol@)
            + "\"| I"@ + nat_text(e.to_state as nat) + "\n"@
    }
}

/// The head of the automaton panel: the counts of states and edges.
pub open spec fn dfa_head(d: LR0DFA) -> Seq<char> {
    "<div class=\"panel\"><div class=\"panel-head\"><span class=\"ico\">\u{1f500}</span>LR(0) DFA \u{72b6}\u{6001}"@
        + " &nbsp;<span style=\"font-weight:400;color:var(--c5);font-size:11px\">"@ + nat_text(d.item_sets@.len()) + " \u{72b6}\u{6001} \u{b7} "@
        + nat_text(d.edges@.len()) + " \u{53d8}\u{8fc1}</span></div>\n<div class=\"panel-body\">"@ + "<div class=\"state-grid\">\n"@
}

/// The bar of edge chips, where there are edges.
pub open spec fn dfa_bar(d: LR0DFA) -> Seq<char> {
    if d.edges@.len() > 0 {
        "<div class=\"trans-bar\">"@ + edge_chips(d.edges@) + "</div>\n"@
    } else {
        Seq::empty()
    }
}

/// The Mermaid chart for at most 30 states, else a note that it was left
/// out.
pub open spec fn dfa_chart(d: LR0DFA) -> Seq<char> {
    if d.item_sets@.len() <= 30 {
        "<div class=\"mermaid-wrap\"><pre class=\"mermaid\">\nflowchart LR\n"@ + mermaid_nodes(d.item_sets@) + "    I"@
            + nat_text(d.start_state as nat) + ":::start\n"@ + mermaid_edges(d.edges@)
            + "    classDef start fill:#1f6feb,stroke:#58a6ff,stroke-width:3px,color:#fff\n"@ + "</pre></div>\n"@
    } else {
        "<p style=\"color:var(--c5);font-size:12px;margin-top:6px\">\u{72b6}\u{6001}\u{8f83}\u{591a} ("@ + nat_text(d.item_sets@.len())
            + "), \u{7701}\u{7565} Mermaid \u{56fe}</p>\n"@
    }
}

/// The automaton panel: counts, a card per state, a chip per edge (where
/// there are edges), and a Mermaid chart for at most 30 states or a note
/// that it was left out.
pub open spec fn dfa_html(d: LR0DFA, g: Grammar) -> Seq<char> {
    dfa_head(d) + state_cards(g, d.item_sets@) + "</div>\n"@ + dfa_bar(d) + dfa_chart(d) + "</div></div>\n"@
}

/// Items that name a production of the grammar, with the dot within its
/// body.
pub open spec fn items_valid(g: Grammar, s: Seq<LR0Item>) -> bool {
    forall|k: int| 0 <= k < s.len() ==> {
        &&& (#[trigger] s[k]).production_id < g.productions@.len()
        &&& s[k].dot_position <= g.productions@[s[k].production_id as int].body@.len()
    }
}

/// `s` as a Mermaid label: `"`, `<` and `>` escaped.
fn mermaid_label(s: &str) -> (res: String)
    ensures
        res@ == mermaid_text(s@),
{
    let cs = chars_of(s);
    let mut out = String::new();
    let mut i: usize = 0;
    proof {
        assert(cs@.subrange(0, 0) =~= Seq::<char>::empty());
    }
    while i < cs.len()
        invariant
            i <= cs@.len(),
            cs@ == s@,
            out@ == mermaid_text(cs@.subrange(0, i as int)),
        decreases cs@.len() - i,
    {
        let c = cs[i];
        let ghost before = out@;
        if c == '"' {
            out.append("#quot;");
        } else if c == '<' {
            out.append("#lt;");
        } else if c == '>' {
            out.append("#gt;");
        } else {
            push_char(&mut out, c);
        }
        proof {
            let sub = cs@.subrange(0, i + 1);
            assert(sub.drop_last() =~= cs@.subrange(0, i as int));
            assert(sub.last() == c);
            assert(out@ =~= before + mermaid_char(c));
        }
        i = i + 1;
    }
    assert(cs@.subrange(0, i as int) =~= cs@);
    out
}

/// Appends the rows of the core items (`core`) or of the others.
fn push_item_rows(h: &mut String, grammar: &Grammar, st: &ItemSet, core: bool)
    requires
        items_valid(*grammar, st.items@),
    ensures
        final(h)@ == old(h)@ + item_rows(*grammar, st.core_items@, st.items@, core),
{
    let ghost start = h@;
    let mut i: usize = 0;
    proof {
        assert(st.items@.subrange(0, 0) =~= Seq::<LR0Item>::empty());
    }
    while i < st.items.len()
        invariant
            i <= st.items@.len(),
            items_valid(*grammar, st.items@),
            start == old(h)@,
            h@ == start + item_rows(*grammar, st.core_items@, st.items@.subrange(0, i as int), core),
        decreases st.items@.len() - i,
    {
        let it = st.items[i];
        let ghost before = h@;
        let is_core = item_contains(&st.core_items, it);
        if is_core == core {
            h.append("<tr><td class=\"");
            if core {
                h.append("core-tag");
            } else {
                h.append("ncore-tag");
            }
            h.append("\">");
            if core {
                h.append("CORE");
            } else {
                h.append("NC");
            }
            h.append("</td><td><code>");
            assert(items_valid(*grammar, st.items@) ==> it.production_id < grammar.productions@.len());
            let txt = fmt_item(&it, grammar);
            let e = html_escape(txt.as_str());
            h.append(e.as_str());
            h.append("</code></td></tr>\n");
            assert(h@ =~= before + item_row(*grammar, it, core));
        }
        proof {
            let sub = st.items@.subrange(0, i + 1);
            assert(sub.drop_last() =~= st.items@.subrange(0, i as int));
            assert(sub.last() == it);
        }
        i = i + 1;
    }
    assert(st.items@.subrange(0, i as int) =~= st.items@);
}

/// Appends the card of each state.
fn push_state_cards(h: &mut String, dfa: &LR0DFA, grammar: &Grammar)
    requires
        forall|k: int| 0 <= k < dfa.item_sets@.len() ==> items_valid(*grammar, (#[trigger] dfa.item_sets@[k]).items@),
    ensures
        final(h)@ == old(h)@ + state_cards(*grammar, dfa.item_sets@),
{
    let ghost start = h@;
    let mut k: usize = 0;
    proof {
        assert(dfa.item_sets@.subrange(0, 0) =~= Seq::<ItemSet>::empty());
    }
    while k < dfa.item_sets.len()
        invariant
            k <= dfa.item_sets@.len(),
            start == old(h)@,
            forall|q: int| 0 <= q < dfa.item_sets@.len() ==> items_valid(*grammar, (#[trigger] dfa.item_sets@[q]).items@),
            h@ == start + state_cards(*grammar, dfa.item_sets@.subrange(0, k as int)),
        decreases dfa.item_sets@.len() - k,
    {
        let st = &dfa.item_sets[k];
        let ghost before = h@;
        h.append("<div class=\"state-card\"><div class=\"sid\">I");
        let sid = usize_to_string(st.state_id);
        h.append(sid.as_str());
        h.append("</div><table><tbody>\n");
        assert(items_valid(*grammar, dfa.item_sets@[k as int].items@));
        push_item_rows(h, grammar, st, true);
        push_item_rows(h, grammar, st, false);
        h.append("</tbody></table></div>\n");
        proof {
            assert(h@ =~= before + state_card(*grammar, *st));
            let sub = dfa.item_sets@.subrange(0, k + 1);
            assert(sub.drop_last() =~= dfa.item_sets@.subrange(0, k as int));
            assert(sub.last() == *st);
        }
        k = k + 1;
    }
    assert(dfa.item_sets@.subrange(0, k as int) =~= dfa.item_sets@);
}

/// Appends the chip of each edge.
fn push_edge_chips(h: &mut String, edges: &Vec<TransitionEdge>)
    ensures
        final(h)@ == old(h)@ + edge_chips(edges@),
{
    let ghost s0 = h@;
    let mut j: usize = 0;
    proof {
        assert(edges@.subrange(0, 0) =~= Seq::<TransitionEdge>::empty());
    }
    while j < edges.len()
        invariant
            j <= edges@.len(),
            s0 == old(h)@,
            h@ == s0 + edge_chips(edges@.subrange(0, j as int)),
        decreases edges@.len() - j,
    {
        let e = &edges[j];
        let ghost before = h@;
        h.append("<span class=\"trans-chip\">I");
        let a = usize_to_string(e.from_state);
        h.append(a.as_str());
        h.append(" <span class=\"arr\">\u{2192}</span><span class=\"sym\">");
        let ds = html_escape(e.driver_symbol.as_str());
        h.append(ds.as_str());
        h.append("</span> <span class=\"arr\">\u{2192}</span> I");
        let b = usize_to_string(e.to_state);
        h.append(b.as_str());
        h.append("</span>\n");
        proof {
            assert(h@ =~= before + edge_chip(*e));
            let sub = edges@.subrange(0, j + 1);
            assert(sub.drop_last() =~= edges@.subrange(0, j as int));
            assert(sub.last() == *e);
        }
        j = j + 1;
    }
    assert(edges@.subrange(0, j as int) =~= edges@);
}

/// Appends the Mermaid node of each state.
fn push_mermaid_nodes(h: &mut String, sets: &Vec<ItemSet>)
    ensures
        final(h)@ == old(h)@ + mermaid_nodes(sets@),
{
    let ghost s1 = h@;
    let mut k: usize = 0;
    proof {
        assert(sets@.subrange(0, 0) =~= Seq::<ItemSet>::empty());
    }
    while k < sets.len()
        invariant
            k <= sets@.len(),
            s1 == old(h)@,
            h@ == s1 + mermaid_nodes(sets@.subrange(0, k as int)),
        decreases sets@.len() - k,
    {
        let n = usize_to_string(sets[k].state_id);
        h.append("    I");
        h.append(n.as_str());
        h.append("((\"I");
        h.append(n.as_str());
        h.append("\"))\n");
        proof {
            let sub = sets@.subrange(0, k + 1);
            assert(sub.drop_last() =~= sets@.subrange(0, k as int));
            assert(sub.last() == sets@[k as int]);
            assert(h@ =~= s1 + mermaid_nodes(sub));
        }
        k = k + 1;
    }
    assert(sets@.subrange(0, k as int) =~= sets@);
}

/// Appends the Mermaid arrow of each edge.
fn push_mermaid_edges(h: &mut String, edges: &Vec<TransitionEdge>)
    ensures
        final(h)@ == old(h)@ + mermaid_edges(edges@),
{
    let ghost s2 = h@;
    let mut j: usize = 0;
    proof {
        assert(edges@.subrange(0, 0) =~= Seq::<TransitionEdge>::empty());
    }
    while j < edges.len()
        invariant
            j <= edges@.len(),
            s2 == old(h)@,
            h@ == s2 + mermaid_edges(edges@.subrange(0, j as int)),
        decreases edges@.len() - j,
    {
        let e = &edges[j];
        h.append("    I");
        let a = usize_to_string(e.from_state);
        h.append(a.as_str());
        h.append(" -->|\"");
        let lb = mermaid_label(e.driver_symbol.as_str());
        h.append(lb.as_str());
        h.append("\"| I");
        let b = usize_to_string(e.to_state);
        h.append(b.as_str());
        h.append("\n");
        proof {
            let sub = edges@.subrange(0, j + 1);
            assert(sub.drop_last() =~= edges@.subrange(0, j as int));
            assert(sub.last() == *e);
            assert(h@ =~= s2 + mermaid_edges(sub));
        }
        j = j + 1;
    }
    assert(edges@.subrange(0, j as int) =~= edges@);
}

/// The LR(0) automaton panel: a card per state with its core items first,
/// the edges, and a Mermaid chart where there are at most 30 states.
/// Item sets are kept ascending, so the items of a card come ordered by
/// (core first, production, dot).
#[verifier::spinoff_prover]
pub fn html_dfa(dfa: &LR0DFA, grammar: &Grammar) -> (res: String)
    requires
        forall|k: int| 0 <= k < dfa.item_sets@.len() ==> items_valid(*grammar, (#[trigger] dfa.item_sets@[k]).items@),
        forall|k: int| 0 <= k < dfa.item_sets@.len() ==> items_ascending((#[trigger] dfa.item_sets@[k]).items@)
            && items_ascending(dfa.item_sets@[k].core_items@),
    ensures
        res@ == dfa_html(*dfa, *grammar),
{
    let mut h = String::from_str("<div class=\"panel\"><div class=\"panel-head\"><span class=\"ico\">\u{1f500}</span>LR(0) DFA \u{72b6}\u{6001}");
    h.append(" &nbsp;<span style=\"font-weight:400;color:var(--c5);font-size:11px\">");
    let ns = usize_to_string(dfa.item_sets.len());
    h.append(ns.as_str());
    h.append(" \u{72b6}\u{6001} \u{b7} ");
    let ne = usize_to_string(dfa.edges.len());
    h.append(ne.as_str());
    h.append(" \u{53d8}\u{8fc1}</span></div>\n<div class=\"panel-body\">");
    h.append("<div class=\"state-grid\">\n");
    assert(h@ =~= dfa_head(*dfa));
    let ghost p1 = h@;
    push_state_cards(&mut h, dfa, grammar);
    h.append("</div>\n");
    let ghost p2 = h@;
    assert(p2 =~= p1 + state_cards(*grammar, dfa.item_sets@) + "</div>\n"@);
    if dfa.edges.len() > 0 {
        h.append("<div class=\"trans-bar\">");
        push_edge_chips(&mut h, &dfa.edges);
        h.append("</div>\n");
    }
    let ghost p3 = h@;
    assert(p3 =~= p2 + dfa_bar(*dfa));
    if dfa.item_sets.len() <= 30 {
        h.append("<div class=\"mermaid-wrap\"><pre class=\"mermaid\">\nflowchart LR\n");
        push_mermaid_nodes(&mut h, &dfa.item_sets);
        h.append("    I");
        let st = usize_to_string(dfa.start_state);
        h.append(st.as_str());
        h.append(":::start\n");
        push_mermaid_edges(&mut h, &dfa.edges);
        h.append("    classDef start fill:#1f6feb,stroke:#58a6ff,stroke-width:3px,color:#fff\n");
        h.append("</pre></div>\n");
    } else {
        h.append("<p style=\"color:var(--c5);font-size:12px;margin-top:6px\">\u{72b6}\u{6001}\u{8f83}\u{591a} (");
        h.append(ns.as_str());
        h.append("), \u{7701}\u{7565} Mermaid \u{56fe}</p>\n");
    }
    let ghost p4 = h@;
    assert(p4 =~= p3 + dfa_chart(*dfa));
    h.append("</div></div>\n");
    assert(h@ =~= dfa_html(*dfa, *grammar));
    h
}
} // verus!
