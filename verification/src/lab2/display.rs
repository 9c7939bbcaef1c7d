//! Text of productions and items: `head → body` with `ε` for an empty body
//! and `·` marking an item's dot.
use vstd::prelude::*;
use crate::lab2::first::bodies;
use crate::lab2::str_set::strs;
use crate::lab2::types::{dot, eps, Grammar, LR0Item, Production};

verus! {

/// The symbols of `s` separated by single spaces.
pub open spec fn joined(s: Seq<Seq<char>>) -> Seq<char>
    decreases s.len(),
{
    if s.len() == 0 {
        Seq::empty()
    } else if s.len() == 1 {
        s[0]
    } else {
        joined(s.drop_last()) + seq![' '] + s.last()
    }
}

/// The text of a body: `ε` when empty.
pub open spec fn body_text(b: Seq<Seq<char>>) -> Seq<char> {
    if b.len() == 0 {
        eps()
    } else {
        joined(b)
    }
}

/// The text of `head → body`.
pub open spec fn production_text(head: Seq<char>, b: Seq<Seq<char>>) -> Seq<char> {
    head + " → "@ + body_text(b)
}

/// The symbols of `s` joined with spaces.
fn join_spaces(s: &Vec<String>) -> (res: String)
    ensures
        res@ == joined(strs(s@)),
{
    let mut res = String::new();
    let mut i: usize = 0;
    while i < s.len()
        invariant
            i <= s@.len(),
            res@ == joined(strs(s@).subrange(0, i as int)),
        decreases s@.len() - i,
    {
        let ghost sub = strs(s@).subrange(0, i as int);
        proof {
            reveal_strlit(" ");
        }
        if i > 0 {
            res.append(" ");
        }
        res.append(s[i].as_str());
        i = i + 1;
        proof {
            let sub2 = strs(s@).subrange(0, i as int);
            assert(sub2.drop_last() =~= sub);
            assert(sub2.last() == s@[i - 1]@);
            if i == 1 {
                assert(sub =~= Seq::<Seq<char>>::empty());
            }
        }
    }
    assert(strs(s@).subrange(0, i as int) =~= strs(s@));
    res
}

/// The text of a body: its symbols joined with spaces, or `ε` when empty.
pub fn fmt_body(body: &[String]) -> (res: String)
    ensures
        res@ == body_text(strs(body@)),
{
    proof {
        reveal_strlit("ε");
    }
    if body.len() == 0 {
        String::from_str("ε")
    } else {
        let mut v: Vec<String> = Vec::new();
        let mut i: usize = 0;
        while i < body.len()
            invariant
                i <= body@.len(),
                v@.len() == i,
                strs(v@) == strs(body@).subrange(0, i as int),
            decreases body@.len() - i,
        {
            let ghost before = v@;
            v.push(body[i].clone());
            proof {
                assert forall|k: int| 0 <= k < v@.len() implies #[trigger] strs(v@)[k] == strs(body@).subrange(0, i + 1)[k] by {
                    if k < i {
                        assert(strs(before)[k] == strs(body@).subrange(0, i as int)[k]);
                    }
                }
            }
            i = i + 1;
            assert(strs(v@) =~= strs(body@).subrange(0, i as int));
        }
        assert(strs(body@).subrange(0, i as int) =~= strs(body@));
        join_spaces(&v)
    }
}

/// The text `head → body` of a production.
pub fn fmt_production(prod: &Production) -> (res: String)
    ensures
        res@ == production_text(prod.head@, strs(prod.body@)),
{
    let mut s = String::from_str(prod.head.as_str());
    s.append(" → ");
    let b = fmt_body(prod.body.as_slice());
    s.append(b.as_str());
    s
}

/// The text of an item: the production with `·` inserted before the symbol
/// at the dot (at the end when the dot is last), or `head → ·` for an
/// ε-production.
pub open spec fn item_text(head: Seq<char>, b: Seq<Seq<char>>, d: int) -> Seq<char> {
    if b.len() == 0 {
        head + " → "@ + dot()
    } else {
        head + " → "@ + joined(b.insert(d, dot()))
    }
}

/// The text of the item `it` of the grammar.
pub fn fmt_item(item: &LR0Item, grammar: &Grammar) -> (res: String)
    requires
        item.production_id < grammar.productions@.len(),
        item.dot_position <= grammar.productions@[item.production_id as int].body@.len(),
    ensures
        res@ == item_text(grammar.productions@[item.production_id as int].head@,
            strs(grammar.productions@[item.production_id as int].body@), item.dot_position as int),
{
    let prod = &grammar.productions[item.production_id];
    proof {
        reveal_strlit("·");
        assert("·"@ =~= dot());
    }
    if prod.body.len() == 0 {
        let mut s = String::from_str(prod.head.as_str());
        s.append(" → ");
        s.append("·");
        s
    } else {
        let mut parts: Vec<String> = Vec::new();
        let mut i: usize = 0;
        while i < prod.body.len()
            invariant
                i <= prod.body@.len(),
                parts@.len() == i,
                strs(parts@) == strs(prod.body@).subrange(0, i as int),
            decreases prod.body@.len() - i,
        {
            let ghost before = parts@;
            parts.push(prod.body[i].clone());
            proof {
                assert forall|k: int| 0 <= k < parts@.len() implies #[trigger] strs(parts@)[k] == strs(prod.body@).subrange(0, i + 1)[k] by {
                    if k < i {
                        assert(strs(before)[k] == strs(prod.body@).subrange(0, i as int)[k]);
                    }
                }
            }
            i = i + 1;
            assert(strs(parts@) =~= strs(prod.body@).subrange(0, i as int));
        }
        assert(strs(prod.body@).subrange(0, i as int) =~= strs(prod.body@));
        let ghost before = parts@;
        parts.insert(item.dot_position, String::from_str("·"));
        proof {
            assert(parts@ == before.insert(item.dot_position as int, parts@[item.dot_position as int]));
            assert(strs(parts@) =~= strs(prod.body@).insert(item.dot_position as int, dot()));
        }
        let mut s = String::from_str(prod.head.as_str());
        s.append(" → ");
        let j = join_spaces(&parts);
        s.append(j.as_str());
        s
    }
}

} // verus!
