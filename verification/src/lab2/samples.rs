//! Sample grammars: two LL(1) exercises, arithmetic expressions (basic and
//! with `-` and `/`), and the TINY language.
use vstd::prelude::*;
use crate::lab2::grammar::{aug_of, bodies_of, body_from, heads_of, lemma_heads_declared, nt_list_of, strs_of, t_list_of};
use crate::lab2::str_set::strs;
use crate::lab2::types::{body_of, eps, Grammar};

verus! {

/// The productions of `g` are `ps`: each head and body (an ε-production
/// with the empty body), in order.
pub open spec fn prods_are(g: Grammar, ps: Seq<(Seq<char>, Seq<Seq<char>>)>) -> bool {
    &&& g.productions@.len() == ps.len()
    &&& forall|p: int| 0 <= p < ps.len() ==> (#[trigger] g.productions@[p]).head@ == ps[p].0 && body_of(g.productions@[p]) == ps[p].1
}

/// `S → + S S | * S S | a`.
/// The productions of [`make_ll1_test1`], production 0 being the augmented start.
pub open spec fn ll1_test1_productions() -> Seq<(Seq<char>, Seq<Seq<char>>)> {
    seq![
        (aug_of("S"@), seq!["S"@]),
        ("S"@, seq!["+"@, "S"@, "S"@]),
        ("S"@, seq!["*"@, "S"@, "S"@]),
        ("S"@, seq!["a"@])
    ]
}

pub fn make_ll1_test1() -> (res: Grammar)
    ensures
        res.wf(),
        res.productions@.len() == 4,
        res.root_symbol@ == "S"@,
        strs(res.non_terminals@) == nt_list_of(seq!["S"@], "S"@),
        strs(res.terminals@) == t_list_of(seq!["+"@, "*"@, "a"@]),
        prods_are(res, ll1_test1_productions()),
{
    let nts: [&str; 1] = ["S"];
    let ts: [&str; 3] = ["+", "*", "a"];
    let b0: [&str; 3] = ["+", "S", "S"];
    let b1: [&str; 3] = ["*", "S", "S"];
    let b2: [&str; 1] = ["a"];
    let prods: [(&str, &[&str]); 3] = [
        ("S", b0.as_slice()),
        ("S", b1.as_slice()),
        ("S", b2.as_slice()),
    ];
    proof {
        assert(prods@[0].0@ == nts@[0]@);
        assert(prods@[1].0@ == nts@[0]@);
        assert(prods@[2].0@ == nts@[0]@);
        lemma_heads_declared(nts@, ts@, prods@, "S"@);
    }
    let res = Grammar::new(nts.as_slice(), ts.as_slice(), prods.as_slice(), "S");
    proof {
        reveal_strlit("S");
        reveal_strlit("a");
        assert(eps() == seq!['\u{3b5}']);
        assert(strs_of(nts@) =~= nts@.map_values(|x: &str| x@));
        assert(strs_of(ts@) =~= ts@.map_values(|x: &str| x@));
        assert(strs_of(b0@) =~= seq!["+"@, "S"@, "S"@]);
        assert(strs_of(b1@) =~= seq!["*"@, "S"@, "S"@]);
        assert(strs_of(b2@) =~= seq!["a"@]);
        assert(strs_of(ts@) =~= seq!["+"@, "*"@, "a"@]);
        assert(strs_of(nts@) =~= seq!["S"@]);
        assert("a"@ != eps()) by {
            assert("a"@.len() != 1 || "a"@[0] != '\u{3b5}');
        }
        assert(heads_of(prods@, "S"@) =~= ll1_test1_productions().map_values(|e: (Seq<char>, Seq<Seq<char>>)| e.0));
        assert(bodies_of(prods@, "S"@) =~= ll1_test1_productions().map_values(|e: (Seq<char>, Seq<Seq<char>>)| e.1));
    }
    res
}

/// `T → S`, `S → ( T ) T S | ε`.
/// The productions of [`make_ll1_test2`], production 0 being the augmented start.
pub open spec fn ll1_test2_productions() -> Seq<(Seq<char>, Seq<Seq<char>>)> {
    seq![
        (aug_of("T"@), seq!["T"@]),
        ("T"@, seq!["S"@]),
        ("S"@, seq!["("@, "T"@, ")"@, "T"@, "S"@]),
        ("S"@, Seq::<Seq<char>>::empty())
    ]
}

pub fn make_ll1_test2() -> (res: Grammar)
    ensures
        res.wf(),
        res.productions@.len() == 4,
        res.root_symbol@ == "T"@,
        strs(res.non_terminals@) == nt_list_of(seq!["T"@, "S"@], "T"@),
        strs(res.terminals@) == t_list_of(seq!["("@, ")"@]),
        prods_are(res, ll1_test2_productions()),
{
    let nts: [&str; 2] = ["T", "S"];
    let ts: [&str; 2] = ["(", ")"];
    let b0: [&str; 1] = ["S"];
    let b1: [&str; 5] = ["(", "T", ")", "T", "S"];
    let b2: [&str; 1] = ["ε"];
    let prods: [(&str, &[&str]); 3] = [
        ("T", b0.as_slice()),
        ("S", b1.as_slice()),
        ("S", b2.as_slice()),
    ];
    proof {
        assert(prods@[0].0@ == nts@[0]@);
        assert(prods@[1].0@ == nts@[1]@);
        assert(prods@[2].0@ == nts@[1]@);
        lemma_heads_declared(nts@, ts@, prods@, "T"@);
    }
    let res = Grammar::new(nts.as_slice(), ts.as_slice(), prods.as_slice(), "T");
    proof {
        reveal_strlit("S");
        reveal_strlit("T");
        reveal_strlit("ε");
        assert(eps() == seq!['\u{3b5}']);
        assert(strs_of(nts@) =~= nts@.map_values(|x: &str| x@));
        assert(strs_of(ts@) =~= ts@.map_values(|x: &str| x@));
        assert(strs_of(b0@) =~= seq!["S"@]);
        assert(strs_of(b1@) =~= seq!["("@, "T"@, ")"@, "T"@, "S"@]);
        reveal_strlit("ε");
        assert("ε"@ =~= eps());
        assert(strs_of(b2@) =~= seq!["ε"@]);
        assert(strs_of(ts@) =~= seq!["("@, ")"@]);
        assert(strs_of(nts@) =~= seq!["T"@, "S"@]);
        assert("S"@ != eps()) by {
            assert("S"@.len() != 1 || "S"@[0] != '\u{3b5}');
        }
        assert(heads_of(prods@, "T"@) =~= ll1_test2_productions().map_values(|e: (Seq<char>, Seq<Seq<char>>)| e.0));
        assert(bodies_of(prods@, "T"@) =~= ll1_test2_productions().map_values(|e: (Seq<char>, Seq<Seq<char>>)| e.1));
    }
    res
}

/// Arithmetic expressions: `E → E + T | T`, `T → T * F | F`, `F → ( E ) | id`.
/// The productions of [`make_arith_grammar`], production 0 being the augmented start.
pub open spec fn arith_grammar_productions() -> Seq<(Seq<char>, Seq<Seq<char>>)> {
    seq![
        (aug_of("E"@), seq!["E"@]),
        ("E"@, seq!["E"@, "+"@, "T"@]),
        ("E"@, seq!["T"@]),
        ("T"@, seq!["T"@, "*"@, "F"@]),
        ("T"@, seq!["F"@]),
        ("F"@, seq!["("@, "E"@, ")"@]),
        ("F"@, seq!["id"@])
    ]
}

pub fn make_arith_grammar() -> (res: Grammar)
    ensures
        res.wf(),
        res.productions@.len() == 7,
        res.root_symbol@ == "E"@,
        strs(res.non_terminals@) == nt_list_of(seq!["E"@, "T"@, "F"@], "E"@),
        strs(res.terminals@) == t_list_of(seq!["+"@, "*"@, "("@, ")"@, "id"@]),
        prods_are(res, arith_grammar_productions()),
{
    let nts: [&str; 3] = ["E", "T", "F"];
    let ts: [&str; 5] = ["+", "*", "(", ")", "id"];
    let b0: [&str; 3] = ["E", "+", "T"];
    let b1: [&str; 1] = ["T"];
    let b2: [&str; 3] = ["T", "*", "F"];
    let b3: [&str; 1] = ["F"];
    let b4: [&str; 3] = ["(", "E", ")"];
    let b5: [&str; 1] = ["id"];
    let prods: [(&str, &[&str]); 6] = [
        ("E", b0.as_slice()),
        ("E", b1.as_slice()),
        ("T", b2.as_slice()),
        ("T", b3.as_slice()),
        ("F", b4.as_slice()),
        ("F", b5.as_slice()),
    ];
    proof {
        assert(prods@[0].0@ == nts@[0]@);
        assert(prods@[1].0@ == nts@[0]@);
        assert(prods@[2].0@ == nts@[1]@);
        assert(prods@[3].0@ == nts@[1]@);
        assert(prods@[4].0@ == nts@[2]@);
        assert(prods@[5].0@ == nts@[2]@);
        lemma_heads_declared(nts@, ts@, prods@, "E"@);
    }
    let res = Grammar::new(nts.as_slice(), ts.as_slice(), prods.as_slice(), "E");
    proof {
        reveal_strlit("E");
        reveal_strlit("F");
        reveal_strlit("T");
        reveal_strlit("id");
        assert(eps() == seq!['\u{3b5}']);
        assert(strs_of(nts@) =~= nts@.map_values(|x: &str| x@));
        assert(strs_of(ts@) =~= ts@.map_values(|x: &str| x@));
        assert(strs_of(b0@) =~= seq!["E"@, "+"@, "T"@]);
        assert(strs_of(b1@) =~= seq!["T"@]);
        assert(strs_of(b2@) =~= seq!["T"@, "*"@, "F"@]);
        assert(strs_of(b3@) =~= seq!["F"@]);
        assert(strs_of(b4@) =~= seq!["("@, "E"@, ")"@]);
        assert(strs_of(b5@) =~= seq!["id"@]);
        assert(strs_of(ts@) =~= seq!["+"@, "*"@, "("@, ")"@, "id"@]);
        assert(strs_of(nts@) =~= seq!["E"@, "T"@, "F"@]);
        assert("F"@ != eps()) by {
            assert("F"@.len() != 1 || "F"@[0] != '\u{3b5}');
        }
        assert("T"@ != eps()) by {
            assert("T"@.len() != 1 || "T"@[0] != '\u{3b5}');
        }
        assert("id"@ != eps()) by {
            assert("id"@.len() != 1 || "id"@[0] != '\u{3b5}');
        }
        assert(heads_of(prods@, "E"@) =~= arith_grammar_productions().map_values(|e: (Seq<char>, Seq<Seq<char>>)| e.0));
        assert(bodies_of(prods@, "E"@) =~= arith_grammar_productions().map_values(|e: (Seq<char>, Seq<Seq<char>>)| e.1));
    }
    res
}

/// Arithmetic expressions with `-` and `/` as well.
/// The productions of [`make_arith_extended_grammar`], production 0 being the augmented start.
pub open spec fn arith_extended_grammar_productions() -> Seq<(Seq<char>, Seq<Seq<char>>)> {
    seq![
        (aug_of("E"@), seq!["E"@]),
        ("E"@, seq!["E"@, "+"@, "T"@]),
        ("E"@, seq!["E"@, "-"@, "T"@]),
        ("E"@, seq!["T"@]),
        ("T"@, seq!["T"@, "*"@, "F"@]),
        ("T"@, seq!["T"@, "/"@, "F"@]),
        ("T"@, seq!["F"@]),
        ("F"@, seq!["("@, "E"@, ")"@]),
        ("F"@, seq!["id"@])
    ]
}

pub fn make_arith_extended_grammar() -> (res: Grammar)
    ensures
        res.wf(),
        res.productions@.len() == 9,
        res.root_symbol@ == "E"@,
        strs(res.non_terminals@) == nt_list_of(seq!["E"@, "T"@, "F"@], "E"@),
        strs(res.terminals@) == t_list_of(seq!["+"@, "-"@, "*"@, "/"@, "("@, ")"@, "id"@]),
        prods_are(res, arith_extended_grammar_productions()),
{
    let nts: [&str; 3] = ["E", "T", "F"];
    let ts: [&str; 7] = ["+", "-", "*", "/", "(", ")", "id"];
    let b0: [&str; 3] = ["E", "+", "T"];
    let b1: [&str; 3] = ["E", "-", "T"];
    let b2: [&str; 1] = ["T"];
    let b3: [&str; 3] = ["T", "*", "F"];
    let b4: [&str; 3] = ["T", "/", "F"];
    let b5: [&str; 1] = ["F"];
    let b6: [&str; 3] = ["(", "E", ")"];
    let b7: [&str; 1] = ["id"];
    let prods: [(&str, &[&str]); 8] = [
        ("E", b0.as_slice()),
        ("E", b1.as_slice()),
        ("E", b2.as_slice()),
        ("T", b3.as_slice()),
        ("T", b4.as_slice()),
        ("T", b5.as_slice()),
        ("F", b6.as_slice()),
        ("F", b7.as_slice()),
    ];
    proof {
        assert(prods@[0].0@ == nts@[0]@);
        assert(prods@[1].0@ == nts@[0]@);
        assert(prods@[2].0@ == nts@[0]@);
        assert(prods@[3].0@ == nts@[1]@);
        assert(prods@[4].0@ == nts@[1]@);
        assert(prods@[5].0@ == nts@[1]@);
        assert(prods@[6].0@ == nts@[2]@);
        assert(prods@[7].0@ == nts@[2]@);
        lemma_heads_declared(nts@, ts@, prods@, "E"@);
    }
    let res = Grammar::new(nts.as_slice(), ts.as_slice(), prods.as_slice(), "E");
    proof {
        reveal_strlit("E");
        reveal_strlit("F");
        reveal_strlit("T");
        reveal_strlit("id");
        assert(eps() == seq!['\u{3b5}']);
        assert(strs_of(nts@) =~= nts@.map_values(|x: &str| x@));
        assert(strs_of(ts@) =~= ts@.map_values(|x: &str| x@));
        assert(strs_of(b0@) =~= seq!["E"@, "+"@, "T"@]);
        assert(strs_of(b1@) =~= seq!["E"@, "-"@, "T"@]);
        assert(strs_of(b2@) =~= seq!["T"@]);
        assert(strs_of(b3@) =~= seq!["T"@, "*"@, "F"@]);
        assert(strs_of(b4@) =~= seq!["T"@, "/"@, "F"@]);
        assert(strs_of(b5@) =~= seq!["F"@]);
        assert(strs_of(b6@) =~= seq!["("@, "E"@, ")"@]);
        assert(strs_of(b7@) =~= seq!["id"@]);
        assert(strs_of(ts@) =~= seq!["+"@, "-"@, "*"@, "/"@, "("@, ")"@, "id"@]);
        assert(strs_of(nts@) =~= seq!["E"@, "T"@, "F"@]);
        assert("F"@ != eps()) by {
            assert("F"@.len() != 1 || "F"@[0] != '\u{3b5}');
        }
        assert("T"@ != eps()) by {
            assert("T"@.len() != 1 || "T"@[0] != '\u{3b5}');
        }
        assert("id"@ != eps()) by {
            assert("id"@.len() != 1 || "id"@[0] != '\u{3b5}');
        }
        assert(heads_of(prods@, "E"@) =~= arith_extended_grammar_productions().map_values(|e: (Seq<char>, Seq<Seq<char>>)| e.0));
        assert(bodies_of(prods@, "E"@) =~= arith_extended_grammar_productions().map_values(|e: (Seq<char>, Seq<Seq<char>>)| e.1));
    }
    res
}

/// The grammar of the TINY language.
/// The productions of [`make_tiny_grammar`], production 0 being the augmented start.
pub open spec fn tiny_grammar_productions() -> Seq<(Seq<char>, Seq<Seq<char>>)> {
    seq![
        (aug_of("P"@), seq!["P"@]),
        ("P"@, seq!["S"@]),
        ("S"@, seq!["S"@, ";"@, "T"@]),
        ("S"@, seq!["T"@]),
        ("T"@, seq!["if"@, "E"@, "then"@, "S"@, "end"@]),
        ("T"@, seq!["if"@, "E"@, "then"@, "S"@, "else"@, "S"@, "end"@]),
        ("T"@, seq!["repeat"@, "S"@, "until"@, "E"@]),
        ("T"@, seq!["id"@, ":="@, "E"@]),
        ("T"@, seq!["read"@, "id"@]),
        ("T"@, seq!["write"@, "E"@]),
        ("E"@, seq!["A"@, "C"@, "A"@]),
        ("E"@, seq!["A"@]),
        ("C"@, seq!["<"@]),
        ("C"@, seq!["="@]),
        ("A"@, seq!["A"@, "AO"@, "M"@]),
        ("A"@, seq!["M"@]),
        ("AO"@, seq!["+"@]),
        ("AO"@, seq!["-"@]),
        ("M"@, seq!["M"@, "MO"@, "F"@]),
        ("M"@, seq!["F"@]),
        ("MO"@, seq!["*"@]),
        ("MO"@, seq!["/"@]),
        ("F"@, seq!["("@, "E"@, ")"@]),
        ("F"@, seq!["num"@]),
        ("F"@, seq!["id"@])
    ]
}

pub fn make_tiny_grammar() -> (res: Grammar)
    ensures
        res.wf(),
        res.productions@.len() == 25,
        res.root_symbol@ == "P"@,
        strs(res.non_terminals@) == nt_list_of(seq!["P"@, "S"@, "T"@, "E"@, "C"@, "A"@, "AO"@, "M"@, "MO"@, "F"@], "P"@),
        strs(res.terminals@) == t_list_of(seq!["if"@, "then"@, "else"@, "end"@, "repeat"@, "until"@, "read"@, "write"@, ";"@, ":="@, "<"@, "="@, "+"@, "-"@, "*"@, "/"@, "("@, ")"@, "id"@, "num"@]),
        prods_are(res, tiny_grammar_productions()),
{
    let nts: [&str; 10] = ["P", "S", "T", "E", "C", "A", "AO", "M", "MO", "F"];
    let ts: [&str; 20] = ["if", "then", "else", "end", "repeat", "until", "read", "write", ";", ":=", "<", "=", "+", "-", "*", "/", "(", ")", "id", "num"];
    let b0: [&str; 1] = ["S"];
    let b1: [&str; 3] = ["S", ";", "T"];
    let b2: [&str; 1] = ["T"];
    let b3: [&str; 5] = ["if", "E", "then", "S", "end"];
    let b4: [&str; 7] = ["if", "E", "then", "S", "else", "S", "end"];
    let b5: [&str; 4] = ["repeat", "S", "until", "E"];
    let b6: [&str; 3] = ["id", ":=", "E"];
    let b7: [&str; 2] = ["read", "id"];
    let b8: [&str; 2] = ["write", "E"];
    let b9: [&str; 3] = ["A", "C", "A"];
    let b10: [&str; 1] = ["A"];
    let b11: [&str; 1] = ["<"];
    let b12: [&str; 1] = ["="];
    let b13: [&str; 3] = ["A", "AO", "M"];
    let b14: [&str; 1] = ["M"];
    let b15: [&str; 1] = ["+"];
    let b16: [&str; 1] = ["-"];
    let b17: [&str; 3] = ["M", "MO", "F"];
    let b18: [&str; 1] = ["F"];
    let b19: [&str; 1] = ["*"];
    let b20: [&str; 1] = ["/"];
    let b21: [&str; 3] = ["(", "E", ")"];
    let b22: [&str; 1] = ["num"];
    let b23: [&str; 1] = ["id"];
    let prods: [(&str, &[&str]); 24] = [
        ("P", b0.as_slice()),
        ("S", b1.as_slice()),
        ("S", b2.as_slice()),
        ("T", b3.as_slice()),
        ("T", b4.as_slice()),
        ("T", b5.as_slice()),
        ("T", b6.as_slice()),
        ("T", b7.as_slice()),
        ("T", b8.as_slice()),
        ("E", b9.as_slice()),
        ("E", b10.as_slice()),
        ("C", b11.as_slice()),
        ("C", b12.as_slice()),
        ("A", b13.as_slice()),
        ("A", b14.as_slice()),
        ("AO", b15.as_slice()),
        ("AO", b16.as_slice()),
        ("M", b17.as_slice()),
        ("M", b18.as_slice()),
        ("MO", b19.as_slice()),
        ("MO", b20.as_slice()),
        ("F", b21.as_slice()),
        ("F", b22.as_slice()),
        ("F", b23.as_slice()),
    ];
    proof {
        assert(prods@[0].0@ == nts@[0]@);
        assert(prods@[1].0@ == nts@[1]@);
        assert(prods@[2].0@ == nts@[1]@);
        assert(prods@[3].0@ == nts@[2]@);
        assert(prods@[4].0@ == nts@[2]@);
        assert(prods@[5].0@ == nts@[2]@);
        assert(prods@[6].0@ == nts@[2]@);
        assert(prods@[7].0@ == nts@[2]@);
        assert(prods@[8].0@ == nts@[2]@);
        assert(prods@[9].0@ == nts@[3]@);
        assert(prods@[10].0@ == nts@[3]@);
        assert(prods@[11].0@ == nts@[4]@);
        assert(prods@[12].0@ == nts@[4]@);
        assert(prods@[13].0@ == nts@[5]@);
        assert(prods@[14].0@ == nts@[5]@);
        assert(prods@[15].0@ == nts@[6]@);
        assert(prods@[16].0@ == nts@[6]@);
        assert(prods@[17].0@ == nts@[7]@);
        assert(prods@[18].0@ == nts@[7]@);
        assert(prods@[19].0@ == nts@[8]@);
        assert(prods@[20].0@ == nts@[8]@);
        assert(prods@[21].0@ == nts@[9]@);
        assert(prods@[22].0@ == nts@[9]@);
        assert(prods@[23].0@ == nts@[9]@);
        lemma_heads_declared(nts@, ts@, prods@, "P"@);
    }
    let res = Grammar::new(nts.as_slice(), ts.as_slice(), prods.as_slice(), "P");
    proof {
        reveal_strlit("*");
        reveal_strlit("+");
        reveal_strlit("-");
        reveal_strlit("/");
        reveal_strlit("<");
        reveal_strlit("=");
        reveal_strlit("A");
        reveal_strlit("AO");
        reveal_strlit("C");
        reveal_strlit("E");
        reveal_strlit("F");
        reveal_strlit("M");
        reveal_strlit("MO");
        reveal_strlit("P");
        reveal_strlit("S");
        reveal_strlit("T");
        reveal_strlit("id");
        reveal_strlit("num");
        assert(eps() == seq!['\u{3b5}']);
        assert(strs_of(nts@) =~= nts@.map_values(|x: &str| x@));
        assert(strs_of(ts@) =~= ts@.map_values(|x: &str| x@));
        assert(strs_of(b0@) =~= seq!["S"@]);
        assert(strs_of(b1@) =~= seq!["S"@, ";"@, "T"@]);
        assert(strs_of(b2@) =~= seq!["T"@]);
        assert(strs_of(b3@) =~= seq!["if"@, "E"@, "then"@, "S"@, "end"@]);
        assert(strs_of(b4@) =~= seq!["if"@, "E"@, "then"@, "S"@, "else"@, "S"@, "end"@]);
        assert(strs_of(b5@) =~= seq!["repeat"@, "S"@, "until"@, "E"@]);
        assert(strs_of(b6@) =~= seq!["id"@, ":="@, "E"@]);
        assert(strs_of(b7@) =~= seq!["read"@, "id"@]);
        assert(strs_of(b8@) =~= seq!["write"@, "E"@]);
        assert(strs_of(b9@) =~= seq!["A"@, "C"@, "A"@]);
        assert(strs_of(b10@) =~= seq!["A"@]);
        assert(strs_of(b11@) =~= seq!["<"@]);
        assert(strs_of(b12@) =~= seq!["="@]);
        assert(strs_of(b13@) =~= seq!["A"@, "AO"@, "M"@]);
        assert(strs_of(b14@) =~= seq!["M"@]);
        assert(strs_of(b15@) =~= seq!["+"@]);
        assert(strs_of(b16@) =~= seq!["-"@]);
        assert(strs_of(b17@) =~= seq!["M"@, "MO"@, "F"@]);
        assert(strs_of(b18@) =~= seq!["F"@]);
        assert(strs_of(b19@) =~= seq!["*"@]);
        assert(strs_of(b20@) =~= seq!["/"@]);
        assert(strs_of(b21@) =~= seq!["("@, "E"@, ")"@]);
        assert(strs_of(b22@) =~= seq!["num"@]);
        assert(strs_of(b23@) =~= seq!["id"@]);
        assert(strs_of(ts@) =~= seq!["if"@, "then"@, "else"@, "end"@, "repeat"@, "until"@, "read"@, "write"@, ";"@, ":="@, "<"@, "="@, "+"@, "-"@, "*"@, "/"@, "("@, ")"@, "id"@, "num"@]);
        assert(strs_of(nts@) =~= seq!["P"@, "S"@, "T"@, "E"@, "C"@, "A"@, "AO"@, "M"@, "MO"@, "F"@]);
        assert("*"@ != eps()) by {
            assert("*"@.len() != 1 || "*"@[0] != '\u{3b5}');
        }
        assert("+"@ != eps()) by {
            assert("+"@.len() != 1 || "+"@[0] != '\u{3b5}');
        }
        assert("-"@ != eps()) by {
            assert("-"@.len() != 1 || "-"@[0] != '\u{3b5}');
        }
        assert("/"@ != eps()) by {
            assert("/"@.len() != 1 || "/"@[0] != '\u{3b5}');
        }
        assert("<"@ != eps()) by {
            assert("<"@.len() != 1 || "<"@[0] != '\u{3b5}');
        }
        assert("="@ != eps()) by {
            assert("="@.len() != 1 || "="@[0] != '\u{3b5}');
        }
        assert("A"@ != eps()) by {
            assert("A"@.len() != 1 || "A"@[0] != '\u{3b5}');
        }
        assert("F"@ != eps()) by {
            assert("F"@.len() != 1 || "F"@[0] != '\u{3b5}');
        }
        assert("M"@ != eps()) by {
            assert("M"@.len() != 1 || "M"@[0] != '\u{3b5}');
        }
        assert("S"@ != eps()) by {
            assert("S"@.len() != 1 || "S"@[0] != '\u{3b5}');
        }
        assert("T"@ != eps()) by {
            assert("T"@.len() != 1 || "T"@[0] != '\u{3b5}');
        }
        assert("id"@ != eps()) by {
            assert("id"@.len() != 1 || "id"@[0] != '\u{3b5}');
        }
        assert("num"@ != eps()) by {
            assert("num"@.len() != 1 || "num"@[0] != '\u{3b5}');
        }
        assert(heads_of(prods@, "P"@) =~= tiny_grammar_productions().map_values(|e: (Seq<char>, Seq<Seq<char>>)| e.0));
        assert(bodies_of(prods@, "P"@) =~= tiny_grammar_productions().map_values(|e: (Seq<char>, Seq<Seq<char>>)| e.1));
    }
    res
}

} // verus!
