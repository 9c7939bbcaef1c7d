//! The whole TINY pipeline: scan, parse, generate.
use vstd::prelude::*;
use crate::lab4::ast::stmts_view;
use crate::lab4::codegen::{generate_tm, program_code, tm_text, CODE_LIMIT};
use crate::lab4::error::CompileError;
use crate::lab4::parser::{parse, parsable, sp_program};
use crate::lab4::scanner::{classified, err_is, normalized, scan, tiny_view};
use crate::lab1::char_set::CharSetTable;
use crate::lab1::graph::Graph;
use crate::lab1::lexer::tiny_lexer;
use crate::lab1::scan::scan_text;
use crate::lab4::token::{TinyToken, TinyTokenKind, TinyTokenKindV};

verus! {

/// What the stages after scanning give, for the scan's outcome `cls`: a
/// lexical or semantic error as it is, message and all; otherwise the
/// tokens (with the end token) parsed, a `Parse` error where they are no program, the `Codegen`
/// error "program too large" where its code is too long, else its TM
/// listing.
pub open spec fn stages(cls: Result<Seq<(TinyTokenKindV, Seq<char>)>, (bool, Seq<char>)>, res: Result<String, CompileError>) -> bool {
    match cls {
        Err(ev) => res is Err && err_is(res->Err_0, ev),
        Ok(ts) => exists|tokens: Seq<TinyToken>| {
            &&& #[trigger] tiny_view(tokens).drop_last() == ts
            &&& tokens.len() > 0
            &&& tokens.last().kind == TinyTokenKind::Eof
            &&& parsable(tokens)
            &&& match sp_program(tokens) {
                None => res is Err && res->Err_0 is Parse,
                Some(prog) => if program_code(prog).len() <= CODE_LIMIT {
                    res is Ok && res->Ok_0@ == tm_text(prog)
                } else {
                    res is Err && res->Err_0 is Codegen && res->Err_0->Codegen_0@ == "program too large"@
                },
            }
        },
    }
}

/// Compiles TINY source to TM assembly: the source scanned by the TINY
/// lexer, then parsed and translated; the first stage that fails gives the
/// error.
pub fn compile_str(source: &str) -> (res: Result<String, CompileError>)
    ensures
        exists|t: CharSetTable, g: Graph|
            #![trigger scan_text(t.segments@, g.edges(), g.states(), normalized(source@))]
            {
                &&& tiny_lexer(t.segments@, g)
                &&& stages(classified(scan_text(t.segments@, g.edges(), g.states(), normalized(source@))), res)
            },
{
    let scanned = scan(source);
    let ghost tg = choose|t: CharSetTable, g: Graph|
        #![trigger scan_text(t.segments@, g.edges(), g.states(), normalized(source@))]
        {
            &&& tiny_lexer(t.segments@, g)
            &&& {
                let raw = scan_text(t.segments@, g.edges(), g.states(), normalized(source@));
                match scanned {
                    Ok(v) => classified(raw) == Ok::<Seq<(TinyTokenKindV, Seq<char>)>, (bool, Seq<char>)>(tiny_view(v@).drop_last()),
                    Err(e) => classified(raw) matches Err(ev) && err_is(e, ev),
                }
            }
        };
    let ghost cls = classified(scan_text(tg.0.segments@, tg.1.edges(), tg.1.states(), normalized(source@)));
    let tokens = match scanned {
        Ok(v) => v,
        Err(e) => {
            let res: Result<String, CompileError> = Err(e);
            assert(stages(cls, res));
            return res;
        },
    };
    let program = match parse(tokens.as_slice()) {
        Ok(p) => p,
        Err(e) => {
            let res: Result<String, CompileError> = Err(e);
            assert(sp_program(tokens@) is None);
            assert(tiny_view(tokens@).drop_last() == cls->Ok_0);
            assert(stages(cls, res));
            return res;
        },
    };
    let r = generate_tm(&program);
    proof {
        assert(sp_program(tokens@) == Some(stmts_view(program.stmts@)));
        assert(parsable(tokens@));
        assert(tiny_view(tokens@).drop_last() == cls->Ok_0);
        assert(stages(cls, r));
    }
    r
}

} // verus!
