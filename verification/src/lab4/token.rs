//! Tokens of the TINY language.
use vstd::prelude::*;

verus! {

/// The kinds of TINY tokens.
#[derive(Debug, Clone, PartialEq, Eq)]
pub enum TinyTokenKind {
    If,
    Then,
    Else,
    End,
    Repeat,
    Until,
    Read,
    Write,
    Assign,
    Lt,
    Eq,
    Plus,
    Minus,
    Times,
    Over,
    LParen,
    RParen,
    Semi,
    Id(String),
    Num(i64),
    Eof,
}

/// A TINY token: its kind and its text.
#[derive(Debug, Clone, PartialEq, Eq)]
pub struct TinyToken {
    pub kind: TinyTokenKind,
    pub lexeme: String,
}

/// A token kind as plain values.
pub enum TinyTokenKindV {
    If,
    Then,
    Else,
    End,
    Repeat,
    Until,
    Read,
    Write,
    Assign,
    Lt,
    Eq,
    Plus,
    Minus,
    Times,
    Over,
    LParen,
    RParen,
    Semi,
    Id(Seq<char>),
    Num(i64),
    Eof,
}

impl View for TinyTokenKind {
    type V = TinyTokenKindV;

    open spec fn view(&self) -> TinyTokenKindV {
        match self {
            TinyTokenKind::If => TinyTokenKindV::If,
            TinyTokenKind::Then => TinyTokenKindV::Then,
            TinyTokenKind::Else => TinyTokenKindV::Else,
            TinyTokenKind::End => TinyTokenKindV::End,
            TinyTokenKind::Repeat => TinyTokenKindV::Repeat,
            TinyTokenKind::Until => TinyTokenKindV::Until,
            TinyTokenKind::Read => TinyTokenKindV::Read,
            TinyTokenKind::Write => TinyTokenKindV::Write,
            TinyTokenKind::Assign => TinyTokenKindV::Assign,
            TinyTokenKind::Lt => TinyTokenKindV::Lt,
            TinyTokenKind::Eq => TinyTokenKindV::Eq,
            TinyTokenKind::Plus => TinyTokenKindV::Plus,
            TinyTokenKind::Minus => TinyTokenKindV::Minus,
            TinyTokenKind::Times => TinyTokenKindV::Times,
            TinyTokenKind::Over => TinyTokenKindV::Over,
            TinyTokenKind::LParen => TinyTokenKindV::LParen,
            TinyTokenKind::RParen => TinyTokenKindV::RParen,
            TinyTokenKind::Semi => TinyTokenKindV::Semi,
            TinyTokenKind::Id(s) => TinyTokenKindV::Id(s@),
            TinyTokenKind::Num(v) => TinyTokenKindV::Num(*v),
            TinyTokenKind::Eof => TinyTokenKindV::Eof,
        }
    }
}

/// What `{:?}` prints for a token kind.
pub uninterp spec fn kind_debug_text(k: TinyTokenKindV) -> Seq<char>;

/// The `{:?}` text of a token kind (the derived `Debug`).
#[verifier::external_body]
pub fn kind_debug(k: &TinyTokenKind) -> (res: String)
    ensures
        res@ == kind_debug_text(k@),
{
    format!("{:?}", k)
}

} // verus!
