//! Tokens produced by scanning text with a DFA.
use vstd::prelude::*;
use crate::lab1::category::LexemeCategory;

verus! {

/// A token: its category, its symbol type, and its text or value.
#[derive(Clone, Debug)]
pub struct Token {
    pub lexeme_category: LexemeCategory,
    pub symbol_type: String,
    pub identify: Option<String>,
    pub value: Option<i64>,
}

/// A token as plain values.
pub type TokenV = (LexemeCategory, Seq<char>, Option<Seq<char>>, Option<i64>);

/// An optional string as an optional sequence of characters.
pub open spec fn opt_view(o: Option<String>) -> Option<Seq<char>> {
    match o {
        Some(s) => Some(s@),
        None => None,
    }
}

impl View for Token {
    type V = TokenV;

    open spec fn view(&self) -> TokenV {
        (self.lexeme_category, self.symbol_type@, opt_view(self.identify), self.value)
    }
}

/// Tokens as plain values.
pub open spec fn view_tokens(v: Seq<Token>) -> Seq<TokenV> {
    Seq::new(v.len(), |i: int| v[i]@)
}

/// Viewing commutes with `push`.
pub proof fn lemma_view_tokens_push(v: Seq<Token>, x: Token)
    ensures
        view_tokens(v.push(x)) == view_tokens(v).push(x@),
{
    assert(view_tokens(v.push(x)) =~= view_tokens(v).push(x@));
}

} // verus!
