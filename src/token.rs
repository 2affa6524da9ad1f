use vstd::prelude::*;

verus! {

/// A classified unit of source text.
#[derive(Clone, Debug, PartialEq)]
pub enum Token {
    KwInt,
    KwVoid,
    KwReturn,
    Identifier(String),
    Constant(i32),
    OpenParen,
    CloseParen,
    OpenBrace,
    CloseBrace,
    Semicolon,
}

/// The mathematical value of a [`Token`]: an identifier's text as characters.
pub enum TokenView {
    KwInt,
    KwVoid,
    KwReturn,
    Identifier(Seq<char>),
    Constant(i32),
    OpenParen,
    CloseParen,
    OpenBrace,
    CloseBrace,
    Semicolon,
}

impl View for Token {
    type V = TokenView;

    open spec fn view(&self) -> TokenView {
        match self {
            Token::KwInt => TokenView::KwInt,
            Token::KwVoid => TokenView::KwVoid,
            Token::KwReturn => TokenView::KwReturn,
            Token::Identifier(s) => TokenView::Identifier(s@),
            Token::Constant(v) => TokenView::Constant(*v),
            Token::OpenParen => TokenView::OpenParen,
            Token::CloseParen => TokenView::CloseParen,
            Token::OpenBrace => TokenView::OpenBrace,
            Token::CloseBrace => TokenView::CloseBrace,
            Token::Semicolon => TokenView::Semicolon,
        }
    }
}

/// The views of a sequence of tokens, in order.
pub open spec fn views_of(ts: Seq<Token>) -> Seq<TokenView> {
    ts.map_values(|t: Token| t@)
}

} // verus!
