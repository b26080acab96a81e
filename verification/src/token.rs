//! Lexical tokens.

use vstd::prelude::*;

verus! {

/// One lexical unit of the markup language.
///
/// Content-bearing variants own the bytes of their content; the content of a
/// `Key` or a `Var` excludes its two-character prefix, and the content of a
/// `Quote` or a `Comment` excludes its delimiters.
#[derive(Debug, PartialEq, Eq)]
pub enum Token {
    /// `''string''`
    Quote(Vec<u8>),
    /// `// comment`
    Comment(Vec<u8>),
    /// A maximal run of non-structural, non-whitespace bytes.
    Word(Vec<u8>),
    /// `::string`
    Key(Vec<u8>),
    /// `$$string`
    Var(Vec<u8>),
    /// `[{`
    Open,
    /// `}]`
    Close,
    /// `||`
    Divider,
    /// Two or more consecutive line breaks.
    BlankLine,
    /// Insignificant whitespace; never surfaces past the lexer.
    Whitespace,
}

/// The mathematical value of a token: the same variants over byte sequences.
pub enum TokenView {
    Quote(Seq<u8>),
    Comment(Seq<u8>),
    Word(Seq<u8>),
    Key(Seq<u8>),
    Var(Seq<u8>),
    Open,
    Close,
    Divider,
    BlankLine,
    Whitespace,
}

impl View for Token {
    type V = TokenView;

    open spec fn view(&self) -> TokenView {
        match self {
            Token::Quote(s) => TokenView::Quote(s@),
            Token::Comment(s) => TokenView::Comment(s@),
            Token::Word(s) => TokenView::Word(s@),
            Token::Key(s) => TokenView::Key(s@),
            Token::Var(s) => TokenView::Var(s@),
            Token::Open => TokenView::Open,
            Token::Close => TokenView::Close,
            Token::Divider => TokenView::Divider,
            Token::BlankLine => TokenView::BlankLine,
            Token::Whitespace => TokenView::Whitespace,
        }
    }
}

impl Token {
    /// The content bytes of a content-bearing token, if any.
    pub fn contents(&self) -> (r: Option<&Vec<u8>>)
        ensures
            r matches Some(s) ==> self@.contents() == Some(s@),
            r is None <==> self@.contents() is None,
    {
        match self {
            Token::Quote(s) => Some(s),
            Token::Comment(s) => Some(s),
            Token::Word(s) => Some(s),
            Token::Key(s) => Some(s),
            Token::Var(s) => Some(s),
            _ => None,
        }
    }
}

impl TokenView {
    /// The content of a content-bearing token value, if any.
    pub open spec fn contents(self) -> Option<Seq<u8>> {
        match self {
            TokenView::Quote(s) => Some(s),
            TokenView::Comment(s) => Some(s),
            TokenView::Word(s) => Some(s),
            TokenView::Key(s) => Some(s),
            TokenView::Var(s) => Some(s),
            _ => None,
        }
    }
}

/// The view of a token stream: each token's value with its span.
pub open spec fn tokens_view(ts: Seq<(Token, crate::span::TextSpan)>) -> Seq<
    (TokenView, crate::span::TextSpan),
> {
    Seq::new(ts.len(), |k: int| (ts[k].0@, ts[k].1))
}

} // verus!
