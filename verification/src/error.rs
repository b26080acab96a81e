//! The typed failures the pipeline can surface.

use vstd::prelude::*;

use crate::span::TextSpan;
use crate::token::{Token, TokenView};

verus! {

/// A failure of one stage of the pipeline.
#[derive(Debug, PartialEq, Eq)]
pub enum Error {
    /// Malformed or truncated lexical input: an unterminated quote, or a
    /// prefix with nothing attached to it.
    LexFailure,
    /// A grammar violation, carrying the offending token where one exists:
    /// an unmatched opening bracket, a dangling key, or a token where no
    /// node may start.
    ParseFailure(Option<(Token, TextSpan)>),
    /// A directive with the wrong shape, an unsupported command name, or a
    /// missing working directory.
    EvaluationFailure,
    /// An underlying file-system failure: the file a directive asked for is
    /// not available.
    Io,
    /// Functionality that downstream collaborators have not built yet; not
    /// part of the pipeline's steady-state behavior.
    Unimplemented,
}

/// The mathematical value of an error.
pub enum ErrorView {
    LexFailure,
    ParseFailure(Option<(TokenView, TextSpan)>),
    EvaluationFailure,
    Io,
    Unimplemented,
}

impl View for Error {
    type V = ErrorView;

    open spec fn view(&self) -> ErrorView {
        match self {
            Error::LexFailure => ErrorView::LexFailure,
            Error::ParseFailure(None) => ErrorView::ParseFailure(None),
            Error::ParseFailure(Some((t, sp))) => ErrorView::ParseFailure(Some((t@, *sp))),
            Error::EvaluationFailure => ErrorView::EvaluationFailure,
            Error::Io => ErrorView::Io,
            Error::Unimplemented => ErrorView::Unimplemented,
        }
    }
}

} // verus!
