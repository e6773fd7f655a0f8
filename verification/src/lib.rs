//! A small JSON tokenizer and parser whose behaviour is stated and proved.
//!
//! `tokenize` splits a text into tokens and `parse` builds the value that the
//! text denotes.  Numbers are kept as the text they were written with; that
//! text always follows the decimal grammar of floating-point literals.
use vstd::prelude::*;
use vstd::string::*;

pub mod equality;
pub mod grammar;
pub mod laws;
pub mod number;
pub mod parse;
pub mod text;
pub mod token_laws;
pub mod tokenize;

pub use parse::{parse, Value, ValueView};
pub use tokenize::{tokenize, Token, TokenView};

verus! {

/// Why a text is not a JSON value.
#[derive(Debug, PartialEq, Clone)]
pub enum Error {
    UnexpectedToken(String),
    UnexpectedEOF,
    InvalidLiteral(String),
    InvalidEscapeSequence(String),
    InvalidCodePoint(String),
}

/// The mathematical model of an `Error`.
pub enum ErrorView {
    UnexpectedToken(Seq<char>),
    UnexpectedEOF,
    InvalidLiteral(Seq<char>),
    InvalidEscapeSequence(Seq<char>),
    InvalidCodePoint(Seq<char>),
}

impl View for Error {
    type V = ErrorView;

    open spec fn view(&self) -> ErrorView {
        match self {
            Error::UnexpectedToken(s) => ErrorView::UnexpectedToken(s@),
            Error::UnexpectedEOF => ErrorView::UnexpectedEOF,
            Error::InvalidLiteral(s) => ErrorView::InvalidLiteral(s@),
            Error::InvalidEscapeSequence(s) => ErrorView::InvalidEscapeSequence(s@),
            Error::InvalidCodePoint(s) => ErrorView::InvalidCodePoint(s@),
        }
    }
}

/// What an error says.
pub open spec fn error_message(e: ErrorView) -> Seq<char> {
    match e {
        ErrorView::UnexpectedToken(s) => "unexpected token: "@ + s,
        ErrorView::UnexpectedEOF => "unexpected EOF"@,
        ErrorView::InvalidLiteral(s) => "invalid literal: "@ + s,
        ErrorView::InvalidEscapeSequence(s) => "invalid escape sequence: \\"@ + s,
        ErrorView::InvalidCodePoint(s) => "invalid code point: "@ + s,
    }
}

impl Error {
    /// What this error says.
    pub fn to_string(&self) -> (m: String)
        ensures
            m@ == error_message(self@),
    {
        match self {
            Error::UnexpectedToken(s) => {
                let mut m = String::from_str("unexpected token: ");
                m.append(s.as_str());
                m
            },
            Error::UnexpectedEOF => String::from_str("unexpected EOF"),
            Error::InvalidLiteral(s) => {
                let mut m = String::from_str("invalid literal: ");
                m.append(s.as_str());
                m
            },
            Error::InvalidEscapeSequence(s) => {
                let mut m = String::from_str("invalid escape sequence: \\");
                m.append(s.as_str());
                m
            },
            Error::InvalidCodePoint(s) => {
                let mut m = String::from_str("invalid code point: ");
                m.append(s.as_str());
                m
            },
        }
    }
}

} // verus!
