//! What can go wrong during a parse.

use vstd::prelude::*;

verus! {

/// An error that ends a parse.
#[derive(Debug)]
pub enum ParseError {
    /// A token that starts with `-` belongs to no declared option. Holds the token.
    InvalidOption(String),
    /// A token belongs to no declared subcommand. Holds the token.
    InvalidCommand(String),
    /// An argument did not get the number of parameters it asks for.
    /// Holds a description of the argument and of both numbers.
    InvalidNumberOfParameters(String),
    /// There were no command line arguments at all.
    NoProgramName,
}

/// The mathematical content of a [`ParseError`].
pub ghost enum ParseErrorView {
    InvalidOption(Seq<char>),
    InvalidCommand(Seq<char>),
    InvalidNumberOfParameters(Seq<char>),
    NoProgramName,
}

impl View for ParseError {
    type V = ParseErrorView;

    open spec fn view(&self) -> ParseErrorView {
        match self {
            ParseError::InvalidOption(s) => ParseErrorView::InvalidOption(s@),
            ParseError::InvalidCommand(s) => ParseErrorView::InvalidCommand(s@),
            ParseError::InvalidNumberOfParameters(s) => ParseErrorView::InvalidNumberOfParameters(
                s@,
            ),
            ParseError::NoProgramName => ParseErrorView::NoProgramName,
        }
    }
}

impl ParseErrorView {
    /// The sentence that reports the error.
    pub open spec fn message(self) -> Seq<char> {
        match self {
            ParseErrorView::InvalidOption(s) => "Invalid option encountered: "@ + s,
            ParseErrorView::InvalidCommand(s) => "Invalid subcommand encountered: "@ + s,
            ParseErrorView::InvalidNumberOfParameters(s) =>
                "The number of parameters constraint is not satisfied: "@ + s,
            ParseErrorView::NoProgramName => "There were no command line arguments."@,
        }
    }
}

impl ParseError {
    /// The sentence that reports the error.
    pub fn message(&self) -> (r: String)
        ensures
            r@ == self@.message(),
    {
        match self {
            ParseError::InvalidOption(s) => String::from_str("Invalid option encountered: ").concat(
                s.as_str(),
            ),
            ParseError::InvalidCommand(s) => String::from_str(
                "Invalid subcommand encountered: ",
            ).concat(s.as_str()),
            ParseError::InvalidNumberOfParameters(s) => String::from_str(
                "The number of parameters constraint is not satisfied: ",
            ).concat(s.as_str()),
            ParseError::NoProgramName => String::from_str("There were no command line arguments."),
        }
    }
}

} // verus!
