//! What parsing and formatting report when the source is malformed.

use vstd::prelude::*;
use vstd::string::StringExecFns;

verus! {

/// The ways in which a line can be malformed.
#[derive(Debug, Clone, Copy, PartialEq, Eq, Structural)]
pub enum SyntaxKind {
    /// A component call whose closing parenthesis is missing.
    UnterminatedCall,
    /// A bracketed element whose `>` is missing.
    MalformedElement,
}

/// Mathematical model of a syntax error: its kind and the text of the offending line.
pub struct Failure {
    pub kind: SyntaxKind,
    pub line: Seq<char>,
}

/// A syntax error: its kind and the text of the offending line, without the
/// white space around it.
#[derive(Debug, PartialEq, Eq)]
pub struct ParseError {
    pub kind: SyntaxKind,
    pub line: String,
}

impl View for ParseError {
    type V = Failure;

    open spec fn view(&self) -> Failure {
        Failure { kind: self.kind, line: self.line@ }
    }
}

/// The sentence that reports `f`.
pub open spec fn failure_text(f: Failure) -> Seq<char> {
    match f.kind {
        SyntaxKind::UnterminatedCall => "Unterminated component call: "@ + f.line,
        SyntaxKind::MalformedElement => "Invalid HTML element syntax: "@ + f.line,
    }
}

impl ParseError {
    /// The sentence that reports this error.
    pub fn message(&self) -> (s: String)
        ensures
            s@ == failure_text(self@),
    {
        let mut s = match self.kind {
            SyntaxKind::UnterminatedCall => String::from_str("Unterminated component call: "),
            SyntaxKind::MalformedElement => String::from_str("Invalid HTML element syntax: "),
        };
        s.append(self.line.as_str());
        s
    }
}

impl Clone for ParseError {
    fn clone(&self) -> (r: Self)
        ensures
            r@ == self@,
    {
        ParseError { kind: self.kind, line: self.line.clone() }
    }
}

/// Why a source could not be formatted.
#[derive(Debug, PartialEq, Eq)]
pub enum FormatError {
    /// The source does not parse.
    Syntax(ParseError),
}

impl View for FormatError {
    type V = Failure;

    open spec fn view(&self) -> Failure {
        match self {
            FormatError::Syntax(e) => e@,
        }
    }
}

impl FormatError {
    /// The sentence that reports this error.
    pub fn message(&self) -> (s: String)
        ensures
            s@ == failure_text(self@),
    {
        match self {
            FormatError::Syntax(e) => e.message(),
        }
    }
}

impl Clone for FormatError {
    fn clone(&self) -> (r: Self)
        ensures
            r@ == self@,
    {
        match self {
            FormatError::Syntax(e) => FormatError::Syntax(e.clone()),
        }
    }
}

} // verus!
