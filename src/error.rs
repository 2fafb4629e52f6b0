//! Errors reported while parsing.
use vstd::prelude::*;

use crate::text::{decimal, push_decimal};

verus! {

/// Represents semantic error in parsing S3WF2.
#[derive(Debug, PartialEq, Eq)]
pub enum SemanticErrorKind {
    /// Undefined character ID appeared.
    UndefinedCharacter(String),
    /// Detected duplicate character ID.
    DuplicateCharacter(String),
    /// Surrounding tag is not supported for the `Element`.
    Nonsurrounding,
    /// Invalid parameter value was specified.
    InvalidParameter(String),
}

/// The mathematical value of a `SemanticErrorKind`.
pub enum SemanticModel {
    UndefinedCharacter(Seq<char>),
    DuplicateCharacter(Seq<char>),
    Nonsurrounding,
    InvalidParameter(Seq<char>),
}

impl View for SemanticErrorKind {
    type V = SemanticModel;

    open spec fn view(&self) -> SemanticModel {
        match self {
            SemanticErrorKind::UndefinedCharacter(s) => SemanticModel::UndefinedCharacter(s@),
            SemanticErrorKind::DuplicateCharacter(s) => SemanticModel::DuplicateCharacter(s@),
            SemanticErrorKind::Nonsurrounding => SemanticModel::Nonsurrounding,
            SemanticErrorKind::InvalidParameter(s) => SemanticModel::InvalidParameter(s@),
        }
    }
}

/// Represents any error in parsing S3WF2.
#[derive(Debug, PartialEq, Eq)]
pub enum ErrorKind {
    /// Tag opening appears too much.
    TooManyTagOpening,
    /// Tag closing appears too much.
    TooManyTagClosing,
    /// Wrong (bracket/brace) pair detected (like `{ ]` and `[ }`).
    InvalidParenPair,
    /// Wrong surrounding block pair detected. Maybe blank line exists in block.
    InvalidBlockPair,
    /// Parameters are insufficient.
    NotEnoughParameters { given: usize, needed: usize },
    /// Unknown command used.
    UnknownCommand(String),
    /// Unknown element (`BlockNode` or `ElementNode`) used.
    UnknownElement(String),
    /// Semantic error.
    Semantic(SemanticErrorKind),
}

/// The mathematical value of an `ErrorKind`.
pub enum ErrorKindModel {
    TooManyTagOpening,
    TooManyTagClosing,
    InvalidParenPair,
    InvalidBlockPair,
    NotEnoughParameters { given: nat, needed: nat },
    UnknownCommand(Seq<char>),
    UnknownElement(Seq<char>),
    Semantic(SemanticModel),
}

impl View for ErrorKind {
    type V = ErrorKindModel;

    open spec fn view(&self) -> ErrorKindModel {
        match self {
            ErrorKind::TooManyTagOpening => ErrorKindModel::TooManyTagOpening,
            ErrorKind::TooManyTagClosing => ErrorKindModel::TooManyTagClosing,
            ErrorKind::InvalidParenPair => ErrorKindModel::InvalidParenPair,
            ErrorKind::InvalidBlockPair => ErrorKindModel::InvalidBlockPair,
            ErrorKind::NotEnoughParameters { given, needed } => ErrorKindModel::NotEnoughParameters {
                given: *given as nat,
                needed: *needed as nat,
            },
            ErrorKind::UnknownCommand(s) => ErrorKindModel::UnknownCommand(s@),
            ErrorKind::UnknownElement(s) => ErrorKindModel::UnknownElement(s@),
            ErrorKind::Semantic(k) => ErrorKindModel::Semantic(k@),
        }
    }
}

/// Represents an error of S3WF2 format parsing.
#[derive(Debug, PartialEq, Eq)]
pub struct Error {
    /// The line number at which this error occurred.
    pub line_number: usize,
    /// Error type.
    pub kind: ErrorKind,
}

/// The mathematical value of an `Error`: a 1-based line number and what went wrong there.
pub struct ErrorModel {
    pub line: nat,
    pub kind: ErrorKindModel,
}

impl View for Error {
    type V = ErrorModel;

    open spec fn view(&self) -> ErrorModel {
        ErrorModel { line: self.line_number as nat, kind: self.kind@ }
    }
}

/// The values of a list of errors.
pub open spec fn errors_view(v: Seq<Error>) -> Seq<ErrorModel> {
    v.map_values(|e: Error| e@)
}

impl Error {
    /// The line number this error occured.
    pub fn line(&self) -> (r: usize)
        ensures
            r == self.line_number,
    {
        self.line_number
    }

    /// The error reason.
    pub fn reason(&self) -> (r: &ErrorKind)
        ensures
            r == &self.kind,
    {
        &self.kind
    }
}

/// The message of a semantic error.
pub open spec fn semantic_message(k: SemanticModel) -> Seq<char> {
    match k {
        SemanticModel::UndefinedCharacter(c) => "Undefined character ID: "@ + c,
        SemanticModel::DuplicateCharacter(c) => "Duplicate character ID: "@ + c,
        SemanticModel::Nonsurrounding => "Non-surrounding block detected"@,
        SemanticModel::InvalidParameter(r) => "Invalid parameter ("@ + r + ")"@,
    }
}

/// The message of an error kind.
pub open spec fn kind_message(k: ErrorKindModel) -> Seq<char> {
    match k {
        ErrorKindModel::TooManyTagOpening => "Too many tag opening '[' appear"@,
        ErrorKindModel::TooManyTagClosing => "Too many tag opening ']' appear"@,
        ErrorKindModel::InvalidParenPair => "Invalid brace/bracket pair detected"@,
        ErrorKindModel::InvalidBlockPair => "Invalid block pair detected"@,
        ErrorKindModel::NotEnoughParameters { given, needed } => "Not enough parameters ("@
            + decimal(given) + " given, "@ + decimal(needed) + " needed)"@,
        ErrorKindModel::UnknownCommand(c) => "Unknown command: "@ + c,
        ErrorKindModel::UnknownElement(e) => "Unknown element: "@ + e,
        ErrorKindModel::Semantic(s) => "Semantic error ("@ + semantic_message(s) + ")"@,
    }
}

/// The message of an error: its line and its kind.
pub open spec fn error_message(e: ErrorModel) -> Seq<char> {
    "Error at line "@ + decimal(e.line) + ": "@ + kind_message(e.kind)
}

fn append(out: &mut String, s: &str)
    ensures
        final(out)@ == old(out)@ + s@,
{
    out.append(s);
}

impl SemanticErrorKind {
    /// Appends the message of this error.
    pub fn write_message(&self, out: &mut String)
        ensures
            final(out)@ == old(out)@ + semantic_message(self@),
    {
        match self {
            SemanticErrorKind::UndefinedCharacter(c) => {
                append(out, "Undefined character ID: ");
                append(out, c.as_str());
            },
            SemanticErrorKind::DuplicateCharacter(c) => {
                append(out, "Duplicate character ID: ");
                append(out, c.as_str());
            },
            SemanticErrorKind::Nonsurrounding => {
                append(out, "Non-surrounding block detected");
            },
            SemanticErrorKind::InvalidParameter(r) => {
                append(out, "Invalid parameter (");
                append(out, r.as_str());
                append(out, ")");
            },
        }
        assert(final(out)@ =~= old(out)@ + semantic_message(self@));
    }

    /// The message of this error.
    pub fn message(&self) -> (r: String)
        ensures
            r@ == semantic_message(self@),
    {
        let mut out = String::new();
        self.write_message(&mut out);
        assert(out@ =~= semantic_message(self@));
        out
    }
}

impl ErrorKind {
    /// Appends the message of this error kind.
    pub fn write_message(&self, out: &mut String)
        ensures
            final(out)@ == old(out)@ + kind_message(self@),
    {
        match self {
            ErrorKind::TooManyTagOpening => append(out, "Too many tag opening '[' appear"),
            ErrorKind::TooManyTagClosing => append(out, "Too many tag opening ']' appear"),
            ErrorKind::InvalidParenPair => append(out, "Invalid brace/bracket pair detected"),
            ErrorKind::InvalidBlockPair => append(out, "Invalid block pair detected"),
            ErrorKind::NotEnoughParameters { given, needed } => {
                append(out, "Not enough parameters (");
                push_decimal(out, *given);
                append(out, " given, ");
                push_decimal(out, *needed);
                append(out, " needed)");
            },
            ErrorKind::UnknownCommand(c) => {
                append(out, "Unknown command: ");
                append(out, c.as_str());
            },
            ErrorKind::UnknownElement(e) => {
                append(out, "Unknown element: ");
                append(out, e.as_str());
            },
            ErrorKind::Semantic(k) => {
                append(out, "Semantic error (");
                k.write_message(out);
                append(out, ")");
            },
        }
        assert(final(out)@ =~= old(out)@ + kind_message(self@));
    }

    /// The message of this error kind.
    pub fn message(&self) -> (r: String)
        ensures
            r@ == kind_message(self@),
    {
        let mut out = String::new();
        self.write_message(&mut out);
        assert(out@ =~= kind_message(self@));
        out
    }
}

impl Error {
    /// The message of this error, with its line number.
    pub fn message(&self) -> (r: String)
        ensures
            r@ == error_message(self@),
    {
        let mut out = String::new();
        append(&mut out, "Error at line ");
        push_decimal(&mut out, self.line_number);
        append(&mut out, ": ");
        self.kind.write_message(&mut out);
        assert(out@ =~= error_message(self@));
        out
    }
}

} // verus!
