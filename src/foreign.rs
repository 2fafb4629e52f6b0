//! The state behind the C-linkage interface: one parse result, rendered on demand, and a cursor
//! over its errors.
use vstd::prelude::*;

use crate::document::{Document, DocumentModel};
use crate::error::{error_message, errors_view, Error, ErrorModel};
use crate::html::{html_document, HtmlEmitter};
use crate::parser::{parse_document, Parser};

verus! {

/// Represents the status of foreign APIs.
#[derive(PartialEq, Eq, Structural, Clone, Copy, Debug)]
pub enum Status {
    /// Operation was done successfully.
    Success,
    /// In `next_error`, no more error was found.
    NoMoreError,
    /// Some error occurred.
    Error,
    /// The `Environment` is invalid.
    InvalidEnvironment,
    /// The source text is invalid.
    /// It may be null or has invalid UTF-8 sequences.
    InvalidSource,
    /// An error occurred in parsing.
    ParseError,
}

/// The wrapper of Parser and Document.
pub struct Environment {
    parser: Parser,
    document: Option<Document>,
    errors: Option<Vec<Error>>,
    error_position: Option<usize>,
}

/// The number of classes that preset characters cycle through in rendered HTML.
pub const PALETTE_SIZE: usize = 4;

impl Environment {
    /// The document of the last successful parse.
    pub closed spec fn document(&self) -> Option<DocumentModel> {
        match self.document {
            Some(d) => Some(d@),
            None => None,
        }
    }

    /// The errors of the last failed parse.
    pub closed spec fn errors(&self) -> Option<Seq<ErrorModel>> {
        match self.errors {
            Some(v) => Some(errors_view(v@)),
            None => None,
        }
    }

    /// The index of the next error to hand out.
    pub closed spec fn position(&self) -> Option<nat> {
        match self.error_position {
            Some(p) => Some(p as nat),
            None => None,
        }
    }

    /// Errors and cursor come together, and the cursor stays within the errors.
    pub closed spec fn wf(&self) -> bool {
        &&& (self.errors is Some <==> self.error_position is Some)
        &&& (self.errors matches Some(v) ==> self.error_position->0 <= v@.len())
        &&& (self.document matches Some(d) ==> d.characters.wf())
    }

    /// Creates an empty environment.
    pub fn new() -> (r: Environment)
        ensures
            r.wf(),
            r.document() is None,
            r.errors() is None,
            r.position() is None,
    {
        Environment { parser: Parser::new(), document: None, errors: None, error_position: None }
    }

    /// Parses `source`, keeping either its document or its errors.
    pub fn parse(&mut self, source: &str) -> (r: Status)
        ensures
            final(self).wf(),
            match parse_document(source@) {
                Ok(d) => r == Status::Success && final(self).document() == Some(d)
                    && final(self).errors() is None && final(self).position() is None,
                Err(es) => r == Status::ParseError && final(self).document() is None
                    && final(self).errors() == Some(es) && final(self).position() == Some(0nat),
            },
    {
        match self.parser.parse(source) {
            Ok(document) => {
                self.document = Some(document);
                self.errors = None;
                self.error_position = None;
                Status::Success
            },
            Err(errors) => {
                self.document = None;
                self.errors = Some(errors);
                self.error_position = Some(0);
                Status::ParseError
            },
        }
    }

    /// The held document in HTML.
    pub fn document_string(&self) -> (r: Result<String, Status>)
        requires
            self.wf(),
        ensures
            match self.document() {
                None => r == Err::<String, Status>(Status::Error),
                Some(d) => match html_document(d, PALETTE_SIZE as nat) {
                    Ok(s) => r matches Ok(h) && h@ == s,
                    Err(_) => r == Err::<String, Status>(Status::Error),
                },
            },
    {
        match &self.document {
            None => Err(Status::Error),
            Some(document) => {
                let emitter = HtmlEmitter::new(PALETTE_SIZE);
                match emitter.emit(document) {
                    Ok(html) => Ok(html),
                    Err(_) => Err(Status::Error),
                }
            },
        }
    }

    /// The message of the next error, moving the cursor past it.
    pub fn next_error(&mut self) -> (r: Result<String, Status>)
        requires
            old(self).wf(),
        ensures
            final(self).wf(),
            final(self).document() == old(self).document(),
            final(self).errors() == old(self).errors(),
            match (old(self).errors(), old(self).position()) {
                (Some(es), Some(p)) => if p < es.len() {
                    r matches Ok(m) && m@ == error_message(es[p as int]) && final(self).position()
                        == Some(p + 1)
                } else {
                    r == Err::<String, Status>(Status::NoMoreError) && final(self).position()
                        == old(self).position()
                },
                _ => r == Err::<String, Status>(Status::NoMoreError) && final(self).position()
                    == old(self).position(),
            },
    {
        let p = match self.error_position {
            Some(p) => p,
            None => {
                return Err(Status::NoMoreError);
            },
        };
        match &self.errors {
            None => Err(Status::NoMoreError),
            Some(errors) => {
                if p < errors.len() {
                    let m = errors[p].message();
                    self.error_position = Some(p + 1);
                    Ok(m)
                } else {
                    Err(Status::NoMoreError)
                }
            },
        }
    }

    /// Moves the error cursor back to the first error.
    pub fn reset_error(&mut self) -> (r: Status)
        requires
            old(self).wf(),
        ensures
            final(self).wf(),
            r == Status::Success,
            final(self).document() == old(self).document(),
            final(self).errors() == old(self).errors(),
            final(self).position() == if old(self).position() is Some {
                Some(0nat)
            } else {
                None
            },
    {
        if self.error_position.is_some() {
            self.error_position = Some(0);
        }
        Status::Success
    }
}

} // verus!
