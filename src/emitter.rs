//! What the renderers have in common.
use vstd::prelude::*;

use crate::console::ConsoleEmitter;
use crate::document::Document;
use crate::html::{HtmlAnchorIter, HtmlEmitter, HtmlEmitterError};

verus! {

/// The trait which converts `Document` into other formats.
pub trait Emit {
    /// What a rendering produces.
    type Output;

    /// Emits formatted document.
    fn emit(&mut self, document: &Document) -> Self::Output;
}

/// The trait which extracts indices in document.
pub trait ExtractIndices {
    /// The listing of index items.
    type IndexItemIter;

    /// Returns a listing of the index items.
    fn indices(&self, document: &Document) -> Self::IndexItemIter;
}

impl Emit for HtmlEmitter {
    type Output = Result<String, HtmlEmitterError>;

    fn emit(&mut self, document: &Document) -> Self::Output {
        HtmlEmitter::emit(self, document)
    }
}

impl Emit for ConsoleEmitter {
    type Output = String;

    fn emit(&mut self, document: &Document) -> Self::Output {
        ConsoleEmitter::emit(self, document)
    }
}

impl ExtractIndices for HtmlEmitter {
    type IndexItemIter = HtmlAnchorIter;

    fn indices(&self, document: &Document) -> Self::IndexItemIter {
        HtmlEmitter::indices(self, document)
    }
}

} // verus!
