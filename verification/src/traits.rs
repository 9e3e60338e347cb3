//! Extension points for users of the library: read listeners, write
//! handlers, value converters and engines, plus engine capabilities.

use vstd::prelude::*;
use crate::error::Result;

verus! {

/// Event callbacks for reading a document page by page:
/// `on_page_start`, `on_text`, `on_page_end` for each page, then
/// `on_document_end`. Only `on_text` has to be implemented.
pub trait PdfReadListener: Send {
    /// Called before the text of page `page_number` (1-based).
    fn on_page_start(&mut self, page_number: usize) -> (r: Result<()>)
        default_ensures
            r is Ok,
    {
        Ok(())
    }

    /// Called with the text of page `page_number` (1-based).
    fn on_text(&mut self, page_number: usize, text: &str) -> Result<()>;

    /// Called after the text of page `page_number` (1-based).
    fn on_page_end(&mut self, page_number: usize) -> (r: Result<()>)
        default_ensures
            r is Ok,
    {
        Ok(())
    }

    /// Called once after the last page.
    fn on_document_end(&mut self) -> (r: Result<()>)
        default_ensures
            r is Ok,
    {
        Ok(())
    }
}

/// Lifecycle hooks for writing a document:
/// `before_document`, then `before_page` and `after_page` for each page,
/// then `after_document`. Every hook does nothing unless implemented.
pub trait PdfWriteHandler: Send {
    /// Called before anything is written.
    fn before_document(&mut self) -> (r: Result<()>)
        default_ensures
            r is Ok,
    {
        Ok(())
    }

    /// Called when page `page_number` (1-based) begins.
    fn before_page(&mut self, page_number: usize) -> (r: Result<()>)
        default_ensures
            r is Ok,
    {
        Ok(())
    }

    /// Called when page `page_number` (1-based) has begun.
    fn after_page(&mut self, page_number: usize) -> (r: Result<()>)
        default_ensures
            r is Ok,
    {
        Ok(())
    }

    /// Called when the document is finished.
    fn after_document(&mut self) -> (r: Result<()>)
        default_ensures
            r is Ok,
    {
        Ok(())
    }
}

/// Conversion of values of type `T` to and from their PDF string form.
pub trait PdfConverter<T>: Send {
    /// The PDF string form of `value`.
    fn to_pdf_string(&self, value: &T) -> Result<String>;

    /// The value whose PDF string form is `s`.
    fn from_pdf_string(&self, s: &str) -> Result<T>;
}

/// What a PDF engine can do.
#[derive(Debug, Clone, Copy, PartialEq, Eq, Structural)]
pub struct EngineCapabilities {
    /// Read and extract text and metadata.
    pub read: bool,
    /// Create new documents.
    pub create: bool,
    /// Merge, split, rotate and reorder pages.
    pub manipulate: bool,
    /// Fill form fields.
    pub fill_forms: bool,
    /// Add encryption dictionaries.
    pub encrypt: bool,
}

impl EngineCapabilities {
    /// The capabilities of the `lopdf` engine: everything but creation.
    pub fn lopdf() -> (c: Self)
        ensures
            c == (EngineCapabilities {
                read: true,
                create: false,
                manipulate: true,
                fill_forms: true,
                encrypt: true,
            }),
    {
        EngineCapabilities {
            read: true,
            create: false,
            manipulate: true,
            fill_forms: true,
            encrypt: true,
        }
    }

    /// The capabilities of the `printpdf` engine: creation only.
    pub fn printpdf() -> (c: Self)
        ensures
            c == (EngineCapabilities {
                read: false,
                create: true,
                manipulate: false,
                fill_forms: false,
                encrypt: false,
            }),
    {
        EngineCapabilities {
            read: false,
            create: true,
            manipulate: false,
            fill_forms: false,
            encrypt: false,
        }
    }
}

/// A PDF engine with a name and a set of capabilities.
pub trait PdfEngine {
    /// The engine's name.
    fn name(&self) -> &str;

    /// What the engine can do.
    fn capabilities(&self) -> EngineCapabilities;
}

} // verus!
