//! The library's error type and its `Result` alias.

use std::io;
use vstd::prelude::*;
use crate::text::{decimal, push_decimal, push_str};

verus! {

#[verifier::external_type_specification]
#[verifier::external_body]
pub struct ExIoError(io::Error);

/// Central error type: I/O, parsing, page range, unsupported-feature,
/// encryption and other errors.
#[derive(Debug)]
pub enum PdfError {
    /// Wraps a standard I/O error.
    Io(io::Error),
    /// A PDF could not be parsed or contains malformed data.
    Parse(String),
    /// A page index is out of bounds.
    InvalidPage(usize),
    /// The requested feature is not implemented or not supported by the engine.
    UnsupportedFeature(String),
    /// The PDF is encrypted and no password, or a wrong one, was supplied.
    Encryption(String),
    /// Catch-all for other errors.
    Other(String),
}

/// Convenience `Result` type that uses [`PdfError`] as the error variant.
pub type Result<T, E = PdfError> = core::result::Result<T, E>;

impl From<io::Error> for PdfError {
    fn from(e: io::Error) -> (r: Self) {
        PdfError::Io(e)
    }
}

impl vstd::std_specs::convert::FromSpecImpl<io::Error> for PdfError {
    open spec fn obeys_from_spec() -> bool {
        true
    }

    open spec fn from_spec(v: io::Error) -> Self {
        PdfError::Io(v)
    }
}

impl PdfError {
    /// The human-readable message of this error: a prefix naming the kind of
    /// error followed by its detail.
    pub fn message(&self) -> (m: String)
        ensures
            self is Io ==> exists|detail: String|
                #[trigger] vstd::string::to_string_from_display_ensures::<io::Error>(
                    &self->Io_0,
                    detail,
                ) && m@ == "I/O error: "@ + detail@,
            self is Parse ==> m@ == "PDF parse error: "@ + self->Parse_0@,
            self is InvalidPage ==> m@ == "Invalid page index: "@ + decimal(
                self->InvalidPage_0 as nat,
            ),
            self is UnsupportedFeature ==> m@ == "Unsupported feature: "@
                + self->UnsupportedFeature_0@,
            self is Encryption ==> m@ == "Encryption error: "@ + self->Encryption_0@,
            self is Other ==> m@ == self->Other_0@,
    {
        let mut m = String::new();
        match self {
            PdfError::Io(e) => {
                push_str(&mut m, "I/O error: ");
                let detail = e.to_string();
                push_str(&mut m, detail.as_str());
            },
            PdfError::Parse(s) => {
                push_str(&mut m, "PDF parse error: ");
                push_str(&mut m, s.as_str());
            },
            PdfError::InvalidPage(n) => {
                push_str(&mut m, "Invalid page index: ");
                push_decimal(&mut m, *n);
            },
            PdfError::UnsupportedFeature(s) => {
                push_str(&mut m, "Unsupported feature: ");
                push_str(&mut m, s.as_str());
            },
            PdfError::Encryption(s) => {
                push_str(&mut m, "Encryption error: ");
                push_str(&mut m, s.as_str());
            },
            PdfError::Other(s) => {
                push_str(&mut m, s.as_str());
            },
        }
        m
    }
}

} // verus!
