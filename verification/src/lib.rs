//! A PDF toolkit: document model types, text processing (Markdown to HTML,
//! XMP metadata), and verified page, form and text operations on `lopdf`
//! documents.

pub mod enums;
pub mod error;
pub mod font;
pub mod text;
pub mod markdown;
pub mod metadata;
pub mod crypt;
pub mod limits;
pub mod pdf_objects;
pub mod reader;
pub mod manipulate;
pub mod template;
pub mod facade;
pub mod traits;

pub use enums::{Direction, ImageFormat, Orientation, Rotation, TextAlignment, VerticalAlignment};
pub use error::{PdfError, Result};
pub use metadata::{PdfBookmark, PdfMetadata};
pub use font::{builtin_font_for, BuiltInFont, FontFamily, FontStyle};
pub use traits::{EngineCapabilities, PdfConverter, PdfEngine, PdfReadListener, PdfWriteHandler};
pub use reader::{FileContents, PdfReader};
pub use manipulate::PdfManipulator;
pub use template::PdfTemplateFiller;
pub use facade::{
    EasyPdf, HtmlToPdfBuilder, PdfFillBuilder, PdfManipulateBuilder, PdfReadBuilder, PdfSplitBuilder,
};
