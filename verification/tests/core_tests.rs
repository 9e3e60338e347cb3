use easypdf::{
    builtin_font_for, BuiltInFont, EngineCapabilities, FontFamily, FontStyle, Orientation,
    PdfBookmark, PdfConverter, PdfError, PdfMetadata, PdfReadListener, PdfWriteHandler, Result,
    TextAlignment, VerticalAlignment,
};

#[test]
fn test_orientation_default() {
    assert_eq!(Orientation::default(), Orientation::Portrait);
}

#[test]
fn test_text_alignment_default() {
    assert_eq!(TextAlignment::default(), TextAlignment::Left);
}

#[test]
fn test_vertical_alignment_default() {
    assert_eq!(VerticalAlignment::default(), VerticalAlignment::Top);
}

#[test]
fn test_pdf_error_display() {
    let err = PdfError::InvalidPage(5);
    assert!(err.message().contains("5"));
    let err = PdfError::Parse("bad data".into());
    assert!(err.message().contains("bad data"));
    let err = PdfError::UnsupportedFeature("tables".into());
    assert!(err.message().contains("tables"));
}

#[test]
fn test_pdf_error_from_io() {
    let io_err = std::io::Error::new(std::io::ErrorKind::NotFound, "file not found");
    let pdf_err: PdfError = io_err.into();
    assert!(matches!(pdf_err, PdfError::Io(_)));
}

#[test]
fn error_messages_are_exact() {
    assert_eq!(PdfError::InvalidPage(42).message(), "Invalid page index: 42");
    assert_eq!(PdfError::InvalidPage(0).message(), "Invalid page index: 0");
    assert_eq!(PdfError::Parse("bad".into()).message(), "PDF parse error: bad");
    assert_eq!(
        PdfError::UnsupportedFeature("x".into()).message(),
        "Unsupported feature: x"
    );
    assert_eq!(PdfError::Encryption("pw".into()).message(), "Encryption error: pw");
    assert_eq!(PdfError::Other("plain".into()).message(), "plain");
    let io = PdfError::Io(std::io::Error::new(std::io::ErrorKind::Other, "disk"));
    assert_eq!(io.message(), "I/O error: disk");
}

#[test]
fn test_pdf_metadata_builder() {
    let m = PdfMetadata::new()
        .title("T")
        .author("A")
        .subject("S")
        .keywords("K");
    assert_eq!(m.title.as_deref(), Some("T"));
    assert_eq!(m.author.as_deref(), Some("A"));
    assert_eq!(m.subject.as_deref(), Some("S"));
    assert_eq!(m.keywords.as_deref(), Some("K"));
}

#[test]
fn metadata_setters_keep_other_fields() {
    let m = PdfMetadata::new().title("T");
    assert_eq!(m.author, None);
    assert_eq!(m.subject, None);
    let m = m.author("A").title("T2");
    assert_eq!(m.title.as_deref(), Some("T2"));
    assert_eq!(m.author.as_deref(), Some("A"));
    assert_eq!(m.creator, None);
    assert_eq!(m.producer, None);
    let d = PdfMetadata::default();
    assert!(d.title.is_none() && d.keywords.is_none());
}

#[test]
fn test_pdf_bookmark_new() {
    let b = PdfBookmark::new("Chapter 1", 1);
    assert_eq!(b.title, "Chapter 1");
    assert_eq!(b.page, 1);
    assert!(b.children.is_empty());
}

#[test]
fn test_pdf_bookmark_child() {
    let b = PdfBookmark::new("Ch1", 1).child(PdfBookmark::new("1.1", 2));
    assert_eq!(b.children.len(), 1);
    assert_eq!(b.children[0].title, "1.1");
}

#[test]
fn bookmark_children_keep_order_and_clone_copies() {
    let b = PdfBookmark::new("Root", 1)
        .child(PdfBookmark::new("a", 2))
        .child(PdfBookmark::new("b", 3).child(PdfBookmark::new("b.1", 4)));
    assert_eq!(b.children[0].title, "a");
    assert_eq!(b.children[1].title, "b");
    let c = b.clone();
    assert_eq!(c.title, "Root");
    assert_eq!(c.children.len(), 2);
    assert_eq!(c.children[1].children[0].title, "b.1");
    assert_eq!(c.children[1].children[0].page, 4);
}

struct TestListener {
    pages: Vec<String>,
}

impl PdfReadListener for TestListener {
    fn on_text(&mut self, _page: usize, text: &str) -> Result<()> {
        self.pages.push(text.to_string());
        Ok(())
    }
}

#[test]
fn test_pdf_read_listener_defaults() {
    let mut listener = TestListener { pages: vec![] };
    assert!(listener.on_page_start(1).is_ok());
    assert!(listener.on_page_end(1).is_ok());
    assert!(listener.on_document_end().is_ok());
    assert!(listener.on_text(1, "x").is_ok());
    assert_eq!(listener.pages, vec!["x".to_string()]);
}

struct TestHandler;

impl PdfWriteHandler for TestHandler {}

#[test]
fn test_pdf_write_handler_defaults() {
    let mut handler = TestHandler;
    assert!(handler.before_document().is_ok());
    assert!(handler.before_page(1).is_ok());
    assert!(handler.after_page(1).is_ok());
    assert!(handler.after_document().is_ok());
}

struct TestConverter;

impl PdfConverter<i32> for TestConverter {
    fn to_pdf_string(&self, value: &i32) -> Result<String> {
        Ok(value.to_string())
    }
    fn from_pdf_string(&self, s: &str) -> Result<i32> {
        s.parse::<i32>().map_err(|e| PdfError::Other(e.to_string()))
    }
}

#[test]
fn test_pdf_converter_roundtrip() {
    let c = TestConverter;
    assert_eq!(c.to_pdf_string(&42).unwrap(), "42");
    assert_eq!(c.from_pdf_string("99").unwrap(), 99);
    assert!(c.from_pdf_string("abc").is_err());
}

#[test]
fn test_xmp_metadata() {
    let xmp = PdfMetadata::new()
        .title("Test Title")
        .author("Author Name")
        .to_xmp();
    assert!(xmp.contains("Test Title"));
    assert!(xmp.contains("Author Name"));
    assert!(xmp.contains("xmpmeta"));
}

#[test]
fn xmp_places_each_field() {
    let xmp = PdfMetadata::new().subject("Sub").keywords("k1").to_xmp();
    assert!(xmp.starts_with("<?xpacket begin="));
    assert!(xmp.ends_with("<?xpacket end=\"w\"?>"));
    assert!(xmp.contains("<dc:description><rdf:Alt><rdf:li xml:lang=\"x-default\">Sub</rdf:li>"));
    assert!(xmp.contains("<dc:subject><rdf:Bag><rdf:li>k1</rdf:li>"));
    assert!(xmp.contains("<dc:title><rdf:Alt><rdf:li xml:lang=\"x-default\"></rdf:li>"));
}

#[test]
fn test_engine_capabilities_lopdf() {
    let c = EngineCapabilities::lopdf();
    assert!(c.read);
    assert!(c.manipulate);
    assert!(c.fill_forms);
    assert!(!c.create);
}

#[test]
fn test_engine_capabilities_printpdf() {
    let c = EngineCapabilities::printpdf();
    assert!(c.create);
    assert!(!c.read);
}

#[test]
fn builtin_font_follows_style() {
    let bold_italic = FontStyle { bold: true, italic: true };
    let plain = FontStyle::default();
    let fam = FontFamily::BuiltIn(BuiltInFont::TimesRoman);
    assert_eq!(builtin_font_for(&fam, bold_italic), BuiltInFont::TimesBoldItalic);
    assert_eq!(builtin_font_for(&fam, plain), BuiltInFont::TimesRoman);
    let fam = FontFamily::BuiltIn(BuiltInFont::HelveticaBold);
    assert_eq!(builtin_font_for(&fam, plain), BuiltInFont::Helvetica);
    assert_eq!(
        builtin_font_for(&fam, FontStyle { bold: false, italic: true }),
        BuiltInFont::HelveticaOblique
    );
    let fam = FontFamily::BuiltIn(BuiltInFont::Courier);
    assert_eq!(
        builtin_font_for(&fam, FontStyle { bold: true, italic: false }),
        BuiltInFont::CourierBold
    );
    let fam = FontFamily::BuiltIn(BuiltInFont::Symbol);
    assert_eq!(builtin_font_for(&fam, bold_italic), BuiltInFont::Symbol);
    let fam = FontFamily::Custom("my.ttf".to_string());
    assert_eq!(builtin_font_for(&fam, bold_italic), BuiltInFont::HelveticaBold);
    assert_eq!(builtin_font_for(&fam, plain), BuiltInFont::Helvetica);
}

#[test]
fn xmp_escapes_markup_in_values() {
    let xmp = PdfMetadata::new().title("a<b&c").author("\"q\" > p").to_xmp();
    assert!(xmp.contains("a&lt;b&amp;c"));
    assert!(xmp.contains("&quot;q&quot; &gt; p"));
    assert!(!xmp.contains("a<b&c"));
}
