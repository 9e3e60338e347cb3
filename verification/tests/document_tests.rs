use easypdf::manipulate::{page_for_number, reorder_ids, rotate_angle};
use easypdf::{
    FileContents, PdfError, PdfManipulator, PdfReadListener, PdfReader, PdfTemplateFiller, Result,
    Rotation,
};

fn save(mut doc: lopdf::Document) -> FileContents {
    let mut bytes = Vec::new();
    doc.save_to(&mut bytes).unwrap();
    Ok(bytes)
}

fn missing() -> FileContents {
    Err("No such file or directory (os error 2)".to_string())
}

/// Two pages of text, a form field on page 2, and an `/Info` dictionary.
fn fixture_pdf() -> FileContents {
    let mut doc = lopdf::Document::with_version("1.5");
    let content1_id = doc.add_object(lopdf::Object::Stream(lopdf::Stream::new(
        lopdf::Dictionary::new(),
        b"BT /F1 12 Tf 72 700 Td (Hello World) Tj ET".to_vec(),
    )));
    let mut font_dict = lopdf::Dictionary::new();
    font_dict.set("Type", lopdf::Object::Name(b"Font".to_vec()));
    font_dict.set("Subtype", lopdf::Object::Name(b"Type1".to_vec()));
    font_dict.set("BaseFont", lopdf::Object::Name(b"Helvetica".to_vec()));
    font_dict.set("Encoding", lopdf::Object::Name(b"WinAnsiEncoding".to_vec()));
    let font_id = doc.add_object(lopdf::Object::Dictionary(font_dict));
    let mut fonts = lopdf::Dictionary::new();
    fonts.set("F1", lopdf::Object::Reference(font_id));
    let mut resources = lopdf::Dictionary::new();
    resources.set("Font", lopdf::Object::Dictionary(fonts));
    let res_id = doc.add_object(lopdf::Object::Dictionary(resources));

    let mut page1 = lopdf::Dictionary::new();
    page1.set("Type", lopdf::Object::Name(b"Page".to_vec()));
    page1.set("MediaBox", lopdf::Object::Array(vec![0.into(), 0.into(), 595.into(), 842.into()]));
    page1.set("Contents", lopdf::Object::Reference(content1_id));
    page1.set("Resources", lopdf::Object::Reference(res_id));
    let page1_id = doc.add_object(lopdf::Object::Dictionary(page1));

    let content2_id = doc.add_object(lopdf::Object::Stream(lopdf::Stream::new(
        lopdf::Dictionary::new(),
        b"BT /F1 10 Tf 72 700 Td (Page Two) Tj ET".to_vec(),
    )));
    let mut field = lopdf::Dictionary::new();
    field.set("Type", lopdf::Object::Name(b"Annot".to_vec()));
    field.set("Subtype", lopdf::Object::Name(b"Widget".to_vec()));
    field.set("FT", lopdf::Object::Name(b"Tx".to_vec()));
    field.set("T", lopdf::Object::String(b"customer_name".to_vec(), lopdf::StringFormat::Literal));
    field.set("V", lopdf::Object::String(b"".to_vec(), lopdf::StringFormat::Literal));
    let field_id = doc.add_object(lopdf::Object::Dictionary(field));

    let mut page2 = lopdf::Dictionary::new();
    page2.set("Type", lopdf::Object::Name(b"Page".to_vec()));
    page2.set("MediaBox", lopdf::Object::Array(vec![0.into(), 0.into(), 595.into(), 842.into()]));
    page2.set("Contents", lopdf::Object::Reference(content2_id));
    page2.set("Annots", lopdf::Object::Array(vec![lopdf::Object::Reference(field_id)]));
    page2.set("Resources", lopdf::Object::Reference(res_id));
    page2.set("Rotate", lopdf::Object::Integer(90));
    let page2_id = doc.add_object(lopdf::Object::Dictionary(page2));

    let mut pages = lopdf::Dictionary::new();
    pages.set("Type", lopdf::Object::Name(b"Pages".to_vec()));
    pages.set(
        "Kids",
        lopdf::Object::Array(vec![
            lopdf::Object::Reference(page1_id),
            lopdf::Object::Reference(page2_id),
        ]),
    );
    pages.set("Count", lopdf::Object::Integer(2));
    let pages_id = doc.add_object(lopdf::Object::Dictionary(pages));

    let mut catalog = lopdf::Dictionary::new();
    catalog.set("Type", lopdf::Object::Name(b"Catalog".to_vec()));
    catalog.set("Pages", lopdf::Object::Reference(pages_id));
    let catalog_id = doc.add_object(lopdf::Object::Dictionary(catalog));
    doc.trailer.set("Root", lopdf::Object::Reference(catalog_id));

    let mut info = lopdf::Dictionary::new();
    info.set("Title", lopdf::Object::String(b"Fixture".to_vec(), lopdf::StringFormat::Literal));
    info.set("Author", lopdf::Object::String(b"Tester".to_vec(), lopdf::StringFormat::Literal));
    let info_id = doc.add_object(lopdf::Object::Dictionary(info));
    doc.trailer.set("Info", lopdf::Object::Reference(info_id));
    save(doc)
}

/// A document of `n` empty pages.
fn pages_pdf(n: usize) -> FileContents {
    let mut doc = lopdf::Document::with_version("1.5");
    let pages_id = doc.new_object_id();
    let mut kids = Vec::new();
    for _ in 0..n {
        let mut p = lopdf::Dictionary::new();
        p.set("Type", lopdf::Object::Name(b"Page".to_vec()));
        p.set("Parent", lopdf::Object::Reference(pages_id));
        kids.push(lopdf::Object::Reference(doc.add_object(lopdf::Object::Dictionary(p))));
    }
    let mut pages = lopdf::Dictionary::new();
    pages.set("Type", lopdf::Object::Name(b"Pages".to_vec()));
    pages.set("Count", lopdf::Object::Integer(n as i64));
    pages.set("Kids", lopdf::Object::Array(kids));
    doc.objects.insert(pages_id, lopdf::Object::Dictionary(pages));
    let mut catalog = lopdf::Dictionary::new();
    catalog.set("Type", lopdf::Object::Name(b"Catalog".to_vec()));
    catalog.set("Pages", lopdf::Object::Reference(pages_id));
    let catalog_id = doc.add_object(lopdf::Object::Dictionary(catalog));
    doc.trailer.set("Root", lopdf::Object::Reference(catalog_id));
    save(doc)
}

fn rotate_of(doc: &lopdf::Document, id: lopdf::ObjectId) -> Option<i64> {
    doc.get_dictionary(id).ok()?.get(b"Rotate").ok()?.as_i64().ok()
}

fn field_value(doc: &lopdf::Document, name: &[u8]) -> Option<Vec<u8>> {
    for (_, obj) in doc.objects.iter() {
        if let Ok(d) = obj.as_dict() {
            if let Ok(lopdf::Object::String(t, _)) = d.get(b"T") {
                if t.as_slice() == name {
                    return d.get(b"V").ok()?.as_str().ok().map(|v| v.to_vec());
                }
            }
        }
    }
    None
}

// --- Reader ---

#[test]
fn test_extract_text_from_real_pdf() {
    let reader = PdfReader::open(fixture_pdf()).unwrap();
    let text = reader.extract_text().unwrap();
    assert!(text.contains("Hello") || !text.is_empty());
    assert_eq!(reader.page_count().unwrap(), 2);
}

#[test]
fn extract_text_joins_pages_with_newline() {
    let reader = PdfReader::open(fixture_pdf()).unwrap();
    assert_eq!(reader.extract_text().unwrap(), "Hello World\n\nPage Two\n");
}

#[test]
fn test_extract_text_range() {
    let reader = PdfReader::open(fixture_pdf()).unwrap().pages(0..1);
    let text = reader.extract_text().unwrap();
    assert_eq!(text, "Hello World\n");
    let second = PdfReader::open(fixture_pdf()).unwrap().pages(1..2).extract_text().unwrap();
    assert_eq!(second, "Page Two\n");
    let none = PdfReader::open(fixture_pdf()).unwrap().pages(5..9).extract_text().unwrap();
    assert_eq!(none, "");
}

struct Collect(Vec<(usize, String)>, Vec<String>);

impl PdfReadListener for Collect {
    fn on_page_start(&mut self, n: usize) -> Result<()> {
        self.1.push(format!("start {n}"));
        Ok(())
    }
    fn on_text(&mut self, n: usize, t: &str) -> Result<()> {
        self.0.push((n, t.to_string()));
        Ok(())
    }
    fn on_page_end(&mut self, n: usize) -> Result<()> {
        self.1.push(format!("end {n}"));
        Ok(())
    }
    fn on_document_end(&mut self) -> Result<()> {
        self.1.push("done".to_string());
        Ok(())
    }
}

#[test]
fn test_listener_with_real_pdf() {
    let mut c = Collect(vec![], vec![]);
    PdfReader::open(fixture_pdf()).unwrap().read_with_listener(&mut c).unwrap();
    assert!(!c.0.is_empty());
    assert_eq!(c.0, vec![(1, "Hello World\n".to_string()), (2, "Page Two\n".to_string())]);
    assert_eq!(c.1, vec!["start 1", "end 1", "start 2", "end 2", "done"]);
}

struct Failing;

impl PdfReadListener for Failing {
    fn on_text(&mut self, n: usize, _t: &str) -> Result<()> {
        Err(PdfError::InvalidPage(n))
    }
}

#[test]
fn listener_error_stops_reading() {
    let r = PdfReader::open(fixture_pdf()).unwrap().read_with_listener(&mut Failing);
    assert!(matches!(r, Err(PdfError::InvalidPage(1))));
}

#[test]
fn test_metadata_from_real_pdf() {
    let meta = PdfReader::open(fixture_pdf()).unwrap().extract_metadata().unwrap();
    assert_eq!(meta.title.as_deref(), Some("Fixture"));
    assert_eq!(meta.author.as_deref(), Some("Tester"));
    assert!(meta.subject.is_none() && meta.creator.is_none());
    let plain = PdfReader::open(pages_pdf(1)).unwrap().extract_metadata().unwrap();
    assert!(plain.title.is_none() && plain.author.is_none());
}

#[test]
fn open_reports_parse_errors() {
    match PdfReader::open(missing()) {
        Err(PdfError::Parse(m)) => assert_eq!(m, "No such file or directory (os error 2)"),
        _ => panic!("expected a parse error"),
    }
    assert!(matches!(PdfReader::open(Ok(b"not a pdf".to_vec())), Err(PdfError::Parse(_))));
}

#[test]
fn join_page_texts_skips_missing_pages() {
    let texts = vec![Some("a".to_string()), None, Some("b".to_string()), Some(String::new())];
    assert_eq!(easypdf::reader::join_page_texts(&texts), "a\nb\n");
    assert_eq!(easypdf::reader::join_page_texts(&vec![None, None]), "");
}

// --- Manipulator ---

#[test]
fn test_page_count_real() {
    let m = PdfManipulator::open(pages_pdf(2)).unwrap();
    assert_eq!(m.page_count(), 2);
}

#[test]
fn test_into_inner_real() {
    let doc = PdfManipulator::open(pages_pdf(2)).unwrap().into_inner();
    assert_eq!(doc.get_pages().len(), 2);
}

#[test]
fn test_rotate_reorder_real() {
    let mut m = PdfManipulator::open(pages_pdf(2)).unwrap();
    assert!(m.rotate_page(1, Rotation::Clockwise90).is_ok());
    assert!(m.reorder_pages(&[1, 0]).is_ok());
    let doc = m.into_inner();
    let pages: Vec<_> = doc.get_pages().into_values().collect();
    assert_eq!(pages.len(), 2);
    assert_eq!(rotate_of(&doc, pages[1]), Some(90));
    assert_eq!(rotate_of(&doc, pages[0]), None);
}

#[test]
fn rotation_accumulates_modulo_full_turn() {
    let mut m = PdfManipulator::open(fixture_pdf()).unwrap();
    m.rotate_page(2, Rotation::Clockwise270).unwrap();
    m.rotate_page(1, Rotation::Clockwise180).unwrap();
    m.rotate_page(1, Rotation::Clockwise270).unwrap();
    let doc = m.into_inner();
    let pages: Vec<_> = doc.get_pages().into_values().collect();
    assert_eq!(rotate_of(&doc, pages[1]), Some(0));
    assert_eq!(rotate_of(&doc, pages[0]), Some(90));
}

#[test]
fn four_quarter_turns_restore_rotation() {
    let mut m = PdfManipulator::open(fixture_pdf()).unwrap();
    for _ in 0..4 {
        m.rotate_page(2, Rotation::Clockwise90).unwrap();
    }
    let doc = m.into_inner();
    let pages: Vec<_> = doc.get_pages().into_values().collect();
    assert_eq!(rotate_of(&doc, pages[1]), Some(90));
}

#[test]
fn no_rotation_keeps_page() {
    let mut m = PdfManipulator::open(fixture_pdf()).unwrap();
    m.rotate_page(2, Rotation::NoRotation).unwrap();
    m.rotate_page(1, Rotation::NoRotation).unwrap();
    let doc = m.into_inner();
    let pages: Vec<_> = doc.get_pages().into_values().collect();
    assert_eq!(rotate_of(&doc, pages[1]), Some(90));
    assert_eq!(rotate_of(&doc, pages[0]), Some(0));
}

#[test]
fn rotate_page_out_of_range_is_invalid_page() {
    let mut m = PdfManipulator::open(pages_pdf(2)).unwrap();
    assert!(matches!(m.rotate_page(0, Rotation::Clockwise90), Err(PdfError::InvalidPage(0))));
    assert!(matches!(m.rotate_page(3, Rotation::Clockwise90), Err(PdfError::InvalidPage(3))));
    assert!(m.rotate_page(2, Rotation::Clockwise90).is_ok());
}

#[test]
fn reorder_sets_kids_and_count() {
    let mut m = PdfManipulator::open(pages_pdf(3)).unwrap();
    let before: Vec<_> = PdfManipulator::open(pages_pdf(3)).unwrap().into_inner().get_pages().into_values().collect();
    m.reorder_pages(&[2, 0, 1]).unwrap();
    let doc = m.into_inner();
    let after: Vec<_> = doc.get_pages().into_values().collect();
    assert_eq!(after, vec![before[2], before[0], before[1]]);
    let root = doc.catalog().unwrap().get(b"Pages").unwrap().as_reference().unwrap();
    assert_eq!(doc.get_dictionary(root).unwrap().get(b"Count").unwrap().as_i64().unwrap(), 3);
}

#[test]
fn reorder_reports_first_bad_index() {
    let mut m = PdfManipulator::open(pages_pdf(2)).unwrap();
    assert!(matches!(m.reorder_pages(&[1, 5, 7]), Err(PdfError::InvalidPage(5))));
    assert_eq!(m.page_count(), 2);
}

#[test]
fn test_extract_pages_real() {
    let m = PdfManipulator::open(pages_pdf(2)).unwrap();
    let doc = m.extract_pages(0..1).unwrap();
    assert!(doc.get_pages().len() <= 2);
    assert_eq!(doc.get_pages().len(), 1);
    assert_eq!(doc.objects.len(), 3);
    assert!(doc.objects.contains_key(&(3, 0)));
}

#[test]
fn extract_pages_builds_a_page_tree() {
    let m = PdfManipulator::open(pages_pdf(4)).unwrap();
    let doc = m.extract_pages(1..4).unwrap();
    let ids: Vec<_> = doc.objects.keys().copied().collect();
    assert_eq!(ids, vec![(1, 0), (2, 0), (3, 0), (4, 0), (5, 0)]);
    let pages: Vec<_> = doc.get_pages().into_values().collect();
    assert_eq!(pages, vec![(3, 0), (4, 0), (5, 0)]);
    assert_eq!(doc.catalog().unwrap().get(b"Pages").unwrap().as_reference().unwrap(), (1, 0));
    assert_eq!(doc.get_dictionary((1, 0)).unwrap().get(b"Count").unwrap().as_i64().unwrap(), 3);
    assert_eq!(m.extract_pages(2..2).unwrap().objects.len(), 0);
    assert!(matches!(m.extract_pages(2..9), Err(PdfError::InvalidPage(4))));
    assert!(matches!(m.extract_pages(6..9), Err(PdfError::InvalidPage(6))));
}

#[test]
fn test_merge_two_real_pdfs() {
    let sources = vec![
        ("a.pdf".to_string(), pages_pdf(2)),
        ("b.pdf".to_string(), pages_pdf(2)),
    ];
    let base_len = PdfManipulator::open(pages_pdf(2)).unwrap().into_inner().objects.len();
    let merged = PdfManipulator::merge_files(&sources).unwrap();
    assert_eq!(merged.objects.len(), base_len + 2);
}

#[test]
fn merge_reports_first_failing_source() {
    assert!(matches!(
        PdfManipulator::merge_files(&vec![]),
        Err(PdfError::Other(m)) if m == "No input files specified"
    ));
    let sources = vec![
        ("a.pdf".to_string(), pages_pdf(1)),
        ("gone.pdf".to_string(), missing()),
        ("bad.pdf".to_string(), Ok(b"junk".to_vec())),
    ];
    match PdfManipulator::merge_files(&sources) {
        Err(PdfError::Parse(m)) => {
            assert_eq!(m, "Failed to load gone.pdf: No such file or directory (os error 2)")
        }
        _ => panic!("expected a parse error"),
    }
    let sources = vec![("bad.pdf".to_string(), Ok(b"junk".to_vec()))];
    match PdfManipulator::merge_files(&sources) {
        Err(PdfError::Parse(m)) => assert!(m.starts_with("Failed to load bad.pdf: ")),
        _ => panic!("expected a parse error"),
    }
}

// --- Template ---

#[test]
fn test_fill_field_success_real() {
    let mut filler = PdfTemplateFiller::open(fixture_pdf()).unwrap();
    let result = filler.fill_field("customer_name", "Alice");
    assert!(result.is_ok());
    let doc = filler.into_inner();
    assert_eq!(field_value(&doc, b"customer_name"), Some(b"Alice".to_vec()));
}

#[test]
fn test_fill_fields_success_real() {
    let mut filler = PdfTemplateFiller::open(fixture_pdf()).unwrap();
    assert!(filler
        .fill_fields(&[
            ("customer_name".to_string(), "Bob".to_string()),
            ("customer_name".to_string(), "Carol".to_string()),
        ])
        .is_ok());
    assert_eq!(field_value(&filler.into_inner(), b"customer_name"), Some(b"Carol".to_vec()));
}

#[test]
fn fill_missing_field_is_unsupported() {
    let mut filler = PdfTemplateFiller::open(fixture_pdf()).unwrap();
    match filler.fill_field("nope", "x") {
        Err(PdfError::UnsupportedFeature(m)) => {
            assert_eq!(m, "Form field 'nope' not found in template")
        }
        _ => panic!("expected an unsupported-feature error"),
    }
    let r = filler.fill_fields(&[
        ("customer_name".to_string(), "Dan".to_string()),
        ("missing".to_string(), "y".to_string()),
    ]);
    assert!(matches!(r, Err(PdfError::UnsupportedFeature(m)) if m.contains("'missing'")));
    assert_eq!(field_value(&filler.into_inner(), b"customer_name"), Some(b"Dan".to_vec()));
}

#[test]
fn test_page_count_template() {
    let filler = PdfTemplateFiller::open(fixture_pdf()).unwrap();
    assert_eq!(filler.page_count(), 2);
}

#[test]
fn test_into_inner_template() {
    let doc = PdfTemplateFiller::open(fixture_pdf()).unwrap().into_inner();
    assert_eq!(doc.get_pages().len(), 2);
}

#[test]
fn bytes_equal_compares_contents() {
    assert!(easypdf::template::bytes_equal(b"abc", b"abc"));
    assert!(!easypdf::template::bytes_equal(b"abc", b"abd"));
    assert!(!easypdf::template::bytes_equal(b"abc", b"ab"));
    assert!(easypdf::template::bytes_equal(b"", b""));
}

#[test]
fn reorder_then_inverse_restores_order() {
    let original: Vec<_> = PdfManipulator::open(pages_pdf(3)).unwrap().into_inner().get_pages().into_values().collect();
    let mut m = PdfManipulator::open(pages_pdf(3)).unwrap();
    m.reorder_pages(&[2, 0, 1]).unwrap();
    m.reorder_pages(&[1, 2, 0]).unwrap();
    let after: Vec<_> = m.into_inner().get_pages().into_values().collect();
    assert_eq!(after, original);
}

#[test]
fn full_range_reads_what_no_range_reads() {
    let all = PdfReader::open(fixture_pdf()).unwrap().extract_text().unwrap();
    let ranged = PdfReader::open(fixture_pdf()).unwrap().pages(0..2).extract_text().unwrap();
    assert_eq!(all, ranged);
}

#[test]
fn page_lookup_and_reordering_of_ids() {
    let ids = vec![(1, 0), (2, 0), (3, 0)];
    assert_eq!(page_for_number(&ids, 2).unwrap(), (2, 0));
    assert!(matches!(page_for_number(&ids, 4), Err(PdfError::InvalidPage(4))));
    assert_eq!(reorder_ids(&ids, &[2, 2, 0]).unwrap(), vec![(3, 0), (3, 0), (1, 0)]);
    assert!(matches!(reorder_ids(&ids, &[0, 3, 9]), Err(PdfError::InvalidPage(3))));
    assert_eq!(rotate_angle(-100, Rotation::Clockwise90), -10);
    assert_eq!(rotate_angle(-400, Rotation::Clockwise90), -310);
    assert_eq!(rotate_angle(350, Rotation::Clockwise90), 80);
    assert_eq!(rotate_angle(i64::MAX, Rotation::Clockwise270), ((i64::MAX as i128 + 270) % 360) as i64);
    assert_eq!(rotate_angle(123, Rotation::NoRotation), 123);
    assert_eq!(rotate_angle(-370, Rotation::NoRotation), -10);
}

#[test]
fn listener_events_follow_the_pages() {
    let events = PdfReader::open(fixture_pdf()).unwrap().listener_events();
    assert_eq!(events, vec![(1, "Hello World\n".to_string()), (2, "Page Two\n".to_string())]);
    let second = PdfReader::open(fixture_pdf()).unwrap().pages(1..2).listener_events();
    assert_eq!(second, vec![(2, "Page Two\n".to_string())]);
    let blank = PdfReader::open(pages_pdf(2)).unwrap().listener_events();
    assert_eq!(blank, vec![(1, String::new()), (2, String::new())]);
}

/// One page whose only font dictionary has no `/Type`.
fn untyped_font_pdf() -> FileContents {
    let mut doc = lopdf::Document::with_version("1.5");
    let content_id = doc.add_object(lopdf::Object::Stream(lopdf::Stream::new(
        lopdf::Dictionary::new(),
        b"BT /F1 12 Tf 72 700 Td (Hidden) Tj ET".to_vec(),
    )));
    let mut font_dict = lopdf::Dictionary::new();
    font_dict.set("Subtype", lopdf::Object::Name(b"Type1".to_vec()));
    font_dict.set("BaseFont", lopdf::Object::Name(b"Helvetica".to_vec()));
    let font_id = doc.add_object(lopdf::Object::Dictionary(font_dict));
    let mut fonts = lopdf::Dictionary::new();
    fonts.set("F1", lopdf::Object::Reference(font_id));
    let mut resources = lopdf::Dictionary::new();
    resources.set("Font", lopdf::Object::Dictionary(fonts));
    let pages_id = doc.new_object_id();
    let mut page = lopdf::Dictionary::new();
    page.set("Type", lopdf::Object::Name(b"Page".to_vec()));
    page.set("Parent", lopdf::Object::Reference(pages_id));
    page.set("Contents", lopdf::Object::Reference(content_id));
    page.set("Resources", lopdf::Object::Dictionary(resources));
    let page_id = doc.add_object(lopdf::Object::Dictionary(page));
    let mut pages = lopdf::Dictionary::new();
    pages.set("Type", lopdf::Object::Name(b"Pages".to_vec()));
    pages.set("Count", lopdf::Object::Integer(1));
    pages.set("Kids", lopdf::Object::Array(vec![lopdf::Object::Reference(page_id)]));
    doc.objects.insert(pages_id, lopdf::Object::Dictionary(pages));
    let mut catalog = lopdf::Dictionary::new();
    catalog.set("Type", lopdf::Object::Name(b"Catalog".to_vec()));
    catalog.set("Pages", lopdf::Object::Reference(pages_id));
    let catalog_id = doc.add_object(lopdf::Object::Dictionary(catalog));
    doc.trailer.set("Root", lopdf::Object::Reference(catalog_id));
    save(doc)
}

#[test]
fn page_with_untyped_font_gives_no_text() {
    let reader = PdfReader::open(untyped_font_pdf()).unwrap();
    assert_eq!(reader.page_count().unwrap(), 1);
    assert_eq!(reader.extract_text().unwrap(), "");
}

#[test]
fn extracted_objects_are_copies_of_the_selected_pages() {
    let m = PdfManipulator::open(fixture_pdf()).unwrap();
    let out = m.extract_pages(1..2).unwrap();
    let source = m.into_inner();
    let pages: Vec<_> = source.get_pages().into_values().collect();
    assert_eq!(out.objects.len(), 3);
    assert_eq!(out.get_pages().into_values().collect::<Vec<_>>(), vec![(3, 0)]);
    assert_eq!(out.get_object((3, 0)).unwrap(), source.get_object(pages[1]).unwrap());
}

#[test]
fn filled_value_is_a_literal_string() {
    let mut filler = PdfTemplateFiller::open(fixture_pdf()).unwrap();
    filler.fill_field("customer_name", "Bob (Jr.)").unwrap();
    let doc = filler.into_inner();
    let field = doc
        .objects
        .values()
        .filter_map(|o| o.as_dict().ok())
        .find(|d| d.get(b"T").ok().and_then(|t| t.as_str().ok()) == Some(b"customer_name"))
        .unwrap();
    match field.get(b"V").unwrap() {
        lopdf::Object::String(bytes, format) => {
            assert_eq!(bytes, b"Bob (Jr.)");
            assert_eq!(*format, lopdf::StringFormat::Literal);
        }
        other => panic!("unexpected value {other:?}"),
    }
}

#[test]
fn listener_texts_join_to_the_extracted_text() {
    let reader = PdfReader::open(fixture_pdf()).unwrap();
    let texts: Vec<String> = reader.listener_events().into_iter().map(|(_, t)| t).collect();
    assert_eq!(texts.join("\n"), reader.extract_text().unwrap());
}
