use easypdf::markdown::{markdown_to_html, process_inline_formatting};
use easypdf::{EasyPdf, FileContents, PdfError, Rotation};

fn missing() -> FileContents {
    Err("No such file or directory (os error 2)".to_string())
}

fn pages_pdf(n: usize) -> FileContents {
    let mut doc = lopdf::Document::with_version("1.5");
    let pages_id = doc.new_object_id();
    let mut kids = Vec::new();
    for _ in 0..n {
        let mut p = lopdf::Dictionary::new();
        p.set("Type", lopdf::Object::Name(b"Page".to_vec()));
        p.set("Parent", lopdf::Object::Reference(pages_id));
        kids.push(lopdf::Object::Reference(doc.add_object(lopdf::Object::Dictionary(p))));
    }
    let mut pages = lopdf::Dictionary::new();
    pages.set("Type", lopdf::Object::Name(b"Pages".to_vec()));
    pages.set("Count", lopdf::Object::Integer(n as i64));
    pages.set("Kids", lopdf::Object::Array(kids));
    doc.objects.insert(pages_id, lopdf::Object::Dictionary(pages));
    let mut catalog = lopdf::Dictionary::new();
    catalog.set("Type", lopdf::Object::Name(b"Catalog".to_vec()));
    catalog.set("Pages", lopdf::Object::Reference(pages_id));
    let catalog_id = doc.add_object(lopdf::Object::Dictionary(catalog));
    doc.trailer.set("Root", lopdf::Object::Reference(catalog_id));
    let mut bytes = Vec::new();
    doc.save_to(&mut bytes).unwrap();
    Ok(bytes)
}

fn form_pdf() -> FileContents {
    let mut doc = lopdf::Document::with_version("1.5");
    let mut f = lopdf::Dictionary::new();
    f.set("FT", lopdf::Object::Name(b"Tx".to_vec()));
    f.set("T", lopdf::Object::String(b"name".to_vec(), lopdf::StringFormat::Literal));
    f.set("V", lopdf::Object::String(b"old".to_vec(), lopdf::StringFormat::Literal));
    doc.add_object(lopdf::Object::Dictionary(f));
    let mut g = lopdf::Dictionary::new();
    g.set("T", lopdf::Object::String(b"email".to_vec(), lopdf::StringFormat::Literal));
    doc.add_object(lopdf::Object::Dictionary(g));
    let mut bytes = Vec::new();
    doc.save_to(&mut bytes).unwrap();
    Ok(bytes)
}

fn value_of(doc: &lopdf::Document, name: &[u8]) -> Option<Vec<u8>> {
    for (_, obj) in doc.objects.iter() {
        if let Ok(d) = obj.as_dict() {
            if let Ok(lopdf::Object::String(t, _)) = d.get(b"T") {
                if t.as_slice() == name {
                    return d.get(b"V").ok()?.as_str().ok().map(|v| v.to_vec());
                }
            }
        }
    }
    None
}

struct DummyModel;

// --- Required tests ---

#[test]
fn test_read_builder() {
    let builder = EasyPdf::read("nonexistent.pdf");
    assert!(builder.extract_text(missing()).is_err());
}

#[test]
fn test_manipulate_builder() {
    let result = EasyPdf::manipulate("/nonexistent/file.pdf")
        .rotate_all(Rotation::Clockwise90)
        .save(missing());
    assert!(result.is_err());
}

#[test]
fn test_read_builder_metadata() {
    let result = EasyPdf::read("/nonexistent.pdf").metadata(missing());
    assert!(result.is_err());
}

#[test]
fn test_read_builder_page_count() {
    let result = EasyPdf::read("/nonexistent.pdf").page_count(missing());
    assert!(result.is_err());
}

#[test]
fn test_manipulate_rotate_specific_page() {
    let result = EasyPdf::manipulate("/nonexistent.pdf")
        .rotate_page(1, Rotation::Clockwise90)
        .save(missing());
    assert!(result.is_err());
}

#[test]
fn test_manipulate_reorder() {
    let result = EasyPdf::manipulate("/nonexistent.pdf")
        .reorder_pages(&[0])
        .save(missing());
    assert!(result.is_err());
}

#[test]
fn test_read_builder_pages() {
    let result = EasyPdf::read("/nonexistent.pdf").pages(0..5).extract_text(missing());
    assert!(result.is_err());
}

#[test]
fn test_manipulate_rotate_all_then_reorder() {
    let result = EasyPdf::manipulate("/nonexistent.pdf")
        .rotate_all(Rotation::Clockwise180)
        .reorder_pages(&[1, 0])
        .save(missing());
    assert!(result.is_err());
}

#[test]
fn test_markdown_to_html() {
    let md = "# Title\n\n**bold** and *italic* text\n\n- item 1\n- item 2";
    let html = markdown_to_html(md);
    assert!(html.contains("<h1>Title</h1>"));
    assert!(html.contains("<b>bold</b>"));
    assert!(html.contains("<i>italic</i>"));
    assert!(html.contains("<li>item 1</li>"));
    assert!(html.contains("<li>item 2</li>"));
}

#[test]
fn test_markdown_headings() {
    let html = markdown_to_html("## H2\n### H3\n> quote");
    assert!(html.contains("<h2>H2</h2>"));
    assert!(html.contains("<h3>H3</h3>"));
    assert!(html.contains("<blockquote>quote</blockquote>"));
}

#[test]
fn test_permission_flags() {
    let flags: i32 = -4;
    let print_allowed = (flags & 0b0100) != 0;
    let modify_denied = (flags & 0b1000) == 0;
    assert!(modify_denied || !modify_denied);
    let _ = print_allowed;
}

// --- Tests whose subject is in the library ---

#[test]
fn test_split_builder() {
    let builder = EasyPdf::split("test.pdf").every_n_pages(2);
    assert!(builder.split_pages(missing()).is_err());
}

#[test]
fn test_fill_builder_save() {
    let result = EasyPdf::fill_form("/nonexistent/template.pdf", &DummyModel).save(missing());
    assert!(result.is_err());
}

#[test]
fn test_fill_builder_with_fields() {
    let result = EasyPdf::fill_form("/nonexistent/template.pdf", &DummyModel)
        .field("name", "value")
        .fields(&[("email", "a@b.com")])
        .save(missing());
    assert!(result.is_err());
}

#[test]
fn test_encrypt_error_nonexistent_input() {
    assert!(EasyPdf::encrypt(missing(), "pwd").is_err());
}

// --- Own tests ---

#[test]
fn markdown_document_frame_and_blank_lines() {
    assert_eq!(markdown_to_html(""), "<html><body>\n</body></html>");
    assert_eq!(
        markdown_to_html("a\n\n  b  "),
        "<html><body>\n<p>a</p>\n<br/>\n<p>b</p>\n</body></html>"
    );
    assert_eq!(
        markdown_to_html("#no space\n-x\n>y"),
        "<html><body>\n<p>#no space</p>\n<p>-x</p>\n<p>>y</p>\n</body></html>"
    );
}

#[test]
fn inline_formatting_cases() {
    assert_eq!(process_inline_formatting("plain text"), "plain text");
    assert_eq!(process_inline_formatting("**b** *i*"), "<b>b</b> <i>i</i>");
    assert_eq!(process_inline_formatting("**open"), "<b>ope</b>n");
    assert_eq!(process_inline_formatting("*open"), "<i>open</i>");
    assert_eq!(process_inline_formatting("a*"), "a*");
    assert_eq!(process_inline_formatting("**"), "<b></b>");
}

#[test]
fn from_markdown_converts_first() {
    let b = EasyPdf::from_markdown("# T").unwrap();
    assert_eq!(b.html(), "<html><body>\n<h1>T</h1>\n</body></html>");
    assert_eq!(b.title_text(), "HTML Document");
    let b = EasyPdf::from_html("<p>x</p>").unwrap().title("Doc");
    assert_eq!(b.html(), "<p>x</p>");
    assert_eq!(b.title_text(), "Doc");
}

#[test]
fn read_builder_reads_pages() {
    assert_eq!(EasyPdf::read("x.pdf").page_count(pages_pdf(3)).unwrap(), 3);
    assert_eq!(EasyPdf::read("x.pdf").pages(0..2).extract_text(pages_pdf(3)).unwrap(), "");
    assert!(EasyPdf::read("x.pdf").metadata(pages_pdf(1)).unwrap().title.is_none());
    assert_eq!(EasyPdf::read("dir/x.pdf").path(), "dir/x.pdf");
}

#[test]
fn split_names_and_sizes_chunks() {
    let files = EasyPdf::split("big.pdf").every_n_pages(2).split_pages(pages_pdf(5)).unwrap();
    let names: Vec<&str> = files.iter().map(|(n, _)| n.as_str()).collect();
    assert_eq!(names, vec!["page_001.pdf", "page_002.pdf", "page_003.pdf"]);
    let sizes: Vec<usize> = files.iter().map(|(_, d)| d.objects.len()).collect();
    assert_eq!(sizes, vec![4, 4, 3]);
    let counts: Vec<usize> = files.iter().map(|(_, d)| d.get_pages().len()).collect();
    assert_eq!(counts, vec![2, 2, 1]);
    let single = EasyPdf::split("big.pdf").split_pages(pages_pdf(3)).unwrap();
    assert_eq!(single.len(), 3);
    assert_eq!(single[2].0, "page_003.pdf");
    assert!(EasyPdf::split("e.pdf").split_pages(pages_pdf(0)).unwrap().is_empty());
    assert!(EasyPdf::split("e.pdf").every_n_pages(0).split_pages(pages_pdf(0)).unwrap().is_empty());
    assert!(EasyPdf::split("e.pdf").every_n_pages(0).split_pages(missing()).is_err());
    assert_eq!(EasyPdf::split("e.pdf").pages_per_file(), 1);
}

#[test]
fn manipulate_builder_applies_in_order() {
    let doc = EasyPdf::manipulate("in.pdf")
        .rotate_all(Rotation::Clockwise90)
        .rotate_page(2, Rotation::Clockwise90)
        .reorder_pages(&[1, 0])
        .save(pages_pdf(2))
        .unwrap();
    let pages: Vec<_> = doc.get_pages().into_values().collect();
    let rot = |id| doc.get_dictionary(id).unwrap().get(b"Rotate").unwrap().as_i64().unwrap();
    assert_eq!(rot(pages[0]), 180);
    assert_eq!(rot(pages[1]), 90);
}

#[test]
fn manipulate_builder_reports_invalid_pages() {
    let r = EasyPdf::manipulate("in.pdf")
        .rotate_page(3, Rotation::Clockwise90)
        .rotate_page(9, Rotation::Clockwise90)
        .save(pages_pdf(2));
    assert!(matches!(r, Err(PdfError::InvalidPage(3))));
    let r = EasyPdf::manipulate("in.pdf").reorder_pages(&[0, 2]).save(pages_pdf(2));
    assert!(matches!(r, Err(PdfError::InvalidPage(2))));
    let r = EasyPdf::manipulate("in.pdf").rotate(Rotation::Clockwise90).save(pages_pdf(0));
    assert!(r.is_ok());
}

#[test]
fn fill_builder_fills_fields() {
    let doc = EasyPdf::fill_form("t.pdf", &DummyModel)
        .field("name", "Alice")
        .fields(&[("email", "a@b.com")])
        .save(form_pdf())
        .unwrap();
    assert_eq!(value_of(&doc, b"name"), Some(b"Alice".to_vec()));
    assert_eq!(value_of(&doc, b"email"), Some(b"a@b.com".to_vec()));
    let r = EasyPdf::fill_form("t.pdf", &DummyModel).field("zip", "1").save(form_pdf());
    assert!(matches!(r, Err(PdfError::UnsupportedFeature(m)) if m == "Form field 'zip' not found in template"));
}

#[test]
fn merge_through_facade() {
    let sources = vec![("a.pdf".to_string(), pages_pdf(1)), ("b.pdf".to_string(), pages_pdf(3))];
    let base = easypdf::PdfManipulator::open(pages_pdf(1)).unwrap().into_inner();
    let merged = EasyPdf::merge(&sources).unwrap();
    assert_eq!(merged.objects.len(), base.objects.len() + 3);
    assert!(base.objects.keys().all(|id| merged.objects.contains_key(id)));
}

#[test]
fn encrypt_adds_encryption_dictionary() {
    let doc = EasyPdf::encrypt(pages_pdf(1), "secret").unwrap();
    let id = doc.trailer.get(b"Encrypt").unwrap().as_reference().unwrap();
    let d = doc.get_dictionary(id).unwrap();
    assert_eq!(d.get(b"Filter").unwrap().as_name().unwrap(), b"Standard");
    assert_eq!(d.get(b"P").unwrap().as_i64().unwrap(), -4);
    assert_eq!(d.get(b"O").unwrap().as_str().unwrap().len(), 32);
}

#[test]
fn encrypt_dictionary_takes_the_next_id() {
    let before = easypdf::PdfManipulator::open(pages_pdf(2)).unwrap().into_inner();
    let doc = EasyPdf::encrypt(pages_pdf(2), "pw").unwrap();
    let id = doc.trailer.get(b"Encrypt").unwrap().as_reference().unwrap();
    assert_eq!(id, (before.max_id + 1, 0));
    assert_eq!(doc.max_id, before.max_id + 1);
    assert_eq!(doc.objects.len(), before.objects.len() + 1);
    let d = doc.get_dictionary(id).unwrap();
    assert_eq!(d.get(b"V").unwrap().as_i64().unwrap(), 2);
    assert_eq!(d.get(b"R").unwrap().as_i64().unwrap(), 3);
    assert_eq!(d.get(b"Length").unwrap().as_i64().unwrap(), 128);
    assert_eq!(d.get(b"O").unwrap().as_str().unwrap().len(), 32);
    assert_eq!(d.get(b"U").unwrap().as_str().unwrap().len(), 32);
    assert!(doc.trailer.get(b"ID").unwrap().as_array().unwrap()[0].as_str().unwrap().len() == 16);
}

#[test]
fn owner_entry_follows_the_password() {
    let doc = EasyPdf::encrypt(pages_pdf(1), "secret").unwrap();
    let id = doc.trailer.get(b"Encrypt").unwrap().as_reference().unwrap();
    let o = doc.get_dictionary(id).unwrap().get(b"O").unwrap().as_str().unwrap().to_vec();
    let expected: Vec<u8> = vec![
        14, 82, 41, 37, 163, 228, 232, 116, 195, 207, 172, 190, 245, 17, 167, 58, 196, 236, 43, 216, 101, 220,
        211, 212, 98, 118, 20, 145, 122, 191, 215, 228,
    ];
    assert_eq!(o, expected);
    let other = EasyPdf::encrypt(pages_pdf(1), "another").unwrap();
    let o2 = other.get_dictionary(id).unwrap().get(b"O").unwrap().as_str().unwrap().to_vec();
    assert_ne!(o, o2);
}

/// One page with a content stream and a string object of its own.
fn content_pdf() -> FileContents {
    let mut doc = lopdf::Document::with_version("1.5");
    let pages_id = doc.new_object_id();
    let content = lopdf::Stream::new(lopdf::Dictionary::new(), b"BT (Secret text) Tj ET".to_vec());
    let content_id = doc.add_object(lopdf::Object::Stream(content));
    let title_id = doc.add_object(lopdf::Object::String(b"Private".to_vec(), lopdf::StringFormat::Literal));
    let mut p = lopdf::Dictionary::new();
    p.set("Type", lopdf::Object::Name(b"Page".to_vec()));
    p.set("Parent", lopdf::Object::Reference(pages_id));
    p.set("Contents", lopdf::Object::Reference(content_id));
    p.set("Title", lopdf::Object::Reference(title_id));
    let page_id = doc.add_object(lopdf::Object::Dictionary(p));
    let mut pages = lopdf::Dictionary::new();
    pages.set("Type", lopdf::Object::Name(b"Pages".to_vec()));
    pages.set("Count", lopdf::Object::Integer(1));
    pages.set("Kids", lopdf::Object::Array(vec![lopdf::Object::Reference(page_id)]));
    doc.objects.insert(pages_id, lopdf::Object::Dictionary(pages));
    let mut catalog = lopdf::Dictionary::new();
    catalog.set("Type", lopdf::Object::Name(b"Catalog".to_vec()));
    catalog.set("Pages", lopdf::Object::Reference(pages_id));
    let catalog_id = doc.add_object(lopdf::Object::Dictionary(catalog));
    doc.trailer.set("Root", lopdf::Object::Reference(catalog_id));
    let mut bytes = Vec::new();
    doc.save_to(&mut bytes).unwrap();
    Ok(bytes)
}

#[test]
fn encrypted_content_opens_only_with_the_password() {
    let plain = easypdf::PdfManipulator::open(content_pdf()).unwrap().into_inner();
    let doc = EasyPdf::encrypt(content_pdf(), "letmein").unwrap();
    for (id, obj) in plain.objects.iter() {
        match obj {
            lopdf::Object::Stream(s) => {
                assert_ne!(doc.get_object(*id).unwrap().as_stream().unwrap().content, s.content)
            }
            lopdf::Object::String(b, _) => assert_ne!(doc.get_object(*id).unwrap().as_str().unwrap(), &b[..]),
            other => assert_eq!(doc.get_object(*id).unwrap(), other),
        }
    }
    let mut wrong = doc.clone();
    assert!(wrong.decrypt("guess").is_err());
    let mut right = doc.clone();
    right.decrypt("letmein").unwrap();
    for (id, obj) in plain.objects.iter() {
        match obj {
            lopdf::Object::Stream(s) => {
                assert_eq!(right.get_object(*id).unwrap().as_stream().unwrap().content, s.content)
            }
            other => assert_eq!(right.get_object(*id).unwrap(), other),
        }
    }
}

#[test]
fn sign_adds_signature_placeholder() {
    let doc = EasyPdf::sign(pages_pdf(1), "Approved").unwrap();
    let perms = doc.catalog().unwrap().get(b"Perms").unwrap().as_dict().unwrap();
    let id = perms.get(b"DocMDP").unwrap().as_reference().unwrap();
    let sig = doc.get_dictionary(id).unwrap();
    assert_eq!(sig.get(b"Reason").unwrap().as_str().unwrap(), b"Approved");
    assert_eq!(sig.get(b"Contents").unwrap().as_str().unwrap().len(), 8192);
    assert!(matches!(EasyPdf::sign(missing(), "x"), Err(PdfError::Parse(_))));
}

#[test]
fn signature_dictionary_entries() {
    let before = easypdf::PdfManipulator::open(pages_pdf(1)).unwrap().into_inner();
    let doc = EasyPdf::sign(pages_pdf(1), "Reviewed").unwrap();
    let id = (before.max_id + 1, 0);
    let perms = doc.catalog().unwrap().get(b"Perms").unwrap().as_dict().unwrap();
    assert_eq!(perms.get(b"DocMDP").unwrap().as_reference().unwrap(), id);
    let sig = doc.get_dictionary(id).unwrap();
    assert_eq!(sig.get(b"Type").unwrap().as_name().unwrap(), b"Sig");
    assert_eq!(sig.get(b"Filter").unwrap().as_name().unwrap(), b"Adobe.PPKLite");
    assert_eq!(sig.get(b"SubFilter").unwrap().as_name().unwrap(), b"adbe.pkcs7.detached");
    let range: Vec<i64> =
        sig.get(b"ByteRange").unwrap().as_array().unwrap().iter().map(|o| o.as_i64().unwrap()).collect();
    assert_eq!(range, vec![0, 0, 0, 0]);
    assert!(sig.get(b"Contents").unwrap().as_str().unwrap().iter().all(|b| *b == 0));
}

fn rotations_of(doc: &lopdf::Document) -> Vec<i64> {
    doc.get_pages()
        .into_values()
        .map(|id| doc.get_dictionary(id).unwrap().get(b"Rotate").unwrap().as_i64().unwrap())
        .collect()
}

#[test]
fn rotate_all_matches_rotating_each_page() {
    let all = EasyPdf::manipulate("in.pdf").rotate_all(Rotation::Clockwise270).save(pages_pdf(3)).unwrap();
    let each = EasyPdf::manipulate("in.pdf")
        .rotate_page(1, Rotation::Clockwise270)
        .rotate_page(2, Rotation::Clockwise270)
        .rotate_page(3, Rotation::Clockwise270)
        .save(pages_pdf(3))
        .unwrap();
    assert_eq!(rotations_of(&all), vec![270, 270, 270]);
    assert_eq!(rotations_of(&all), rotations_of(&each));
}

#[test]
fn builder_rotations_commute_and_accumulate() {
    let ab = EasyPdf::manipulate("in.pdf")
        .rotate_page(1, Rotation::Clockwise180)
        .rotate_all(Rotation::Clockwise270)
        .save(pages_pdf(2))
        .unwrap();
    let ba = EasyPdf::manipulate("in.pdf")
        .rotate_all(Rotation::Clockwise270)
        .rotate_page(1, Rotation::Clockwise180)
        .save(pages_pdf(2))
        .unwrap();
    assert_eq!(rotations_of(&ab), vec![90, 270]);
    assert_eq!(rotations_of(&ab), rotations_of(&ba));
}

#[test]
fn split_parts_hold_consecutive_page_copies() {
    let source = easypdf::PdfManipulator::open(pages_pdf(5)).unwrap().into_inner();
    let pages: Vec<_> = source.get_pages().into_values().collect();
    let parts = EasyPdf::split("s.pdf").every_n_pages(2).split_pages(pages_pdf(5)).unwrap();
    assert_eq!(parts.len(), 3);
    for (k, (_, part)) in parts.iter().enumerate() {
        for (j, id) in part.get_pages().into_values().enumerate() {
            assert_eq!(id, ((j + 3) as u32, 0));
            assert_eq!(part.get_object(id).unwrap(), source.get_object(pages[2 * k + j]).unwrap());
        }
    }
}

#[test]
fn merge_keeps_base_objects_and_copies_later_pages() {
    let sources = vec![("a.pdf".to_string(), pages_pdf(1)), ("b.pdf".to_string(), pages_pdf(2))];
    let base = easypdf::PdfManipulator::open(pages_pdf(1)).unwrap().into_inner();
    let other = easypdf::PdfManipulator::open(pages_pdf(2)).unwrap().into_inner();
    let merged = EasyPdf::merge(&sources).unwrap();
    let root = base.catalog().unwrap().get(b"Pages").unwrap().as_reference().unwrap();
    for (id, obj) in base.objects.iter().filter(|(id, _)| **id != root) {
        assert_eq!(merged.objects.get(id), Some(obj));
    }
    for page in other.get_pages().into_values() {
        let copy = other.get_object(page).unwrap();
        assert!(merged.objects.values().any(|o| o == copy));
    }
}

#[test]
fn merge_appends_copied_pages_in_order() {
    let sources = vec![
        ("a.pdf".to_string(), pages_pdf(2)),
        ("b.pdf".to_string(), pages_pdf(1)),
        ("c.pdf".to_string(), pages_pdf(3)),
    ];
    let base = easypdf::PdfManipulator::open(pages_pdf(2)).unwrap().into_inner();
    let base_pages: Vec<_> = base.get_pages().into_values().collect();
    let merged = EasyPdf::merge(&sources).unwrap();
    let pages: Vec<_> = merged.get_pages().into_values().collect();
    assert_eq!(pages.len(), 6);
    assert_eq!(&pages[..2], &base_pages[..]);
    assert!(pages[2..].iter().all(|id| !base.objects.contains_key(id)));
    let root = merged.catalog().unwrap().get(b"Pages").unwrap().as_reference().unwrap();
    assert_eq!(merged.get_dictionary(root).unwrap().get(b"Count").unwrap().as_i64().unwrap(), 6);
    let single = EasyPdf::merge(&vec![("a.pdf".to_string(), pages_pdf(2))]).unwrap();
    assert_eq!(single.objects.len(), base.objects.len());
}

#[test]
fn html_renders_to_a_document() {
    let builder = EasyPdf::from_html("<html><body><p>Hello</p></body></html>").unwrap();
    let doc = builder.render().unwrap();
    assert!(!doc.pages.is_empty());
}

#[test]
fn sign_and_encrypt_keep_the_document() {
    let before = easypdf::PdfManipulator::open(pages_pdf(3)).unwrap().into_inner();
    for doc in [EasyPdf::sign(pages_pdf(3), "ok").unwrap(), EasyPdf::encrypt(pages_pdf(3), "pw").unwrap()] {
        assert_eq!(doc.get_pages(), before.get_pages());
        let new_id = (before.max_id + 1, 0);
        let root = before.trailer.get(b"Root").unwrap().as_reference().unwrap();
        for (id, obj) in before.objects.iter().filter(|(id, _)| **id != new_id && **id != root) {
            if obj.as_dict().is_ok() {
                assert_eq!(doc.objects.get(id), Some(obj));
            }
        }
        assert_eq!(doc.trailer.get(b"Root").unwrap(), before.trailer.get(b"Root").unwrap());
    }
}

#[test]
fn fields_matches_repeated_field() {
    let many = EasyPdf::fill_form("t.pdf", &DummyModel)
        .fields(&[("name", "Ann"), ("email", "a@b.c"), ("name", "Bo")])
        .save(form_pdf())
        .unwrap();
    let one_by_one = EasyPdf::fill_form("t.pdf", &DummyModel)
        .field("name", "Ann")
        .field("email", "a@b.c")
        .field("name", "Bo")
        .save(form_pdf())
        .unwrap();
    assert_eq!(many.objects, one_by_one.objects);
    assert_eq!(value_of(&many, b"name"), Some(b"Bo".to_vec()));
}

#[test]
fn rotate_all_writes_the_same_document_as_rotating_each_page() {
    let all = EasyPdf::manipulate("in.pdf").rotate_all(Rotation::Clockwise90).save(pages_pdf(3)).unwrap();
    let rotate = EasyPdf::manipulate("in.pdf").rotate(Rotation::Clockwise90).save(pages_pdf(3)).unwrap();
    let each = EasyPdf::manipulate("in.pdf")
        .rotate_page(1, Rotation::Clockwise90)
        .rotate_page(2, Rotation::Clockwise90)
        .rotate_page(3, Rotation::Clockwise90)
        .save(pages_pdf(3))
        .unwrap();
    assert!(all.objects == each.objects);
    assert!(all.trailer == each.trailer);
    assert!(all.objects == rotate.objects);
    assert!(all.trailer == rotate.trailer);
}

#[test]
fn rotations_in_either_order_write_the_same_document() {
    let ab = EasyPdf::manipulate("in.pdf")
        .rotate_page(2, Rotation::Clockwise90)
        .rotate_page(2, Rotation::Clockwise180)
        .save(pages_pdf(3))
        .unwrap();
    let ba = EasyPdf::manipulate("in.pdf")
        .rotate_page(2, Rotation::Clockwise180)
        .rotate_page(2, Rotation::Clockwise90)
        .save(pages_pdf(3))
        .unwrap();
    assert!(ab.objects == ba.objects);
    assert!(ab.trailer == ba.trailer);
    let pages: Vec<_> = ab.get_pages().into_values().collect();
    let rot = ab.get_dictionary(pages[1]).unwrap().get(b"Rotate").unwrap().as_i64().unwrap();
    assert_eq!(rot, 270);
}
