use easypdf::limits::accepted_by_parser;
use easypdf::{PdfError, PdfReader};

#[test]
fn plain_numbers_are_accepted() {
    assert!(accepted_by_parser(b"1 0 obj << /Length 12 /Index [0 3] >> endobj 2147483647"));
    assert!(accepted_by_parser(b""));
    assert!(accepted_by_parser(b"/Index [0 % a -1 comment\n 5] -7"));
}

#[test]
fn large_numbers_are_refused() {
    assert!(!accepted_by_parser(b"2147483648"));
    assert!(!accepted_by_parser(b"xref\n4294967295 1\n"));
    assert!(accepted_by_parser(b"0000000000214748364"));
}

#[test]
fn negative_index_starts_are_refused() {
    assert!(!accepted_by_parser(b"<< /Type /XRef /Index [-1 1] >>"));
    assert!(!accepted_by_parser(b"<< /Ind#65x [ 0 2 -1 1 ] >>"));
    assert!(!accepted_by_parser(b"/Index\n%c\n[-3 4]"));
    assert!(accepted_by_parser(b"/Index [0 1] /Rotate -90"));
}

#[test]
fn out_of_range_file_is_a_parse_error() {
    let bytes = b"%PDF-1.4\nxref\n4294967295 1\n0000000000 65535 n \ntrailer\n<< /Size 1 >>\nstartxref\n9\n%%EOF\n".to_vec();
    match PdfReader::open(Ok(bytes)) {
        Err(PdfError::Parse(m)) => assert_eq!(m, "file too large, or holds a number out of range"),
        _ => panic!("expected a parse error"),
    }
}
