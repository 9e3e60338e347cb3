//! The entry point [`EasyPdf`] and its builders for reading, splitting,
//! manipulating and filling documents, converting Markdown, and protecting
//! and signing documents. A builder records what to do; its final step takes
//! the contents of the file it names and gives back the result.

use std::ops::Range;
use vstd::prelude::*;
use vstd::utf8::encode_utf8;
use crate::enums::Rotation;
use crate::error::{PdfError, Result};
use crate::manipulate::{
    all_sources_load, copies_later_pages, extracted_from, keeps_objects, merged_pages, well_rooted,
    is_page_tree_root, first_index_out_of_range, indices_below, later_page_count,
    law_rotation_within_full_turn, law_rotations_compose, merge_failure, reordered, room_for,
    rotate_resets, rotated_angle, PdfManipulator,
};
use crate::markdown::{markdown_html, markdown_to_html};
use crate::crypt::{
    file_key, file_key_for, md5, md5_digest, owner_entry, owner_password_entry, user_entry, user_password_entry,
};
use crate::metadata::PdfMetadata;
use crate::pdf_objects::{
    add_dictionary, catalog_dictionary_reference, catalog_reference, dictionary_ids, dictionary_owner,
    document_max_id, document_object_ids, document_pages, has_catalog, info_text, integer_entry,
    integer_list_entry, max_id, name_entry, reference_list_entry, set_catalog_dictionary_reference,
    set_integer_entry, set_integer_list_entry, set_name_entry, set_string_entry,
    set_trailer_reference, string_entry, trailer_reference, held_object, page_walk_complete, changes_only_owner,
    encipher_object, enciphered, file_id, id_lt, keeps_other_entries, lemma_keeps_other_entries_chain, object_ids,
    set_file_id, trailer_file_id, with_integer_entry,
    ObjectId,
};
use crate::reader::{extracted_text, load_outcome, load_pdf, opt_view, FileContents, PdfReader};
use crate::template::{
    all_fields_filled, all_fields_present, first_missing_field, missing_field_message,
    PdfTemplateFiller,
};
use crate::text::{decimal, digit_char, law_three_digits, push_decimal_padded, push_str, zero_padded};

verus! {

/// The main entry point: factory methods that start builder chains.
pub struct EasyPdf;

/// Copy a string slice into a new `String`.
fn owned(s: &str) -> (r: String)
    ensures
        r@ == s@,
{
    let mut r = String::new();
    push_str(&mut r, s);
    r
}

impl EasyPdf {
    /// Start an HTML-to-PDF conversion of `html`.
    pub fn from_html(html: &str) -> (r: Result<HtmlToPdfBuilder>)
        ensures
            r is Ok,
            r->Ok_0.html_source() == html@,
            r->Ok_0.document_title() == "HTML Document"@,
    {
        Ok(HtmlToPdfBuilder::new(html))
    }

    /// Start a conversion of Markdown: it is converted to HTML first.
    pub fn from_markdown(md: &str) -> (r: Result<HtmlToPdfBuilder>)
        ensures
            r is Ok,
            r->Ok_0.html_source() == markdown_html(md@),
            r->Ok_0.document_title() == "HTML Document"@,
    {
        let html = markdown_to_html(md);
        Ok(HtmlToPdfBuilder::new(html.as_str()))
    }

    /// Start reading the PDF at `path`.
    pub fn read(path: &str) -> (b: PdfReadBuilder)
        ensures
            b.path_name() == path@,
            b.page_range() is None,
    {
        PdfReadBuilder::new(path)
    }

    /// Merge documents, each given by its path and the contents of its file,
    /// as [`PdfManipulator::merge_files`] does.
    pub fn merge(sources: &Vec<(String, FileContents)>) -> (r: Result<lopdf::Document>)
        ensures
            sources@.len() == 0 ==> (r matches Err(PdfError::Other(m)) && m@
                == "No input files specified"@),
            sources@.len() > 0 && all_sources_load(sources@) ==> ({
                let base_doc = load_outcome(sources@[0].1)->Ok_0;
                let base = document_object_ids(base_doc);
                let copies = later_page_count(sources@, sources@.len() as int);
                &&& r is Ok
                &&& base.subset_of(document_object_ids(r->Ok_0))
                &&& copies == 0 ==> r->Ok_0 == base_doc
                &&& copies > 0 && room_for(base, copies) ==> {
                    &&& document_object_ids(r->Ok_0).len() == base.len() + copies
                    &&& well_rooted(base_doc) || catalog_reference(base_doc, "Pages"@) is None
                        ==> keeps_objects(r->Ok_0, base_doc) && copies_later_pages(
                        r->Ok_0,
                        sources@,
                        sources@.len() as int,
                    )
                    &&& well_rooted(base_doc) ==> merged_pages(r->Ok_0, base_doc, sources@)
                }
            }),
            sources@.len() > 0 && !all_sources_load(sources@) ==> exists|k: int, m: Seq<char>|
                #[trigger] merge_failure(sources@, k, m) && (r matches Err(PdfError::Parse(s))
                    && s@ == m),
    {
        PdfManipulator::merge_files(sources)
    }

    /// Start splitting the PDF at `path`, one page per file.
    pub fn split(path: &str) -> (b: PdfSplitBuilder)
        ensures
            b.path_name() == path@,
            b.chunk_size() == 1,
    {
        PdfSplitBuilder::new(path)
    }

    /// Start manipulating the PDF at `path`.
    pub fn manipulate(path: &str) -> (b: PdfManipulateBuilder)
        ensures
            b.path_name() == path@,
            b.rotations() == Seq::<(Option<usize>, Rotation)>::empty(),
            b.page_order() is None,
    {
        PdfManipulateBuilder::new(path)
    }

    /// Start filling the form template at `template_path`. The data is not
    /// read: the fields to fill are given to the builder.
    pub fn fill_form<M: ?Sized>(template_path: &str, data: &M) -> (b: PdfFillBuilder)
        ensures
            b.path_name() == template_path@,
            b.field_values() == Seq::<(String, String)>::empty(),
    {
        PdfFillBuilder::new(template_path, data)
    }

    /// Protect the document in `input` with `password` (Standard security
    /// handler, revision 3, 128-bit RC4): the trailer gets a file identifier
    /// when it has none (the MD5 of the file's bytes), a new encryption
    /// dictionary holds the owner and user entries derived from the password
    /// (used as both the owner and the user password) with permissions -4,
    /// the trailer's `/Encrypt` refers to it, and every string and stream
    /// that is an object of its own is enciphered under the file key: the
    /// objects that `lopdf::Document::decrypt` deciphers, so that lopdf reads
    /// the document back whole with the password. Strings inside
    /// dictionaries and arrays are left as they are. A document whose
    /// object numbers are used up to `u32::MAX` has no number left for the
    /// dictionary and gives an `Other` error.
    pub fn encrypt(input: FileContents, password: &str) -> (r: Result<lopdf::Document>)
        ensures
            match load_outcome(input) {
                Ok(d) => if document_max_id(d) == u32::MAX {
                    r matches Err(PdfError::Other(_))
                } else {
                    r is Ok && encrypted_copy(
                        d,
                        r->Ok_0,
                        next_object_id(d),
                        encode_utf8(password@),
                        file_identifier(d, input->Ok_0@),
                    )
                },
                Err(m) => r matches Err(PdfError::Parse(s)) && s@ == m,
            },
    {
        let mut doc = load_pdf(&input)?;
        if max_id(&doc) == u32::MAX {
            return Err(PdfError::Other(owned("no object number is left for the encryption dictionary")));
        }
        let ghost d = doc;
        let id0 = match file_id(&doc) {
            Some(existing) => existing,
            None => {
                let digest = match &input {
                    Ok(bytes) => md5(bytes.as_slice()),
                    Err(_) => Vec::new(),
                };
                set_file_id(&mut doc, digest.as_slice());
                digest
            },
        };
        let pw = reason_bytes(password);
        proof {
            reveal_strlit("ID");
            reveal_strlit("Type");
            reveal_strlit("Linearized");
            reveal_strlit("Kids");
            reveal_strlit("Pages");
            reveal_strlit("Root");
            assert("ID"@.len() == 2 && "Type"@.len() == 4 && "Kids"@.len() == 4 && "Pages"@.len() == 5);
            assert("Root"@.len() == 4 && "Linearized"@.len() == 10);
        }
        let ghost identified = doc;
        let (id, key) = add_encryption_dictionary(&mut doc, pw.as_slice(), id0.as_slice());
        let ghost set_up = doc;
        encipher_all(&mut doc, id, &key);
        proof {
            reveal_strlit("Filter");
            reveal_strlit("V");
            reveal_strlit("R");
            reveal_strlit("Length");
            reveal_strlit("P");
            reveal_strlit("O");
            reveal_strlit("U");
            assert("Filter"@.len() == 6 && "Length"@.len() == 6 && "V"@.len() == 1 && "R"@.len() == 1);
            assert("P"@.len() == 1 && "O"@.len() == 1 && "U"@.len() == 1);
            assert(keeps_other_entries(set_up, doc, Seq::empty()));
            assert(keeps_other_entries(d, identified, "ID"@));
            assert(holds_encryption_dictionary(doc, id, pw@, id0@));
            assert forall|x: ObjectId| x != id implies #[trigger] held_object(doc, x) == match held_object(d, x) {
                Some(o) => Some(enciphered(o, x, key@)),
                None => None::<lopdf::Object>,
            } by {
                assert(held_object(set_up, x) == held_object(d, x));
            }
            assert forall|k: Seq<char>| k != "Encrypt"@ && k != "ID"@ implies #[trigger] trailer_reference(doc, k)
                == trailer_reference(d, k) by {
                assert(trailer_reference(set_up, k) == trailer_reference(identified, k));
                assert(trailer_reference(identified, k) == trailer_reference(d, k));
            }
        }
        Ok(doc)
    }

    /// Add a placeholder signature dictionary (no cryptographic signature)
    /// with the given reason under a new object id, and refer to it from the
    /// catalog's `/Perms /DocMDP` when the document has a catalog. A
    /// document whose object numbers are used up to `u32::MAX` has no number
    /// left for the dictionary and gives an `Other` error.
    pub fn sign(input: FileContents, reason: &str) -> (r: Result<lopdf::Document>)
        ensures
            match load_outcome(input) {
                Ok(d) => if document_max_id(d) == u32::MAX {
                    r matches Err(PdfError::Other(_))
                } else {
                    r is Ok && signed_copy(d, r->Ok_0, next_object_id(d), reason@)
                },
                Err(m) => r matches Err(PdfError::Parse(s)) && s@ == m,
            },
    {
        let mut doc = load_pdf(&input)?;
        if max_id(&doc) == u32::MAX {
            return Err(PdfError::Other(owned("no object number is left for the signature dictionary")));
        }
        let id = add_dictionary(&mut doc);
        proof {
            reveal_strlit("Type");
            reveal_strlit("Filter");
            reveal_strlit("SubFilter");
            reveal_strlit("Reason");
            reveal_strlit("ByteRange");
            reveal_strlit("Contents");
            reveal_strlit("Perms");
            assert("Type"@.len() == 4 && "Perms"@.len() == 5 && "Contents"@.len() == 8);
            assert("Filter"@.len() == 6 && "Reason"@.len() == 6);
            assert("SubFilter"@.len() == 9 && "ByteRange"@.len() == 9);
            assert("Filter"@[0] == 'F' && "Reason"@[0] == 'R');
            assert("SubFilter"@[0] == 'S' && "ByteRange"@[0] == 'B');
            reveal_strlit("Linearized");
            reveal_strlit("Kids");
            reveal_strlit("Pages");
            reveal_strlit("Root");
            reveal_strlit("Sig");
            reveal_strlit("Page");
            assert("Kids"@.len() == 4 && "Pages"@.len() == 5 && "Root"@.len() == 4);
            assert("Linearized"@.len() == 10 && "Sig"@.len() == 3 && "Page"@.len() == 4);
            assert("Type"@[0] == 'T' && "Kids"@[0] == 'K' && "Root"@[0] == 'R');
            assert("Perms"@[0] == 'P' && "Pages"@[1] == 'a' && "Perms"@[1] == 'e');
        }
        set_name_entry(&mut doc, id, "Type", "Sig");
        set_name_entry(&mut doc, id, "Filter", "Adobe.PPKLite");
        set_name_entry(&mut doc, id, "SubFilter", "adbe.pkcs7.detached");
        let reason_text = reason_bytes(reason);
        set_string_entry(&mut doc, id, "Reason", reason_text.as_slice());
        set_integer_list_entry(&mut doc, id, "ByteRange", vec![0, 0, 0, 0]);
        let contents = zero_bytes(8192);
        set_string_entry(&mut doc, id, "Contents", contents.as_slice());
        set_catalog_dictionary_reference(&mut doc, "Perms", "DocMDP", id);
        Ok(doc)
    }
}

/// `n` zero bytes.
pub open spec fn zero_seq(n: nat) -> Seq<u8> {
    Seq::new(n, |i: int| 0u8)
}

/// The id that the next added object takes: one past the largest object
/// number handed out, generation 0.
pub open spec fn next_object_id(doc: lopdf::Document) -> ObjectId {
    ((document_max_id(doc) + 1) as u32, 0u16)
}

/// The first element of the file identifier that encrypting `d` uses: the
/// one its trailer holds, or else the MD5 of the file's bytes.
pub open spec fn file_identifier(d: lopdf::Document, bytes: Seq<u8>) -> Seq<u8> {
    match trailer_file_id(d) {
        Some(id0) => id0,
        None => md5_digest(bytes),
    }
}

/// Whether `doc` holds under `id` the Standard encryption dictionary for
/// password `pw` and file identifier `id0`, with permissions -4.
pub open spec fn holds_encryption_dictionary(doc: lopdf::Document, id: ObjectId, pw: Seq<u8>, id0: Seq<u8>) -> bool {
    &&& name_entry(doc, id, "Filter"@) == Some(encode_utf8("Standard"@))
    &&& integer_entry(doc, id, "V"@) == Some(2i64)
    &&& integer_entry(doc, id, "R"@) == Some(3i64)
    &&& integer_entry(doc, id, "Length"@) == Some(128i64)
    &&& integer_entry(doc, id, "P"@) == Some(-4i64)
    &&& string_entry(doc, id, "O"@) == Some(owner_entry(pw))
    &&& string_entry(doc, id, "U"@) == Some(user_entry(file_key(pw, owner_entry(pw), id0), id0))
}

/// Whether `r` is `d` protected with password `pw` and file identifier
/// `id0`: the encryption dictionary added under `id` and referred to from
/// the trailer's `/Encrypt`, the identifier in the trailer, and every other
/// object enciphered under the file key.
pub open spec fn encrypted_copy(d: lopdf::Document, r: lopdf::Document, id: ObjectId, pw: Seq<u8>, id0: Seq<u8>) -> bool {
    let key = file_key(pw, owner_entry(pw), id0);
    &&& document_object_ids(r) == document_object_ids(d).insert(id)
    &&& document_max_id(r) == id.0
    &&& holds_encryption_dictionary(r, id, pw, id0)
    &&& trailer_reference(r, "Encrypt"@) == Some(id)
    &&& trailer_file_id(r) == Some(id0)
    &&& forall|k: Seq<char>|
        k != "Encrypt"@ && k != "ID"@ ==> #[trigger] trailer_reference(r, k) == trailer_reference(d, k)
    &&& forall|x: ObjectId|
        x != id ==> #[trigger] held_object(r, x) == match held_object(d, x) {
            Some(o) => Some(enciphered(o, x, key)),
            None => None::<lopdf::Object>,
        }
    &&& (!document_object_ids(d).contains(id) && page_walk_complete(d) ==> document_pages(r)
        == document_pages(d))
}

/// Add the encryption dictionary for password `pw` and file identifier
/// `id0` under a new id and refer to it from the trailer; the new id and
/// the file key.
fn add_encryption_dictionary(doc: &mut lopdf::Document, pw: &[u8], id0: &[u8]) -> (r: (ObjectId, Vec<u8>))
    requires
        document_max_id(*old(doc)) < u32::MAX,
        trailer_file_id(*old(doc)) == Some(id0@),
    ensures
        r.0 == next_object_id(*old(doc)),
        r.1@ == file_key(pw@, owner_entry(pw@), id0@),
        r.1@.len() == 16,
        document_object_ids(*final(doc)) == document_object_ids(*old(doc)).insert(r.0),
        document_max_id(*final(doc)) == r.0.0,
        holds_encryption_dictionary(*final(doc), r.0, pw@, id0@),
        trailer_reference(*final(doc), "Encrypt"@) == Some(r.0),
        trailer_file_id(*final(doc)) == Some(id0@),
        forall|k: Seq<char>| k != "Encrypt"@ ==> #[trigger] trailer_reference(*final(doc), k)
            == trailer_reference(*old(doc), k),
        forall|x: ObjectId| x != r.0 ==> #[trigger] held_object(*final(doc), x) == held_object(*old(doc), x),
        !document_object_ids(*old(doc)).contains(r.0) && page_walk_complete(*old(doc)) ==> document_pages(
            *final(doc),
        ) == document_pages(*old(doc)) && page_walk_complete(*final(doc)),
{
    let o = owner_password_entry(pw);
    let key = file_key_for(pw, o.as_slice(), id0);
    let u = user_password_entry(&key, id0);
    let id = add_dictionary(doc);
    proof {
        reveal_strlit("Filter");
        reveal_strlit("V");
        reveal_strlit("R");
        reveal_strlit("Length");
        reveal_strlit("P");
        reveal_strlit("O");
        reveal_strlit("U");
        reveal_strlit("Encrypt");
        reveal_strlit("Root");
        reveal_strlit("Info");
        reveal_strlit("ID");
        assert("Filter"@.len() == 6 && "Length"@.len() == 6 && "Encrypt"@.len() == 7);
        assert("Root"@.len() == 4 && "Info"@.len() == 4 && "ID"@.len() == 2);
        assert("Filter"@[0] == 'F' && "Length"@[0] == 'L');
        assert("V"@.len() == 1 && "R"@.len() == 1 && "P"@.len() == 1);
        assert("O"@.len() == 1 && "U"@.len() == 1);
        assert("V"@[0] == 'V' && "R"@[0] == 'R' && "P"@[0] == 'P' && "O"@[0] == 'O' && "U"@[0] == 'U');
        reveal_strlit("Type");
        reveal_strlit("Linearized");
        reveal_strlit("Kids");
        reveal_strlit("Pages");
        assert("Type"@.len() == 4 && "Kids"@.len() == 4 && "Pages"@.len() == 5);
        assert("Linearized"@.len() == 10);
        assert("Type"@[0] == 'T' && "Kids"@[0] == 'K' && "Root"@[0] == 'R' && "Info"@[0] == 'I');
    }
    set_name_entry(doc, id, "Filter", "Standard");
    set_integer_entry(doc, id, "V", 2);
    set_integer_entry(doc, id, "R", 3);
    set_integer_entry(doc, id, "Length", 128);
    set_integer_entry(doc, id, "P", -4);
    set_string_entry(doc, id, "O", o.as_slice());
    set_string_entry(doc, id, "U", u.as_slice());
    set_trailer_reference(doc, "Encrypt", id);
    (id, key)
}

/// Encipher, under `key`, every object of `doc` but the one under `skip`.
fn encipher_all(doc: &mut lopdf::Document, skip: ObjectId, key: &Vec<u8>)
    ensures
        forall|x: ObjectId|
            x != skip ==> #[trigger] held_object(*final(doc), x) == match held_object(*old(doc), x) {
                Some(o) => Some(enciphered(o, x, key@)),
                None => None::<lopdf::Object>,
            },
        held_object(*final(doc), skip) == held_object(*old(doc), skip),
        document_object_ids(*final(doc)) == document_object_ids(*old(doc)),
        forall|k: Seq<char>| #[trigger] keeps_other_entries(*old(doc), *final(doc), k),
        document_pages(*final(doc)) == document_pages(*old(doc)),
        page_walk_complete(*final(doc)) == page_walk_complete(*old(doc)),
        forall|k: Seq<char>| #[trigger] trailer_reference(*final(doc), k) == trailer_reference(*old(doc), k),
        trailer_file_id(*final(doc)) == trailer_file_id(*old(doc)),
        document_max_id(*final(doc)) == document_max_id(*old(doc)),
{
    let ghost start = *doc;
    let ids = object_ids(doc);
    let mut i: usize = 0;
    while i < ids.len()
        invariant
            i <= ids@.len(),
            ids@.to_set() == document_object_ids(start),
            forall|a: int, b: int| 0 <= a < b < ids@.len() ==> id_lt(ids@[a], ids@[b]),
            forall|x: ObjectId|
                #[trigger] held_object(*doc, x) == if x != skip && ids@.take(i as int).contains(x) {
                    match held_object(start, x) {
                        Some(o) => Some(enciphered(o, x, key@)),
                        None => None::<lopdf::Object>,
                    }
                } else {
                    held_object(start, x)
                },
            document_object_ids(*doc) == document_object_ids(start),
            forall|k: Seq<char>| #[trigger] keeps_other_entries(start, *doc, k),
            document_pages(*doc) == document_pages(start),
            page_walk_complete(*doc) == page_walk_complete(start),
            forall|k: Seq<char>| #[trigger] trailer_reference(*doc, k) == trailer_reference(start, k),
            trailer_file_id(*doc) == trailer_file_id(start),
            document_max_id(*doc) == document_max_id(start),
        decreases ids@.len() - i,
    {
        let x = ids[i];
        let ghost before = *doc;
        assert(keeps_other_entries(start, before, Seq::empty()));
        assert((x.0 != skip.0 || x.1 != skip.1) <==> x != skip);
        if x.0 != skip.0 || x.1 != skip.1 {
            encipher_object(doc, x, key.as_slice());
            proof {
                assert(keeps_other_entries(before, *doc, Seq::empty()));
                assert forall|k: Seq<char>| #[trigger] keeps_other_entries(start, *doc, k) by {
                    lemma_keeps_other_entries_chain(start, before, *doc, k);
                }
            }
        }
        proof {
            assert forall|y: ObjectId| #[trigger] held_object(*doc, y) == if y != skip && ids@.take(i + 1).contains(y) {
                match held_object(start, y) {
                    Some(o) => Some(enciphered(o, y, key@)),
                    None => None::<lopdf::Object>,
                }
            } else {
                held_object(start, y)
            } by {
                assert(ids@.take(i + 1) =~= ids@.take(i as int).push(x));
                if y == x {
                    assert(ids@.take(i + 1)[i as int] == x);
                } else {
                    if ids@.take(i + 1).contains(y) {
                        let j = choose|j: int| 0 <= j < i + 1 && #[trigger] ids@.take(i + 1)[j] == y;
                        assert(ids@.take(i as int)[j] == y);
                    }
                    if ids@.take(i as int).contains(y) {
                        let j = choose|j: int| 0 <= j < i && #[trigger] ids@.take(i as int)[j] == y;
                        assert(ids@.take(i + 1)[j] == y);
                    }
                }
                assert(ids@.take(i + 1).contains(y) <==> (ids@.take(i as int).contains(y) || y == x));
                assert(held_object(before, y) == if y != skip && ids@.take(i as int).contains(y) {
                    match held_object(start, y) {
                        Some(o) => Some(enciphered(o, y, key@)),
                        None => None::<lopdf::Object>,
                    }
                } else {
                    held_object(start, y)
                });
                if y == x {
                    assert(!ids@.take(i as int).contains(x)) by {
                        if ids@.take(i as int).contains(x) {
                            let a = choose|a: int| 0 <= a < i && #[trigger] ids@.take(i as int)[a] == x;
                            assert(ids@.take(i as int)[a] == ids@[a]);
                            assert(id_lt(ids@[a], ids@[i as int]));
                        }
                    }
                    assert(held_object(before, x) == held_object(start, x));
                } else {
                    assert(held_object(*doc, y) == held_object(before, y));
                }
            }
        }
        i = i + 1;
    }
    proof {
        assert(ids@.take(ids@.len() as int) =~= ids@);
        assert forall|x: ObjectId| x != skip implies #[trigger] held_object(*doc, x) == match held_object(start, x) {
            Some(o) => Some(enciphered(o, x, key@)),
            None => None::<lopdf::Object>,
        } by {
            if !ids@.contains(x) {
                assert(!document_object_ids(start).contains(x));
            }
        }
    }
}

/// The keys that signing sets: those of the signature dictionary and the
/// catalog's `/Perms`.
pub open spec fn signing_key(k: Seq<char>) -> bool {
    ||| k == "Type"@
    ||| k == "Filter"@
    ||| k == "SubFilter"@
    ||| k == "Reason"@
    ||| k == "ByteRange"@
    ||| k == "Contents"@
    ||| k == "Perms"@
}

/// Whether `r` is `d` with a placeholder signature dictionary for `reason`
/// added under `id`, referred to from the catalog's `/Perms /DocMDP` when
/// `d` has a catalog.
pub open spec fn signed_copy(d: lopdf::Document, r: lopdf::Document, id: ObjectId, reason: Seq<char>) -> bool {
    &&& document_object_ids(r) == document_object_ids(d).insert(id)
    &&& document_max_id(r) == id.0
    &&& name_entry(r, id, "Type"@) == Some(encode_utf8("Sig"@))
    &&& name_entry(r, id, "Filter"@) == Some(encode_utf8("Adobe.PPKLite"@))
    &&& name_entry(r, id, "SubFilter"@) == Some(encode_utf8("adbe.pkcs7.detached"@))
    &&& string_entry(r, id, "Reason"@) == Some(encode_utf8(reason))
    &&& integer_list_entry(r, id, "ByteRange"@) == Some(seq![0i64, 0i64, 0i64, 0i64])
    &&& string_entry(r, id, "Contents"@) == Some(zero_seq(8192))
    &&& (has_catalog(d) ==> catalog_dictionary_reference(r, "Perms"@, "DocMDP"@) == Some(id))
    &&& forall|k: Seq<char>| #[trigger] trailer_reference(r, k) == trailer_reference(d, k)
    &&& forall|x: ObjectId|
        x != id && x != dictionary_owner(r, trailer_reference(d, "Root"@)->Some_0) ==> #[trigger] held_object(
            r,
            x,
        ) == held_object(d, x)
    &&& (!document_object_ids(d).contains(id) && has_catalog(d) ==> forall|k: Seq<char>|
        !signing_key(k) ==> #[trigger] catalog_reference(r, k) == catalog_reference(d, k))
    &&& (!document_object_ids(d).contains(id) && page_walk_complete(d) ==> document_pages(r)
        == document_pages(d))
}

/// `n` zero bytes.
fn zero_bytes(n: usize) -> (v: Vec<u8>)
    ensures
        v@ == zero_seq(n as nat),
{
    let mut v: Vec<u8> = Vec::new();
    let mut i: usize = 0;
    while i < n
        invariant
            i <= n,
            v@ == Seq::new(i as nat, |j: int| 0u8),
        decreases n - i,
    {
        v.push(0);
        i = i + 1;
        assert(v@ =~= Seq::new(i as nat, |j: int| 0u8));
    }
    v
}

/// The UTF-8 bytes of `s`.
fn reason_bytes(s: &str) -> (v: Vec<u8>)
    ensures
        v@ == vstd::utf8::encode_utf8(s@),
{
    let b = s.as_bytes();
    let mut v: Vec<u8> = Vec::new();
    let mut i: usize = 0;
    while i < b.len()
        invariant
            i <= b@.len(),
            v@ == b@.take(i as int),
        decreases b@.len() - i,
    {
        v.push(b[i]);
        i = i + 1;
        assert(v@ =~= b@.take(i as int));
    }
    assert(b@.take(b@.len() as int) =~= b@);
    v
}

// ---------------------------------------------------------------------
// HTML to PDF
// ---------------------------------------------------------------------

#[verifier::external_type_specification]
#[verifier::external_body]
pub struct ExPdfDocument(printpdf::PdfDocument);

/// Lay out `html` as a PDF document; the renderer's message when it fails.
///
/// Trusted: calls `printpdf::PdfDocument::from_html` with no images, no
/// fonts and the default `printpdf::GeneratePdfOptions`, dropping the
/// warnings it collects. Nothing is said of the document it returns: the
/// ids that printpdf gives a new document are random, so two renderings of
/// the same HTML differ. Whether its layout engine can panic on some HTML is
/// not shown by the source read here.
#[verifier::external_body]
fn render_html(html: &str) -> (r: core::result::Result<printpdf::PdfDocument, String>) {
    let mut warnings = Vec::new();
    let images = std::collections::BTreeMap::new();
    let fonts = std::collections::BTreeMap::new();
    let options = printpdf::GeneratePdfOptions::default();
    printpdf::PdfDocument::from_html(html, &images, &fonts, &options, &mut warnings)
}

/// Builder for HTML-to-PDF conversion: the HTML and the document title.
pub struct HtmlToPdfBuilder {
    html: String,
    title: String,
}

impl HtmlToPdfBuilder {
    /// The HTML to render.
    pub closed spec fn html_source(&self) -> Seq<char> {
        self.html@
    }

    /// The title of the document to produce.
    pub closed spec fn document_title(&self) -> Seq<char> {
        self.title@
    }

    /// A builder for `html`, titled "HTML Document".
    pub fn new(html: &str) -> (b: Self)
        ensures
            b.html_source() == html@,
            b.document_title() == "HTML Document"@,
    {
        HtmlToPdfBuilder { html: owned(html), title: owned("HTML Document") }
    }

    /// Set the document title.
    pub fn title(self, title: &str) -> (b: Self)
        ensures
            b.html_source() == self.html_source(),
            b.document_title() == title@,
    {
        HtmlToPdfBuilder { html: self.html, title: owned(title) }
    }

    /// The HTML to render.
    pub fn html(&self) -> (h: &str)
        ensures
            h@ == self.html_source(),
    {
        self.html.as_str()
    }

    /// The title of the document to produce.
    pub fn title_text(&self) -> (t: &str)
        ensures
            t@ == self.document_title(),
    {
        self.title.as_str()
    }

    /// Render the HTML as a PDF document, ready to be written out. A failure
    /// of the renderer is an `Other` error whose message is the renderer's,
    /// after "HTML render error: ".
    pub fn render(&self) -> (r: Result<printpdf::PdfDocument>)
        ensures
            r is Err ==> r->Err_0 is Other && exists|detail: Seq<char>|
                r->Err_0->Other_0@ == "HTML render error: "@ + detail,
    {
        match render_html(self.html.as_str()) {
            Ok(doc) => Ok(doc),
            Err(e) => {
                let mut m = String::new();
                push_str(&mut m, "HTML render error: ");
                push_str(&mut m, e.as_str());
                Err(PdfError::Other(m))
            },
        }
    }
}

// ---------------------------------------------------------------------
// Reading
// ---------------------------------------------------------------------

/// Builder for reading a PDF: its path and the pages to read.
pub struct PdfReadBuilder {
    path: String,
    pages: Option<Range<usize>>,
}

impl PdfReadBuilder {
    /// The path of the file to read.
    pub closed spec fn path_name(&self) -> Seq<char> {
        self.path@
    }

    /// The 0-based page range to read, if any.
    pub closed spec fn page_range(&self) -> Option<Range<usize>> {
        self.pages
    }

    /// A builder for `path`, reading every page.
    pub fn new(path: &str) -> (b: Self)
        ensures
            b.path_name() == path@,
            b.page_range() is None,
    {
        PdfReadBuilder { path: owned(path), pages: None }
    }

    /// The path of the file to read.
    pub fn path(&self) -> (p: &str)
        ensures
            p@ == self.path_name(),
    {
        self.path.as_str()
    }

    /// Limit extraction to a range of 0-based page indices.
    pub fn pages(self, range: Range<usize>) -> (b: Self)
        ensures
            b.path_name() == self.path_name(),
            b.page_range() == Some(range),
    {
        PdfReadBuilder { path: self.path, pages: Some(range) }
    }

    /// Extract the text of the selected pages of the document in `file`.
    pub fn extract_text(self, file: FileContents) -> (r: Result<String>)
        ensures
            match load_outcome(file) {
                Ok(d) => r is Ok && r->Ok_0@ == extracted_text(d, self.page_range()),
                Err(m) => r matches Err(PdfError::Parse(s)) && s@ == m,
            },
    {
        let mut reader = PdfReader::open(file)?;
        match self.pages {
            Some(range) => {
                reader = reader.pages(range);
            },
            None => {},
        }
        reader.extract_text()
    }

    /// Extract the metadata of the document in `file`.
    pub fn metadata(self, file: FileContents) -> (r: Result<PdfMetadata>)
        ensures
            match load_outcome(file) {
                Ok(d) => {
                    &&& r is Ok
                    &&& opt_view(r->Ok_0.title) == info_text(d, "Title"@)
                    &&& opt_view(r->Ok_0.author) == info_text(d, "Author"@)
                    &&& r->Ok_0.subject is None
                    &&& r->Ok_0.keywords is None
                    &&& r->Ok_0.creator is None
                    &&& r->Ok_0.producer is None
                },
                Err(m) => r matches Err(PdfError::Parse(s)) && s@ == m,
            },
    {
        PdfReader::open(file)?.extract_metadata()
    }

    /// The number of pages of the document in `file`.
    pub fn page_count(self, file: FileContents) -> (r: Result<usize>)
        ensures
            match load_outcome(file) {
                Ok(d) => r == Ok::<usize, PdfError>(document_pages(d).len() as usize),
                Err(m) => r matches Err(PdfError::Parse(s)) && s@ == m,
            },
    {
        PdfReader::open(file)?.page_count()
    }
}

// ---------------------------------------------------------------------
// Splitting
// ---------------------------------------------------------------------

/// The number of files that splitting `total` pages into files of `n`
/// pages gives.
pub open spec fn chunk_count(total: nat, n: nat) -> nat {
    if total == 0 {
        0
    } else {
        ((total + n - 1) / (n as int)) as nat
    }
}

/// The name of the `k`-th file (1-based) of a split: `page_001.pdf`, ….
pub open spec fn split_file_name(k: nat) -> Seq<char> {
    "page_"@ + zero_padded(decimal(k), 3) + ".pdf"@
}

/// The files of a split below the thousandth are named `page_` followed by
/// the three digits of their number and `.pdf`: twelve characters.
pub proof fn law_split_file_names(k: nat)
    requires
        1 <= k < 1000,
    ensures
        split_file_name(k) == "page_"@ + seq![digit_char(k / 100), digit_char((k / 10) % 10), digit_char(k % 10)]
            + ".pdf"@,
        split_file_name(k).len() == 12,
{
    law_three_digits(k);
    reveal_strlit("page_");
    reveal_strlit(".pdf");
    assert("page_"@.len() == 5);
    assert(".pdf"@.len() == 4);
    let d = seq![digit_char(k / 100), digit_char((k / 10) % 10), digit_char(k % 10)];
    assert(d.len() == 3);
    let a = "page_"@;
    let b = ".pdf"@;
    assert(a.len() == 5);
    assert(b.len() == 4);
    assert((a + d + b).len() == 12);
    assert(split_file_name(k) == a + d + b);
}

/// The number of pages in file `k` (0-based) of a split of `total` pages
/// into files of `n` pages.
pub open spec fn chunk_len(total: nat, n: nat, k: nat) -> nat {
    if (k + 1) * n <= total {
        n
    } else {
        (total - k * n) as nat
    }
}

/// The number of pages in the first `m` files of a split of `total` pages
/// into files of `n` pages.
pub open spec fn chunks_total(total: nat, n: nat, m: nat) -> nat
    decreases m,
{
    if m == 0 {
        0
    } else {
        chunks_total(total, n, (m - 1) as nat) + chunk_len(total, n, (m - 1) as nat)
    }
}

/// `chunk_count` files reach past the last page, and all but one of them
/// start before it.
proof fn lemma_chunk_count_bounds(total: nat, n: nat)
    requires
        n > 0,
    ensures
        chunk_count(total, n) * n >= total,
        chunk_count(total, n) > 0 ==> (chunk_count(total, n) - 1) * n < total,
{
    if total > 0 {
        let x = (total + n - 1) as int;
        let c = chunk_count(total, n) as int;
        vstd::arithmetic::div_mod::lemma_fundamental_div_mod(x, n as int);
        let r = x % (n as int);
        assert(x == n * c + r);
        assert(0 <= r < n);
        assert(c * n == n * c) by (nonlinear_arith);
        assert((c - 1) * n == c * n - n) by (nonlinear_arith);
    }
}

/// The first `m` files of a split hold `m * n` pages, or all of them.
proof fn lemma_chunks_total(total: nat, n: nat, m: nat)
    requires
        n > 0,
        m <= chunk_count(total, n),
        chunk_count(total, n) > 0 ==> (chunk_count(total, n) - 1) * n < total,
    ensures
        chunks_total(total, n, m) == (if m * n <= total { m * n } else { total }),
    decreases m,
{
    if m > 0 {
        let k = (m - 1) as nat;
        lemma_chunks_total(total, n, k);
        assert(k * n <= (chunk_count(total, n) - 1) * n) by (nonlinear_arith)
            requires
                k < chunk_count(total, n),
                n > 0,
        ;
        assert((k + 1) * n == k * n + n) by (nonlinear_arith);
        assert(m * n == k * n + n);
        assert(k * n <= total);
        assert(chunks_total(total, n, k) == k * n);
        assert(chunks_total(total, n, m) == chunks_total(total, n, k) + chunk_len(total, n, k));
    } else {
        assert(m * n == 0) by (nonlinear_arith)
            requires
                m == 0,
        ;
    }
}

/// The files of a split share out the pages exactly: each holds between
/// one and `n` pages, and together they hold all `total`.
pub proof fn law_split_covers_every_page(total: nat, n: nat)
    requires
        n > 0,
    ensures
        chunks_total(total, n, chunk_count(total, n)) == total,
        forall|k: nat| k < chunk_count(total, n) ==> 0 < #[trigger] chunk_len(total, n, k) <= n,
{
    let c = chunk_count(total, n);
    lemma_chunk_count_bounds(total, n);
    assert forall|k: nat| k < c implies 0 < #[trigger] chunk_len(total, n, k) <= n by {
        assert(k * n <= (c - 1) * n) by (nonlinear_arith)
            requires
                k < c,
                n > 0,
        ;
        assert((k + 1) * n == k * n + n) by (nonlinear_arith);
    }
    lemma_chunks_total(total, n, c);
    if c * n == total {
    } else {
        assert(c * n > total);
    }
}

/// Builder for splitting a PDF into files of a number of pages each.
pub struct PdfSplitBuilder {
    path: String,
    pages_per_file: usize,
}

impl PdfSplitBuilder {
    /// The path of the file to split.
    pub closed spec fn path_name(&self) -> Seq<char> {
        self.path@
    }

    /// The number of pages per file.
    pub closed spec fn chunk_size(&self) -> usize {
        self.pages_per_file
    }

    /// A builder for `path`, one page per file.
    pub fn new(path: &str) -> (b: Self)
        ensures
            b.path_name() == path@,
            b.chunk_size() == 1,
    {
        PdfSplitBuilder { path: owned(path), pages_per_file: 1 }
    }

    /// The path of the file to split.
    pub fn path(&self) -> (p: &str)
        ensures
            p@ == self.path_name(),
    {
        self.path.as_str()
    }

    /// The number of pages per file.
    pub fn pages_per_file(&self) -> (n: usize)
        ensures
            n == self.chunk_size(),
    {
        self.pages_per_file
    }

    /// Set the number of pages per file.
    pub fn every_n_pages(self, n: usize) -> (b: Self)
        ensures
            b.path_name() == self.path_name(),
            b.chunk_size() == n,
    {
        PdfSplitBuilder { path: self.path, pages_per_file: n }
    }

    /// Split the document in `file` into consecutive runs of
    /// `pages_per_file` pages (the last may be shorter), each copied into a
    /// new document of those pages, in order, as
    /// [`PdfManipulator::extract_pages`] does, and named
    /// `page_001.pdf`, `page_002.pdf`, … in order. A size of 0 is only for
    /// a file that does not load or has no pages: there is nothing to split.
    pub fn split_pages(self, file: FileContents) -> (r: Result<Vec<(String, lopdf::Document)>>)
        requires
            self.chunk_size() > 0 || (load_outcome(file) matches Ok(d) ==> document_pages(d).len() == 0),
        ensures
            match load_outcome(file) {
                Ok(d) => {
                    let total = document_pages(d).len();
                    let n = self.chunk_size() as nat;
                    &&& r is Ok
                    &&& r->Ok_0@.len() == chunk_count(total, n)
                    &&& forall|k: int|
                        0 <= k < r->Ok_0@.len() ==> (#[trigger] r->Ok_0@[k]).0@ == split_file_name(
                            (k + 1) as nat,
                        ) && (chunk_len(total, n, k as nat) + 2 < u32::MAX ==> extracted_from(
                            r->Ok_0@[k].1,
                            d,
                            k * n,
                            chunk_len(total, n, k as nat) as int,
                        ))
                },
                Err(m) => r matches Err(PdfError::Parse(s)) && s@ == m,
            },
    {
        let manipulator = PdfManipulator::open(file)?;
        let total = manipulator.page_count();
        let n = self.pages_per_file;
        let mut out: Vec<(String, lopdf::Document)> = Vec::new();
        if n == 0 {
            return Ok(out);
        }
        let mut start: usize = 0;
        let mut k: usize = 0;
        while start < total
            invariant
                n > 0,
                total == document_pages(manipulator.document()).len(),
                start <= total,
                start as int == (if k * n <= total { k * n } else { total as int }),
                k == 0 || (k - 1) * n < total,
                out@.len() == k,
                forall|j: int|
                    0 <= j < out@.len() ==> (#[trigger] out@[j]).0@ == split_file_name((j + 1) as nat)
                        && (chunk_len(total as nat, n as nat, j as nat) + 2 < u32::MAX
                        ==> extracted_from(
                        out@[j].1,
                        manipulator.document(),
                        j * n,
                        chunk_len(total as nat, n as nat, j as nat) as int,
                    )),
            decreases total - start,
        {
            proof {
                assert((k + 1) * n == k * n + n) by (nonlinear_arith);
                assert(k <= k * n) by (nonlinear_arith)
                    requires
                        n > 0,
                ;
            }
            let end: usize = if n > total - start {
                total
            } else {
                start + n
            };
            let chunk = match manipulator.extract_pages(start..end) {
                Ok(d) => d,
                Err(e) => {
                    return Err(e);
                },
            };
            let mut name = String::new();
            push_str(&mut name, "page_");
            push_decimal_padded(&mut name, k + 1, 3);
            push_str(&mut name, ".pdf");
            let ghost prev = out@;
            out.push((name, chunk));
            proof {
                assert(chunk_len(total as nat, n as nat, k as nat) == end - start);
                assert forall|j: int|
                    0 <= j < out@.len() implies (#[trigger] out@[j]).0@ == split_file_name(
                        (j + 1) as nat,
                    ) && (chunk_len(total as nat, n as nat, j as nat) + 2 < u32::MAX
                        ==> extracted_from(
                        out@[j].1,
                        manipulator.document(),
                        j * n,
                        chunk_len(total as nat, n as nat, j as nat) as int,
                    )) by {
                    if j < k {
                        assert(out@[j] == prev[j]);
                    }
                }
            }
            start = end;
            k = k + 1;
        }
        proof {
            lemma_chunk_count(total as nat, n as nat, k as nat);
        }
        Ok(out)
    }
}

/// `k` files cover `total` pages exactly when the `k - 1` files before the
/// last do not.
proof fn lemma_chunk_count(total: nat, n: nat, k: nat)
    requires
        n > 0,
        total <= k * n,
        k == 0 || (k - 1) * n < total,
    ensures
        chunk_count(total, n) == k,
{
    let x = (total + n - 1) as int;
    let r = x - k * n;
    if k == 0 {
        assert(total == 0) by (nonlinear_arith)
            requires
                total <= k * n,
                k == 0,
        ;
    } else {
        assert((k - 1) * n == k * n - n) by (nonlinear_arith);
    }
    vstd::arithmetic::div_mod::lemma_fundamental_div_mod_converse(x, n as int, k as int, r);
}

// ---------------------------------------------------------------------
// Manipulating
// ---------------------------------------------------------------------

/// Whether a rotation's target is a page of a document with `count` pages:
/// `Some(n)` names page `n` (1-based), `None` stands for every page.
pub open spec fn rotation_target_ok(target: Option<usize>, count: nat) -> bool {
    match target {
        Some(n) => 1 <= n <= count,
        None => true,
    }
}

/// Whether a rotation's target covers page `page` (1-based).
pub open spec fn rotation_targets(target: Option<usize>, page: int) -> bool {
    match target {
        Some(n) => n == page,
        None => true,
    }
}

/// Whether every rotation of `rotations` targets pages of a document with
/// `count` pages.
pub open spec fn rotations_valid(rotations: Seq<(Option<usize>, Rotation)>, count: nat) -> bool {
    forall|k: int|
        0 <= k < rotations.len() ==> rotation_target_ok((#[trigger] rotations[k]).0, count)
}

/// Whether rotation `k` is the first whose target is not a page.
pub open spec fn first_bad_rotation(rotations: Seq<(Option<usize>, Rotation)>, count: nat, k: int) -> bool {
    &&& 0 <= k < rotations.len()
    &&& !rotation_target_ok(rotations[k].0, count)
    &&& forall|j: int| 0 <= j < k ==> rotation_target_ok((#[trigger] rotations[j]).0, count)
}

/// Whether `order`, if any, only holds indices below `count`.
pub open spec fn order_valid(order: Option<Seq<usize>>, count: nat) -> bool {
    match order {
        Some(o) => indices_below(o, count),
        None => true,
    }
}

/// The `/Rotate` value of page `page` (1-based) after `rotations` are
/// applied in order to a page whose value is `initial`: each rotation that
/// targets the page, or every page, turns it as [`rotated_angle`] says.
pub open spec fn page_rotation_after(
    initial: Option<i64>,
    rotations: Seq<(Option<usize>, Rotation)>,
    page: int,
) -> Option<i64>
    decreases rotations.len(),
{
    if rotations.len() == 0 {
        initial
    } else {
        let prev = page_rotation_after(initial, rotations.drop_last(), page);
        let (number, r) = rotations.last();
        if rotation_targets(number, page) {
            let current = match prev {
                Some(v) => v as int,
                None => 0,
            };
            Some(rotated_angle(current, r) as i64)
        } else {
            prev
        }
    }
}

/// Whether no two pages of `doc` read the same dictionary.
pub open spec fn distinct_page_dictionaries(doc: lopdf::Document) -> bool {
    forall|i: int, j: int|
        0 <= i < j < document_pages(doc).len() ==> dictionary_owner(doc, document_pages(doc)[i])
            != dictionary_owner(doc, document_pages(doc)[j])
}

/// Whether the object stored under `x` is that of a page of `doc`.
pub open spec fn is_page_object(doc: lopdf::Document, x: ObjectId) -> bool {
    exists|i: int| 0 <= i < document_pages(doc).len() && x == dictionary_owner(doc, #[trigger] document_pages(doc)[i])
}

/// Whether `r` holds what `d` holds under every id but those of `d`'s pages
/// (and, when `with_root`, of its page tree's root), with the same trailer.
pub open spec fn changes_only_page_objects(d: lopdf::Document, r: lopdf::Document, with_root: bool) -> bool {
    &&& forall|x: ObjectId|
        #[trigger] held_object(r, x) != held_object(d, x) ==> is_page_object(d, x) || (with_root
            && is_page_tree_root(d, x))
    &&& forall|k: Seq<char>| #[trigger] trailer_reference(r, k) == trailer_reference(d, k)
}

/// A change to the object of page `i` keeps the objects other than pages'.
proof fn lemma_page_change_kept(d: lopdf::Document, before: lopdf::Document, after: lopdf::Document, i: int)
    requires
        0 <= i < document_pages(d).len(),
        document_pages(before) == document_pages(d),
        forall|x: ObjectId| #[trigger] dictionary_owner(before, x) == dictionary_owner(d, x),
        changes_only_page_objects(d, before, false),
        changes_only_owner(before, after, document_pages(before)[i]),
    ensures
        changes_only_page_objects(d, after, false),
{
    assert forall|x: ObjectId| #[trigger] held_object(after, x) != held_object(d, x) implies is_page_object(
        d,
        x,
    ) by {
        if held_object(before, x) == held_object(d, x) {
            assert(x == dictionary_owner(before, document_pages(before)[i]));
            assert(x == dictionary_owner(d, document_pages(d)[i]));
        }
    }
}

/// One more rotation, unfolded.
proof fn lemma_rotation_step(initial: Option<i64>, rotations: Seq<(Option<usize>, Rotation)>, k: int, page: int)
    requires
        0 <= k < rotations.len(),
    ensures
        page_rotation_after(initial, rotations.take(k + 1), page) == ({
            let prev = page_rotation_after(initial, rotations.take(k), page);
            if rotation_targets(rotations[k].0, page) {
                let current = match prev {
                    Some(v) => v as int,
                    None => 0,
                };
                Some(rotated_angle(current, rotations[k].1) as i64)
            } else {
                prev
            }
        }),
{
    assert(rotations.take(k + 1).drop_last() =~= rotations.take(k));
}

/// The object of page `page` (1-based) after `rotations`, when it was `o`
/// with the `/Rotate` value `initial`: once a rotation targets the page, its
/// dictionary with `/Rotate` set to what [`page_rotation_after`] gives; `o`
/// itself while none does.
pub open spec fn page_object_after(
    o: Option<lopdf::Object>,
    initial: Option<i64>,
    rotations: Seq<(Option<usize>, Rotation)>,
    page: int,
) -> Option<lopdf::Object>
    decreases rotations.len(),
{
    if rotations.len() == 0 {
        o
    } else if rotation_targets(rotations.last().0, page) {
        match o {
            Some(obj) => Some(
                with_integer_entry(obj, "Rotate"@, page_rotation_after(initial, rotations, page)->Some_0),
            ),
            None => None,
        }
    } else {
        page_object_after(o, initial, rotations.drop_last(), page)
    }
}

/// Whether `r` is `d` with `rotations` applied: the objects other than the
/// pages' and the trailer are as they were, and each page's object is
/// [`page_object_after`] the rotations.
pub open spec fn rotated_copy(d: lopdf::Document, r: lopdf::Document, rotations: Seq<(Option<usize>, Rotation)>) -> bool {
    &&& changes_only_page_objects(d, r, false)
    &&& forall|i: int|
        0 <= i < document_pages(d).len() ==> #[trigger] held_object(r, dictionary_owner(d, document_pages(d)[i]))
            == page_object_after(
            held_object(d, dictionary_owner(d, document_pages(d)[i])),
            integer_entry(d, document_pages(d)[i], "Rotate"@),
            rotations,
            i + 1,
        )
}

/// What the object of a page becomes after the rotations so far, and that
/// a rotation on it starts again from its first dictionary.
spec fn page_object_tracked(
    d: lopdf::Document,
    cur: lopdf::Document,
    rotations: Seq<(Option<usize>, Rotation)>,
    i: int,
) -> bool {
    let o = held_object(d, dictionary_owner(d, document_pages(d)[i]));
    &&& held_object(cur, dictionary_owner(d, document_pages(d)[i])) == page_object_after(
        o,
        integer_entry(d, document_pages(d)[i], "Rotate"@),
        rotations,
        i + 1,
    )
    &&& page_object_after(o, integer_entry(d, document_pages(d)[i], "Rotate"@), rotations, i + 1) == o || (
    o matches Some(obj) && rotate_resets(obj) && page_object_after(
        o,
        integer_entry(d, document_pages(d)[i], "Rotate"@),
        rotations,
        i + 1,
    ) == Some(
        with_integer_entry(
            obj,
            "Rotate"@,
            page_rotation_after(integer_entry(d, document_pages(d)[i], "Rotate"@), rotations, i + 1)->Some_0,
        ),
    ))
}

/// The rotations that have reached page `i` (0-based) while rotation `k`
/// turns the pages before `p`.
spec fn rotations_so_far(rotations: Seq<(Option<usize>, Rotation)>, k: int, i: int, p: int) -> Seq<(Option<usize>, Rotation)> {
    rotations.take(if i < p { k + 1 } else { k })
}

/// One more rotation of a page, seen on its object.
proof fn lemma_page_object_step(
    d: lopdf::Document,
    before: lopdf::Document,
    after: lopdf::Document,
    rotations: Seq<(Option<usize>, Rotation)>,
    k: int,
    i: int,
    rotated: bool,
)
    requires
        0 <= k < rotations.len(),
        0 <= i < document_pages(d).len(),
        page_object_tracked(d, before, rotations.take(k), i),
        integer_entry(before, document_pages(d)[i], "Rotate"@) == page_rotation_after(
            integer_entry(d, document_pages(d)[i], "Rotate"@),
            rotations.take(k),
            i + 1,
        ),
        rotated == rotation_targets(rotations[k].0, i + 1),
        rotated ==> ({
            let current = match integer_entry(before, document_pages(d)[i], "Rotate"@) {
                Some(v) => v as int,
                None => 0,
            };
            held_object(before, dictionary_owner(d, document_pages(d)[i])) matches Some(o) && held_object(
                after,
                dictionary_owner(d, document_pages(d)[i]),
            ) == Some(with_integer_entry(o, "Rotate"@, rotated_angle(current, rotations[k].1) as i64))
                && rotate_resets(o)
        }),
        !rotated ==> held_object(after, dictionary_owner(d, document_pages(d)[i])) == held_object(
            before,
            dictionary_owner(d, document_pages(d)[i]),
        ),
    ensures
        page_object_tracked(d, after, rotations.take(k + 1), i),
{
    let init = integer_entry(d, document_pages(d)[i], "Rotate"@);
    let o = held_object(d, dictionary_owner(d, document_pages(d)[i]));
    assert(rotations.take(k + 1).drop_last() =~= rotations.take(k));
    assert(rotations.take(k + 1).last() == rotations[k]);
    lemma_rotation_step(init, rotations, k, i + 1);
    let pk = rotations.take(k);
    let pk1 = rotations.take(k + 1);
    let prev = page_object_after(o, init, pk, i + 1);
    let owner = dictionary_owner(d, document_pages(d)[i]);
    assert(held_object(before, owner) == prev);
    if rotated {
        let obj = o->Some_0;
        let v = page_rotation_after(init, pk1, i + 1)->Some_0;
        assert(page_object_after(o, init, pk1, i + 1) == Some(with_integer_entry(obj, "Rotate"@, v)));
        if prev != o {
            let a = page_rotation_after(init, pk, i + 1)->Some_0;
            assert(held_object(after, owner) == Some(
                with_integer_entry(with_integer_entry(obj, "Rotate"@, a), "Rotate"@, v),
            ));
            assert(rotate_resets(obj));
        }
    } else {
        assert(page_object_after(o, init, pk1, i + 1) == prev);
    }
}

/// On each page, rotating every page has the effect of rotating that page
/// alone: [`PdfManipulateBuilder::rotate_all`] and
/// [`PdfManipulateBuilder::rotate_page`] of the page leave it with the same
/// `/Rotate` value.
pub proof fn law_rotate_all_is_per_page(
    initial: Option<i64>,
    rotations: Seq<(Option<usize>, Rotation)>,
    r: Rotation,
    page: usize,
)
    ensures
        page_rotation_after(initial, rotations.push((None, r)), page as int) == page_rotation_after(
            initial,
            rotations.push((Some(page), r)),
            page as int,
        ),
{
    assert(rotations.push((None::<usize>, r)).drop_last() =~= rotations);
    assert(rotations.push((Some(page), r)).drop_last() =~= rotations);
}

/// Two rotations recorded one after the other turn a page by the sum of
/// their angles, so their order does not matter, from a `/Rotate` value
/// that is absent or not negative.
pub proof fn law_builder_rotations_commute(
    o: Option<lopdf::Object>,
    initial: Option<i64>,
    rotations: Seq<(Option<usize>, Rotation)>,
    a: (Option<usize>, Rotation),
    b: (Option<usize>, Rotation),
    page: int,
)
    requires
        match page_rotation_after(initial, rotations, page) {
            Some(v) => v >= 0,
            None => true,
        },
    ensures
        page_rotation_after(initial, rotations.push(a).push(b), page) == page_rotation_after(
            initial,
            rotations.push(b).push(a),
            page,
        ),
        page_object_after(o, initial, rotations.push(a).push(b), page) == page_object_after(
            o,
            initial,
            rotations.push(b).push(a),
            page,
        ),
{
    let ab = rotations.push(a).push(b);
    let ba = rotations.push(b).push(a);
    assert(ab.drop_last() =~= rotations.push(a));
    assert(ba.drop_last() =~= rotations.push(b));
    assert(rotations.push(a).drop_last() =~= rotations);
    assert(rotations.push(b).drop_last() =~= rotations);
    let c: int = match page_rotation_after(initial, rotations, page) {
        Some(v) => v as int,
        None => 0,
    };
    if rotation_targets(a.0, page) && rotation_targets(b.0, page) {
        let x1 = rotated_angle(c, a.1);
        let x2 = rotated_angle(c, b.1);
        law_rotation_within_full_turn(c, a.1);
        law_rotation_within_full_turn(c, b.1);
        assert(page_rotation_after(initial, rotations.push(a), page) == Some(x1 as i64));
        assert(page_rotation_after(initial, rotations.push(b), page) == Some(x2 as i64));
        assert((x1 as i64) as int == x1);
        assert((x2 as i64) as int == x2);
        law_rotations_compose(c, a.1, b.1);
        law_rotations_compose(c, b.1, a.1);
        assert(rotated_angle(x1, b.1) == rotated_angle(x2, a.1));
        assert(page_rotation_after(initial, ab, page) == Some(rotated_angle(x1, b.1) as i64));
        assert(page_rotation_after(initial, ba, page) == Some(rotated_angle(x2, a.1) as i64));
    }
    assert(page_rotation_after(initial, ab, page) == page_rotation_after(initial, ba, page));
    assert(ab.last() == b && ba.last() == a);
    assert(rotations.push(a).last() == a && rotations.push(b).last() == b);
    let pa = page_object_after(o, initial, rotations.push(a), page);
    let pb = page_object_after(o, initial, rotations.push(b), page);
    let p0 = page_object_after(o, initial, rotations, page);
    if rotation_targets(b.0, page) {
        assert(page_object_after(o, initial, ab, page) == match o {
            Some(obj) => Some(
                with_integer_entry(obj, "Rotate"@, page_rotation_after(initial, ab, page)->Some_0),
            ),
            None => None::<lopdf::Object>,
        });
    } else {
        assert(page_object_after(o, initial, ab, page) == pa);
    }
    if rotation_targets(a.0, page) {
        assert(page_object_after(o, initial, ba, page) == match o {
            Some(obj) => Some(
                with_integer_entry(obj, "Rotate"@, page_rotation_after(initial, ba, page)->Some_0),
            ),
            None => None::<lopdf::Object>,
        });
        assert(pa == match o {
            Some(obj) => Some(
                with_integer_entry(obj, "Rotate"@, page_rotation_after(initial, rotations.push(a), page)->Some_0),
            ),
            None => None::<lopdf::Object>,
        });
    } else {
        assert(page_object_after(o, initial, ba, page) == pb);
        assert(pa == p0);
    }
    if rotation_targets(b.0, page) {
        assert(pb == match o {
            Some(obj) => Some(
                with_integer_entry(obj, "Rotate"@, page_rotation_after(initial, rotations.push(b), page)->Some_0),
            ),
            None => None::<lopdf::Object>,
        });
    } else {
        assert(pb == p0);
    }
    if rotation_targets(a.0, page) && !rotation_targets(b.0, page) {
        assert(page_rotation_after(initial, ab, page) == page_rotation_after(initial, rotations.push(a), page));
    }
    if !rotation_targets(a.0, page) && rotation_targets(b.0, page) {
        assert(page_rotation_after(initial, ba, page) == page_rotation_after(initial, rotations.push(b), page));
    }
}

/// The rotations that turn pages 1 to `n`, one after the other, by `r`.
pub open spec fn each_page_rotation(n: nat, r: Rotation) -> Seq<(Option<usize>, Rotation)> {
    Seq::new(n, |j: int| (Some((j + 1) as usize), r))
}

/// Rotations that do not reach `page` change neither its `/Rotate` value
/// nor its object.
proof fn lemma_untouched_by(
    o: Option<lopdf::Object>,
    initial: Option<i64>,
    rotations: Seq<(Option<usize>, Rotation)>,
    extra: Seq<(Option<usize>, Rotation)>,
    page: int,
)
    requires
        forall|j: int| 0 <= j < extra.len() ==> !rotation_targets((#[trigger] extra[j]).0, page),
    ensures
        page_rotation_after(initial, rotations + extra, page) == page_rotation_after(initial, rotations, page),
        page_object_after(o, initial, rotations + extra, page) == page_object_after(o, initial, rotations, page),
    decreases extra.len(),
{
    if extra.len() == 0 {
        assert(rotations + extra =~= rotations);
    } else {
        lemma_untouched_by(o, initial, rotations, extra.drop_last(), page);
        assert((rotations + extra).drop_last() =~= rotations + extra.drop_last());
        assert((rotations + extra).last() == extra[extra.len() - 1]);
    }
}

/// On each page, rotating every page by `r` has the effect of rotating
/// pages 1 to `n` one at a time by `r`: the page ends with the same
/// `/Rotate` value and the same object.
pub proof fn law_rotate_all_is_rotating_each_page(
    o: Option<lopdf::Object>,
    initial: Option<i64>,
    rotations: Seq<(Option<usize>, Rotation)>,
    r: Rotation,
    n: nat,
    page: int,
)
    requires
        1 <= page <= n,
        n <= usize::MAX,
    ensures
        page_rotation_after(initial, rotations.push((None, r)), page) == page_rotation_after(
            initial,
            rotations + each_page_rotation(n, r),
            page,
        ),
        page_object_after(o, initial, rotations.push((None, r)), page) == page_object_after(
            o,
            initial,
            rotations + each_page_rotation(n, r),
            page,
        ),
{
    let e = each_page_rotation(n, r);
    let front = e.take(page - 1);
    let back = e.skip(page);
    assert forall|j: int| 0 <= j < front.len() implies !rotation_targets((#[trigger] front[j]).0, page) by {
        assert(front[j] == e[j]);
    }
    lemma_untouched_by(o, initial, rotations, front, page);
    let mid = (rotations + front).push(e[page - 1]);
    assert forall|j: int| 0 <= j < back.len() implies !rotation_targets((#[trigger] back[j]).0, page) by {
        assert(back[j] == e[j + page]);
    }
    lemma_untouched_by(o, initial, mid, back, page);
    assert(mid + back =~= rotations + e);
    assert(mid.drop_last() =~= rotations + front);
    assert(rotations.push((None, r)).drop_last() =~= rotations);
    assert(rotation_targets(e[page - 1].0, page));
}

/// Two documents rotated from `d` whose pages end with the same objects are
/// the same document: every id holds the same object in both, and their
/// trailers agree.
pub proof fn law_rotated_copies_agree(
    d: lopdf::Document,
    r1: lopdf::Document,
    r2: lopdf::Document,
    rotations1: Seq<(Option<usize>, Rotation)>,
    rotations2: Seq<(Option<usize>, Rotation)>,
)
    requires
        rotated_copy(d, r1, rotations1),
        rotated_copy(d, r2, rotations2),
        forall|i: int|
            0 <= i < document_pages(d).len() ==> #[trigger] page_object_after(
                held_object(d, dictionary_owner(d, document_pages(d)[i])),
                integer_entry(d, document_pages(d)[i], "Rotate"@),
                rotations1,
                i + 1,
            ) == page_object_after(
                held_object(d, dictionary_owner(d, document_pages(d)[i])),
                integer_entry(d, document_pages(d)[i], "Rotate"@),
                rotations2,
                i + 1,
            ),
    ensures
        forall|x: ObjectId| #[trigger] held_object(r1, x) == held_object(r2, x),
        forall|k: Seq<char>| #[trigger] trailer_reference(r1, k) == trailer_reference(r2, k),
{
    assert forall|x: ObjectId| #[trigger] held_object(r1, x) == held_object(r2, x) by {
        if held_object(r1, x) != held_object(d, x) || held_object(r2, x) != held_object(d, x) {
            assert(is_page_object(d, x));
            let i = choose|i: int|
                0 <= i < document_pages(d).len() && x == dictionary_owner(d, #[trigger] document_pages(d)[i]);
            assert(held_object(r1, dictionary_owner(d, document_pages(d)[i])) == held_object(
                r2,
                dictionary_owner(d, document_pages(d)[i]),
            ));
        }
    }
    assert forall|k: Seq<char>| #[trigger] trailer_reference(r1, k) == trailer_reference(r2, k) by {
        assert(trailer_reference(r1, k) == trailer_reference(d, k));
    }
}

/// Rotating every page by `r`, and rotating pages 1 to `n` one at a time by
/// `r` after the same rotations, give the same document.
pub proof fn law_rotate_all_writes_as_each_page(
    d: lopdf::Document,
    r1: lopdf::Document,
    r2: lopdf::Document,
    rotations: Seq<(Option<usize>, Rotation)>,
    r: Rotation,
)
    requires
        document_pages(d).len() <= usize::MAX,
        rotated_copy(d, r1, rotations.push((None, r))),
        rotated_copy(d, r2, rotations + each_page_rotation(document_pages(d).len(), r)),
    ensures
        forall|x: ObjectId| #[trigger] held_object(r1, x) == held_object(r2, x),
        forall|k: Seq<char>| #[trigger] trailer_reference(r1, k) == trailer_reference(r2, k),
{
    let n = document_pages(d).len();
    assert forall|i: int| 0 <= i < n implies #[trigger] page_object_after(
        held_object(d, dictionary_owner(d, document_pages(d)[i])),
        integer_entry(d, document_pages(d)[i], "Rotate"@),
        rotations.push((None, r)),
        i + 1,
    ) == page_object_after(
        held_object(d, dictionary_owner(d, document_pages(d)[i])),
        integer_entry(d, document_pages(d)[i], "Rotate"@),
        rotations + each_page_rotation(n, r),
        i + 1,
    ) by {
        law_rotate_all_is_rotating_each_page(
            held_object(d, dictionary_owner(d, document_pages(d)[i])),
            integer_entry(d, document_pages(d)[i], "Rotate"@),
            rotations,
            r,
            n,
            i + 1,
        );
    }
    law_rotated_copies_agree(d, r1, r2, rotations.push((None, r)), rotations + each_page_rotation(n, r));
}

/// Two rotations recorded one after the other give the same document in
/// either order, from pages whose `/Rotate` values before them are absent
/// or not negative.
pub proof fn law_rotations_commute_on_documents(
    d: lopdf::Document,
    r1: lopdf::Document,
    r2: lopdf::Document,
    rotations: Seq<(Option<usize>, Rotation)>,
    a: (Option<usize>, Rotation),
    b: (Option<usize>, Rotation),
)
    requires
        forall|i: int|
            0 <= i < document_pages(d).len() ==> match #[trigger] page_rotation_after(
                integer_entry(d, document_pages(d)[i], "Rotate"@),
                rotations,
                i + 1,
            ) {
                Some(v) => v >= 0,
                None => true,
            },
        rotated_copy(d, r1, rotations.push(a).push(b)),
        rotated_copy(d, r2, rotations.push(b).push(a)),
    ensures
        forall|x: ObjectId| #[trigger] held_object(r1, x) == held_object(r2, x),
        forall|k: Seq<char>| #[trigger] trailer_reference(r1, k) == trailer_reference(r2, k),
{
    assert forall|i: int| 0 <= i < document_pages(d).len() implies #[trigger] page_object_after(
        held_object(d, dictionary_owner(d, document_pages(d)[i])),
        integer_entry(d, document_pages(d)[i], "Rotate"@),
        rotations.push(a).push(b),
        i + 1,
    ) == page_object_after(
        held_object(d, dictionary_owner(d, document_pages(d)[i])),
        integer_entry(d, document_pages(d)[i], "Rotate"@),
        rotations.push(b).push(a),
        i + 1,
    ) by {
        assert(match page_rotation_after(integer_entry(d, document_pages(d)[i], "Rotate"@), rotations, i + 1) {
            Some(v) => v >= 0,
            None => true,
        });
        law_builder_rotations_commute(
            held_object(d, dictionary_owner(d, document_pages(d)[i])),
            integer_entry(d, document_pages(d)[i], "Rotate"@),
            rotations,
            a,
            b,
            i + 1,
        );
    }
    law_rotated_copies_agree(d, r1, r2, rotations.push(a).push(b), rotations.push(b).push(a));
}

/// Builder for manipulating a PDF: rotations to apply in order, then an
/// optional reordering of the pages.
pub struct PdfManipulateBuilder {
    path: String,
    rotations: Vec<(Option<usize>, Rotation)>,
    order: Option<Vec<usize>>,
}

impl PdfManipulateBuilder {
    /// The path of the file to manipulate.
    pub closed spec fn path_name(&self) -> Seq<char> {
        self.path@
    }

    /// The rotations to apply, in order: a 1-based page number, or 0 for
    /// every page, and the rotation.
    pub closed spec fn rotations(&self) -> Seq<(Option<usize>, Rotation)> {
        self.rotations@
    }

    /// The new page order (0-based indices), if any.
    pub closed spec fn page_order(&self) -> Option<Seq<usize>> {
        match self.order {
            Some(o) => Some(o@),
            None => None,
        }
    }

    /// A builder for `path` with nothing to do yet.
    pub fn new(path: &str) -> (b: Self)
        ensures
            b.path_name() == path@,
            b.rotations() == Seq::<(Option<usize>, Rotation)>::empty(),
            b.page_order() is None,
    {
        PdfManipulateBuilder { path: owned(path), rotations: Vec::new(), order: None }
    }

    /// The path of the file to manipulate.
    pub fn path(&self) -> (p: &str)
        ensures
            p@ == self.path_name(),
    {
        self.path.as_str()
    }

    /// Rotate page `page_number` (1-based).
    pub fn rotate_page(self, page_number: usize, rotation: Rotation) -> (b: Self)
        ensures
            b.path_name() == self.path_name(),
            b.rotations() == self.rotations().push((Some(page_number), rotation)),
            b.page_order() == self.page_order(),
    {
        let mut rotations = self.rotations;
        rotations.push((Some(page_number), rotation));
        PdfManipulateBuilder { path: self.path, rotations, order: self.order }
    }

    /// Rotate every page.
    pub fn rotate_all(self, rotation: Rotation) -> (b: Self)
        ensures
            b.path_name() == self.path_name(),
            b.rotations() == self.rotations().push((None::<usize>, rotation)),
            b.page_order() == self.page_order(),
    {
        self.rotate(rotation)
    }

    /// Rotate every page.
    pub fn rotate(self, rotation: Rotation) -> (b: Self)
        ensures
            b.path_name() == self.path_name(),
            b.rotations() == self.rotations().push((None::<usize>, rotation)),
            b.page_order() == self.page_order(),
    {
        let mut rotations = self.rotations;
        rotations.push((None, rotation));
        PdfManipulateBuilder { path: self.path, rotations, order: self.order }
    }

    /// Reorder the pages by `order` (0-based indices), replacing any order
    /// given before.
    pub fn reorder_pages(self, order: &[usize]) -> (b: Self)
        ensures
            b.path_name() == self.path_name(),
            b.rotations() == self.rotations(),
            b.page_order() == Some(order@),
    {
        let mut v: Vec<usize> = Vec::new();
        let mut i: usize = 0;
        while i < order.len()
            invariant
                i <= order@.len(),
                v@ == order@.take(i as int),
            decreases order@.len() - i,
        {
            v.push(order[i]);
            i = i + 1;
            assert(v@ =~= order@.take(i as int));
        }
        assert(order@.take(order@.len() as int) =~= order@);
        PdfManipulateBuilder { path: self.path, rotations: self.rotations, order: Some(v) }
    }

    /// Apply the rotations in order (page 0 standing for every page), then
    /// the reordering, to the document in `file`, and give back the result.
    /// `InvalidPage` names the first rotation's page number that is past the
    /// last page, or else the first out-of-range index of the order.
    pub fn save(self, file: FileContents) -> (r: Result<lopdf::Document>)
        ensures
            match load_outcome(file) {
                Ok(d) => {
                    let count = document_pages(d).len();
                    let rots = self.rotations();
                    &&& !rotations_valid(rots, count) ==> exists|k: int|
                        #[trigger] first_bad_rotation(rots, count, k) && r == Err::<
                            lopdf::Document,
                            PdfError,
                        >(PdfError::InvalidPage(rots[k].0->Some_0))
                    &&& match self.page_order() {
                        Some(o) => rotations_valid(rots, count) && !indices_below(o, count)
                            ==> exists|i: int|
                            first_index_out_of_range(o, count, i) && r == Err::<
                                lopdf::Document,
                                PdfError,
                            >(PdfError::InvalidPage(#[trigger] o[i])),
                        None => true,
                    }
                    &&& rotations_valid(rots, count) && order_valid(self.page_order(), count) ==> {
                        &&& r is Ok
                        &&& document_object_ids(r->Ok_0) == document_object_ids(d)
                        &&& changes_only_page_objects(d, r->Ok_0, self.page_order() is Some)
                        &&& self.page_order() is None ==> document_pages(r->Ok_0) == document_pages(d)
                        &&& self.page_order() is None && distinct_page_dictionaries(d) ==> rotated_copy(
                            d,
                            r->Ok_0,
                            rots,
                        )
                        &&& distinct_page_dictionaries(d) ==> forall|i: int|
                            0 <= i < count ==> #[trigger] integer_entry(
                                r->Ok_0,
                                document_pages(d)[i],
                                "Rotate"@,
                            ) == page_rotation_after(
                                integer_entry(d, document_pages(d)[i], "Rotate"@),
                                rots,
                                i + 1,
                            )
                        &&& match self.page_order() {
                            Some(o) => match catalog_reference(d, "Pages"@) {
                                Some(root) => dictionary_ids(d).contains(root) ==> {
                                    &&& integer_entry(r->Ok_0, root, "Count"@) == Some(
                                        o.len() as i64,
                                    )
                                    &&& reference_list_entry(r->Ok_0, root, "Kids"@) == Some(
                                        reordered(document_pages(d), o),
                                    )
                                    &&& o.len() <= document_object_ids(d).len() ==> document_pages(
                                        r->Ok_0,
                                    ) == reordered(document_pages(d), o)
                                },
                                None => true,
                            },
                            None => true,
                        }
                    }
                },
                Err(m) => r matches Err(PdfError::Parse(s)) && s@ == m,
            },
    {
        let mut manipulator = PdfManipulator::open(file)?;
        let ghost d = manipulator.document();
        proof {
            reveal_strlit("Rotate");
            reveal_strlit("Pages");
            assert("Rotate"@.len() == 6);
            assert("Pages"@.len() == 5);
        }
        let count = manipulator.page_count();
        let mut k: usize = 0;
        while k < self.rotations.len()
            invariant
                k <= self.rotations@.len(),
                load_outcome(file) is Ok && load_outcome(file)->Ok_0 == d,
                count == document_pages(d).len(),
                forall|j: int|
                    0 <= j < k ==> rotation_target_ok((#[trigger] self.rotations@[j]).0, count as nat),
                document_pages(manipulator.document()) == document_pages(d),
                document_object_ids(manipulator.document()) == document_object_ids(d),
                dictionary_ids(manipulator.document()) == dictionary_ids(d),
                catalog_reference(manipulator.document(), "Pages"@) == catalog_reference(
                    d,
                    "Pages"@,
                ),
                "Rotate"@ != "Pages"@,
                forall|x: ObjectId| #[trigger] dictionary_owner(manipulator.document(), x)
                    == dictionary_owner(d, x),
                changes_only_page_objects(d, manipulator.document(), false),
                distinct_page_dictionaries(d) ==> forall|i: int|
                    0 <= i < count ==> #[trigger] integer_entry(
                        manipulator.document(),
                        document_pages(d)[i],
                        "Rotate"@,
                    ) == page_rotation_after(
                        integer_entry(d, document_pages(d)[i], "Rotate"@),
                        self.rotations@.take(k as int),
                        i + 1,
                    ),
                distinct_page_dictionaries(d) ==> forall|i: int|
                    0 <= i < count ==> #[trigger] page_object_tracked(
                        d,
                        manipulator.document(),
                        self.rotations@.take(k as int),
                        i,
                    ),
            decreases self.rotations@.len() - k,
        {
            let (target, rotation) = self.rotations[k];
            if let Some(page_number) = target {
                let ghost before = manipulator.document();
                match manipulator.rotate_page(page_number, rotation) {
                    Ok(()) => {},
                    Err(e) => {
                        assert(first_bad_rotation(self.rotations@, count as nat, k as int));
                        return Err(e);
                    },
                }
                proof {
                    lemma_page_change_kept(d, before, manipulator.document(), page_number - 1);
                    if distinct_page_dictionaries(d) {
                        assert forall|i: int| 0 <= i < count implies #[trigger] integer_entry(
                            manipulator.document(),
                            document_pages(d)[i],
                            "Rotate"@,
                        ) == page_rotation_after(
                            integer_entry(d, document_pages(d)[i], "Rotate"@),
                            self.rotations@.take(k + 1),
                            i + 1,
                        ) by {
                            lemma_rotation_step(
                                integer_entry(d, document_pages(d)[i], "Rotate"@),
                                self.rotations@,
                                k as int,
                                i + 1,
                            );
                            if i + 1 != page_number {
                                assert(dictionary_owner(d, document_pages(d)[i]) != dictionary_owner(
                                    d,
                                    document_pages(d)[page_number - 1],
                                ));
                            }
                        }
                        assert forall|i: int| 0 <= i < count implies #[trigger] page_object_tracked(
                            d,
                            manipulator.document(),
                            self.rotations@.take(k + 1),
                            i,
                        ) by {
                            if i + 1 != page_number {
                                assert(dictionary_owner(d, document_pages(d)[i]) != dictionary_owner(
                                    d,
                                    document_pages(d)[page_number - 1],
                                ));
                            }
                            assert(page_object_tracked(d, before, self.rotations@.take(k as int), i));
                            lemma_page_object_step(
                                d,
                                before,
                                manipulator.document(),
                                self.rotations@,
                                k as int,
                                i,
                                i + 1 == page_number,
                            );
                        }
                    }
                }
            } else {
                let mut p: usize = 0;
                while p < count
                    invariant
                        p <= count,
                        k < self.rotations@.len(),
                        load_outcome(file) is Ok && load_outcome(file)->Ok_0 == d,
                        self.rotations@[k as int].0 is None,
                        forall|j: int|
                    0 <= j < k ==> rotation_target_ok((#[trigger] self.rotations@[j]).0, count as nat),
                        count == document_pages(d).len(),
                        document_pages(manipulator.document()) == document_pages(d),
                        document_object_ids(manipulator.document()) == document_object_ids(d),
                        dictionary_ids(manipulator.document()) == dictionary_ids(d),
                        catalog_reference(manipulator.document(), "Pages"@) == catalog_reference(
                            d,
                            "Pages"@,
                        ),
                        "Rotate"@ != "Pages"@,
                        self.rotations@[k as int].1 == rotation,
                        forall|x: ObjectId| #[trigger] dictionary_owner(manipulator.document(), x)
                            == dictionary_owner(d, x),
                        changes_only_page_objects(d, manipulator.document(), false),
                        distinct_page_dictionaries(d) ==> forall|i: int|
                            0 <= i < count ==> #[trigger] integer_entry(
                                manipulator.document(),
                                document_pages(d)[i],
                                "Rotate"@,
                            ) == page_rotation_after(
                                integer_entry(d, document_pages(d)[i], "Rotate"@),
                                self.rotations@.take(if i < p { k + 1 } else { k as int }),
                                i + 1,
                            ),
                        distinct_page_dictionaries(d) ==> forall|i: int|
                            0 <= i < count ==> #[trigger] page_object_tracked(
                                d,
                                manipulator.document(),
                                rotations_so_far(self.rotations@, k as int, i, p as int),
                                i,
                            ),
                    decreases count - p,
                {
                    let ghost before = manipulator.document();
                    match manipulator.rotate_page(p + 1, rotation) {
                        Ok(()) => {},
                        Err(e) => {
                            return Err(e);
                        },
                    }
                    proof {
                        lemma_page_change_kept(d, before, manipulator.document(), p as int);
                        if distinct_page_dictionaries(d) {
                            assert forall|i: int| 0 <= i < count implies #[trigger] integer_entry(
                                manipulator.document(),
                                document_pages(d)[i],
                                "Rotate"@,
                            ) == page_rotation_after(
                                integer_entry(d, document_pages(d)[i], "Rotate"@),
                                self.rotations@.take(if i < p + 1 { k + 1 } else { k as int }),
                                i + 1,
                            ) by {
                                lemma_rotation_step(
                                    integer_entry(d, document_pages(d)[i], "Rotate"@),
                                    self.rotations@,
                                    k as int,
                                    i + 1,
                                );
                                if i != p {
                                    assert(dictionary_owner(d, document_pages(d)[i]) != dictionary_owner(
                                        d,
                                        document_pages(d)[p as int],
                                    ));
                                }
                            }
                            assert forall|i: int| 0 <= i < count implies #[trigger] page_object_tracked(
                                d,
                                manipulator.document(),
                                rotations_so_far(self.rotations@, k as int, i, p + 1),
                                i,
                            ) by {
                                let seq = rotations_so_far(self.rotations@, k as int, i, p as int);
                                assert(page_object_tracked(d, before, seq, i));
                                if i != p {
                                    assert(dictionary_owner(d, document_pages(d)[i]) != dictionary_owner(
                                        d,
                                        document_pages(d)[p as int],
                                    ));
                                    assert(held_object(manipulator.document(), dictionary_owner(d, document_pages(d)[i]))
                                        == held_object(before, dictionary_owner(d, document_pages(d)[i])));
                                } else {
                                    lemma_page_object_step(
                                        d,
                                        before,
                                        manipulator.document(),
                                        self.rotations@,
                                        k as int,
                                        i,
                                        true,
                                    );
                                }
                            }
                        }
                    }
                    p = p + 1;
                }
                proof {
                    if distinct_page_dictionaries(d) {
                        assert forall|i: int| 0 <= i < count implies #[trigger] integer_entry(
                            manipulator.document(),
                            document_pages(d)[i],
                            "Rotate"@,
                        ) == page_rotation_after(
                            integer_entry(d, document_pages(d)[i], "Rotate"@),
                            self.rotations@.take(k + 1),
                            i + 1,
                        ) by {
                            assert(i < p);
                        }
                        assert forall|i: int| 0 <= i < count implies #[trigger] page_object_tracked(
                            d,
                            manipulator.document(),
                            self.rotations@.take(k + 1),
                            i,
                        ) by {
                            assert(i < p);
                            assert(page_object_tracked(
                                d,
                                manipulator.document(),
                                rotations_so_far(self.rotations@, k as int, i, p as int),
                                i,
                            ));
                        }
                    }
                }
            }
            k = k + 1;
        }
        proof {
            assert(self.rotations@.take(self.rotations@.len() as int) =~= self.rotations@);
            reveal_strlit("Count");
            reveal_strlit("Kids");
            assert("Count"@.len() == 5);
            assert("Kids"@.len() == 4);
        }
        let ghost rotated = manipulator.document();
        proof {
            if distinct_page_dictionaries(d) {
                assert forall|i: int| 0 <= i < count implies #[trigger] held_object(
                    rotated,
                    dictionary_owner(d, document_pages(d)[i]),
                ) == page_object_after(
                    held_object(d, dictionary_owner(d, document_pages(d)[i])),
                    integer_entry(d, document_pages(d)[i], "Rotate"@),
                    self.rotations@,
                    i + 1,
                ) by {
                    assert(page_object_tracked(d, rotated, self.rotations@.take(self.rotations@.len() as int), i));
                }
            }
        }
        match &self.order {
            Some(order) => {
                match manipulator.reorder_pages(order.as_slice()) {
                    Ok(()) => {},
                    Err(e) => {
                        return Err(e);
                    },
                }
                proof {
                    if indices_below(order@, count as nat) {
                        assert forall|x: ObjectId|
                            #[trigger] held_object(manipulator.document(), x) != held_object(d, x)
                                implies is_page_object(d, x) || is_page_tree_root(d, x) by {
                            if held_object(rotated, x) == held_object(d, x) {
                                match catalog_reference(rotated, "Pages"@) {
                                    Some(root) => {
                                        if dictionary_ids(rotated).contains(root) {
                                            assert(x == dictionary_owner(rotated, root));
                                            assert(dictionary_owner(rotated, root) == dictionary_owner(d, root));
                                            assert(is_page_tree_root(d, x));
                                        }
                                    },
                                    None => {},
                                }
                            }
                        }
                    }
                }
            },
            None => {},
        }
        Ok(manipulator.into_inner())
    }
}

// ---------------------------------------------------------------------
// Filling forms
// ---------------------------------------------------------------------

/// The names and values of `fields`, as text.
pub open spec fn field_views(fields: Seq<(String, String)>) -> Seq<(Seq<char>, Seq<char>)> {
    fields.map_values(|f: (String, String)| (f.0@, f.1@))
}

/// The names and values of `pairs`, as text.
pub open spec fn pair_views(pairs: Seq<(&str, &str)>) -> Seq<(Seq<char>, Seq<char>)> {
    pairs.map_values(|p: (&str, &str)| (p.0@, p.1@))
}

/// The field values after adding each of `pairs` in turn, one
/// [`PdfFillBuilder::field`] call at a time.
pub open spec fn fields_one_by_one(
    start: Seq<(Seq<char>, Seq<char>)>,
    pairs: Seq<(Seq<char>, Seq<char>)>,
) -> Seq<(Seq<char>, Seq<char>)>
    decreases pairs.len(),
{
    if pairs.len() == 0 {
        start
    } else {
        fields_one_by_one(start, pairs.drop_last()).push(pairs.last())
    }
}

/// Adding field values with [`PdfFillBuilder::fields`] records what adding
/// them one by one with [`PdfFillBuilder::field`] records.
pub proof fn law_fields_is_repeated_field(start: Seq<(Seq<char>, Seq<char>)>, pairs: Seq<(Seq<char>, Seq<char>)>)
    ensures
        fields_one_by_one(start, pairs) == start + pairs,
    decreases pairs.len(),
{
    if pairs.len() > 0 {
        law_fields_is_repeated_field(start, pairs.drop_last());
        assert(start + pairs =~= (start + pairs.drop_last()).push(pairs.last()));
    } else {
        assert(start + pairs =~= start);
    }
}

/// Builder for filling a form template: its path and the field values.
pub struct PdfFillBuilder {
    template_path: String,
    fields: Vec<(String, String)>,
}

impl PdfFillBuilder {
    /// The path of the template.
    pub closed spec fn path_name(&self) -> Seq<char> {
        self.template_path@
    }

    /// The field names and values to fill, in order.
    pub closed spec fn field_values(&self) -> Seq<(String, String)> {
        self.fields@
    }

    /// A builder for the template at `template_path` with no field values;
    /// `data` is not read.
    pub fn new<M: ?Sized>(template_path: &str, _data: &M) -> (b: Self)
        ensures
            b.path_name() == template_path@,
            b.field_values() == Seq::<(String, String)>::empty(),
    {
        PdfFillBuilder { template_path: owned(template_path), fields: Vec::new() }
    }

    /// The path of the template.
    pub fn path(&self) -> (p: &str)
        ensures
            p@ == self.path_name(),
    {
        self.template_path.as_str()
    }

    /// Add a field value.
    pub fn field(self, name: &str, value: &str) -> (b: Self)
        ensures
            b.path_name() == self.path_name(),
            field_views(b.field_values()) == field_views(self.field_values()).push((name@, value@)),
            b.field_values().len() == self.field_values().len() + 1,
            b.field_values().drop_last() == self.field_values(),
            b.field_values().last().0@ == name@,
            b.field_values().last().1@ == value@,
    {
        let mut fields = self.fields;
        fields.push((owned(name), owned(value)));
        PdfFillBuilder { template_path: self.template_path, fields }
    }

    /// Add several field values, in order.
    pub fn fields(self, values: &[(&str, &str)]) -> (b: Self)
        ensures
            b.path_name() == self.path_name(),
            field_views(b.field_values()) == field_views(self.field_values()) + pair_views(values@),
            b.field_values().len() == self.field_values().len() + values@.len(),
            b.field_values().take(self.field_values().len() as int) == self.field_values(),
            forall|i: int|
                0 <= i < values@.len() ==> (#[trigger] b.field_values()[self.field_values().len() + i]).0@
                    == values@[i].0@ && b.field_values()[self.field_values().len() + i].1@
                    == values@[i].1@,
    {
        let mut fields = self.fields;
        let ghost start = fields@;
        let mut i: usize = 0;
        while i < values.len()
            invariant
                i <= values@.len(),
                fields@.len() == start.len() + i,
                fields@.take(start.len() as int) == start,
                forall|j: int|
                    0 <= j < i ==> (#[trigger] fields@[start.len() + j]).0@ == values@[j].0@
                        && fields@[start.len() + j].1@ == values@[j].1@,
            decreases values@.len() - i,
        {
            let (name, value) = values[i];
            fields.push((owned(name), owned(value)));
            i = i + 1;
            assert(fields@.take(start.len() as int) =~= start);
        }
        proof {
            assert forall|j: int| 0 <= j < fields@.len() implies #[trigger] field_views(fields@)[j] == (
            field_views(start) + pair_views(values@))[j] by {
                if j < start.len() {
                    assert(fields@.take(start.len() as int)[j] == fields@[j]);
                } else {
                    assert(fields@[start.len() + (j - start.len())] == fields@[j]);
                }
            }
            assert(field_views(fields@) =~= field_views(start) + pair_views(values@));
        }
        PdfFillBuilder { template_path: self.template_path, fields }
    }

    /// Fill the fields, in order, in the template in `file`, as
    /// [`PdfTemplateFiller::fill_fields`] does, and give back the result.
    pub fn save(self, file: FileContents) -> (r: Result<lopdf::Document>)
        ensures
            match load_outcome(file) {
                Ok(d) => {
                    &&& all_fields_present(d, self.field_values()) ==> r is Ok && all_fields_filled(
                        d,
                        r->Ok_0,
                        self.field_values(),
                    )
                    &&& !all_fields_present(d, self.field_values()) ==> exists|k: int|
                        #[trigger] first_missing_field(d, self.field_values(), k) && (r matches Err(
                            PdfError::UnsupportedFeature(m),
                        ) && m@ == missing_field_message(self.field_values()[k].0@))
                },
                Err(m) => r matches Err(PdfError::Parse(s)) && s@ == m,
            },
    {
        let mut filler = PdfTemplateFiller::open(file)?;
        match filler.fill_fields(self.fields.as_slice()) {
            Ok(()) => {},
            Err(e) => {
                return Err(e);
            },
        }
        Ok(filler.into_inner())
    }
}

} // verus!
