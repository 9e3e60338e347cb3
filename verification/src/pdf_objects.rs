//! The `lopdf` document model as the rest of the library sees it: the
//! declared `lopdf` types, names for what a document holds, and the trusted
//! wrappers through which the library reads and changes documents.
//!
//! A document is modelled by what the library reads of it: the bytes it was
//! parsed from (`parsed_pdf`), its pages (`document_pages`), the ids of its
//! objects (`document_object_ids`), the ids that resolve to a dictionary
//! (`dictionary_ids`), and the integer, string and reference-list entries of
//! those dictionaries.

use vstd::prelude::*;
use crate::limits::parser_accepts;

verus! {

/// An object identifier: object number and generation.
pub type ObjectId = (u32, u16);

#[verifier::external_type_specification]
#[verifier::external_body]
pub struct ExDocument(lopdf::Document);

#[verifier::external_type_specification]
#[verifier::external_body]
pub struct ExObject(lopdf::Object);

#[verifier::external_type_specification]
#[verifier::external_body]
pub struct ExDictionary(lopdf::Dictionary);

/// What parsing `bytes` as a PDF file gives: the document, or the text of
/// the parse error.
pub uninterp spec fn parsed_pdf(bytes: Seq<u8>) -> core::result::Result<lopdf::Document, Seq<char>>;

/// The object ids of the pages of `doc`, in page order (page `i + 1` is at
/// index `i`), as the document's page tree lists them.
pub uninterp spec fn document_pages(doc: lopdf::Document) -> Seq<ObjectId>;

/// The ids of the objects that `doc` holds.
pub uninterp spec fn document_object_ids(doc: lopdf::Document) -> Set<ObjectId>;

/// The dictionary object `o` with the integer `value` stored under `key`.
pub uninterp spec fn with_integer_entry(o: lopdf::Object, key: Seq<char>, value: i64) -> lopdf::Object;

/// The ids whose object, following references, is a dictionary.
pub uninterp spec fn dictionary_ids(doc: lopdf::Document) -> Set<ObjectId>;

/// The ids whose object, following references, is a dictionary of type
/// `/Page`: the ones that the page tree lists as pages.
pub uninterp spec fn page_dictionary_ids(doc: lopdf::Document) -> Set<ObjectId>;

/// The integer under `key` in the dictionary that `id` resolves to; `None`
/// when there is no such dictionary, no such key, or the value is not an
/// integer.
pub uninterp spec fn integer_entry(doc: lopdf::Document, id: ObjectId, key: Seq<char>) -> Option<i64>;

/// The bytes of the string under `key` in the dictionary that `id` resolves
/// to; `None` when there is no such dictionary, no such key, or the value is
/// not a string.
pub uninterp spec fn string_entry(doc: lopdf::Document, id: ObjectId, key: Seq<char>) -> Option<Seq<u8>>;

/// The bytes of the string under `key` in the dictionary that `id` resolves
/// to, when that string is in literal form (written between parentheses).
pub uninterp spec fn literal_string_entry(doc: lopdf::Document, id: ObjectId, key: Seq<char>) -> Option<Seq<u8>>;

/// The ids listed under `key` in the dictionary that `id` resolves to, when
/// the value there is an array of references.
pub uninterp spec fn reference_list_entry(doc: lopdf::Document, id: ObjectId, key: Seq<char>) -> Option<Seq<ObjectId>>;

/// The id of the object that `id` resolves to: the last id of the chain of
/// references that starts at `id` (`id` itself when its object is not a
/// reference; for a chain that never ends, a fixed id of it). It depends on
/// the references between objects only, and ids with the same owner read
/// the same dictionary.
pub uninterp spec fn dictionary_owner(doc: lopdf::Document, id: ObjectId) -> ObjectId;

/// The bytes of the name under `key` in the dictionary that `id` resolves
/// to, when the value there is a name.
pub uninterp spec fn name_entry(doc: lopdf::Document, id: ObjectId, key: Seq<char>) -> Option<Seq<u8>>;

/// The integers listed under `key` in the dictionary that `id` resolves to,
/// when the value there is an array of integers.
pub uninterp spec fn integer_list_entry(doc: lopdf::Document, id: ObjectId, key: Seq<char>) -> Option<Seq<i64>>;

/// The id that the dictionary that `id` resolves to refers to under `key`,
/// when the value there is a reference.
pub uninterp spec fn reference_entry(doc: lopdf::Document, id: ObjectId, key: Seq<char>) -> Option<ObjectId>;

/// The id that the trailer refers to under `key`.
pub uninterp spec fn trailer_reference(doc: lopdf::Document, key: Seq<char>) -> Option<ObjectId>;

/// Whether the document has a catalog: the trailer's `/Root` refers to a
/// dictionary.
pub uninterp spec fn has_catalog(doc: lopdf::Document) -> bool;

/// The id that the dictionary under `key` in the document catalog refers
/// to under `inner`.
pub uninterp spec fn catalog_dictionary_reference(doc: lopdf::Document, key: Seq<char>, inner: Seq<char>) -> Option<ObjectId>;

/// The document's `max_id`: the largest object number it has handed out.
pub uninterp spec fn document_max_id(doc: lopdf::Document) -> u32;

/// The id that the document catalog refers to under `key`.
pub uninterp spec fn catalog_reference(doc: lopdf::Document, key: Seq<char>) -> Option<ObjectId>;

/// The text under `key` in the `/Info` dictionary that the trailer refers to.
pub uninterp spec fn info_text(doc: lopdf::Document, key: Seq<char>) -> Option<Seq<char>>;

/// The text that extraction finds on page `number` (1-based), or `None` when
/// extraction fails.
pub uninterp spec fn page_text_of(doc: lopdf::Document, number: u32) -> Option<Seq<char>>;

/// The first element of the file identifier, the trailer's `/ID`, when it
/// is an array whose first element is a string.
pub uninterp spec fn trailer_file_id(doc: lopdf::Document) -> Option<Seq<u8>>;

/// The object `o` stored under `id` with its bytes enciphered for the file
/// key `key`: a string's bytes, or a stream's contents, enciphered with RC4
/// under the first bytes of the MD5 of `key` and the low bytes of `id`.
pub uninterp spec fn enciphered(o: lopdf::Object, id: ObjectId, key: Seq<u8>) -> lopdf::Object;

/// Whether the walk of `doc`'s page tree ends before it has looked at as
/// many kids as `doc` has objects, the limit at which lopdf stops it.
pub uninterp spec fn page_walk_complete(doc: lopdf::Document) -> bool;

/// The object stored under `id` in `doc`'s object map, references not
/// followed.
pub uninterp spec fn held_object(doc: lopdf::Document, id: ObjectId) -> Option<lopdf::Object>;

/// Whether every font dictionary that the resources of page `number`
/// (1-based) list has `/Type /Font`; true as well when the page or its
/// fonts cannot be found.
pub uninterp spec fn page_fonts_typed(doc: lopdf::Document, number: u32) -> bool;

/// Whether `a` comes before `b` in the order of object ids (by number,
/// then by generation).
pub open spec fn id_lt(a: ObjectId, b: ObjectId) -> bool {
    a.0 < b.0 || (a.0 == b.0 && a.1 < b.1)
}

/// The dictionary keys that the page tree is read through: a change under
/// any other key leaves the list of pages as it was.
pub open spec fn page_tree_key(key: Seq<char>) -> bool {
    ||| key == "Type"@
    ||| key == "Linearized"@
    ||| key == "Kids"@
    ||| key == "Pages"@
    ||| key == "Root"@
}

/// `new` differs from `old` at most in dictionary entries under `key`: the
/// objects, the dictionaries and the references between objects, every entry
/// under another key and, unless `key` is a page-tree key, the pages are as
/// they were.
pub open spec fn keeps_other_entries(old: lopdf::Document, new: lopdf::Document, key: Seq<char>) -> bool {
    &&& document_object_ids(new) == document_object_ids(old)
    &&& dictionary_ids(new) == dictionary_ids(old)
    &&& forall|x: ObjectId| #[trigger] dictionary_owner(new, x) == dictionary_owner(old, x)
    &&& (key != "Type"@ && key != "Linearized"@ ==> page_dictionary_ids(new) == page_dictionary_ids(
        old,
    ))
    &&& (!page_tree_key(key) ==> document_pages(new) == document_pages(old) && page_walk_complete(new)
        == page_walk_complete(old))
    &&& forall|id: ObjectId, k: Seq<char>|
        k != key ==> #[trigger] integer_entry(new, id, k) == integer_entry(old, id, k)
    &&& forall|id: ObjectId, k: Seq<char>|
        k != key ==> #[trigger] string_entry(new, id, k) == string_entry(old, id, k)
    &&& forall|id: ObjectId, k: Seq<char>|
        k != key ==> #[trigger] literal_string_entry(new, id, k) == literal_string_entry(old, id, k)
    &&& forall|id: ObjectId, k: Seq<char>|
        k != key ==> #[trigger] reference_list_entry(new, id, k) == reference_list_entry(old, id, k)
    &&& forall|id: ObjectId, k: Seq<char>|
        k != key ==> #[trigger] name_entry(new, id, k) == name_entry(old, id, k)
    &&& forall|id: ObjectId, k: Seq<char>|
        k != key ==> #[trigger] integer_list_entry(new, id, k) == integer_list_entry(old, id, k)
    &&& forall|id: ObjectId, k: Seq<char>|
        k != key ==> #[trigger] reference_entry(new, id, k) == reference_entry(old, id, k)
    &&& forall|k: Seq<char>| k != key ==> #[trigger] trailer_reference(new, k) == trailer_reference(old, k)
    &&& forall|k: Seq<char>, inner: Seq<char>|
        k != key ==> #[trigger] catalog_dictionary_reference(new, k, inner)
            == catalog_dictionary_reference(old, k, inner)
    &&& has_catalog(new) == has_catalog(old)
    &&& document_max_id(new) == document_max_id(old)
    &&& forall|k: Seq<char>| k != key ==> #[trigger] catalog_reference(new, k) == catalog_reference(old, k)
    &&& forall|k: Seq<char>| k != key ==> #[trigger] info_text(new, k) == info_text(old, k)
}

/// `new` differs from `old` at most in the object stored under the owner of
/// `id`: every other id holds what it held, and the trailer is as it was.
pub open spec fn changes_only_owner(old: lopdf::Document, new: lopdf::Document, id: ObjectId) -> bool {
    &&& forall|x: ObjectId|
        x != dictionary_owner(old, id) ==> #[trigger] held_object(new, x) == held_object(old, x)
    &&& forall|k: Seq<char>| #[trigger] trailer_reference(new, k) == trailer_reference(old, k)
    &&& trailer_file_id(new) == trailer_file_id(old)
}

/// `keeps_other_entries` carries over from one change to the next.
pub proof fn lemma_keeps_other_entries_chain(a: lopdf::Document, b: lopdf::Document, c: lopdf::Document, key: Seq<char>)
    requires
        keeps_other_entries(a, b, key),
        keeps_other_entries(b, c, key),
    ensures
        keeps_other_entries(a, c, key),
{
    assert forall|id: ObjectId, k: Seq<char>| k != key implies #[trigger] string_entry(c, id, k)
        == string_entry(a, id, k) by {
        assert(string_entry(c, id, k) == string_entry(b, id, k));
    }
    assert forall|id: ObjectId, k: Seq<char>| k != key implies #[trigger] integer_entry(c, id, k)
        == integer_entry(a, id, k) by {
        assert(integer_entry(c, id, k) == integer_entry(b, id, k));
    }
    assert forall|id: ObjectId, k: Seq<char>| k != key implies #[trigger] literal_string_entry(c, id, k)
        == literal_string_entry(a, id, k) by {
        assert(literal_string_entry(c, id, k) == literal_string_entry(b, id, k));
    }
    assert forall|id: ObjectId, k: Seq<char>| k != key implies #[trigger] reference_list_entry(
        c,
        id,
        k,
    ) == reference_list_entry(a, id, k) by {
        assert(reference_list_entry(c, id, k) == reference_list_entry(b, id, k));
    }
    assert forall|k: Seq<char>| k != key implies #[trigger] catalog_reference(c, k)
        == catalog_reference(a, k) by {
        assert(catalog_reference(c, k) == catalog_reference(b, k));
    }
    assert forall|k: Seq<char>| k != key implies #[trigger] info_text(c, k) == info_text(a, k) by {
        assert(info_text(c, k) == info_text(b, k));
    }
    assert forall|id: ObjectId, k: Seq<char>| k != key implies #[trigger] name_entry(c, id, k)
        == name_entry(a, id, k) by {
        assert(name_entry(c, id, k) == name_entry(b, id, k));
    }
    assert forall|id: ObjectId, k: Seq<char>| k != key implies #[trigger] integer_list_entry(
        c,
        id,
        k,
    ) == integer_list_entry(a, id, k) by {
        assert(integer_list_entry(c, id, k) == integer_list_entry(b, id, k));
    }
    assert forall|id: ObjectId, k: Seq<char>| k != key implies #[trigger] reference_entry(c, id, k)
        == reference_entry(a, id, k) by {
        assert(reference_entry(c, id, k) == reference_entry(b, id, k));
    }
    assert forall|k: Seq<char>| k != key implies #[trigger] trailer_reference(c, k)
        == trailer_reference(a, k) by {
        assert(trailer_reference(c, k) == trailer_reference(b, k));
    }
    assert forall|k: Seq<char>, inner: Seq<char>| k != key implies #[trigger] catalog_dictionary_reference(
        c,
        k,
        inner,
    ) == catalog_dictionary_reference(a, k, inner) by {
        assert(catalog_dictionary_reference(c, k, inner) == catalog_dictionary_reference(b, k, inner));
    }
    assert forall|x: ObjectId| #[trigger] dictionary_owner(c, x) == dictionary_owner(a, x) by {
        assert(dictionary_owner(c, x) == dictionary_owner(b, x));
    }
    assert(key != "Type"@ && key != "Linearized"@ ==> page_dictionary_ids(c) == page_dictionary_ids(
        a,
    ));
}

// ---------------------------------------------------------------------
// Parsing and creating documents
// ---------------------------------------------------------------------

/// Parse a document from the bytes of a PDF file.
///
/// Trusted: calls `lopdf::Document::load_mem`, which parses the buffer as
/// `lopdf::Document::load` parses a file's contents, and renders a parse
/// error as text with its `Display`. With lopdf's `rayon` feature off, the
/// objects are read one after another in the order of the cross-reference
/// entries, so the outcome is a function of the bytes.
///
/// `requires` keeps to the input on which the parser's arithmetic on the
/// numbers it reads stays in range: the file is smaller than 2^31 bytes and
/// every number written in it is below 2^31 ([`parser_accepts`]), and
/// `usize` has 64 bits. Then a cross-reference table's object numbers
/// (first number plus entry index, `nom_parser.rs`) stay below `u32::MAX`;
/// a cross-reference stream's (`/Index` start plus entry index,
/// `parser_aux.rs`) are not negative, as no `/Index` array holds a negative
/// number, and stay below `u32::MAX`; so one past the largest object number
/// (`reader.rs`) fits a `u32`. A stream's end (its start plus its
/// `/Length`, `reader.rs`) is below 2^31 + 2^63, which fits a 64-bit
/// `usize`; an object stream's offsets are read as `u32` and added to a
/// `usize` below 2^31. The other slicing in the parser is bounded by checks
/// before it.
#[verifier::external_body]
pub fn parse_document(bytes: &[u8]) -> (r: core::result::Result<lopdf::Document, String>)
    requires
        parser_accepts(bytes@),
        usize::BITS == 64,
    ensures
        match r {
            Ok(d) => parsed_pdf(bytes@) == Ok::<lopdf::Document, Seq<char>>(d),
            Err(m) => parsed_pdf(bytes@) == Err::<lopdf::Document, Seq<char>>(m@),
        },
{
    match lopdf::Document::load_mem(bytes) {
        Ok(d) => Ok(d),
        Err(e) => Err(e.to_string()),
    }
}

/// A new, empty document.
///
/// Trusted: calls `lopdf::Document::new`, which creates a document with no
/// objects, an empty trailer (so no pages) and `max_id` 0.
#[verifier::external_body]
pub fn new_document() -> (d: lopdf::Document)
    ensures
        document_object_ids(d) == Set::<ObjectId>::empty(),
        dictionary_ids(d) == Set::<ObjectId>::empty(),
        document_pages(d) == Seq::<ObjectId>::empty(),
        document_max_id(d) == 0,
{
    lopdf::Document::new()
}

// ---------------------------------------------------------------------
// Reading
// ---------------------------------------------------------------------

/// The object ids of the pages, in page order.
///
/// Trusted: calls `lopdf::Document::get_pages`, which numbers the pages that
/// the page tree yields from 1 and keeps them in key order. The page tree
/// yields an id only when the dictionary it resolves to has type `/Page`,
/// and stops after as many kids as the document has objects, so there are
/// no more pages than objects.
#[verifier::external_body]
pub fn page_ids(doc: &lopdf::Document) -> (v: Vec<ObjectId>)
    ensures
        v@ == document_pages(*doc),
        v@.len() <= document_object_ids(*doc).len(),
        forall|i: int| 0 <= i < v@.len() ==> dictionary_ids(*doc).contains(#[trigger] v@[i]),
        forall|i: int| 0 <= i < v@.len() ==> page_dictionary_ids(*doc).contains(#[trigger] v@[i]),
{
    doc.get_pages().into_values().collect()
}

/// The ids of all objects of the document, in increasing order.
///
/// Trusted: reads the keys of the document's `objects` map, a `BTreeMap`,
/// which yields its keys in increasing order without repetition; an id
/// holds an object exactly when it is one of those keys.
#[verifier::external_body]
pub fn object_ids(doc: &lopdf::Document) -> (v: Vec<ObjectId>)
    ensures
        v@.to_set() == document_object_ids(*doc),
        forall|i: int, j: int| 0 <= i < j < v@.len() ==> id_lt(v@[i], v@[j]),
        forall|x: ObjectId| #[trigger] held_object(*doc, x) is Some <==> v@.contains(x),
{
    doc.objects.keys().copied().collect()
}

/// For each font dictionary that the resources of page `number` (1-based)
/// list, whether it has `/Type /Font`; `None` when the page or its fonts
/// cannot be found.
///
/// Trusted: calls `lopdf::Document::get_pages`, then
/// `lopdf::Document::get_page_fonts` on the page's id, and
/// `lopdf::Dictionary::type_is` on each font dictionary it returns.
#[verifier::external_body]
pub fn page_font_types(doc: &lopdf::Document, number: u32) -> (v: Option<Vec<bool>>)
    ensures
        match v {
            None => page_fonts_typed(*doc, number),
            Some(b) => page_fonts_typed(*doc, number) == (forall|i: int| 0 <= i < b@.len() ==> #[trigger] b@[i]),
        },
{
    let id = *doc.get_pages().get(&number)?;
    let fonts = doc.get_page_fonts(id).ok()?;
    Some(fonts.values().map(|font| font.type_is("Font".as_bytes())).collect())
}

/// The text of one page (1-based), or `None` when it cannot be extracted.
///
/// Trusted: calls `lopdf::Document::extract_text` with the single page
/// number, which reads the document only. It looks up each font's encoding
/// with `lopdf::Dictionary::get_font_encoding`, which asserts (in builds
/// with debug assertions) that the font dictionary has `/Type /Font`;
/// `requires` keeps to pages where that holds. Other input on which the
/// text parser does not return is left unsaid.
#[verifier::external_body]
pub fn page_text(doc: &lopdf::Document, number: u32) -> (t: Option<String>)
    requires
        page_fonts_typed(*doc, number),
    ensures
        match t {
            Some(s) => page_text_of(*doc, number) == Some(s@),
            None => page_text_of(*doc, number) is None,
        },
{
    doc.extract_text(&[number]).ok()
}

/// The integer under `key` in the dictionary that `id` resolves to.
///
/// Trusted: calls `lopdf::Document::get_dictionary`, `lopdf::Dictionary::get`
/// and `lopdf::Object::as_i64`; the last is `Ok` for integer objects only.
#[verifier::external_body]
pub fn read_integer_entry(doc: &lopdf::Document, id: ObjectId, key: &str) -> (r: Option<i64>)
    ensures
        r == integer_entry(*doc, id, key@),
        r is Some ==> dictionary_ids(*doc).contains(id),
{
    let d = doc.get_dictionary(id).ok()?;
    d.get(key.as_bytes()).ok()?.as_i64().ok()
}

/// The bytes of the string under `key` in the dictionary that `id`
/// resolves to.
///
/// Trusted: calls `lopdf::Document::get_dictionary`, `lopdf::Dictionary::get`
/// and `lopdf::Object::as_str`; the last is `Ok` for string objects only.
#[verifier::external_body]
pub fn read_string_entry(doc: &lopdf::Document, id: ObjectId, key: &str) -> (r: Option<Vec<u8>>)
    ensures
        match r {
            Some(b) => string_entry(*doc, id, key@) == Some(b@),
            None => string_entry(*doc, id, key@) is None,
        },
        r is Some ==> dictionary_ids(*doc).contains(id),
{
    let d = doc.get_dictionary(id).ok()?;
    Some(d.get(key.as_bytes()).ok()?.as_str().ok()?.to_vec())
}

/// The id that the document catalog refers to under `key`.
///
/// Trusted: calls `lopdf::Document::catalog`, `lopdf::Dictionary::get` and
/// `lopdf::Object::as_reference`.
#[verifier::external_body]
pub fn read_catalog_reference(doc: &lopdf::Document, key: &str) -> (r: Option<ObjectId>)
    ensures
        r == catalog_reference(*doc, key@),
{
    let c = doc.catalog().ok()?;
    c.get(key.as_bytes()).ok()?.as_reference().ok()
}

/// The text under `key` in the `/Info` dictionary (invalid UTF-8 replaced).
///
/// Trusted: reads `Info` from the trailer with `lopdf::Dictionary::get`,
/// then calls `lopdf::Object::as_reference`, `lopdf::Document::get_dictionary`,
/// `lopdf::Dictionary::get` and `lopdf::Object::as_string`.
#[verifier::external_body]
pub fn read_info_text(doc: &lopdf::Document, key: &str) -> (r: Option<String>)
    ensures
        match r {
            Some(s) => info_text(*doc, key@) == Some(s@),
            None => info_text(*doc, key@) is None,
        },
{
    let info = doc.trailer.get("Info".as_bytes()).ok()?.as_reference().ok()?;
    let value = doc.get_dictionary(info).ok()?.get(key.as_bytes()).ok()?;
    Some(value.as_string().ok()?.to_string())
}

/// The object that `id` resolves to, following references.
///
/// Trusted: calls `lopdf::Document::get_object`, which is `Ok` whenever the
/// id resolves to a dictionary (a dictionary is read through it). It follows
/// references from `id` and gives the object stored under the last id of
/// the chain, the id's owner.
#[verifier::external_body]
pub fn get_object(doc: &lopdf::Document, id: ObjectId) -> (o: Option<&lopdf::Object>)
    ensures
        dictionary_ids(*doc).contains(id) ==> o is Some,
        match o {
            Some(x) => held_object(*doc, dictionary_owner(*doc, id)) == Some(*x)
                && document_object_ids(*doc).contains(dictionary_owner(*doc, id)),
            None => true,
        },
{
    doc.get_object(id).ok()
}

// ---------------------------------------------------------------------
// Building objects
// ---------------------------------------------------------------------

/// A copy of an object.
///
/// Trusted: calls `lopdf::Object::clone`, which `derive` writes for
/// `lopdf::Object` and the types it holds, so the copy equals `o`.
#[verifier::external_body]
pub fn copy_object(o: &lopdf::Object) -> (c: lopdf::Object)
    ensures
        c == *o,
{
    o.clone()
}

// ---------------------------------------------------------------------
// Changing documents
// ---------------------------------------------------------------------

/// Set `key` to the integer `value` in the dictionary that `id` resolves
/// to; `false`, with the document unchanged, when there is no such
/// dictionary.
///
/// Trusted: calls `lopdf::Document::get_dictionary_mut`, which resolves `id`
/// as `get_dictionary` does, then `lopdf::Dictionary::set`, which replaces
/// the entry under `key` and leaves the others as they were. Only the
/// dictionary held by `id`'s owner changes, and it becomes
/// [`with_integer_entry`] of what it was. `Dictionary::set` inserts into an
/// `IndexMap`, which replaces the value of a key it holds in place, so
/// setting a key twice gives what setting it once to the second value gives.
#[verifier::external_body]
pub fn set_integer_entry(doc: &mut lopdf::Document, id: ObjectId, key: &str, value: i64) -> (done: bool)
    ensures
        done == dictionary_ids(*old(doc)).contains(id),
        !done ==> *final(doc) == *old(doc),
        done ==> (held_object(*old(doc), dictionary_owner(*old(doc), id)) matches Some(o) && held_object(
            *final(doc),
            dictionary_owner(*old(doc), id),
        ) == Some(with_integer_entry(o, key@, value)) && forall|a: i64, v: i64|
            #[trigger] with_integer_entry(with_integer_entry(o, key@, a), key@, v) == with_integer_entry(o, key@, v)),
        done ==> integer_entry(*final(doc), id, key@) == Some(value),
        keeps_other_entries(*old(doc), *final(doc), key@),
        changes_only_owner(*old(doc), *final(doc), id),
        forall|x: ObjectId|
            #[trigger] integer_entry(*final(doc), x, key@) == integer_entry(*old(doc), x, key@)
                || integer_entry(*final(doc), x, key@) == Some(value),
        forall|x: ObjectId|
            dictionary_owner(*old(doc), x) != dictionary_owner(*old(doc), id) ==> #[trigger] integer_entry(
                *final(doc),
                x,
                key@,
            ) == integer_entry(*old(doc), x, key@),
{
    match doc.get_dictionary_mut(id) {
        Ok(d) => {
            d.set(key, lopdf::Object::Integer(value));
            true
        },
        Err(_) => false,
    }
}

/// Set `key` to a literal string holding `value` in the dictionary that `id`
/// resolves to; `false`, with the document unchanged, when there is no such
/// dictionary.
///
/// Trusted: calls `lopdf::Document::get_dictionary_mut`, then
/// `lopdf::Dictionary::set`, as for [`set_integer_entry`]. Only the one
/// dictionary changes, so an id whose entry changed resolves to the same
/// dictionary as `id`.
#[verifier::external_body]
pub fn set_string_entry(doc: &mut lopdf::Document, id: ObjectId, key: &str, value: &[u8]) -> (done: bool)
    ensures
        done == dictionary_ids(*old(doc)).contains(id),
        !done ==> *final(doc) == *old(doc),
        done ==> string_entry(*final(doc), id, key@) == Some(value@),
        done ==> literal_string_entry(*final(doc), id, key@) == Some(value@),
        keeps_other_entries(*old(doc), *final(doc), key@),
        changes_only_owner(*old(doc), *final(doc), id),
        forall|x: ObjectId|
            #[trigger] string_entry(*final(doc), x, key@) == string_entry(*old(doc), x, key@)
                || string_entry(*final(doc), x, key@) == Some(value@),
        forall|x: ObjectId|
            #[trigger] literal_string_entry(*final(doc), x, key@) == literal_string_entry(*old(doc), x, key@)
                || literal_string_entry(*final(doc), x, key@) == Some(value@),
        forall|x: ObjectId, k: Seq<char>|
            string_entry(*final(doc), x, key@) != string_entry(*old(doc), x, key@) ==> #[trigger] string_entry(
                *old(doc),
                x,
                k,
            ) == string_entry(*old(doc), id, k),
{
    match doc.get_dictionary_mut(id) {
        Ok(d) => {
            d.set(key, lopdf::Object::String(value.to_vec(), lopdf::StringFormat::Literal));
            true
        },
        Err(_) => false,
    }
}

/// Set `key` to an array of references to `ids` in the dictionary that `id`
/// resolves to; `false`, with the document unchanged, when there is no such
/// dictionary.
///
/// Trusted: calls `lopdf::Document::get_dictionary_mut`, then
/// `lopdf::Dictionary::set`, as for [`set_integer_entry`]; only the object
/// stored under the owner of `id` changes. When the list
/// becomes the `/Kids` of the page tree's root and holds pages only, the
/// page tree lists exactly those pages, in order: it yields each kid whose
/// dictionary has type `/Page`, and stops after as many kids as there are
/// objects.
#[verifier::external_body]
pub fn set_reference_list(doc: &mut lopdf::Document, id: ObjectId, key: &str, ids: Vec<ObjectId>) -> (done: bool)
    ensures
        done == dictionary_ids(*old(doc)).contains(id),
        !done ==> *final(doc) == *old(doc),
        done ==> reference_list_entry(*final(doc), id, key@) == Some(ids@),
        keeps_other_entries(*old(doc), *final(doc), key@),
        changes_only_owner(*old(doc), *final(doc), id),
        done && key@ == "Kids"@ && catalog_reference(*old(doc), "Pages"@) == Some(id) && (forall|
            i: int,
        | 0 <= i < ids@.len() ==> page_dictionary_ids(*old(doc)).contains(#[trigger] ids@[i]))
            && ids@.len() <= document_object_ids(*old(doc)).len() ==> document_pages(*final(doc))
            == ids@,
{
    match doc.get_dictionary_mut(id) {
        Ok(d) => {
            d.set(key, lopdf::Object::Array(ids.into_iter().map(lopdf::Object::Reference).collect()));
            true
        },
        Err(_) => false,
    }
}

/// Store `object` under `id`, replacing any object held there.
///
/// Trusted: calls `BTreeMap::insert` on the document's `objects` map, which
/// stores `object` under `id` and leaves the other keys as they were. When
/// `id` held nothing, no chain of references that ended before passes
/// through it, so every id that resolved to a dictionary (of type `/Page`)
/// still resolves to the same one, the catalog among them. Whether `id` now resolves to a page
/// dictionary depends on `object` alone: it does when `object` is what a
/// page of some document resolves to (a dictionary of type `/Page`, not a
/// reference).
#[verifier::external_body]
pub fn insert_object(doc: &mut lopdf::Document, id: ObjectId, object: lopdf::Object)
    ensures
        document_object_ids(*final(doc)) == document_object_ids(*old(doc)).insert(id),
        held_object(*final(doc), id) == Some(object),
        forall|x: ObjectId| x != id ==> #[trigger] held_object(*final(doc), x) == held_object(*old(doc), x),
        !document_object_ids(*old(doc)).contains(id) ==> {
            &&& dictionary_ids(*old(doc)).subset_of(dictionary_ids(*final(doc)))
            &&& page_dictionary_ids(*old(doc)).subset_of(page_dictionary_ids(*final(doc)))
            &&& forall|x: ObjectId, k: Seq<char>|
                dictionary_ids(*old(doc)).contains(x) ==> #[trigger] reference_entry(*final(doc), x, k)
                    == reference_entry(*old(doc), x, k)
            &&& forall|x: ObjectId|
                dictionary_ids(*old(doc)).contains(x) ==> #[trigger] dictionary_owner(*final(doc), x)
                    == dictionary_owner(*old(doc), x)
            &&& has_catalog(*old(doc)) ==> has_catalog(*final(doc)) && forall|k: Seq<char>|
                #[trigger] catalog_reference(*final(doc), k) == catalog_reference(*old(doc), k)
        },
        forall|src: lopdf::Document, y: ObjectId|
            #[trigger] held_object(src, dictionary_owner(src, y)) == Some(object) && page_dictionary_ids(
                src,
            ).contains(y) ==> page_dictionary_ids(*final(doc)).contains(id) && dictionary_ids(
                *final(doc),
            ).contains(id),
{
    doc.objects.insert(id, object);
}

/// Set `key` to the name `name` in the dictionary that `id` resolves to;
/// `false`, with the document unchanged, when there is no such dictionary.
///
/// Trusted: calls `lopdf::Document::get_dictionary_mut`, then
/// `lopdf::Dictionary::set` with a `lopdf::Object::Name` holding the bytes of
/// `name`, as for [`set_integer_entry`]. The page tree's walk follows only
/// dictionaries of type `/Page` or `/Pages`; a dictionary that had no type
/// name and is given one that is neither is skipped before and after.
#[verifier::external_body]
pub fn set_name_entry(doc: &mut lopdf::Document, id: ObjectId, key: &str, name: &str) -> (done: bool)
    ensures
        done == dictionary_ids(*old(doc)).contains(id),
        !done ==> *final(doc) == *old(doc),
        done ==> name_entry(*final(doc), id, key@) == Some(vstd::utf8::encode_utf8(name@)),
        keeps_other_entries(*old(doc), *final(doc), key@),
        changes_only_owner(*old(doc), *final(doc), id),
        key@ == "Type"@ && name@ != "Page"@ && name@ != "Pages"@ && name_entry(*old(doc), id, "Type"@)
            is None ==> document_pages(*final(doc)) == document_pages(*old(doc)) && page_walk_complete(
            *final(doc),
        ) == page_walk_complete(*old(doc)),
{
    match doc.get_dictionary_mut(id) {
        Ok(d) => {
            d.set(key, lopdf::Object::Name(name.as_bytes().to_vec()));
            true
        },
        Err(_) => false,
    }
}

/// Set `key` to an array of the integers `values` in the dictionary that
/// `id` resolves to; `false`, with the document unchanged, when there is no
/// such dictionary.
///
/// Trusted: calls `lopdf::Document::get_dictionary_mut`, then
/// `lopdf::Dictionary::set` with a `lopdf::Object::Array` of
/// `lopdf::Object::Integer`s, as for [`set_integer_entry`].
#[verifier::external_body]
pub fn set_integer_list_entry(doc: &mut lopdf::Document, id: ObjectId, key: &str, values: Vec<i64>) -> (done: bool)
    ensures
        done == dictionary_ids(*old(doc)).contains(id),
        !done ==> *final(doc) == *old(doc),
        done ==> integer_list_entry(*final(doc), id, key@) == Some(values@),
        keeps_other_entries(*old(doc), *final(doc), key@),
        changes_only_owner(*old(doc), *final(doc), id),
{
    match doc.get_dictionary_mut(id) {
        Ok(d) => {
            d.set(key, lopdf::Object::Array(values.into_iter().map(lopdf::Object::Integer).collect()));
            true
        },
        Err(_) => false,
    }
}

/// Set `key` in the trailer to a reference to `target`.
///
/// Trusted: calls `lopdf::Dictionary::set` on the document's `trailer`, which
/// is not one of the document's objects. The catalog and the `/Info`
/// dictionary are found through the trailer's `Root` and `Info`, so they
/// stay as they were under any other key.
#[verifier::external_body]
pub fn set_trailer_reference(doc: &mut lopdf::Document, key: &str, target: ObjectId)
    requires
        key@ != "Root"@,
        key@ != "Info"@,
    ensures
        trailer_reference(*final(doc), key@) == Some(target),
        keeps_other_entries(*old(doc), *final(doc), key@),
        forall|x: ObjectId| #[trigger] held_object(*final(doc), x) == held_object(*old(doc), x),
        page_walk_complete(*final(doc)) == page_walk_complete(*old(doc)),
        key@ != "ID"@ ==> trailer_file_id(*final(doc)) == trailer_file_id(*old(doc)),
{
    doc.trailer.set(key, lopdf::Object::Reference(target));
}

/// Set `key` in the document catalog to a new dictionary that refers to
/// `target` under `inner`; `false`, with the document unchanged, when there
/// is no catalog.
///
/// Trusted: calls `lopdf::Document::catalog_mut` (the dictionary that the
/// trailer's `/Root` refers to), then `lopdf::Dictionary::set` with a
/// dictionary holding the one reference. Only the catalog's entry under
/// `key` changes.
#[verifier::external_body]
pub fn set_catalog_dictionary_reference(doc: &mut lopdf::Document, key: &str, inner: &str, target: ObjectId) -> (done: bool)
    ensures
        done == has_catalog(*old(doc)),
        !done ==> *final(doc) == *old(doc),
        done ==> catalog_dictionary_reference(*final(doc), key@, inner@) == Some(target),
        keeps_other_entries(*old(doc), *final(doc), key@),
        done ==> trailer_reference(*old(doc), "Root"@) is Some && changes_only_owner(
            *old(doc),
            *final(doc),
            trailer_reference(*old(doc), "Root"@)->Some_0,
        ),
{
    match doc.catalog_mut() {
        Ok(c) => {
            let mut d = lopdf::Dictionary::new();
            d.set(inner, lopdf::Object::Reference(target));
            c.set(key, d);
            true
        },
        Err(_) => false,
    }
}

/// Set `key` to a reference to `target` in the dictionary that `id`
/// resolves to; `false`, with the document unchanged, when there is no such
/// dictionary.
///
/// Trusted: calls `lopdf::Document::get_dictionary_mut`, then
/// `lopdf::Dictionary::set` with a `lopdf::Object::Reference`, as for
/// [`set_integer_entry`].
#[verifier::external_body]
pub fn set_reference_entry(doc: &mut lopdf::Document, id: ObjectId, key: &str, target: ObjectId) -> (done: bool)
    ensures
        done == dictionary_ids(*old(doc)).contains(id),
        !done ==> *final(doc) == *old(doc),
        done ==> reference_entry(*final(doc), id, key@) == Some(target),
        keeps_other_entries(*old(doc), *final(doc), key@),
        changes_only_owner(*old(doc), *final(doc), id),
{
    match doc.get_dictionary_mut(id) {
        Ok(d) => {
            d.set(key, lopdf::Object::Reference(target));
            true
        },
        Err(_) => false,
    }
}

/// Make the dictionary that `catalog` resolves to the document catalog:
/// set the trailer's `/Root` to a reference to `catalog`.
///
/// Trusted: calls `lopdf::Dictionary::set` on the document's `trailer`, which
/// is not one of the document's objects, so the objects and their entries
/// stay as they were. `lopdf::Document::catalog` reads the trailer's
/// `/Root` and resolves it with `get_dictionary`, so the catalog's entries
/// are then those of `catalog`'s dictionary.
#[verifier::external_body]
pub fn set_trailer_root(doc: &mut lopdf::Document, catalog: ObjectId)
    ensures
        document_object_ids(*final(doc)) == document_object_ids(*old(doc)),
        dictionary_ids(*final(doc)) == dictionary_ids(*old(doc)),
        page_dictionary_ids(*final(doc)) == page_dictionary_ids(*old(doc)),
        forall|x: ObjectId| #[trigger] held_object(*final(doc), x) == held_object(*old(doc), x),
        forall|x: ObjectId| #[trigger] dictionary_owner(*final(doc), x) == dictionary_owner(*old(doc), x),
        forall|x: ObjectId, k: Seq<char>|
            #[trigger] reference_entry(*final(doc), x, k) == reference_entry(*old(doc), x, k),
        has_catalog(*final(doc)) == dictionary_ids(*old(doc)).contains(catalog),
        forall|k: Seq<char>| #[trigger] catalog_reference(*final(doc), k) == reference_entry(*old(doc), catalog, k),
        document_max_id(*final(doc)) == document_max_id(*old(doc)),
{
    doc.trailer.set("Root", lopdf::Object::Reference(catalog));
}

/// The first element of the file identifier.
///
/// Trusted: reads `ID` from the trailer with `lopdf::Dictionary::get`, then
/// calls `lopdf::Object::as_array`, takes the first element and calls
/// `lopdf::Object::as_str`, as `lopdf::encryption::get_encryption_key` does.
#[verifier::external_body]
pub fn file_id(doc: &lopdf::Document) -> (r: Option<Vec<u8>>)
    ensures
        match r {
            Some(b) => trailer_file_id(*doc) == Some(b@),
            None => trailer_file_id(*doc) is None,
        },
{
    let id = doc.trailer.get("ID".as_bytes()).ok()?.as_array().ok()?.first()?.as_str().ok()?;
    Some(id.to_vec())
}

/// Set the file identifier, the trailer's `/ID`, to two copies of `id0`.
///
/// Trusted: calls `lopdf::Dictionary::set` on the document's `trailer` with
/// an array of two hexadecimal strings holding `id0`. The trailer is not one
/// of the document's objects.
#[verifier::external_body]
pub fn set_file_id(doc: &mut lopdf::Document, id0: &[u8])
    ensures
        trailer_file_id(*final(doc)) == Some(id0@),
        keeps_other_entries(*old(doc), *final(doc), "ID"@),
        forall|x: ObjectId| #[trigger] held_object(*final(doc), x) == held_object(*old(doc), x),
        forall|k: Seq<char>| k != "ID"@ ==> #[trigger] trailer_reference(*final(doc), k) == trailer_reference(
            *old(doc),
            k,
        ),
{
    let id = lopdf::Object::String(id0.to_vec(), lopdf::StringFormat::Hexadecimal);
    doc.trailer.set("ID", lopdf::Object::Array(vec![id.clone(), id]));
}

/// Encipher the object stored under `id` for the file key `key`, when it is
/// a string or a stream; other objects stay as they are.
///
/// Trusted: calls `lopdf::encryption::decrypt_object`, which applies RC4
/// under the first `min(key length + 5, 16)` bytes of the MD5 of `key` and
/// the 3 low bytes of the object number and 2 of the generation (the
/// cipher is its own inverse), to a string's bytes or a stream's contents,
/// and stores the result with `lopdf::Stream::set_content` (which also sets
/// the stream's `/Length`, unchanged by RC4) or in the string. Strings and
/// streams are not dictionaries, so no dictionary, entry or page changes.
#[verifier::external_body]
pub fn encipher_object(doc: &mut lopdf::Document, id: ObjectId, key: &[u8])
    ensures
        held_object(*final(doc), id) == match held_object(*old(doc), id) {
            Some(o) => Some(enciphered(o, id, key@)),
            None => None::<lopdf::Object>,
        },
        forall|x: ObjectId| x != id ==> #[trigger] held_object(*final(doc), x) == held_object(*old(doc), x),
        forall|k: Seq<char>| #[trigger] keeps_other_entries(*old(doc), *final(doc), k),
        document_pages(*final(doc)) == document_pages(*old(doc)),
        page_walk_complete(*final(doc)) == page_walk_complete(*old(doc)),
        forall|k: Seq<char>| #[trigger] trailer_reference(*final(doc), k) == trailer_reference(*old(doc), k),
        trailer_file_id(*final(doc)) == trailer_file_id(*old(doc)),
{
    if let Some(obj) = doc.objects.get_mut(&id) {
        if let Ok(data) = lopdf::encryption::decrypt_object(key, id, obj) {
            match obj {
                lopdf::Object::Stream(stream) => stream.set_content(data),
                lopdf::Object::String(bytes, _) => *bytes = data,
                _ => {},
            }
        }
    }
}

/// The document's `max_id`.
///
/// Trusted: reads the document's `max_id` field.
#[verifier::external_body]
pub fn max_id(doc: &lopdf::Document) -> (m: u32)
    ensures
        m == document_max_id(*doc),
{
    doc.max_id
}

/// Add an empty dictionary under a new id, `(max_id + 1, 0)`, and return
/// that id.
///
/// Trusted: calls `lopdf::Document::add_object` with
/// `lopdf::Dictionary::new()`; it increments `max_id` (which `requires`
/// keeps from overflowing) and stores the dictionary under
/// `(max_id, 0)`, replacing any object held there. A catalog stays a
/// dictionary: the object that takes that id is one. When the id held
/// nothing, every id that resolved to a dictionary still resolves to the
/// same one, as for [`insert_object`], and the page tree lists the same
/// pages: a kid that referred to the unused id was skipped, and is skipped
/// as an empty dictionary; only the walk's limit grows by one. What the
/// change does to entries read through a reused id is left unsaid.
#[verifier::external_body]
pub fn add_dictionary(doc: &mut lopdf::Document) -> (id: ObjectId)
    requires
        document_max_id(*old(doc)) < u32::MAX,
    ensures
        id == ((document_max_id(*old(doc)) + 1) as u32, 0u16),
        document_max_id(*final(doc)) == id.0,
        document_object_ids(*final(doc)) == document_object_ids(*old(doc)).insert(id),
        dictionary_ids(*final(doc)).contains(id),
        dictionary_owner(*final(doc), id) == id,
        has_catalog(*old(doc)) ==> has_catalog(*final(doc)),
        forall|x: ObjectId| x != id ==> #[trigger] held_object(*final(doc), x) == held_object(*old(doc), x),
        forall|k: Seq<char>| #[trigger] trailer_reference(*final(doc), k) == trailer_reference(*old(doc), k),
        trailer_file_id(*final(doc)) == trailer_file_id(*old(doc)),
        forall|k: Seq<char>| #[trigger] name_entry(*final(doc), id, k) is None,
        !document_object_ids(*old(doc)).contains(id) && has_catalog(*old(doc)) ==> forall|k: Seq<char>|
            #[trigger] catalog_reference(*final(doc), k) == catalog_reference(*old(doc), k),
        !document_object_ids(*old(doc)).contains(id) && page_walk_complete(*old(doc)) ==> document_pages(
            *final(doc),
        ) == document_pages(*old(doc)) && page_walk_complete(*final(doc)),
        !document_object_ids(*old(doc)).contains(id) ==> {
            &&& dictionary_ids(*old(doc)).subset_of(dictionary_ids(*final(doc)))
            &&& forall|x: ObjectId|
                dictionary_ids(*old(doc)).contains(x) ==> #[trigger] dictionary_owner(*final(doc), x)
                    == dictionary_owner(*old(doc), x)
        },
{
    doc.add_object(lopdf::Dictionary::new())
}

} // verus!
