//! Form filling: setting the value (`/V`) of the form fields whose name
//! (`/T`) matches.

use vstd::prelude::*;
use vstd::utf8::encode_utf8;
use crate::error::{PdfError, Result};
use crate::pdf_objects::{
    lemma_keeps_other_entries_chain,    catalog_dictionary_reference, held_object, integer_list_entry, literal_string_entry, name_entry, reference_entry, trailer_reference,
    catalog_reference, dictionary_owner, document_object_ids, document_pages, info_text, integer_entry,
    keeps_other_entries, object_ids, page_dictionary_ids, page_ids, read_string_entry, reference_list_entry,
    set_string_entry, string_entry, ObjectId,
};
use crate::reader::{load_outcome, load_pdf, FileContents};
use crate::text::push_str;

verus! {

/// Whether two byte strings are equal.
pub fn bytes_equal(a: &[u8], b: &[u8]) -> (r: bool)
    ensures
        r == (a@ == b@),
{
    if a.len() != b.len() {
        return false;
    }
    let mut i: usize = 0;
    while i < a.len()
        invariant
            a@.len() == b@.len(),
            i <= a@.len(),
            forall|j: int| 0 <= j < i ==> a@[j] == b@[j],
        decreases a@.len() - i,
    {
        if a[i] != b[i] {
            return false;
        }
        i = i + 1;
    }
    assert(a@ =~= b@);
    true
}

/// Whether the object `id` of `doc` is a form field named `name` (its `/T`
/// string holds the bytes `name`).
pub open spec fn is_field_named(doc: lopdf::Document, id: ObjectId, name: Seq<u8>) -> bool {
    string_entry(doc, id, "T"@) == Some(name)
}

/// Whether `doc` has a form field named `name`.
pub open spec fn has_field(doc: lopdf::Document, name: Seq<u8>) -> bool {
    exists|id: ObjectId| #[trigger]
        document_object_ids(doc).contains(id) && is_field_named(doc, id, name)
}

/// The message of the error for a missing field.
pub open spec fn missing_field_message(name: Seq<char>) -> Seq<char> {
    "Form field '"@ + name + "' not found in template"@
}

/// Whether every object that `new` holds differently from `old` is stored
/// under the owner of a form field named `name`, and the trailer is as it
/// was.
pub open spec fn changes_only_fields(old: lopdf::Document, new: lopdf::Document, name: Seq<u8>) -> bool {
    &&& forall|x: ObjectId|
        #[trigger] held_object(new, x) != held_object(old, x) ==> exists|f: ObjectId|
            document_object_ids(old).contains(f) && #[trigger] is_field_named(old, f, name) && x
                == dictionary_owner(old, f)
    &&& forall|k: Seq<char>| #[trigger] trailer_reference(new, k) == trailer_reference(old, k)
}

/// Whether `new` is `old` with the value of every field named `name` set to
/// `value`: the value of every other field, and every entry under another
/// key, as it was.
pub open spec fn fields_filled(old: lopdf::Document, new: lopdf::Document, name: Seq<u8>, value: Seq<u8>) -> bool {
    &&& keeps_other_entries(old, new, "V"@)
    &&& forall|id: ObjectId|
        document_object_ids(old).contains(id) && #[trigger] is_field_named(old, id, name)
            ==> string_entry(new, id, "V"@) == Some(value) && literal_string_entry(new, id, "V"@) == Some(
            value,
        )
    &&& changes_only_fields(old, new, name)
    &&& forall|id: ObjectId|
        !is_field_named(old, id, name) ==> #[trigger] string_entry(new, id, "V"@) == string_entry(
            old,
            id,
            "V"@,
        )
}


/// The bytes of the name of a field to fill.
pub open spec fn field_bytes(field: (String, String)) -> Seq<u8> {
    encode_utf8(field.0@)
}

/// Whether `doc` has a form field for every name in `fields`.
pub open spec fn all_fields_present(doc: lopdf::Document, fields: Seq<(String, String)>) -> bool {
    forall|k: int| 0 <= k < fields.len() ==> has_field(doc, #[trigger] field_bytes(fields[k]))
}

/// Whether entry `k` of `fields` is the first whose name `doc` has no form
/// field for.
pub open spec fn first_missing_field(doc: lopdf::Document, fields: Seq<(String, String)>, k: int) -> bool {
    &&& 0 <= k < fields.len()
    &&& !has_field(doc, field_bytes(fields[k]))
    &&& forall|j: int| 0 <= j < k ==> has_field(doc, #[trigger] field_bytes(fields[j]))
}

/// Whether `new` is `old` with the fields filled in order from `fields`:
/// each field's value is that of the last entry naming it, and every other
/// field's value, and every entry under another key, is as it was.
pub open spec fn all_fields_filled(old: lopdf::Document, new: lopdf::Document, fields: Seq<(String, String)>) -> bool {
    &&& keeps_other_entries(old, new, "V"@)
    &&& forall|k: int, id: ObjectId|
        0 <= k < fields.len() && document_object_ids(old).contains(id) && #[trigger] is_field_named(
            old,
            id,
            field_bytes(fields[k]),
        ) && (forall|j: int| k < j < fields.len() ==> field_bytes(#[trigger] fields[j]) != field_bytes(fields[k]))
            ==> string_entry(new, id, "V"@) == Some(encode_utf8(fields[k].1@))
    &&& forall|id: ObjectId|
        (forall|k: int| 0 <= k < fields.len() ==> !#[trigger] is_field_named(old, id, field_bytes(fields[k])))
            ==> #[trigger] string_entry(new, id, "V"@) == string_entry(old, id, "V"@)
}

/// Filling values leaves the names of the fields, and so which fields a
/// document has, as they were.
proof fn lemma_same_fields(start: lopdf::Document, now: lopdf::Document, name: Seq<u8>)
    requires
        keeps_other_entries(start, now, "V"@),
        "T"@ != "V"@,
    ensures
        has_field(now, name) == has_field(start, name),
        forall|id: ObjectId| #[trigger] is_field_named(now, id, name) == is_field_named(start, id, name),
{
    assert forall|id: ObjectId| #[trigger] is_field_named(now, id, name) == is_field_named(start, id, name) by {
        assert(string_entry(now, id, "T"@) == string_entry(start, id, "T"@));
    }
    if has_field(start, name) {
        let id = choose|id: ObjectId| #[trigger]
            document_object_ids(start).contains(id) && is_field_named(start, id, name);
        assert(document_object_ids(now).contains(id) && is_field_named(now, id, name));
    }
    if has_field(now, name) {
        let id = choose|id: ObjectId| #[trigger]
            document_object_ids(now).contains(id) && is_field_named(now, id, name);
        assert(document_object_ids(start).contains(id) && is_field_named(start, id, name));
    }
}

/// Filling a field adds, removes and renames no form field.
pub proof fn law_filling_keeps_fields(old: lopdf::Document, new: lopdf::Document, name: Seq<u8>, value: Seq<u8>, other: Seq<u8>)
    requires
        fields_filled(old, new, name, value),
    ensures
        has_field(new, other) == has_field(old, other),
        forall|id: ObjectId| #[trigger] is_field_named(new, id, other) == is_field_named(old, id, other),
{
    reveal_strlit("T");
    reveal_strlit("V");
    assert("T"@[0] != "V"@[0]);
    lemma_same_fields(old, new, other);
}

/// Filling a field twice leaves the second value.
pub proof fn law_last_fill_wins(
    a: lopdf::Document,
    b: lopdf::Document,
    c: lopdf::Document,
    name: Seq<u8>,
    first: Seq<u8>,
    second: Seq<u8>,
    id: ObjectId,
)
    requires
        fields_filled(a, b, name, first),
        fields_filled(b, c, name, second),
        document_object_ids(a).contains(id),
        is_field_named(a, id, name),
    ensures
        string_entry(c, id, "V"@) == Some(second),
{
    law_filling_keeps_fields(a, b, name, first, name);
}

/// One more field filled keeps `all_fields_filled`.
proof fn lemma_fill_step(start: lopdf::Document, before: lopdf::Document, after: lopdf::Document, fields: Seq<(String, String)>, k: int)
    requires
        0 <= k < fields.len(),
        "T"@ != "V"@,
        all_fields_filled(start, before, fields.take(k)),
        fields_filled(before, after, field_bytes(fields[k]), encode_utf8(fields[k].1@)),
    ensures
        all_fields_filled(start, after, fields.take(k + 1)),
{
    let name = field_bytes(fields[k]);
    lemma_keeps_other_entries_chain(start, before, after, "V"@);
    lemma_same_fields(start, before, name);
    let prev = fields.take(k);
    let next = fields.take(k + 1);
    assert forall|i: int, id: ObjectId|
        0 <= i < next.len() && document_object_ids(start).contains(id) && #[trigger] is_field_named(
            start,
            id,
            field_bytes(next[i]),
        ) && (forall|j: int| i < j < next.len() ==> field_bytes(#[trigger] next[j]) != field_bytes(next[i]))
        implies string_entry(after, id, "V"@) == Some(encode_utf8(next[i].1@)) by {
        assert(is_field_named(before, id, field_bytes(next[i])));
        if i == k {
            assert(document_object_ids(before).contains(id));
        } else {
            assert(next[i] == prev[i]);
            assert(field_bytes(next[k]) != field_bytes(next[i]));
            assert(!is_field_named(before, id, name));
            assert forall|j: int| i < j < prev.len() implies field_bytes(#[trigger] prev[j]) != field_bytes(prev[i]) by {
                assert(prev[j] == next[j]);
            }
        }
    }
    assert forall|id: ObjectId|
        (forall|i: int| 0 <= i < next.len() ==> !#[trigger] is_field_named(start, id, field_bytes(next[i])))
        implies #[trigger] string_entry(after, id, "V"@) == string_entry(start, id, "V"@) by {
        assert(!is_field_named(start, id, field_bytes(next[k])));
        assert(!is_field_named(before, id, name));
        assert forall|i: int| 0 <= i < prev.len() implies !#[trigger] is_field_named(start, id, field_bytes(prev[i])) by {
            assert(prev[i] == next[i]);
            assert(!is_field_named(start, id, field_bytes(next[i])));
        }
    }
}

/// A template filler for populating PDF form fields.
pub struct PdfTemplateFiller {
    doc: lopdf::Document,
}

impl PdfTemplateFiller {
    /// The document being filled.
    pub closed spec fn document(&self) -> lopdf::Document {
        self.doc
    }

    /// Open a PDF template from the contents of its file.
    pub fn open(file: FileContents) -> (r: Result<Self>)
        ensures
            match load_outcome(file) {
                Ok(d) => r is Ok && r->Ok_0.document() == d,
                Err(m) => r matches Err(PdfError::Parse(s)) && s@ == m,
            },
    {
        let doc = load_pdf(&file)?;
        Ok(PdfTemplateFiller { doc })
    }

    /// Set the value (`/V`) of every form field named `field_name` to
    /// `value`, as a literal string. `UnsupportedFeature`, with the document
    /// unchanged, when there is no such field.
    pub fn fill_field(&mut self, field_name: &str, value: &str) -> (r: Result<()>)
        ensures
            has_field(old(self).document(), encode_utf8(field_name@)) ==> r is Ok && fields_filled(
                old(self).document(),
                final(self).document(),
                encode_utf8(field_name@),
                encode_utf8(value@),
            ),
            !has_field(old(self).document(), encode_utf8(field_name@)) ==> final(self).document()
                == old(self).document() && (r matches Err(PdfError::UnsupportedFeature(m)) && m@
                == missing_field_message(field_name@)),
    {
        let ghost start = self.doc;
        let name = field_name.as_bytes();
        let bytes = value.as_bytes();
        let ids = object_ids(&self.doc);
        proof {
            reveal_strlit("T");
            reveal_strlit("V");
            assert("T"@.len() == 1);
            assert("V"@.len() == 1);
            assert("T"@ != "V"@) by {
                assert("T"@[0] != "V"@[0]);
            }
        }
        let mut found = false;
        let mut i: usize = 0;
        while i < ids.len()
            invariant
                i <= ids@.len(),
                ids@.to_set() == document_object_ids(start),
                "T"@ != "V"@,
                keeps_other_entries(start, self.doc, "V"@),
                found <==> exists|j: int| 0 <= j < i && #[trigger] is_field_named(start, ids@[j], name@),
                !found ==> self.doc == start,
                changes_only_fields(start, self.doc, name@),
                forall|j: int|
                    0 <= j < i && #[trigger] is_field_named(start, ids@[j], name@)
                        ==> string_entry(self.doc, ids@[j], "V"@) == Some(bytes@) && literal_string_entry(
                        self.doc,
                        ids@[j],
                        "V"@,
                    ) == Some(bytes@),
                forall|id: ObjectId|
                    !is_field_named(start, id, name@) ==> #[trigger] string_entry(self.doc, id, "V"@)
                        == string_entry(start, id, "V"@),
            decreases ids@.len() - i,
        {
            let id = ids[i];
            let ghost before = self.doc;
            match read_string_entry(&self.doc, id, "T") {
                Some(t) => {
                    if bytes_equal(t.as_slice(), name) {
                        assert(is_field_named(start, id, name@));
                        set_string_entry(&mut self.doc, id, "V", bytes);
                        proof {
                            assert(ids@.to_set().contains(id));
                            assert forall|x: ObjectId|
                                #[trigger] held_object(self.doc, x) != held_object(start, x) implies exists|f: ObjectId|
                                    document_object_ids(start).contains(f) && #[trigger] is_field_named(start, f, name@)
                                        && x == dictionary_owner(start, f) by {
                                if held_object(before, x) == held_object(start, x) {
                                    assert(x == dictionary_owner(before, id));
                                    assert(dictionary_owner(before, id) == dictionary_owner(start, id));
                                    assert(document_object_ids(start).contains(id) && is_field_named(start, id, name@));
                                }
                            }
                            lemma_keeps_other_entries_chain(start, before, self.doc, "V"@);
                            assert forall|x: ObjectId|
                                !is_field_named(start, x, name@) implies #[trigger] string_entry(
                                    self.doc,
                                    x,
                                    "V"@,
                                ) == string_entry(start, x, "V"@) by {
                                if string_entry(self.doc, x, "V"@) != string_entry(before, x, "V"@) {
                                    assert(string_entry(before, x, "T"@) == string_entry(before, id, "T"@));
                                }
                            }
                        }
                        found = true;
                    }
                },
                None => {},
            }
            proof {
                assert forall|j: int|
                    0 <= j < i + 1 && #[trigger] is_field_named(start, ids@[j], name@)
                        implies string_entry(self.doc, ids@[j], "V"@) == Some(bytes@) && literal_string_entry(
                        self.doc,
                        ids@[j],
                        "V"@,
                    ) == Some(bytes@) by {
                    if j < i {
                        assert(is_field_named(start, ids@[j], name@));
                        assert(literal_string_entry(before, ids@[j], "V"@) == Some(bytes@));
                    }
                }
            }
            i = i + 1;
        }
        proof {
            if has_field(start, name@) {
                let id = choose|id: ObjectId| #[trigger]
                    document_object_ids(start).contains(id) && is_field_named(start, id, name@);
                assert(ids@.to_set().contains(id));
                let j = choose|j: int| 0 <= j < ids@.len() && ids@[j] == id;
                assert(is_field_named(start, ids@[j], name@));
            }
            if found {
                let j = choose|j: int| 0 <= j < ids@.len() && #[trigger] is_field_named(start, ids@[j], name@);
                assert(ids@.to_set().contains(ids@[j]));
                assert(document_object_ids(start).contains(ids@[j]));
            }
            assert forall|id: ObjectId|
                document_object_ids(start).contains(id) && #[trigger] is_field_named(start, id, name@)
                    implies string_entry(self.doc, id, "V"@) == Some(bytes@) && literal_string_entry(
                    self.doc,
                    id,
                    "V"@,
                ) == Some(bytes@) by {
                assert(ids@.to_set().contains(id));
                let j = choose|j: int| 0 <= j < ids@.len() && ids@[j] == id;
                assert(is_field_named(start, ids@[j], name@));
            }
        }
        if !found {
            let mut m = String::new();
            push_str(&mut m, "Form field '");
            push_str(&mut m, field_name);
            push_str(&mut m, "' not found in template");
            return Err(PdfError::UnsupportedFeature(m));
        }
        Ok(())
    }

    /// Fill the fields in order, as [`PdfTemplateFiller::fill_field`] does
    /// for each; stops at the first field that is missing and returns its
    /// error, keeping the fields filled before it.
    pub fn fill_fields(&mut self, fields: &[(String, String)]) -> (r: Result<()>)
        ensures
            all_fields_present(old(self).document(), fields@) ==> r is Ok && all_fields_filled(
                old(self).document(),
                final(self).document(),
                fields@,
            ),
            !all_fields_present(old(self).document(), fields@) ==> exists|k: int|
                #[trigger] first_missing_field(old(self).document(), fields@, k) && all_fields_filled(
                    old(self).document(),
                    final(self).document(),
                    fields@.take(k),
                ) && (r matches Err(PdfError::UnsupportedFeature(m)) && m@ == missing_field_message(
                    fields@[k].0@,
                )),
    {
        let ghost start = self.doc;
        proof {
            reveal_strlit("T");
            reveal_strlit("V");
            assert("T"@.len() == 1);
            assert("V"@.len() == 1);
            assert("T"@ != "V"@) by {
                assert("T"@[0] != "V"@[0]);
            }
            assert(fields@.take(0) =~= Seq::<(String, String)>::empty());
        }
        let mut k: usize = 0;
        while k < fields.len()
            invariant
                k <= fields@.len(),
                start == old(self).document(),
                "T"@ != "V"@,
                forall|j: int| 0 <= j < k ==> has_field(start, #[trigger] field_bytes(fields@[j])),
                all_fields_filled(start, self.doc, fields@.take(k as int)),
            decreases fields@.len() - k,
        {
            let ghost before = self.doc;
            let name = &fields[k].0;
            let value = &fields[k].1;
            proof {
                assert(name@ == fields@[k as int].0@);
                assert(value@ == fields@[k as int].1@);
                lemma_same_fields(start, before, field_bytes(fields@[k as int]));
                if all_fields_present(start, fields@) {
                    assert(has_field(start, field_bytes(fields@[k as int])));
                }
            }
            match self.fill_field(name.as_str(), value.as_str()) {
                Ok(()) => {},
                Err(e) => {
                    proof {
                        assert(first_missing_field(start, fields@, k as int));
                    }
                    return Err(e);
                },
            }
            proof {
                lemma_fill_step(start, before, self.doc, fields@, k as int);
            }
            k = k + 1;
        }
        proof {
            assert(fields@.take(fields@.len() as int) =~= fields@);
        }
        Ok(())
    }

    /// The number of pages.
    pub fn page_count(&self) -> (n: usize)
        ensures
            n == document_pages(self.document()).len(),
    {
        page_ids(&self.doc).len()
    }

    /// The document, for saving or further use.
    pub fn into_inner(self) -> (d: lopdf::Document)
        ensures
            d == self.document(),
    {
        self.doc
    }
}

} // verus!
