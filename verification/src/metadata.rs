//! Document metadata (the `/Info` dictionary and its XMP form) and bookmarks.

use vstd::prelude::*;
use crate::text::{chars_of, push_char, push_str};

verus! {

/// PDF document-level metadata, as in the `/Info` dictionary of a PDF file.
#[derive(Debug, Clone)]
pub struct PdfMetadata {
    /// Document title.
    pub title: Option<String>,
    /// Document author.
    pub author: Option<String>,
    /// Document subject.
    pub subject: Option<String>,
    /// Keywords associated with the document.
    pub keywords: Option<String>,
    /// The application that created the document it was converted from.
    pub creator: Option<String>,
    /// The application that produced this PDF.
    pub producer: Option<String>,
}

/// The text of an optional field, empty when it is absent.
pub open spec fn text_or_empty(o: Option<String>) -> Seq<char> {
    match o {
        Some(s) => s@,
        None => Seq::empty(),
    }
}

/// The XML text for the character `c`: `<`, `>`, `&` and `"` as entity
/// references, any other character as itself.
pub open spec fn xml_escape_char(c: char) -> Seq<char> {
    if c == '<' {
        seq!['&', 'l', 't', ';']
    } else if c == '>' {
        seq!['&', 'g', 't', ';']
    } else if c == '&' {
        seq!['&', 'a', 'm', 'p', ';']
    } else if c == '"' {
        seq!['&', 'q', 'u', 'o', 't', ';']
    } else {
        seq![c]
    }
}

/// `s` as XML character data: each character escaped by [`xml_escape_char`].
pub open spec fn xml_escaped(s: Seq<char>) -> Seq<char>
    decreases s.len(),
{
    if s.len() == 0 {
        Seq::empty()
    } else {
        xml_escaped(s.drop_last()) + xml_escape_char(s.last())
    }
}

/// Whether every field of `m` is absent.
pub open spec fn metadata_is_empty(m: PdfMetadata) -> bool {
    &&& m.title is None
    &&& m.author is None
    &&& m.subject is None
    &&& m.keywords is None
    &&& m.creator is None
    &&& m.producer is None
}

/// The XMP packet for the given title, author, subject and keywords.
pub open spec fn xmp_packet(
    title: Seq<char>,
    author: Seq<char>,
    subject: Seq<char>,
    keywords: Seq<char>,
) -> Seq<char> {
    "<?xpacket begin=\"\" id=\"W5M0MpCehiHzreSzNTczkc9d\"?>\n<x:xmpmeta xmlns:x=\"adobe:ns:meta/\">\n <rdf:RDF xmlns:rdf=\"http://www.w3.org/1999/02/22-rdf-syntax-ns#\">\n  <rdf:Description rdf:about=\"\"\n   xmlns:dc=\"http://purl.org/dc/elements/1.1/\">\n   <dc:title><rdf:Alt><rdf:li xml:lang=\"x-default\">"@
        + title
        + "</rdf:li></rdf:Alt></dc:title>\n   <dc:creator><rdf:Seq><rdf:li>"@
        + author
        + "</rdf:li></rdf:Seq></dc:creator>\n   <dc:description><rdf:Alt><rdf:li xml:lang=\"x-default\">"@
        + subject
        + "</rdf:li></rdf:Alt></dc:description>\n   <dc:subject><rdf:Bag><rdf:li>"@
        + keywords
        + "</rdf:li></rdf:Bag></dc:subject>\n  </rdf:Description>\n </rdf:RDF>\n</x:xmpmeta>\n<?xpacket end=\"w\"?>"@
}

impl Default for PdfMetadata {
    fn default() -> (m: Self)
        ensures
            metadata_is_empty(m),
    {
        PdfMetadata {
            title: None,
            author: None,
            subject: None,
            keywords: None,
            creator: None,
            producer: None,
        }
    }
}

/// Append the XML character data for `s`.
fn push_xml_escaped(out: &mut String, s: &str)
    ensures
        final(out)@ == old(out)@ + xml_escaped(s@),
{
    let c = chars_of(s);
    let ghost start = out@;
    let mut i: usize = 0;
    while i < c.len()
        invariant
            i <= c@.len(),
            out@ == start + xml_escaped(c@.take(i as int)),
        decreases c@.len() - i,
    {
        let ch = c[i];
        let ghost before = out@;
        if ch == '<' {
            push_char(out, '&');
            push_char(out, 'l');
            push_char(out, 't');
            push_char(out, ';');
        } else if ch == '>' {
            push_char(out, '&');
            push_char(out, 'g');
            push_char(out, 't');
            push_char(out, ';');
        } else if ch == '&' {
            push_char(out, '&');
            push_char(out, 'a');
            push_char(out, 'm');
            push_char(out, 'p');
            push_char(out, ';');
        } else if ch == '"' {
            push_char(out, '&');
            push_char(out, 'q');
            push_char(out, 'u');
            push_char(out, 'o');
            push_char(out, 't');
            push_char(out, ';');
        } else {
            push_char(out, ch);
        }
        assert(out@ =~= before + xml_escape_char(ch));
        assert(c@.take(i + 1).drop_last() =~= c@.take(i as int));
        i = i + 1;
    }
    assert(c@.take(c@.len() as int) =~= c@);
}

/// Append the XML character data for an optional field, nothing when it is
/// absent.
fn push_opt(out: &mut String, o: &Option<String>)
    ensures
        final(out)@ == old(out)@ + xml_escaped(text_or_empty(*o)),
{
    match o {
        Some(s) => push_xml_escaped(out, s.as_str()),
        None => {
            assert(old(out)@ + xml_escaped(Seq::<char>::empty()) =~= old(out)@);
        },
    }
}

impl PdfMetadata {
    /// Create new metadata with all fields empty.
    pub fn new() -> (m: Self)
        ensures
            metadata_is_empty(m),
    {
        Self::default()
    }

    /// Set the title; every other field is kept.
    pub fn title(self, title: &str) -> (m: Self)
        ensures
            m == (PdfMetadata { title: Some(m.title->0), ..self }),
            m.title->0@ == title@,
    {
        PdfMetadata { title: Some(String::from_str(title)), ..self }
    }

    /// Set the author; every other field is kept.
    pub fn author(self, author: &str) -> (m: Self)
        ensures
            m == (PdfMetadata { author: Some(m.author->0), ..self }),
            m.author->0@ == author@,
    {
        PdfMetadata { author: Some(String::from_str(author)), ..self }
    }

    /// Set the subject; every other field is kept.
    pub fn subject(self, subject: &str) -> (m: Self)
        ensures
            m == (PdfMetadata { subject: Some(m.subject->0), ..self }),
            m.subject->0@ == subject@,
    {
        PdfMetadata { subject: Some(String::from_str(subject)), ..self }
    }

    /// Set the keywords (comma-separated); every other field is kept.
    pub fn keywords(self, keywords: &str) -> (m: Self)
        ensures
            m == (PdfMetadata { keywords: Some(m.keywords->0), ..self }),
            m.keywords->0@ == keywords@,
    {
        PdfMetadata { keywords: Some(String::from_str(keywords)), ..self }
    }

    /// Generate the XMP metadata packet (for PDF/A), an XML string: each
    /// field is written as XML character data (`<`, `>`, `&` and `"`
    /// escaped), an absent field as empty text.
    pub fn to_xmp(&self) -> (x: String)
        ensures
            x@ == xmp_packet(
                xml_escaped(text_or_empty(self.title)),
                xml_escaped(text_or_empty(self.author)),
                xml_escaped(text_or_empty(self.subject)),
                xml_escaped(text_or_empty(self.keywords)),
            ),
    {
        let mut x = String::new();
        push_str(
            &mut x,
            "<?xpacket begin=\"\" id=\"W5M0MpCehiHzreSzNTczkc9d\"?>\n<x:xmpmeta xmlns:x=\"adobe:ns:meta/\">\n <rdf:RDF xmlns:rdf=\"http://www.w3.org/1999/02/22-rdf-syntax-ns#\">\n  <rdf:Description rdf:about=\"\"\n   xmlns:dc=\"http://purl.org/dc/elements/1.1/\">\n   <dc:title><rdf:Alt><rdf:li xml:lang=\"x-default\">",
        );
        push_opt(&mut x, &self.title);
        push_str(&mut x, "</rdf:li></rdf:Alt></dc:title>\n   <dc:creator><rdf:Seq><rdf:li>");
        push_opt(&mut x, &self.author);
        push_str(
            &mut x,
            "</rdf:li></rdf:Seq></dc:creator>\n   <dc:description><rdf:Alt><rdf:li xml:lang=\"x-default\">",
        );
        push_opt(&mut x, &self.subject);
        push_str(&mut x, "</rdf:li></rdf:Alt></dc:description>\n   <dc:subject><rdf:Bag><rdf:li>");
        push_opt(&mut x, &self.keywords);
        push_str(
            &mut x,
            "</rdf:li></rdf:Bag></dc:subject>\n  </rdf:Description>\n </rdf:RDF>\n</x:xmpmeta>\n<?xpacket end=\"w\"?>",
        );
        x
    }
}

/// A single bookmark (outline entry).
#[derive(Debug)]
pub struct PdfBookmark {
    /// The display title.
    pub title: String,
    /// Target page number (1-based).
    pub page: usize,
    /// Child bookmarks (for hierarchical outlines).
    pub children: Vec<PdfBookmark>,
}

/// Whether `a` and `b` are the same outline: equal titles and pages, and
/// the same outlines as children, in order.
pub open spec fn same_outline(a: PdfBookmark, b: PdfBookmark) -> bool
    decreases a,
{
    &&& a.title@ == b.title@
    &&& a.page == b.page
    &&& a.children@.len() == b.children@.len()
    &&& forall|i: int|
        0 <= i < a.children@.len() ==> #[trigger] same_outline_at(a, b, i)
}

/// Whether child `i` of `a` and child `i` of `b` are the same outline.
pub open spec fn same_outline_at(a: PdfBookmark, b: PdfBookmark, i: int) -> bool
    decreases a, i,
{
    if 0 <= i < a.children@.len() {
        same_outline(a.children@[i], b.children@[i])
    } else {
        true
    }
}

impl PdfBookmark {
    /// A deep copy of this bookmark and its children.
    fn deep_copy(&self) -> (b: Self)
        ensures
            same_outline(*self, b),
        decreases self,
    {
        let mut children: Vec<PdfBookmark> = Vec::new();
        let n = self.children.len();
        let mut i: usize = 0;
        while i < n
            invariant
                n == self.children@.len(),
                i <= n,
                children@.len() == i,
                forall|j: int| 0 <= j < i ==> same_outline(self.children@[j], #[trigger] children@[j]),
            decreases n - i,
        {
            let c = self.children[i].deep_copy();
            children.push(c);
            i = i + 1;
        }
        let b = PdfBookmark { title: self.title.clone(), page: self.page, children };
        assert forall|j: int| 0 <= j < self.children@.len() implies #[trigger] same_outline_at(*self, b, j) by {
            assert(same_outline(self.children@[j], b.children@[j]));
        }
        b
    }

    /// Create a new top-level bookmark without children.
    pub fn new(title: &str, page: usize) -> (b: Self)
        ensures
            b.title@ == title@,
            b.page == page,
            b.children@.len() == 0,
    {
        PdfBookmark { title: String::from_str(title), page, children: Vec::new() }
    }

    /// Add a child bookmark after the existing children.
    pub fn child(self, child: PdfBookmark) -> (b: Self)
        ensures
            b.title == self.title,
            b.page == self.page,
            b.children@ == self.children@.push(child),
    {
        let mut b = self;
        b.children.push(child);
        b
    }
}

} // verus!

verus! {

impl Clone for PdfBookmark {
    fn clone(&self) -> (b: Self)
        ensures
            same_outline(*self, b),
    {
        self.deep_copy()
    }
}

} // verus!
