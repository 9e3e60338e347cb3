//! Reading documents: parsing file contents, extracting page text and
//! metadata, and feeding page text to a listener.

use std::ops::Range;
use vstd::prelude::*;
use crate::error::{PdfError, Result};
use crate::limits::{accepted_by_parser, parser_accepts};
use crate::metadata::PdfMetadata;
use crate::pdf_objects::{
    document_pages, info_text, page_font_types, page_fonts_typed, page_ids, page_text, page_text_of, parse_document, parsed_pdf,
    read_info_text,
};
use crate::text::push_str;
use crate::traits::PdfReadListener;

verus! {

/// The contents of a file as reading it gave them: its bytes, or the message
/// of the error that reading it raised.
pub type FileContents = core::result::Result<Vec<u8>, String>;

/// The message for contents that the parser is not given (see
/// [`parser_accepts`]).
pub open spec fn out_of_range_message() -> Seq<char> {
    "file too large, or holds a number out of range"@
}

/// What loading `file` gives: the parsed document, or the text of the
/// error (the read error's message when the file could not be read, and
/// [`out_of_range_message`] for contents outside what the parser is given).
pub open spec fn load_outcome(file: FileContents) -> core::result::Result<lopdf::Document, Seq<char>> {
    match file {
        Err(msg) => Err(msg@),
        Ok(bytes) => if parser_accepts(bytes@) && usize::BITS == 64 {
            parsed_pdf(bytes@)
        } else {
            Err(out_of_range_message())
        },
    }
}

/// Whether `r` is what loading `file` gives: the document, or a `Parse`
/// error carrying the text of the error.
pub open spec fn loaded_from(file: FileContents, r: Result<lopdf::Document>) -> bool {
    match load_outcome(file) {
        Ok(d) => r == Ok::<lopdf::Document, PdfError>(d),
        Err(m) => r matches Err(PdfError::Parse(s)) && s@ == m,
    }
}

/// Parse the contents of a PDF file.
pub fn load_pdf(file: &FileContents) -> (r: Result<lopdf::Document>)
    ensures
        loaded_from(*file, r),
{
    match file {
        Err(msg) => Err(PdfError::Parse(msg.clone())),
        Ok(bytes) => {
            if usize::BITS != 64 || !accepted_by_parser(bytes.as_slice()) {
                let mut m = String::new();
                push_str(&mut m, "file too large, or holds a number out of range");
                return Err(PdfError::Parse(m));
            }
            match parse_document(bytes.as_slice()) {
                Ok(doc) => Ok(doc),
                Err(m) => Err(PdfError::Parse(m)),
            }
        },
    }
}

/// Whether every entry of `v` is `true`.
fn all_true(v: &Vec<bool>) -> (r: bool)
    ensures
        r == (forall|i: int| 0 <= i < v@.len() ==> #[trigger] v@[i]),
{
    let mut i: usize = 0;
    while i < v.len()
        invariant
            i <= v@.len(),
            forall|j: int| 0 <= j < i ==> #[trigger] v@[j],
        decreases v@.len() - i,
    {
        if !v[i] {
            return false;
        }
        i = i + 1;
    }
    true
}

/// Whether every font dictionary that page `number` (1-based) lists has
/// `/Type /Font`.
pub fn fonts_typed(doc: &lopdf::Document, number: u32) -> (r: bool)
    ensures
        r == page_fonts_typed(*doc, number),
{
    match page_font_types(doc, number) {
        None => true,
        Some(types) => all_true(&types),
    }
}

/// The view of an optional string.
pub open spec fn opt_view(o: Option<String>) -> Option<Seq<char>> {
    match o {
        Some(s) => Some(s@),
        None => None,
    }
}

/// The texts `ts` that are present, joined with `'\n'`; a separator is put
/// only once the joined text is non-empty.
pub open spec fn join_texts(ts: Seq<Option<Seq<char>>>) -> Seq<char>
    decreases ts.len(),
{
    if ts.len() == 0 {
        Seq::empty()
    } else {
        let acc = join_texts(ts.drop_last());
        match ts.last() {
            None => acc,
            Some(t) => if acc.len() == 0 {
                t
            } else {
                acc + seq!['\n'] + t
            },
        }
    }
}

/// Join the page texts that could be extracted, in order, with `'\n'`.
pub fn join_page_texts(texts: &Vec<Option<String>>) -> (r: String)
    ensures
        r@ == join_texts(texts@.map_values(|o: Option<String>| opt_view(o))),
{
    let mut r = String::new();
    let n = texts.len();
    let mut i: usize = 0;
    while i < n
        invariant
            n == texts@.len(),
            i <= n,
            r@ == join_texts(texts@.take(i as int).map_values(|o: Option<String>| opt_view(o))),
        decreases n - i,
    {
        let ghost prev = texts@.take(i as int).map_values(|o: Option<String>| opt_view(o));
        proof {
            let next = texts@.take(i + 1).map_values(|o: Option<String>| opt_view(o));
            assert(next.drop_last() =~= prev);
            assert(next.last() == opt_view(texts@[i as int]));
        }
        match &texts[i] {
            Some(t) => {
                if r.as_str().is_empty() {
                    push_str(&mut r, t.as_str());
                    assert(r@ =~= t@);
                } else {
                    push_str(&mut r, "\n");
                    push_str(&mut r, t.as_str());
                    proof {
                        reveal_strlit("\n");
                    }
                }
            },
            None => {},
        }
        i = i + 1;
    }
    assert(texts@.take(n as int) =~= texts@);
    r
}

/// Whether the page at 0-based `index` is selected by `range` (all pages
/// when there is no range).
pub open spec fn page_selected(range: Option<Range<usize>>, index: int) -> bool {
    match range {
        None => true,
        Some(r) => r.start <= index < r.end,
    }
}

fn selected(range: &Option<Range<usize>>, index: usize) -> (b: bool)
    ensures
        b == page_selected(*range, index as int),
{
    match range {
        None => true,
        Some(r) => r.start <= index && index < r.end,
    }
}

// ---------------------------------------------------------------------
// Splitting text into page chunks
// ---------------------------------------------------------------------

/// The listener events for the page texts `ts`, up to page `n`: one
/// `(page number, text)`, numbered from 1, for each page whose text is
/// present, in page order.
pub open spec fn page_events_upto(ts: Seq<Option<Seq<char>>>, n: int) -> Seq<(int, Seq<char>)>
    decreases n,
{
    if n <= 0 {
        Seq::empty()
    } else {
        let prev = page_events_upto(ts, n - 1);
        match ts[n - 1] {
            Some(t) => prev.push((n, t)),
            None => prev,
        }
    }
}

/// The texts that extraction finds on the pages of `doc` selected by
/// `range`, one entry per page in page order; `None` for a page that is not
/// selected, whose text cannot be extracted, or that lists a font dictionary
/// without `/Type /Font` (no font encoding is read from such a dictionary).
pub open spec fn selected_page_texts(doc: lopdf::Document, range: Option<Range<usize>>) -> Seq<
    Option<Seq<char>>,
> {
    Seq::new(
        document_pages(doc).len(),
        |k: int|
            if page_selected(range, k) && k + 1 <= u32::MAX && page_fonts_typed(doc, (k + 1) as u32) {
                page_text_of(doc, (k + 1) as u32)
            } else {
                None
            },
    )
}

/// The text that [`PdfReader::extract_text`] gives for `doc` and `range`.
pub open spec fn extracted_text(doc: lopdf::Document, range: Option<Range<usize>>) -> Seq<char> {
    join_texts(selected_page_texts(doc, range))
}

/// The events that a listener is fed for `doc` and `range`: one per
/// selected page whose text is extracted, with its page number (1-based)
/// and text, in page order.
pub open spec fn page_events(doc: lopdf::Document, range: Option<Range<usize>>) -> Seq<(int, Seq<char>)> {
    page_events_upto(selected_page_texts(doc, range), document_pages(doc).len() as int)
}

/// The texts of `events`, joined with `'\n'` as [`join_texts`] joins page
/// texts.
pub open spec fn join_event_texts(events: Seq<(int, Seq<char>)>) -> Seq<char>
    decreases events.len(),
{
    if events.len() == 0 {
        Seq::empty()
    } else {
        let acc = join_event_texts(events.drop_last());
        let t = events.last().1;
        if acc.len() == 0 {
            t
        } else {
            acc + seq!['\n'] + t
        }
    }
}

/// The events for the first `n` page texts join to what the first `n`
/// page texts join to.
proof fn lemma_events_join(ts: Seq<Option<Seq<char>>>, n: int)
    requires
        0 <= n <= ts.len(),
    ensures
        join_texts(ts.take(n)) == join_event_texts(page_events_upto(ts, n)),
    decreases n,
{
    if n == 0 {
        assert(ts.take(0) =~= Seq::<Option<Seq<char>>>::empty());
    } else {
        lemma_events_join(ts, n - 1);
        assert(ts.take(n).drop_last() =~= ts.take(n - 1));
        assert(ts.take(n).last() == ts[n - 1]);
        match ts[n - 1] {
            Some(t) => {
                let es = page_events_upto(ts, n - 1).push((n, t));
                assert(es.drop_last() =~= page_events_upto(ts, n - 1));
            },
            None => {},
        }
    }
}

/// A listener is given the text that [`PdfReader::extract_text`] returns,
/// page by page: the texts of the events, joined with newlines, are the
/// extracted text.
pub proof fn law_listener_texts_join_to_extracted_text(doc: lopdf::Document, range: Option<Range<usize>>)
    ensures
        join_event_texts(page_events(doc, range)) == extracted_text(doc, range),
{
    let ts = selected_page_texts(doc, range);
    lemma_events_join(ts, ts.len() as int);
    assert(ts.take(ts.len() as int) =~= ts);
}

/// Selecting every page, `0..page count`, reads what selecting no range
/// reads.
pub proof fn law_full_range_reads_all(doc: lopdf::Document)
    requires
        document_pages(doc).len() <= usize::MAX,
    ensures
        extracted_text(doc, Some(0..(document_pages(doc).len() as usize))) == extracted_text(
            doc,
            None,
        ),
{
    assert(selected_page_texts(doc, Some(0..(document_pages(doc).len() as usize)))
        =~= selected_page_texts(doc, None));
}

/// A range keeps, of the texts that reading every page gives, those of the
/// pages at 0-based indices from its start up to but not including its end:
/// the others read as absent.
pub proof fn law_range_keeps_pages_from_start_to_end(doc: lopdf::Document, range: Range<usize>, k: int)
    requires
        0 <= k < document_pages(doc).len(),
    ensures
        selected_page_texts(doc, Some(range))[k] == if range.start <= k && k < range.end {
            selected_page_texts(doc, None)[k]
        } else {
            None
        },
{
}

/// The text of the present texts of `ts` when only the one at `s` may be
/// present.
proof fn lemma_join_single(ts: Seq<Option<Seq<char>>>, s: int, n: int)
    requires
        0 <= s < ts.len(),
        0 <= n <= ts.len(),
        forall|k: int| 0 <= k < ts.len() && k != s ==> (#[trigger] ts[k]) is None,
    ensures
        join_texts(ts.take(n)) == if s < n {
            match ts[s] {
                Some(t) => t,
                None => Seq::<char>::empty(),
            }
        } else {
            Seq::<char>::empty()
        },
    decreases n,
{
    if n > 0 {
        lemma_join_single(ts, s, n - 1);
        assert(ts.take(n).drop_last() =~= ts.take(n - 1));
        assert(ts.take(n).last() == ts[n - 1]);
    } else {
        assert(ts.take(0) =~= Seq::<Option<Seq<char>>>::empty());
    }
}

/// Reading the one-page range `s..s + 1` gives the text of the page at
/// 0-based index `s` alone, as reading every page finds it (nothing when it
/// has no extractable text).
pub proof fn law_one_page_range_reads_that_page(doc: lopdf::Document, s: usize)
    requires
        s < document_pages(doc).len(),
        s < usize::MAX,
    ensures
        extracted_text(doc, Some(s..(s + 1) as usize)) == match selected_page_texts(doc, None)[s as int] {
            Some(t) => t,
            None => Seq::<char>::empty(),
        },
{
    let ts = selected_page_texts(doc, Some(s..(s + 1) as usize));
    assert forall|k: int| 0 <= k < ts.len() && k != s implies (#[trigger] ts[k]) is None by {
        law_range_keeps_pages_from_start_to_end(doc, s..(s + 1) as usize, k);
    }
    law_range_keeps_pages_from_start_to_end(doc, s..(s + 1) as usize, s as int);
    lemma_join_single(ts, s as int, ts.len() as int);
    assert(ts.take(ts.len() as int) =~= ts);
}

/// A call that [`PdfReader::read_with_listener`] makes on a listener.
pub enum ListenerCall {
    /// `on_page_start(page)`.
    PageStart(usize),
    /// `on_text(page, text)`.
    Text(usize, String),
    /// `on_page_end(page)`.
    PageEnd(usize),
    /// `on_document_end()`.
    DocumentEnd,
}

/// A listener call as a value: page numbers as integers, text as
/// characters.
pub enum CallView {
    PageStart(int),
    Text(int, Seq<char>),
    PageEnd(int),
    DocumentEnd,
}

impl View for ListenerCall {
    type V = CallView;

    open spec fn view(&self) -> CallView {
        match self {
            ListenerCall::PageStart(p) => CallView::PageStart(*p as int),
            ListenerCall::Text(p, t) => CallView::Text(*p as int, t@),
            ListenerCall::PageEnd(p) => CallView::PageEnd(*p as int),
            ListenerCall::DocumentEnd => CallView::DocumentEnd,
        }
    }
}

/// The calls for the pages of `events`: each page is started, given its
/// text, and ended before the next one starts.
pub open spec fn page_calls(events: Seq<(int, Seq<char>)>) -> Seq<CallView>
    decreases events.len(),
{
    if events.len() == 0 {
        Seq::empty()
    } else {
        let (p, t) = events.last();
        page_calls(events.drop_last()) + seq![CallView::PageStart(p), CallView::Text(p, t), CallView::PageEnd(p)]
    }
}

/// The calls that a listener receives for `events`: those of the pages,
/// then the end of the document.
pub open spec fn listener_trace(events: Seq<(int, Seq<char>)>) -> Seq<CallView> {
    page_calls(events).push(CallView::DocumentEnd)
}

/// The calls for the pages of `events` come three to an event, in order.
proof fn lemma_page_calls(events: Seq<(int, Seq<char>)>)
    ensures
        page_calls(events).len() == 3 * events.len(),
        forall|j: int|
            0 <= j < events.len() ==> {
                &&& page_calls(events)[3 * j] == CallView::PageStart((#[trigger] events[j]).0)
                &&& page_calls(events)[3 * j + 1] == CallView::Text(events[j].0, events[j].1)
                &&& page_calls(events)[3 * j + 2] == CallView::PageEnd(events[j].0)
            },
    decreases events.len(),
{
    if events.len() > 0 {
        let prev = events.drop_last();
        lemma_page_calls(prev);
        assert forall|j: int| 0 <= j < events.len() implies {
            &&& page_calls(events)[3 * j] == CallView::PageStart((#[trigger] events[j]).0)
            &&& page_calls(events)[3 * j + 1] == CallView::Text(events[j].0, events[j].1)
            &&& page_calls(events)[3 * j + 2] == CallView::PageEnd(events[j].0)
        } by {
            if j < prev.len() {
                assert(events[j] == prev[j]);
            }
        }
    }
}

/// For each event `(page, text)`, in order, a listener receives
/// `on_page_start(page)`, then `on_text(page, text)`, then
/// `on_page_end(page)`, before anything of the next event; after the last
/// event, `on_document_end()`, and nothing else.
pub proof fn law_listener_calls_in_order(events: Seq<(int, Seq<char>)>)
    ensures
        listener_trace(events).len() == 3 * events.len() + 1,
        forall|j: int|
            0 <= j < events.len() ==> {
                &&& listener_trace(events)[3 * j] == CallView::PageStart((#[trigger] events[j]).0)
                &&& listener_trace(events)[3 * j + 1] == CallView::Text(events[j].0, events[j].1)
                &&& listener_trace(events)[3 * j + 2] == CallView::PageEnd(events[j].0)
            },
        listener_trace(events)[3 * events.len() as int] == CallView::DocumentEnd,
{
    lemma_page_calls(events);
}

/// A reader for extracting content from a PDF document.
pub struct PdfReader {
    doc: lopdf::Document,
    pages: Option<Range<usize>>,
}

impl PdfReader {
    /// Open a PDF from the contents of its file.
    pub fn open(file: FileContents) -> (r: Result<Self>)
        ensures
            match load_outcome(file) {
                Ok(d) => r is Ok && r->Ok_0.document() == d && r->Ok_0.page_range() is None,
                Err(m) => r matches Err(PdfError::Parse(s)) && s@ == m,
            },
    {
        let doc = load_pdf(&file)?;
        Ok(PdfReader { doc, pages: None })
    }

    /// The page range that extraction is limited to, if any.
    pub closed spec fn page_range(&self) -> Option<Range<usize>> {
        self.pages
    }

    /// The document being read.
    pub closed spec fn document(&self) -> lopdf::Document {
        self.doc
    }

    /// Limit extraction to a range of 0-based page indices.
    pub fn pages(self, range: Range<usize>) -> (r: Self)
        ensures
            r.page_range() == Some(range),
            r.document() == self.document(),
    {
        PdfReader { doc: self.doc, pages: Some(range) }
    }

    /// The text of each page, in page order: `None` for a page that is not
    /// selected or whose text is not extracted.
    fn selected_texts(&self) -> (texts: Vec<Option<String>>)
        ensures
            texts@.map_values(|o: Option<String>| opt_view(o)) == selected_page_texts(
                self.document(),
                self.page_range(),
            ),
    {
        let ids = page_ids(&self.doc);
        let count = ids.len();
        let mut texts: Vec<Option<String>> = Vec::new();
        let mut k: usize = 0;
        while k < count
            invariant
                count == document_pages(self.doc).len(),
                k <= count,
                texts@.len() == k,
                forall|j: int|
                    0 <= j < k ==> opt_view(#[trigger] texts@[j]) == selected_page_texts(
                        self.doc,
                        self.pages,
                    )[j],
            decreases count - k,
        {
            if k < u32::MAX as usize && selected(&self.pages, k) && fonts_typed(&self.doc, (k + 1) as u32) {
                let number = (k + 1) as u32;
                texts.push(page_text(&self.doc, number));
            } else {
                texts.push(None);
            }
            k = k + 1;
        }
        assert(texts@.map_values(|o: Option<String>| opt_view(o)) =~= selected_page_texts(
            self.doc,
            self.pages,
        ));
        texts
    }

    /// Extract the text of the selected pages, in page order, joined with
    /// newlines; pages whose text cannot be extracted, or that list a font
    /// dictionary without `/Type /Font`, are left out.
    pub fn extract_text(&self) -> (r: Result<String>)
        ensures
            r is Ok,
            r->Ok_0@ == extracted_text(self.document(), self.page_range()),
    {
        let texts = self.selected_texts();
        Ok(join_page_texts(&texts))
    }

    /// Extract the title and author of the `/Info` dictionary; every other
    /// field is left empty.
    pub fn extract_metadata(&self) -> (r: Result<PdfMetadata>)
        ensures
            r is Ok,
            opt_view(r->Ok_0.title) == info_text(self.document(), "Title"@),
            opt_view(r->Ok_0.author) == info_text(self.document(), "Author"@),
            r->Ok_0.subject is None,
            r->Ok_0.keywords is None,
            r->Ok_0.creator is None,
            r->Ok_0.producer is None,
    {
        let title = read_info_text(&self.doc, "Title");
        let author = read_info_text(&self.doc, "Author");
        Ok(PdfMetadata {
            title,
            author,
            subject: None,
            keywords: None,
            creator: None,
            producer: None,
        })
    }

    /// The number of pages.
    pub fn page_count(&self) -> (r: Result<usize>)
        ensures
            r == Ok::<usize, PdfError>(document_pages(self.document()).len() as usize),
    {
        Ok(page_ids(&self.doc).len())
    }

    /// The events that [`PdfReader::read_with_listener`] feeds a listener:
    /// one `(page number, text)` for each selected page whose text is
    /// extracted, in page order, page numbers counted from 1.
    pub fn listener_events(&self) -> (v: Vec<(usize, String)>)
        ensures
            v@.len() == page_events(self.document(), self.page_range()).len(),
            forall|i: int|
                0 <= i < v@.len() ==> (#[trigger] v@[i]).0 as int == page_events(
                    self.document(),
                    self.page_range(),
                )[i].0 && v@[i].1@ == page_events(self.document(), self.page_range())[i].1,
    {
        let texts = self.selected_texts();
        let ghost ts = selected_page_texts(self.doc, self.pages);
        let n = texts.len();
        let mut events: Vec<(usize, String)> = Vec::new();
        let mut k: usize = 0;
        while k < n
            invariant
                n == texts@.len(),
                texts@.map_values(|o: Option<String>| opt_view(o)) == ts,
                k <= n,
                events@.len() == page_events_upto(ts, k as int).len(),
                forall|i: int|
                    0 <= i < events@.len() ==> (#[trigger] events@[i]).0 as int == page_events_upto(
                        ts,
                        k as int,
                    )[i].0 && events@[i].1@ == page_events_upto(ts, k as int)[i].1,
            decreases n - k,
        {
            assert(texts@.map_values(|o: Option<String>| opt_view(o))[k as int] == opt_view(texts@[k as int]));
            let ghost prev = page_events_upto(ts, k as int);
            match &texts[k] {
                Some(t) => {
                    events.push((k + 1, t.clone()));
                    assert(page_events_upto(ts, k + 1) == prev.push((k + 1, t@)));
                },
                None => {
                    assert(page_events_upto(ts, k + 1) == prev);
                },
            }
            k = k + 1;
        }
        assert(texts@.map_values(|o: Option<String>| opt_view(o)).len() == n);
        assert(ts.len() == document_pages(self.doc).len());
        assert(page_events(self.doc, self.pages) == page_events_upto(ts, n as int));
        events
    }

    /// The calls that [`PdfReader::read_with_listener`] makes, in order: for
    /// each event of [`PdfReader::listener_events`], the start of its page,
    /// its text and the end of its page; then the end of the document.
    pub fn listener_calls(&self) -> (v: Vec<ListenerCall>)
        ensures
            v@.map_values(|c: ListenerCall| c@) == listener_trace(page_events(self.document(), self.page_range())),
    {
        let events = self.listener_events();
        let ghost es = page_events(self.doc, self.pages);
        let n = events.len();
        let mut v: Vec<ListenerCall> = Vec::new();
        let mut i: usize = 0;
        assert(es.take(0) =~= Seq::<(int, Seq<char>)>::empty());
        while i < n
            invariant
                n == events@.len(),
                n == es.len(),
                es == page_events(self.doc, self.pages),
                i <= n,
                forall|k: int|
                    0 <= k < events@.len() ==> (#[trigger] events@[k]).0 as int == es[k].0 && events@[k].1@
                        == es[k].1,
                v@.map_values(|c: ListenerCall| c@) == page_calls(es.take(i as int)),
            decreases n - i,
        {
            let page = events[i].0;
            let text = events[i].1.clone();
            let ghost before = v@.map_values(|c: ListenerCall| c@);
            v.push(ListenerCall::PageStart(page));
            v.push(ListenerCall::Text(page, text));
            v.push(ListenerCall::PageEnd(page));
            proof {
                let t = es.take(i + 1);
                assert(t.drop_last() =~= es.take(i as int));
                assert(t.last() == es[i as int]);
                assert(v@.map_values(|c: ListenerCall| c@) =~= before + seq![
                    CallView::PageStart(es[i as int].0),
                    CallView::Text(es[i as int].0, es[i as int].1),
                    CallView::PageEnd(es[i as int].0),
                ]);
            }
            i = i + 1;
        }
        let ghost before = v@.map_values(|c: ListenerCall| c@);
        v.push(ListenerCall::DocumentEnd);
        assert(es.take(n as int) =~= es);
        assert(v@.map_values(|c: ListenerCall| c@) =~= before.push(CallView::DocumentEnd));
        v
    }

    /// Feed the text of each page to `listener` by making the calls of
    /// [`PdfReader::listener_calls`] one after the other: for each event
    /// `(i, text)` of [`PdfReader::listener_events`], `on_page_start(i)`,
    /// `on_text(i, text)`, `on_page_end(i)`; then `on_document_end()`.
    /// Extraction itself never fails; the first error that a callback
    /// returns is returned, and no call follows it.
    pub fn read_with_listener<L: PdfReadListener + ?Sized>(&self, listener: &mut L) -> (r: Result<()>) {
        let calls = self.listener_calls();
        let n = calls.len();
        let mut i: usize = 0;
        while i < n
            invariant
                n == calls@.len(),
                i <= n,
            decreases n - i,
        {
            match &calls[i] {
                ListenerCall::PageStart(page) => listener.on_page_start(*page)?,
                ListenerCall::Text(page, text) => listener.on_text(*page, text.as_str())?,
                ListenerCall::PageEnd(page) => listener.on_page_end(*page)?,
                ListenerCall::DocumentEnd => listener.on_document_end()?,
            }
            i = i + 1;
        }
        Ok(())
    }
}

} // verus!
