//! Markdown to HTML conversion for the subset of Markdown that the HTML
//! renderer accepts: headings, list items, block quotes, paragraphs, and
//! inline `**bold**` / `*italic*` spans.

use vstd::prelude::*;
use crate::text::{
    chars_of, push_char, push_chars, push_str, string_from_chars, trim, trim_bounds,
};

verus! {

// ---------------------------------------------------------------------
// Inline formatting
// ---------------------------------------------------------------------

/// The HTML for `s[i..]` outside any emphasis span.
pub open spec fn inline_from(s: Seq<char>, i: int) -> Seq<char>
    decreases s.len() - i, 0int,
{
    if i < 0 || i >= s.len() {
        Seq::empty()
    } else if i + 1 < s.len() && s[i] == '*' && s[i + 1] == '*' {
        "<b>"@ + bold_from(s, i + 2)
    } else if s[i] == '*' && i + 1 < s.len() && s[i + 1] != '*' {
        "<i>"@ + italic_from(s, i + 1)
    } else {
        seq![s[i]] + inline_from(s, i + 1)
    }
}

/// The HTML for `s[i..]` inside a bold span opened just before `i`.
///
/// The span ends at the next `**`; when none follows, it ends before the
/// last character, which is then formatted on its own.
pub open spec fn bold_from(s: Seq<char>, i: int) -> Seq<char>
    decreases s.len() - i, 1int,
{
    if i < 0 || i > s.len() {
        Seq::empty()
    } else if i + 1 < s.len() && !(s[i] == '*' && s[i + 1] == '*') {
        seq![s[i]] + bold_from(s, i + 1)
    } else if i + 1 < s.len() {
        "</b>"@ + inline_from(s, i + 2)
    } else {
        "</b>"@ + inline_from(s, i)
    }
}

/// The HTML for `s[i..]` inside an italic span opened just before `i`.
///
/// The span ends at the next `*`, or at the end of the text.
pub open spec fn italic_from(s: Seq<char>, i: int) -> Seq<char>
    decreases s.len() - i, 1int,
{
    if i < 0 || i > s.len() {
        Seq::empty()
    } else if i < s.len() && s[i] != '*' {
        seq![s[i]] + italic_from(s, i + 1)
    } else if i < s.len() {
        "</i>"@ + inline_from(s, i + 1)
    } else {
        "</i>"@ + inline_from(s, i)
    }
}

/// The HTML for a line of text with inline `**bold**` and `*italic*` spans.
pub open spec fn inline_html(s: Seq<char>) -> Seq<char> {
    inline_from(s, 0)
}

/// The characters of `s` from `i` on pass through unchanged when none of
/// them is `*`.
proof fn lemma_inline_plain(s: Seq<char>, i: int)
    requires
        0 <= i <= s.len(),
        forall|j: int| 0 <= j < s.len() ==> s[j] != '*',
    ensures
        inline_from(s, i) == s.skip(i),
    decreases s.len() - i,
{
    if i < s.len() {
        lemma_inline_plain(s, i + 1);
        assert(s.skip(i) =~= seq![s[i]] + s.skip(i + 1));
    } else {
        assert(s.skip(i) =~= Seq::<char>::empty());
    }
}

/// Text without `*` comes out of inline formatting as it went in.
pub proof fn law_plain_text_unchanged(s: Seq<char>)
    requires
        forall|j: int| 0 <= j < s.len() ==> s[j] != '*',
    ensures
        inline_html(s) == s,
{
    lemma_inline_plain(s, 0);
    assert(s.skip(0) =~= s);
}

/// Formatting from position `p.len() + i` of `p + s` is formatting `s`
/// from `i`: what comes before a position does not change what follows it.
proof fn lemma_inline_shift(p: Seq<char>, s: Seq<char>, i: int)
    requires
        0 <= i,
    ensures
        inline_from(p + s, p.len() + i) == inline_from(s, i),
    decreases s.len() - i, 0int,
{
    let t = p + s;
    let j = p.len() + i;
    if i < s.len() {
        assert(t[j] == s[i]);
        if i + 1 < s.len() {
            assert(t[j + 1] == s[i + 1]);
        }
        if i + 1 < s.len() && s[i] == '*' && s[i + 1] == '*' {
            lemma_bold_shift(p, s, i + 2);
        } else if s[i] == '*' && i + 1 < s.len() && s[i + 1] != '*' {
            lemma_italic_shift(p, s, i + 1);
        } else {
            lemma_inline_shift(p, s, i + 1);
        }
    }
}

/// [`lemma_inline_shift`] inside a bold span.
proof fn lemma_bold_shift(p: Seq<char>, s: Seq<char>, i: int)
    requires
        0 <= i,
    ensures
        bold_from(p + s, p.len() + i) == bold_from(s, i),
    decreases s.len() - i, 1int,
{
    let t = p + s;
    let j = p.len() + i;
    if i <= s.len() {
        if i < s.len() {
            assert(t[j] == s[i]);
        }
        if i + 1 < s.len() {
            assert(t[j + 1] == s[i + 1]);
        }
        if i + 1 < s.len() && !(s[i] == '*' && s[i + 1] == '*') {
            lemma_bold_shift(p, s, i + 1);
        } else if i + 1 < s.len() {
            lemma_inline_shift(p, s, i + 2);
        } else {
            lemma_inline_shift(p, s, i);
        }
    }
}

/// [`lemma_inline_shift`] inside an italic span.
proof fn lemma_italic_shift(p: Seq<char>, s: Seq<char>, i: int)
    requires
        0 <= i,
    ensures
        italic_from(p + s, p.len() + i) == italic_from(s, i),
    decreases s.len() - i, 1int,
{
    let t = p + s;
    let j = p.len() + i;
    if i <= s.len() {
        if i < s.len() {
            assert(t[j] == s[i]);
        }
        if i < s.len() && s[i] != '*' {
            lemma_italic_shift(p, s, i + 1);
        } else if i < s.len() {
            lemma_inline_shift(p, s, i + 1);
        } else {
            lemma_inline_shift(p, s, i);
        }
    }
}

/// Inside an italic span, characters other than `*` pass through.
proof fn lemma_italic_pass(s: Seq<char>, i: int, j: int)
    requires
        0 <= i <= j <= s.len(),
        forall|k: int| i <= k < j ==> s[k] != '*',
    ensures
        italic_from(s, i) == s.subrange(i, j) + italic_from(s, j),
    decreases j - i,
{
    if i < j {
        lemma_italic_pass(s, i + 1, j);
        assert(s.subrange(i, j) =~= seq![s[i]] + s.subrange(i + 1, j));
    } else {
        assert(s.subrange(i, j) =~= Seq::<char>::empty());
    }
}

/// Inside a bold span, characters other than `*` pass through while a
/// character follows them.
proof fn lemma_bold_pass(s: Seq<char>, i: int, j: int)
    requires
        0 <= i <= j < s.len(),
        forall|k: int| i <= k < j ==> s[k] != '*',
    ensures
        bold_from(s, i) == s.subrange(i, j) + bold_from(s, j),
    decreases j - i,
{
    if i < j {
        lemma_bold_pass(s, i + 1, j);
        assert(s.subrange(i, j) =~= seq![s[i]] + s.subrange(i + 1, j));
    } else {
        assert(s.subrange(i, j) =~= Seq::<char>::empty());
    }
}

/// An italic span formats its text and hands the rest of the line on:
/// `*x*` followed by `rest`, for a non-empty `x` without `*`, gives
/// `<i>x</i>` followed by the formatting of `rest`.
pub proof fn law_italic_span(x: Seq<char>, rest: Seq<char>)
    requires
        x.len() > 0,
        forall|k: int| 0 <= k < x.len() ==> x[k] != '*',
    ensures
        inline_html(seq!['*'] + x + seq!['*'] + rest) == "<i>"@ + x + "</i>"@ + inline_html(rest),
{
    let p = seq!['*'] + x + seq!['*'];
    let s = p + rest;
    let n = x.len() as int;
    assert(s[0] == '*');
    assert(s[1] == x[0]);
    assert(s[n + 1] == '*');
    assert forall|k: int| 1 <= k < n + 1 implies s[k] != '*' by {
        assert(s[k] == x[k - 1]);
    }
    lemma_italic_pass(s, 1, n + 1);
    assert(s.subrange(1, n + 1) =~= x);
    lemma_inline_shift(p, rest, 0);
    assert(inline_from(s, 0) == "<i>"@ + italic_from(s, 1));
    assert(italic_from(s, n + 1) == "</i>"@ + inline_from(s, n + 2));
}

/// A bold span formats its text and hands the rest of the line on:
/// `**w**` followed by `rest`, for `w` without `*`, gives `<b>w</b>`
/// followed by the formatting of `rest`.
pub proof fn law_bold_span(w: Seq<char>, rest: Seq<char>)
    requires
        forall|k: int| 0 <= k < w.len() ==> w[k] != '*',
    ensures
        inline_html(seq!['*', '*'] + w + seq!['*', '*'] + rest) == "<b>"@ + w + "</b>"@ + inline_html(rest),
{
    let p = seq!['*', '*'] + w + seq!['*', '*'];
    let s = p + rest;
    let n = w.len() as int;
    assert(s[0] == '*' && s[1] == '*');
    assert(s[n + 2] == '*' && s[n + 3] == '*');
    assert forall|k: int| 2 <= k < n + 2 implies s[k] != '*' by {
        assert(s[k] == w[k - 2]);
    }
    lemma_bold_pass(s, 2, n + 2);
    assert(s.subrange(2, n + 2) =~= w);
    lemma_inline_shift(p, rest, 0);
    assert(inline_from(s, 0) == "<b>"@ + bold_from(s, 2));
    assert(bold_from(s, n + 2) == "</b>"@ + inline_from(s, n + 4));
}

/// Format the inline spans of the characters `c`.
fn inline_format_chars(c: &Vec<char>) -> (r: String)
    ensures
        r@ == inline_html(c@),
{
    let n = c.len();
    let mut r = String::new();
    let mut i: usize = 0;
    assert(r@ + inline_from(c@, 0) =~= inline_from(c@, 0));
    while i < n
        invariant
            n == c@.len(),
            i <= n,
            r@ + inline_from(c@, i as int) == inline_from(c@, 0),
        decreases n - i,
    {
        let ghost before = r@;
        let ghost i0 = i;
        if n - i > 1 && c[i] == '*' && c[i + 1] == '*' {
            push_str(&mut r, "<b>");
            i = i + 2;
            assert(r@ + bold_from(c@, i as int) =~= before + ("<b>"@ + bold_from(
                c@,
                i as int,
            )));
            while n - i > 1 && !(c[i] == '*' && c[i + 1] == '*')
                invariant
                    n == c@.len(),
                    i0 + 2 <= i <= n,
                    r@ + bold_from(c@, i as int) == inline_from(c@, 0),
                decreases n - i,
            {
                let ghost b2 = r@;
                push_char(&mut r, c[i]);
                i = i + 1;
                assert(r@ + bold_from(c@, i as int) =~= b2 + (seq![c@[i - 1]] + bold_from(
                    c@,
                    i as int,
                )));
            }
            let ghost b3 = r@;
            push_str(&mut r, "</b>");
            if n - i > 1 {
                i = i + 2;
                assert(r@ + inline_from(c@, i as int) =~= b3 + ("</b>"@ + inline_from(
                    c@,
                    i as int,
                )));
            } else {
                assert(r@ + inline_from(c@, i as int) =~= b3 + ("</b>"@ + inline_from(
                    c@,
                    i as int,
                )));
            }
        } else if c[i] == '*' && n - i > 1 && c[i + 1] != '*' {
            push_str(&mut r, "<i>");
            i = i + 1;
            assert(r@ + italic_from(c@, i as int) =~= before + ("<i>"@ + italic_from(
                c@,
                i as int,
            )));
            while i < n && c[i] != '*'
                invariant
                    n == c@.len(),
                    i0 + 1 <= i <= n,
                    r@ + italic_from(c@, i as int) == inline_from(c@, 0),
                decreases n - i,
            {
                let ghost b2 = r@;
                push_char(&mut r, c[i]);
                i = i + 1;
                assert(r@ + italic_from(c@, i as int) =~= b2 + (seq![c@[i - 1]] + italic_from(
                    c@,
                    i as int,
                )));
            }
            let ghost b3 = r@;
            push_str(&mut r, "</i>");
            if i < n {
                i = i + 1;
                assert(r@ + inline_from(c@, i as int) =~= b3 + ("</i>"@ + inline_from(
                    c@,
                    i as int,
                )));
            } else {
                assert(r@ + inline_from(c@, i as int) =~= b3 + ("</i>"@ + inline_from(
                    c@,
                    i as int,
                )));
            }
        } else {
            push_char(&mut r, c[i]);
            i = i + 1;
            assert(r@ + inline_from(c@, i as int) =~= before + (seq![c@[i - 1]] + inline_from(
                c@,
                i as int,
            )));
        }
    }
    r
}

/// Convert inline Markdown emphasis in `text` to HTML: `**x**` becomes
/// `<b>x</b>` and `*x*` becomes `<i>x</i>`.
pub fn process_inline_formatting(text: &str) -> (r: String)
    ensures
        r@ == inline_html(text@),
{
    let c = chars_of(text);
    inline_format_chars(&c)
}

} // verus!

verus! {

// ---------------------------------------------------------------------
// Lines
// ---------------------------------------------------------------------

/// The pieces of `s` between `'\n'` characters (always at least one).
pub open spec fn newline_pieces(s: Seq<char>) -> Seq<Seq<char>>
    decreases s.len(),
{
    if s.len() == 0 {
        seq![Seq::empty()]
    } else {
        let r = newline_pieces(s.drop_last());
        if s.last() == '\n' {
            r.push(Seq::empty())
        } else {
            r.update(r.len() - 1, r.last().push(s.last()))
        }
    }
}

/// The lines of `s`, as `str::lines` yields them before trimming: the
/// pieces between newlines, without the empty piece after a final newline.
pub open spec fn lines(s: Seq<char>) -> Seq<Seq<char>> {
    let r = newline_pieces(s);
    if r.last().len() == 0 {
        r.drop_last()
    } else {
        r
    }
}

proof fn lemma_newline_pieces_nonempty(s: Seq<char>)
    ensures
        newline_pieces(s).len() >= 1,
    decreases s.len(),
{
    if s.len() > 0 {
        lemma_newline_pieces_nonempty(s.drop_last());
    }
}

// ---------------------------------------------------------------------
// Block structure
// ---------------------------------------------------------------------

/// Whether `t` starts with the ASCII characters `p`.
pub open spec fn has_prefix(t: Seq<char>, p: Seq<char>) -> bool {
    t.len() >= p.len() && t.take(p.len() as int) == p
}

/// The HTML for one trimmed line of Markdown.
pub open spec fn line_html(t: Seq<char>) -> Seq<char> {
    if t.len() == 0 {
        "<br/>\n"@
    } else if has_prefix(t, seq!['#', '#', '#', ' ']) {
        "<h3>"@ + t.skip(4) + "</h3>\n"@
    } else if has_prefix(t, seq!['#', '#', ' ']) {
        "<h2>"@ + t.skip(3) + "</h2>\n"@
    } else if has_prefix(t, seq!['#', ' ']) {
        "<h1>"@ + t.skip(2) + "</h1>\n"@
    } else if has_prefix(t, seq!['-', ' ']) {
        "<li>"@ + t.skip(2) + "</li>\n"@
    } else if has_prefix(t, seq!['>', ' ']) {
        "<blockquote>"@ + t.skip(2) + "</blockquote>\n"@
    } else {
        "<p>"@ + inline_html(t) + "</p>\n"@
    }
}

/// The HTML for a sequence of lines, each trimmed first.
pub open spec fn lines_html(ls: Seq<Seq<char>>) -> Seq<char>
    decreases ls.len(),
{
    if ls.len() == 0 {
        Seq::empty()
    } else {
        lines_html(ls.drop_last()) + line_html(trim(ls.last()))
    }
}

/// The HTML document for the Markdown text `md`.
pub open spec fn markdown_html(md: Seq<char>) -> Seq<char> {
    "<html><body>\n"@ + lines_html(lines(md)) + "</body></html>"@
}

fn starts_with_chars(t: &Vec<char>, p: &[char]) -> (b: bool)
    ensures
        b == has_prefix(t@, p@),
{
    if t.len() < p.len() {
        return false;
    }
    let mut i: usize = 0;
    while i < p.len()
        invariant
            i <= p@.len() <= t@.len(),
            forall|j: int| 0 <= j < i ==> t@[j] == p@[j],
        decreases p.len() - i,
    {
        if t[i] != p[i] {
            assert(t@.take(p@.len() as int)[i as int] != p@[i as int]);
            return false;
        }
        i = i + 1;
    }
    assert(t@.take(p@.len() as int) =~= p@);
    true
}

fn push_tagged(out: &mut String, open: &str, t: &Vec<char>, skip: usize, close: &str)
    requires
        skip <= t@.len(),
    ensures
        final(out)@ == old(out)@ + (open@ + t@.skip(skip as int) + close@),
{
    let ghost start = out@;
    push_str(out, open);
    push_chars(out, t, skip, t.len());
    push_str(out, close);
    assert(t@.subrange(skip as int, t@.len() as int) =~= t@.skip(skip as int));
    assert(out@ =~= start + (open@ + t@.skip(skip as int) + close@));
}

/// Append the HTML for the trimmed line `t`.
fn push_line_html(out: &mut String, t: &Vec<char>)
    ensures
        final(out)@ == old(out)@ + line_html(t@),
{
    let ghost start = out@;
    assert(['#', '#', '#', ' ']@ == seq!['#', '#', '#', ' ']);
    assert(['#', '#', ' ']@ == seq!['#', '#', ' ']);
    assert(['#', ' ']@ == seq!['#', ' ']);
    assert(['-', ' ']@ == seq!['-', ' ']);
    assert(['>', ' ']@ == seq!['>', ' ']);
    if t.len() == 0 {
        push_str(out, "<br/>\n");
    } else if starts_with_chars(t, &['#', '#', '#', ' ']) {
        push_tagged(out, "<h3>", t, 4, "</h3>\n");
    } else if starts_with_chars(t, &['#', '#', ' ']) {
        push_tagged(out, "<h2>", t, 3, "</h2>\n");
    } else if starts_with_chars(t, &['#', ' ']) {
        push_tagged(out, "<h1>", t, 2, "</h1>\n");
    } else if starts_with_chars(t, &['-', ' ']) {
        push_tagged(out, "<li>", t, 2, "</li>\n");
    } else if starts_with_chars(t, &['>', ' ']) {
        push_tagged(out, "<blockquote>", t, 2, "</blockquote>\n");
    } else {
        let inner = inline_format_chars(t);
        push_str(out, "<p>");
        push_str(out, inner.as_str());
        push_str(out, "</p>\n");
        assert(out@ =~= start + ("<p>"@ + inline_html(t@) + "</p>\n"@));
    }
}

/// Convert basic Markdown to an HTML document.
///
/// Each line is trimmed; empty lines become `<br/>`, lines starting with
/// `# `, `## `, `### ` become headings, `- ` list items, `> ` block quotes,
/// and any other line a paragraph with inline emphasis converted.
pub fn markdown_to_html(md: &str) -> (html: String)
    ensures
        html@ == markdown_html(md@),
{
    let v = chars_of(md);
    let n = v.len();
    let mut html = String::new();
    push_str(&mut html, "<html><body>\n");
    let mut start: usize = 0;
    let mut i: usize = 0;
    proof {
        assert(v@.take(0) =~= Seq::<char>::empty());
        assert(v@.subrange(0, 0) =~= Seq::<char>::empty());
    }
    while i < n
        invariant
            n == v@.len(),
            start <= i <= n,
            newline_pieces(v@.take(i as int)).last() == v@.subrange(start as int, i as int),
            html@ == "<html><body>\n"@ + lines_html(newline_pieces(v@.take(i as int)).drop_last()),
        decreases n - i,
    {
        let ghost pieces = newline_pieces(v@.take(i as int));
        proof {
            lemma_newline_pieces_nonempty(v@.take(i as int));
            assert(v@.take(i + 1).drop_last() =~= v@.take(i as int));
            assert(v@.take(i + 1).last() == v@[i as int]);
        }
        if v[i] == '\n' {
            let (a, b) = trim_bounds(&v, start, i);
            let t = string_from_chars(&v, a, b);
            let tc = chars_of(t.as_str());
            push_line_html(&mut html, &tc);
            proof {
                let np = pieces.push(Seq::empty());
                assert(newline_pieces(v@.take(i + 1)) == np);
                assert(np.drop_last() =~= pieces);
                assert(pieces =~= pieces.drop_last().push(pieces.last()));
                assert(lines_html(pieces) == lines_html(pieces.drop_last()) + line_html(
                    trim(pieces.last()),
                ));
                assert(v@.subrange(i + 1, i + 1) =~= Seq::<char>::empty());
            }
            start = i + 1;
        } else {
            proof {
                let np = pieces.update(pieces.len() - 1, pieces.last().push(v@[i as int]));
                assert(newline_pieces(v@.take(i + 1)) == np);
                assert(np.drop_last() =~= pieces.drop_last());
                assert(v@.subrange(start as int, i + 1) =~= v@.subrange(
                    start as int,
                    i as int,
                ).push(v@[i as int]));
            }
        }
        i = i + 1;
    }
    proof {
        assert(v@.take(n as int) =~= v@);
        lemma_newline_pieces_nonempty(v@);
    }
    if start < n {
        let (a, b) = trim_bounds(&v, start, n);
        let t = string_from_chars(&v, a, b);
        let tc = chars_of(t.as_str());
        push_line_html(&mut html, &tc);
        proof {
            let pieces = newline_pieces(v@);
            assert(pieces =~= pieces.drop_last().push(pieces.last()));
        }
    } else {
        assert(v@.subrange(start as int, n as int) =~= Seq::<char>::empty());
    }
    push_str(&mut html, "</body></html>");
    html
}

} // verus!
