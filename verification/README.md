# easypdf

Quick PDF operations — reading text and metadata, merging, splitting,
rotating and reordering pages, filling form fields, converting Markdown to
HTML — with their logic verified by Verus.

## Layout

- `src/` — the verified library.
  - `pdf_objects.rs` — the `lopdf` document model: names for what a
    document holds (pages, objects, dictionary entries) and the trusted
    wrappers through which documents are read and changed.
  - `limits.rs` — the inputs handed to the PDF parser: files whose size and
    numbers keep its object-number arithmetic in range.
  - `crypt.rs` — RC4, MD5 (through `md-5`) and the Standard security
    handler's password entries and file key, used by `EasyPdf::encrypt`.
  - `reader.rs` — loading file contents, page text extraction and joining,
    metadata, the page events that read listeners receive.
  - `manipulate.rs` — merging, rotating, reordering and extracting pages,
    with the rotation arithmetic, page lookup, reordering and id allocation.
  - `template.rs` — filling form fields by name.
  - `facade.rs` — `EasyPdf` and its builders; splitting into files;
    signing and encrypting; rendering HTML through `printpdf`.
  - `markdown.rs`, `text.rs` — Markdown to HTML, string building blocks.
  - `metadata.rs`, `font.rs`, `enums.rs`, `error.rs`, `traits.rs` — the
    core types, the choice of a standard font, errors, extension traits.
- `tests/` — tests run against the compiled library and `lopdf`.
- `app/` — what is not verified: file I/O around the library, content and
  style types measured in floating-point points, the `printpdf` writer and
  layout helper, and an error type with `Display`.

Builders name a file but do not read it: their final step takes the file's
contents (`FileContents`), and returns the resulting document for the caller
to save (see `app/files.rs`).

The `#[derive(PdfModel)]` macro, which turns an annotated struct into
rendered elements, is a procedural macro built on `syn` and `quote`; it is
not part of this crate, and `EasyPdf::fill_form` takes its data argument
without reading it.
