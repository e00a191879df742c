# nxtpdf

The document engine of NXTPDF, a desktop PDF editor: tabs of open documents
with an undo history, page surgery (rotate, delete, reorder, append, extract),
AcroForm reading, filling and building, and the pieces of page-text editing
that are not geometry. Every function in `src/` carries a Verus contract and is
verified; calls into `lopdf` go through small trusted wrappers whose contracts
say what `lopdf`'s source shows. Objects handed to `lopdf` never repeat a
dictionary key, since `lopdf` would merge the entries.

## Layout

- `src/state.rs` — the workspace of open documents and each document's
  snapshot history (undo, redo, the saved position).
- `src/pdf/object.rs` — the PDF object model the contracts speak of, and the
  conversions to and from `lopdf`'s.
- `src/pdf/document.rs` — the page tree: reading it, rotating, deleting,
  reordering, appending and extracting pages, and summarizing a document.
- `src/pdf/forms.rs` — AcroForm fields: listing, filling, creating, moving,
  resizing, renaming and deleting them.
- `src/pdf/text.rs`, `src/pdf/fonts.rs`, `src/pdf/unicode.rs` — ToUnicode
  CMaps, glyph names, font encodings and UTF-16.
- `src/pdf/content.rs` — content streams: reading and rewriting the strings a
  show-text operator draws, and writing streams back.
- `src/pdf/edit.rs` — the decisions of page-text editing: which font each
  show-text operator draws with, where each text-state parameter in effect
  was set (`q`/`Q` replayed), which form XObjects the page walk enters,
  whether a run's font can spell new text, and the rewritten operations.
- `src/printing/` — print settings, and the computations of the Windows
  printing backend.
- `src/request.rs` — the command line and the page-image URLs.
- `tests/` — tests of the library.
- `app/` — the desktop application around the library: the Tauri shell, file
  I/O, PDFium rendering, and the geometry of page text (positions, widths and
  sizes are floating point, which stays out of the library).
