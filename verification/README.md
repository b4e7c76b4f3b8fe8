# pdfbox

A PDF toolkit whose logic is verified with Verus: parsing (lexer, objects,
cross-reference tables and streams, object streams), stream filters
(Flate, LZW, ASCIIHex, ASCII85, RunLength), the document model (catalog,
page tree, pages), fonts and text decoding (encodings, glyph names,
ToUnicode CMaps), metadata (`/Info`, XMP), forms (fields, FDF/XFDF import
and export, flattening), images (extraction, decoding, colour conversion
through Little CMS), outlines, page operations (rotate, extract, split,
merge, watermark, overlay) and PDF/A-1b preflight.

Layout:

- `src/` — the library. Every function has a contract that Verus proves;
  the few calls into std and lcms2 that Verus cannot read sit behind small
  trusted wrappers whose doc comments say what they claim.
  Laws that span several calls are public proof functions (`lemma_*`),
  for example `lemma_prev_chain` (cross-reference `Prev` chains),
  `lemma_set_then_read_xmp`, `lemma_setter_then_getter`,
  `lemma_filter_chain_two` and `lemma_rotate_twice`.
- `tests/` — tests run against the compiled library.
- `app/` — what Verus does not check: file I/O, image encoding, and the
  floating-point geometry (form-field appearances, watermark and overlay
  placement, destinations, page boxes), which hands plain values to the
  library.
