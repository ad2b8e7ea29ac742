# masking_tool

A PDF redaction library: it removes the text, paths and image pixels that
lie under redaction rectangles, then draws a filled box over each one.

The decisions that need no floating point are written in Verus and proved
against their contracts (`src/`):

- `color`: mask colour names, and which colour wins where masks overlap.
- `content`: content-stream operator kinds, and the bookkeeping that drops
  every construction operator of a path painted under a mask.
- `dict`: an ordered dictionary whose `set` moves a key last, as PDF
  dictionaries of `lopdf` do.
- `inherit`: page and form XObject resource inheritance.
- `font`: glyph codes of a string operand and glyph-width tables.
- `image`: image XObject decoding (JPEG through `jpeg-decoder`, Flate through
  `flate2`, PNG predictors through `lopdf`), pixel rectangles, pixel filling
  and the order in which masks are painted.
- `resources`: fresh `XMask<n>` names for new XObjects and their entry in a
  resource dictionary.
- `pages`: masks grouped by page.
- `load_guard`: the bytes that are safe to hand to `lopdf`'s parser.
- `document`: loading a PDF with `lopdf`.

`app/` holds what stays outside the proofs: the floating-point geometry of
pages, text and images, the walk over content streams, the WebAssembly entry
points and a command-line checking tool.

## Trusted base

The proofs rest on these items, whose contracts are believed, not proved:

- `lopdf::Document::load_mem` (`document::parse_document`): whether it
  parses the bytes. It is only given bytes that `load_guard::loadable`
  accepts, a verified check that leaves out the inputs on which the parser
  would loop, overflow or recurse without bound (chained cross-reference
  sections, object streams, indirect stream lengths, huge numbers, deep
  nesting); `load_pdf_from_bytes` refuses the rest as `Unsupported`.
- `jpeg_decoder::Decoder` (`image::decode_jpeg`), built with its
  `platform_independent` feature so that its output depends on the bytes
  alone; the pixel count is checked by verified code.
- `flate2::read::ZlibDecoder` (`image::inflate_zlib`) and
  `lopdf::filters::png::decode_frame` (`image::unfilter_png`): named results.
- `lopdf::Dictionary` reads and writes of a resource dictionary's `XObject`
  entry (`resources`), one outside step per item; the decision between
  them is verified.
