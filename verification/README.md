# kreuzberg (verified core)

The text-layout and post-processing core of the kreuzberg document
extraction library, written in Verus. Every function in `src/` carries a
contract that Verus proves, except the few small wrappers marked
`#[verifier::external_body]` that call std, `regex` or `image`: their
contracts are trusted, and their doc comments say what they claim.

- `src/text.rs` — whitespace, trimming, word splitting, decimal digits.
- `src/render.rs` — PDF paragraphs to Markdown: CJK-aware word joining,
  dehyphenation, inline bold/italic runs, HTML-entity escaping, list
  prefixes, code and formula blocks, image placeholders.
- `src/tables.rs` — table cells to Markdown tables, vertical-header repair,
  cell placement and density checks.
- `src/markdown.rs` — clean-up of CommonMark produced by the renderer.
- `src/pipeline.rs` — page byte ranges for chunking, code chunks, and the
  chunking, language-detection and token-reduction stages.
- `src/config.rs` — configuration formats, discovery order, validation of
  option maps handed in by language bindings.
- `src/embed.rs`, `src/image_ocr.rs` — checks made before embedding texts
  or running OCR on images.

`app/` holds what cannot be verified: file and process I/O, the async OCR
pool, comrak, floating-point table geometry, serde copies of the data types
and the Elixir binding. The geometric decisions of table recognition (which
words fall in which cell, which cells in which table) are made there, in
floating point; the other decisions are the library's.
