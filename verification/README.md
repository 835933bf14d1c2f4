# minisearch_rs

A tiny BM25 full-text search engine whose core is verified with Verus.

## Layout

- `src/` — the verified library:
  - `tokenizer.rs` — Unicode word splitting (via `unicode-segmentation`),
    lowercasing, punctuation / length / stopword filters; every token's term
    is the lowercase form of the input bytes at its offsets.
  - `index.rs` — the inverted index: documents get sequential ids, duplicate
    external ids are refused, posting lists stay in ascending document order
    and record each term's (positive) frequency; laws relate the postings to
    the history of added documents.
  - `search.rs` — query preparation (distinct terms in byte order) and the
    per-document inputs of BM25 (lengths, document and term frequencies).
  - `snippet.rs` — snippet extraction: the window of the given width that
    holds the most matches (the leftmost on ties; when every match is wider
    than the window, the window anchored at the first match and stretched
    over it), widened to whitespace, with ellipses and at least one
    highlight, on character boundaries.
  - `text.rs` — UTF-8 helpers: character boundaries, byte slicing, ASCII
    case-insensitive comparison, UTF-16 offsets.
  - `error.rs` — the error type.
- `app/` — what stays outside the verified library: the floating-point
  BM25 scoring (`Engine`), persistence with `serde` + `bincode`, the
  `thiserror` error type and the WebAssembly bindings.
- `tests/` — tests of the library.
