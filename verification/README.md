# benostreamdb

The rules of a table store on object storage, written in Rust and proved with
Verus: what a commit keeps and removes, what a vacuum spares, how deletes are
written and read back, how segments and their indexes are described, how graphs
are laid out and walked, and how search requests become queries and pages.

- `src/` holds the library. Every function states what it returns or changes, and
  Verus proves it. Public proof functions named `law_..` state what holds of
  several functions together.
- Calls into other crates (Avro, JSON, roaring bitmaps, SHA-256, URLs, regular
  expressions, store paths) stand behind small functions marked
  `#[verifier::external_body]`; the comment above each says what is taken on
  trust.
- `tests/` runs the library on concrete values.
- `app/` reads, writes and waits: files, object stores, the environment, the
  server and the command line. It also holds what computes with floating point.

Numbers with a fraction are held by their bits or by their text.
