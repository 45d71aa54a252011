# c0

C0DATA — structured data built on ASCII C0 control codes — as a verified
Verus library. Values are plain UTF-8 text; structure is expressed through
single-byte control codes (FS/GS/RS/US separators, SOH headers, STX/ETX
nesting, DLE escape, ETB stream commits).

Every reader, writer and converter in `src/` carries a contract over a
mathematical model of the bytes (`Seq<u8>`), and Verus proves the code
against it.

## Layout

- `src/lib.rs` — control codes, `unescape`, `canonical`
- `src/tokenizer.rs`, `src/token.rs` — tokens as offsets into the input
- `src/table.rs`, `src/document.rs` — zero-copy tables, records, documents
- `src/builder.rs` — compact-form writer
- `src/stream.rs` — ETB commits: `StreamReader`, `StreamWriter`
- `src/pretty.rs` — Control Picture layout and its parser
- `src/layout.rs` — aligned and spaced column layouts of the pretty form
- `src/layout_roundtrip.rs` — the layouts read back as the plain pretty text
- `src/csv.rs`, `src/json.rs`, `src/diff.rs` — CSV, value trees and JSON
  text (through `serde_json`), C0DIFF
- `src/sink.rs` — the byte sink a `StreamWriter` writes to, with a record of
  the calls made on it
- `src/escaping.rs`, `src/well_formed.rs` — escapes and UTF-8 kept by the
  writers
- `src/properties.rs`, `src/pretty_roundtrip.rs` — properties that span
  several functions (what a reader gives back of what a writer wrote)
- `app/` — log files on disk, and error types with `Display`, outside Verus
- `tests/` — examples run against the compiled library
