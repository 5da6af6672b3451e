# resxguard

Guards `.resx` resource files against mojibake and encoding damage: it
finds and repairs UTF-8 text that was misread as a legacy single-byte
encoding, and sets or imports resource values without rewriting the XML
document.

## Layout

- `src/` — the library, verified with Verus.
  - `text.rs` — character classes, case-insensitive matching and searching.
  - `entities.rs` — XML escaping and unescaping.
  - `encoding.rs` — detecting, decoding and encoding a file's text encoding.
  - `markup.rs` — the element and attribute grammar that the scanners use.
  - `mojibake.rs` — telltales of mojibake and their repair.
  - `resx.rs` — scanning `<data>` blocks, setting values, paths.
  - `upsert.rs` — setting many entries in one file.
  - `reapply.rs` — the proof that setting the same entry twice changes
    nothing the second time: for an updated resource whose `<comment>`
    element (when the entry has a comment) comes before or after its
    `<value>` element, or is absent; for an added resource when every
    `<data` element before `</root>` is closed.
  - `report.rs`, `ui.rs`, `error.rs`, `cli.rs` — report rows, console
    styling, errors and options.
  - `laws.rs` — properties of the library as a whole, proved.
- `tests/` — tests of the library.
- `app/` — the command-line program: argument parsing, file I/O, reports.
