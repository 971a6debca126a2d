# backup_scan_tool

A scanner for Moodle course backups (`.mbz` files, either ZIP or tar.gz).
It checks each backup for XML well-formedness, per-row schema constraints
taken from Moodle's `install.xml` files, cross-XML references declared in
`inforef.xml`, the shape promised by `moodle_backup.xml`, payload
bookkeeping in `files.xml`, and archive-level safety (path traversal), and
renders the findings as text, JSON or SARIF.

## Layout

- `src/` — the library, written in Verus. Its public functions carry
  `requires`/`ensures` contracts over spec-level models (`Seq<char>` for
  text, `Seq<u8>` for XML sources, views of the report types), and every
  function with a body in `src/` is verified; the few small wrappers around
  outside calls are trusted, with contracts stating what those calls do.
  - `xml.rs` models an XML document as the sequence of events the pull
    parser yields; every XML-reading function is a fold over that sequence.
  - `validate/` holds the validators (`well_formed`, `structure`,
    `cross_ref`, `completeness`, `safety`) and the stable issue codes.
  - `manifest.rs`, `mbz.rs`, `scanner.rs` tie the validators to an opened
    archive; `report.rs` aggregates results and renders the text report;
    `sarif.rs` builds the SARIF model of a report.
  - `discover.rs` and `cli.rs` hold the path filtering and command-line
    model.
  - Calls into `quick-xml`, `globset` and `owo-colors` go through small
    trusted wrappers whose contracts state what the library documents.
- `app/` — the command-line program: argument parsing, reading archives
  and schema files from disk, parallel scanning, JSON/SARIF output.
- `tests/` — the test suite, run against the compiled library.
