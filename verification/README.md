# rommy

Records of command runs in the `.rommy` text format, and the `rommy` tool
that writes, validates and shows them. The library is verified with Verus.

## Layout

- `src/` — the verified library.
  - `parser.rs`: the `.rommy` format and its parser (`parse_str`), stated
    against the line-by-line reading `parse_text`.
  - `record.rs`: the record writer (`render_record`), stated as the bytes
    `record_bytes` of a record.
  - `roundtrip.rs`: what a written record reads back as, also after the
    text of an existing file (`--append`).
  - `meta.rs`: the `META` entries of a record, kept sorted by key.
  - `report.rs`: what `rommy validate` and `rommy show` print and decide.
  - `cli.rs`: the options, quoting of commands for bash (and how bash
    reads the quoted line back), colours, lock and temporary file names.
  - `outpath.rs`: the default output root and the automatic file name.
  - `clock.rs`: instants of a run, their RFC 3339 text and the duration.
  - `scratch.rs`: the editor and scratch script of `rommy run` without a
    command.
  - `paths.rs`, `text.rs`: path and character helpers.
- `tests/` — tests of the library.
- `app/` — the program: option parsing, processes, files, locks, JSON and
  terminal output around the library.
