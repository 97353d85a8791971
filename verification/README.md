# toml_read_field_noheap

Reads one top-level `key = value` field of a TOML file into a buffer on the stack. The file is taken
in one byte at a time; nothing of it is kept but the value.

- Quoted values (`"alice"`) end at the next `"`, unquoted ones (`8080`) at the end of the line. LF and
  CRLF both end a line. A value that the file ends in is an error.
- Blank lines and lines that start with `#` are skipped. The first entry of a key wins.
- A value that does not fit in the buffer is an error, never cut short. Errors carry no data.
- A scan takes in at most 1 MiB.
- No sections, arrays, tables, escapes or multi-line strings. An inline comment behind an unquoted
  value is part of the value. A byte order mark is not stripped, and a value need not be UTF-8.

## Layout

`src/` is the library, verified with Verus. `src/field.rs` says what a field is and what a scan
reports; `src/scanner.rs` is the scanner, proved to report just that; `src/laws.rs` holds what follows
for every file, such as that a value that was written is read back. `app/` is a small program around
the library that opens files and prints.

One function of the standard library is taken on trust: `core::str::from_utf8`, in `src/report.rs`.
