# hocon_fmt

A formatter for HOCON, verified with Verus. It parses a HOCON document and writes it in a
canonical style: `=` between keys and values, two-space indentation, one-line collections
where they were written on one line and fit the width, comments and single blank lines kept,
and a choice of comma style.

## Layout

- `src/` is the verified library. Each parsing step is stated as a spec function over the
  input characters (`grammar.rs`, `lex.rs`, `scan.rs`, `strings.rs`), and the executable
  parser (`parse.rs`, with the scanning methods in `scan.rs` and `lex.rs`) is proved to agree
  with it. The canonical text of a document is a spec function too (`canonical.rs`), and the
  executable formatter (`format.rs`) is proved to produce it. `format_hocon` and
  `format_hocon_with_options` in `lib.rs` tie both ends together. `laws.rs` states laws of
  the formatter (layout, options, quoting); `readback.rs` proves that keys, substitutions,
  include targets, string literals and atoms as written read back as themselves; and
  `stability.rs` proves that formatting formatted text gives it back, for documents made of
  `key = value` lines, include statements and comment lines, with or without comments
  trailing them (not yet for objects, arrays or concatenations). `cli.rs` holds the rules of the command line.
- `app/` is the command-line program: argument parsing, reading and writing files.
- `tests/` runs the library on concrete inputs.
