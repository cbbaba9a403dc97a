# soml

A lightweight TOML parser and writer whose behaviour is stated in contracts and proved with
Verus.

## Layout

- `src/de/`: reading TOML. `grammar.rs` is the mathematical model of the grammar (what a line,
  a key, a value or a whole document reads as); `parser.rs` is the parser, proved to agree with
  that model step by step; `table.rs` builds the tables of a document; `reader.rs` splits the
  input into lines; `number.rs` reads integers in any radix; `mod.rs` hands parsed values out
  in order.
- `src/ser/`: writing TOML. `writer.rs` states what each piece of text looks like and writes
  it; `tree.rs` collects values into the tree that a document is written from; `value.rs`
  writes a single value inline; `utils.rs` writes keys; `datetime.rs` decides what a date-time
  wrapper struct's fields do.
- What the reader gives back of what the writer wrote: `src/roundtrip.rs` (integers, basic
  strings, keys), `src/multiline.rs` (multi-line strings), `src/inline.rs` (any value written
  inline: strings, integers, booleans, and arrays and inline tables of them), `src/document.rs` (key/value lines),
  `src/sections.rs` (header lines and blank lines), `src/nesting.rs` (the table that a path of
  keys leads to while a document is read), and `src/readback.rs`, whose
  `lemma_document_readback` states it for a whole document: tables inside tables and arrays of
  tables, to any depth.
- `src/line_ends.rs`: a document whose lines end with `\r\n` reads as the same document with
  `\n` (`lemma_crlf_parse`).
- `app/`: the serde front end (`from_str`, `to_string` and the serde traits), reading from and
  writing to I/O streams, and floating-point numbers, none of which the verified library models.
