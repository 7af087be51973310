# tjson

A reader for TJSON documents, written in Verus and verified.

- `src/` is the library. `parse.rs` reads documents into `Document` (data,
  comments, and how values were written) and `Value` (data only), with
  contracts over line-level specifications of the grammar (`nested_value`,
  `obj_block`, `arr_block`, `table_block` and friends). `lex.rs` holds the
  lexical rules, `minimal.rs` the MINIMAL JSON reader, `number.rs` JSON
  numbers kept as written, `options.rs` the reading options and lookalike
  sets, `document.rs` and `value.rs` the two result types, `cli.rs` the
  command line's decisions, `jsonlit.rs` the calls into serde_json.
- `tests/` runs the library on concrete documents.
- `app/` is the command-line program around the library.
