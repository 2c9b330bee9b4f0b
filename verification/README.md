# serde_nuan5json

nuan5json is JSON extended with **id maps**: maps whose keys are integers,
written `[: 10008: false, 20001: true]`.  This crate reads and writes it,
with the reader, the writer and their rules verified by Verus.

Layout:

- `src/` — the verified library.
  - `text.rs`: hex digits, WTF-8 encoding, line and column of an offset.
  - `grammar.rs`: the grammar of the format as spec functions (strings,
    escapes, numbers, skipping a whole value).
  - `de.rs`: the reader, each operation specified against the grammar.
  - `ser.rs`: formatters (compact and pretty) and the writer, specified as
    the layout of a sequence of events.
  - `laws.rs`: what is written reads back (strings, integers, the layout
    between values).
  - `document.rs`: a model of whole documents and id maps; their compact
    text reads back as the same document and is skipped whole.
  - `pretty.rs`: the same for the pretty layout, when it indents with
    whitespace.
  - `attr.rs`: the text of the transform attribute's arguments, cut into
    tokens and taken item by item.
  - `ext_type.rs`, `structs.rs`, `fields.rs`: id maps and the other
    extension types, the float-free record models, and the transform
    fields of records (their arguments, names and type, and where they
    stand among the record's own fields).
- `tests/` — tests of the library on concrete inputs.
- `app/` — the serde `Serializer` and `Deserializer` over the library,
  float formatting and parsing, and the record models with serde derives.
