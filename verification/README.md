# exlex

A small configuration format — quoted `"key": "value"` properties grouped in
nested `sect "name" { ... }` sections — with a zero-copy reader and an
arena-backed mutator that writes the edited document back out as text.
Everything in `src/` is verified with Verus.

## Layout

- `src/parser.rs` — the grammar as spec functions over bytes (`spec_parse`,
  a cursor-driven state machine), the FxHash used to compare names quickly,
  and `ExlexParser`, proved to compute exactly `spec_parse`.
- `src/interface.rs` — `Exlex`, the parsed document. Its view is a
  `DocModel`; every lookup (by section id, by a list of names, by a dotted
  path such as `ROOT.Server.Tls`) is specified over that model.
- `src/writer.rs` — `ExlexMutator`. Its view is a `MutModel`: the document
  plus the recorded updates, new properties, new sections, moves and
  deletions. Each edit is specified as a function on the model, and `save`
  is proved to write exactly `spec_save` of the model.
- `src/laws.rs` — properties that relate operations: a property reads back
  as it was set; setting one property changes no other read and no other
  saved line; deleting succeeds exactly when reading does, and a deleted
  property stays out of the saved text through every later edit but setting
  it again, and the lines of a section's block change as they should
  (`law_block_lines`, `law_update_then_block`, `law_left_out_block`); `save` writes exactly the live sections reached from the root,
  each once; a section cannot be created twice under one parent; the
  sections' property lists give every pair of a document once, in order;
  every parse has the root as section 0; and path lookups compose.
- `src/roundtrip.rs` — parsing the text `save` writes reads back exactly the
  tree that was written (`law_parse_saved`, for any edits, as long as every
  string written reads back as itself between quotes); for an unedited
  parsed document it gives back the same sections and pairs
  (`law_parse_saved_fresh`).
- `src/parsed.rs` — what every parsed document satisfies: sections numbered
  in pre-order, and every name, key and value reading back as itself.
- `src/bytes.rs` — the byte searches of the `memchr` crate, UTF-8
  validation and `FromStr`, each behind a small trusted wrapper whose
  contract is what the crate or std documents.

## Using it

```rust
use exlex::Exlex;

let doc = Exlex::init_reader("sect \"Server\" {\n\"port\": \"8080\"\n}\n", None, None, None, None).unwrap();
let server = doc.get_child("Server", doc.get_root()).unwrap();
let port: u16 = doc.get_property_as("port", server).unwrap();

let mut m = doc.init_mutator().unwrap();
m.update_prop("port", "9000", server.0);
let text = m.save();
```

Section ids are assigned in the order sections open, from 1; the root is 0.
Sections created through the mutator continue that numbering.
