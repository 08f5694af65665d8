# json_editor

A JSON document explorer. A document is flattened into a list of entries, one
per value in document order, each knowing its parent, how its parent reaches it
(position or key), and its depth. The entries can be filtered by a regular
expression over keys and scalar values, edited in place (a scalar's value, an
entry's key), and rendered as rows in which folded containers hide their
scalars.

- `src/` — the verified library: the document model (`json_tree`), the
  flattened explorer and its laws (`json_enviroment`), rendering types
  (`json_utils::json_value`), JSON parsing through `serde_json`, key
  validation and loading (`json_utils`, `json_parser`), stepping through the selection (`ui_handles`), key presses
  (`input_manager`), text helpers (`text`) and the regular-expression filter
  (`text_filter`).
- `app/` — a terminal front end: file reading, the open document held in a
  global, and a command loop.
- `tests/` — tests of the library on concrete documents.
