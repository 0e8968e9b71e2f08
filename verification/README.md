# entryconf

Loads a configuration directory into one tree (one `entrypoint.{json,yaml,yml,toml}`,
`*.env` variable files, `@file:` includes, `$NAME` / `${NAME}` / `${NAME:-default}`
interpolation), reports where each effective value is authored, and plans and commits
edits to the JSON documents behind it.

The library under `src/` is written in Verus: every function carries a contract over a
mathematical model of its data (`JV` for values, `Seq`s of characters and bytes for
text), and Verus proves each body against it, except the few trusted wrappers
(`#[verifier::external_body]`) that call the outside crates: `sha2` for revisions,
`serde_json` for number texts, `saphyr-parser` for YAML events, `toml` for TOML trees,
and std's `String::from_iter`. Their contracts are believed, not proved; each one's doc
comment says what it claims.

- `json`, `jsonfmt`, `pointer`: the data model, its normalized text, and JSON Pointer
  `get` / `set` / `remove`.
- `parse`: YAML (events from `saphyr-parser`, folded into a value under the alias
  expansion budget), TOML (the `toml` crate's tree converted into the data model,
  datetimes rendered), formats by extension.
- `envfile`, `interp`, `source`, `load`: `*.env` files, interpolation, paths and
  document keys, and the loader itself. The loader never touches the filesystem: it
  reads a `Disk` table and answers `Step::Need(path)` when an entry is missing, so the
  caller adds it and runs again.
- `edit`, `snapshot`, `lock`: snapshots, provenance, edit plans, the commit decision
  and the lock protocol, one decision at a time.
- `cli`: the command line of the editing tool.

`app/` is the program around the library: filesystem access, JSON parsing into the
data model, the lock and write loop, and JSON output.

Laws the library proves, as public proof functions:

- `pointer::law_set_then_get`, `pointer::law_set_keeps_objects_sorted`,
  `pointer::law_remove_keeps_objects_sorted`, `pointer::law_set_leaves_other_values`,
  `pointer::law_remove_leaves_other_values`, `pointer::law_remove_undoes_new_member`,
  `pointer::law_parse_escaped_tokens`
- `jsonfmt::law_format_text_shape`
- `edit::law_literal_loads_back`, `edit::law_literal_value_loads_back`,
  `edit::law_literal_set_reads_back`, `edit::law_unchanged_tree_affects_nothing`,
  `edit::law_affected_empty_iff_same`, `edit::law_affected_sorted`,
  `edit::law_affected_strictly_sorted`,
  `edit::law_affected_symmetric`, `edit::law_affected_no_ancestor`
- `parse::yaml_tree::law_yaml_within_budget`,
  `parse::yaml_tree::law_yaml_budget_rejects_only_oversize`
- `load::law_include_bound_never_decides`, `load::law_load_grafts`,
  `snapshot::law_open_tree_is_load`, `snapshot::law_snapshot_documents`,
  `snapshot::law_snapshot_document_grafts`
