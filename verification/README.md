# update_schema

Schema evolution for table metadata, verified with Verus.

An `UpdateSchemaAction` records operations: columns to add, delete, rename, retype, document,
move, make optional or required, new identifier fields, or another schema to reconcile by name.
`UpdateSchemaAction::commit` replays them against the current state of a table and says what is to
be committed, and under which conditions.

- `src/` is the library. `pending` holds the state of an update and what each operation does to it,
  as mathematics; `apply`, `union` and `replay` carry it out. `tree`, `moves` and `fresh_ids` rebuild
  the tree of fields; `defaults`, `type_promotion`, `floats`, `decimal`, `calendar`, `temporal` and
  `encodings` convert default values; `column_properties`, `name_mapping` and `mapping_json` carry
  table properties along; `commit` puts it all together. `laws`, `float_texts`,
  `identifier_names`, `unique_ids`, `unique_names` and `valid_mappings` state what holds of every
  update.
- `tests/` runs the library on concrete tables.
- `app/` makes an update an asynchronous transaction action, with log output and standard errors.

Text of outside formats is read by `chrono` (times), `fastnum` (decimals) and `serde_json` (name
mappings). What the proofs take from them is stated at the functions that call them.

Floating-point defaults are handled as bit patterns. Where one becomes a decimal, its text comes from
the caller; `floating_point_defaults` lists the numbers whose texts are needed, and no other text
matters.
