# hexis

Managed-mutable config reconciliation with per-key modes, as a Verus-verified
library (`src/`) and the `hexis` command around it (`app/`).

Three states of a config file are reconciled: the **declared** overlay (what the
platform wants installed), the **snapshot** (what hexis last wrote) and the
**live** file (what the user has now). Each declared key carries a mode:

- `once` — seed the value at first apply, then leave it alone;
- `ensure` (default) — declared wins where it speaks, user drift survives
  wherever declared is silent;
- `always` — declared is asserted on every apply.

User drift is kept as RFC 7396 JSON Merge Patches in a rotating journal.

## Layout

- `src/json.rs`, `src/pointer.rs`, `src/pointer_map.rs` — the JSON value tree,
  its meaning as a mathematical value, and RFC 6901 pointers: reading,
  writing and walking a document.
- `src/syntax.rs` — JSON and TOML text, read and rendered through `serde_json`
  and `toml`.
- `src/declared.rs`, `src/snapshot.rs`, `src/live.rs`, `src/drift.rs` — the
  three files and the drift journal: their on-disk shapes and what they mean.
- `src/plan.rs`, `src/reconciler.rs` — the plan (one action per declared leaf)
  and the four-step apply: what is written, and the laws it keeps (declared
  values land, silent keys survive, a `once` key is written once, a second
  pass changes nothing).
- `src/supervisor.rs`, `src/proposer.rs`, `src/types.rs`, `src/error.rs` —
  command routing, identifiers, modes and errors.
- `app/` — the command line, file I/O, the apply-window lock and the actor
  tree.

`tests/` holds the library's tests, on values.
