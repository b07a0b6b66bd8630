# kanban_planner

A planner whose cards nest into boards: every card can hold child cards, note
pages and a due date, under a single workspace card. The library keeps that
tree well formed (one workspace card, no cycles, parents and children that name
each other) and proves it with Verus.

## Layout

- `src/` — the verified library.
  - `registry/` — the card tree: its model and invariant (`model.rs`), the
    check of a stored tree (`validation.rs`), edits (`mutations.rs`), moves and
    deletions (`moves.rs`), and the proofs that every edit keeps the tree well
    formed (`laws.rs`).
  - `application.rs` — commands as values, applied and checked, and the
    read-only views of a board.
  - `card.rs`, `note.rs`, `due_date.rs`, `title.rs`, `label.rs`, `rule.rs`,
    `bucket.rs`, `ids.rs` — the entities and their identifiers.
  - `interface.rs`, `search.rs` — decisions the screens make: drag and drop,
    form commands, what a card shows, searching.
  - `repository.rs`, `logging.rs` — which stored payloads are accepted, and the
    diagnostics ring buffer and logging filter.
  - `text.rs`, `ordering.rs` — text and sequence helpers with their lemmas.
- `tests/` — tests of the library, run against the compiled crate.
- `app/` — the unverified shell: JSON and TOML through serde, browser storage,
  logging through `tracing`.

Run `verus` on `src/lib.rs` to check the proofs.
