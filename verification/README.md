# herdr_folders

Folders and the top-level space order of a terminal workspace manager,
verified with Verus.

- `src/` is the verified library:
  - `folder.rs`, `folder_laws.rs`, `coalesce.rs`: the space order model, its
    normalization and the laws it obeys, folder ids, worktree family blocks.
  - `state.rs`, `state_laws.rs`, `name_laws.rs`: the folder mutations on
    the application state, and the laws that the workspace list stays in
    canonical order and folder names stay non-blank.
  - `coalesce_laws.rs`, `order_laws.rs`, `invariant_laws.rs`: gathering
    families only reorders; which folder holds which workspace through each
    change of the order; and every folder mutation (and installing a
    restored order) keeping the full set of space-order invariants.
  - `rank_laws.rs`: the expanded folder view lists each workspace once, so
    its ranks are a permutation.
  - `drop.rs`: resolving drops in the server-side sidebar into folder requests.
  - `api.rs`, `schema.rs`: the folder API handlers and their types.
  - `cli.rs`: parsing the `herdr folder` command line.
  - `health.rs`: endpoint liveness and round-trip probing.
  - `shell.rs`, `agent_view.rs`, `collapse_store.rs`, `ranks.rs`: the client
    sidebar projection, drag and drop (with its laws in `shell_laws.rs`),
    context menus, the agents panel folder view and its layout, and the
    stored collapse state.
  - `text.rs`: string helpers with stated meanings.
- `app/` is the unverified host side: serde forms of the API types, the
  command runner, logging, clock adapters and the stored preferences form.
- `tests/` exercises the library on concrete values.
