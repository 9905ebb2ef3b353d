# cargo-gha

`cargo gha` version-locks, caches and runs binaries taken from GitHub release assets,
configured under `[package.metadata.gha]` (or `[workspace.metadata.gha]`) in `Cargo.toml`.

- `src/` is the library, verified with Verus: text operations (`text`), the manifest
  section and its edits through `toml_edit` (`manifest`), asset directories and binary
  selection (`filesystem`), download URLs, archive kinds and the run `PATH` (`binary`),
  the decisions of adding an asset (`add_asset`), command selection, the choice of assets to install and binary lookup
  (`cli`), and the shim scripts (`shims`).
- `app/` is the program around it: argument parsing, the terminal prompts, GitHub and
  HTTP requests, unpacking, the file system and process spawning.
- `tests/` runs the library on concrete inputs.
