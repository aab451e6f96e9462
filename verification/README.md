# manifest_browser

The core of a desktop program that browses the release manifests of games: it lists the manifests
of a catalog, filters and searches them, lays out the folder tree of a release, decides which of
its rows are shown and selected, and unpacks manifests. Verus proves the contracts of the functions
in `src/`, but for those of four wrappers around outside calls, which it believes.

- `src/text.rs`, `src/ordering.rs`, `src/number.rs`: texts, their order, numbers and sizes as text.
- `src/catalog.rs`, `src/catalog_screen.rs`: the catalog, its display-ready cache, and the screen
  on which a release is chosen.
- `src/explorer.rs`, `src/tree.rs`: folder trees as flat lists of rows.
- `src/search.rs`, `src/visibility.rs`, `src/selection.rs`, `src/explorer_screen.rs`: the screen on
  which the files of a release are browsed.
- `src/release.rs`, `src/progress.rs`: where manifests come from, unpacking them, and progress
  messages.
- `app/`: the window, the network and the disk.

Regular expressions, Unicode lower case and zstd come from outside; what is believed of them stands
above the wrappers that call them, in `src/search.rs` and `src/release.rs`.
