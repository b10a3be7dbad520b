# pake

The tab, bookmark and last-session logic of Pake's tabbed browsing mode,
verified with Verus.

- `src/` is the verified library: the tab model (`tabs`), the bookmark store
  (`bookmarks`), session snapshots, restore and save debouncing (`session`),
  the URL components read from the `url` crate and the canonical URL form
  (`urls`), file paths (`paths`), and specified text and sequence helpers
  (`text`, `seqs`). The laws stand at the end of `bookmarks`, `session` and
  `tabs`.
- `app/` is the Tauri glue: state registration, the JSON files on disk, the
  IPC commands and the webviews of the tabbed window.
- `tests/` runs the library on concrete values.
