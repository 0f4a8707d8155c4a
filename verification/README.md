# FIND — instant file search

A desktop file finder: type a few characters and see every matching file and
folder. The library under `src/` holds the logic and is verified with Verus; the
program under `app/` draws the window, walks directories, watches the file
system and reads files.

## Layout

- `src/index.rs` — the index: every entry stores its name and a parent pointer;
  full paths are put together on demand. Incremental updates, removal, the launch
  plan and the framing of the saved file.
- `src/scan.rs` — building an index from directory walks, in one go, streamed in
  batches, or resumed after an interruption.
- `src/mft.rs` — building an index from the file records of an NTFS volume.
- `src/watcher.rs` — applying file-system events to the index.
- `src/query.rs` — the query language.
- `src/search.rs`, `src/order.rs` — matching, scoring and ranking.
- `src/content.rs`, `src/doctext.rs` — searching inside files and documents.
- `src/media.rs`, `src/preview.rs`, `src/thumbnail.rs` — what the preview pane
  shows.
- `src/worker.rs`, `src/results.rs`, `src/session.rs`, `src/settings.rs`,
  `src/tray.rs`, `src/fileops.rs` — the state behind the window.
- `src/text.rs`, `src/numbers.rs`, `src/dates.rs`, `src/paths.rs`,
  `src/dir_map.rs`, `src/utf16.rs`, `src/util.rs` — what the rest is made of.

Paths in the library are texts whose components are separated by `/`; the
program translates at its boundary.

Each function's contract is stated over spec functions on sequences, maps and
integers. Properties that span functions stand beside them as public proof
functions whose names start with `law_`. Calls into other crates stand behind
small trusted functions whose doc comments say what is taken for granted.
