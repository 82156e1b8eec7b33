# moyu_words

The core of a desktop vocabulary trainer, verified with Verus.

`src/` is the verified library:

- `text` — Unicode whitespace, `trim`, character search and slicing over `Seq<char>`.
- `parser` — word books: plain text (tab / double space / space separated, `#`
  comments), CSV (word before the first comma), dispatch on the file
  extension, and the import checks.
- `json` — JSON word books, read through `JsonValue`, a mirror of
  `serde_json::Value` produced by a trusted wrapper around `serde_json`.
- `plan` — study plans: a book's active words split into one unit per day.
- `num` — magnitudes, truncating division and decimal notation.
- `summary` — book progress summaries.
- `export` — CSV export of archived words, with proof that quoting loses nothing.
- `overlay` — queue navigation of the overlay window and the word it shows.
- `builtin` — the built-in book catalogue and download addresses.
- `rows` — the records exchanged with the user interface.

`app/` is the Tauri shell: the SQLite store (`rusqlite`), the commands the
front end invokes, downloads (`ureq`), timestamps (`chrono`) and window
management. `tests/` runs the library on concrete books and plans.
