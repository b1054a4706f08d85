# phos

A directory lister with search presets: file filters (glob, extension,
size, kind, modification time, hidden names), sorting, size and duration
parsing, named presets, and the grid, long, tree and JSON layouts of a
listing.

- `src/` is the library, written in Verus: every function carries a
  contract and is verified. `text` and `numbers` hold the character and
  number handling (case mapping, trimming, decimal text, binary64
  rounding); `entry`, `filter`, `sort`, `preset`, `format`, `user_cache`,
  `engine` and `listing` hold the listing's rules.
- `app/` is the command-line program around it: argument handling, the
  preset file, reading directories and metadata, and printing.
- `tests/` runs the library on concrete values.
