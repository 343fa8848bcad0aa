# stipant

Unpacker for the archives of the ROSE game client (`data.000` index plus the
`data.001` … `data.008` archives), with its core proved correct in Verus.

Layout:

- `src/config.rs` – the raw configuration (`ConfigFile`) and the decoded one
  (`AppConfig`): base64 keys and tables, the `;`-separated list of
  unencrypted extensions.
- `src/rz.rs` – the archive format as the `rzfile` crate reads it: index
  records, the XOR cipher, name decoding and archive numbers.
- `src/handler.rs` – the resource table read from an index (`DataHandler`):
  lookup by name, groups per archive ordered by offset, and the plans for
  dumping files.
- `src/state.rs` – the state kept between user actions (`AppState`).
- `src/text.rs` – UTF-8 decoding, string building and file extensions.
- `app/` – the desktop program: configuration sources, file system work,
  worker threads and the `tauri` window.
- `tests/` – tests of the library.

Design notes:

- Lookup by name. `std`'s `HashMap` is specified in `vstd` only for keys
  that obey its key model, which `vstd` grants to integer, `bool` and `Box`
  keys but not to `String`. The table therefore keeps its names in `vstd`'s
  `StringHashMap`, a `HashMap<String, _>` whose view is a map from texts;
  its invariant, proved, is that it holds under each name the last entry of
  that name in index order. The per-archive groups use a `HashMap` keyed by
  the archive number.
- Ordering the groups. `vstd` gives `sort_by` no specification, so each group
  is built by a verified stable insertion by offset.
- A decryption table that is not ASCII is refused: decoded names are made of
  its bytes, and `rzfile` panics on a decoded name that is not UTF-8.
