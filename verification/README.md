# inno

Reads the files of Inno Setup installers, and puts the files of GOG.com
installers back together. The library is written in Rust and verified with
Verus.

- `src/gog.rs` plans the files that the entries of an installer make up and
  assembles a file from its parts. Under `src/gog/` stand the reader of script
  calls, the script that names a file, paths and directory constants, and the
  zlib layer around each part. `laws.rs` and `script_laws.rs` state what holds
  of every installer and of every call.
- `src/iterator/` walks through the files that a predicate picks and says how
  each is to be read and reported.
- `src/entry.rs` and `src/error.rs` hold the entries of an installer and the
  errors of reading one; `src/text.rs` holds what the rest needs of text.
- `app/` performs the reading.
