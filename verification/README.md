# nextar

An archiver with Zstandard / LZMA2 compression, Argon2id + XChaCha20-Poly1305
encryption and Reed-Solomon recovery volumes. The engine is written in
Verus: its public functions carry `requires` / `ensures` contracts that
Verus proves, and the outside crates (zstd, xz2, argon2, chacha20poly1305,
sha2, crc32fast, reed-solomon-erasure, rand, num_cpus) are reached through
small trusted wrappers whose contracts are stated in their doc comments.

## Layout

- `src/format.rs` — the `.NEXT` header, block header and index framing, with
  encode/decode round-trip lemmas.
- `src/compress.rs`, `src/crypto.rs` — per-block compression and
  authenticated encryption; decoding what was encoded gives the chunk back.
- `src/pipeline.rs` — turning a chunk into a stored block and back, the
  in-order block writer, the index assembled from the written blocks.
- `src/recovery.rs` — Reed-Solomon segments, the `.nvol` volume layout and
  its parser, block offsets; a lost block inside a segment's parity budget is
  rebuilt exactly.
- `src/archive.rs` — the decisions of create / extract / verify / repair:
  input ordering, stored names, path safety, per-block verdicts, archive
  rebuilding.
- `src/desktop.rs`, `src/setup.rs` — decisions of the desktop app and of the
  Windows installer (settings, drops, job forms, shell commands, install and
  uninstall plans, the wizard's page flow).
- `src/term.rs`, `src/units.rs`, `src/cli.rs`, `src/progress.rs`,
  `src/paths.rs`, `src/text.rs`, `src/bytes.rs` — terminal styling, size
  parsing, command-line decisions, progress counters and string helpers.
- `app/` — the `nextar` command-line program: argument parsing (clap), file
  walking and I/O, the threaded create pipeline, and the JSON index
  (serde) around the verified engine.
- `tests/` — tests of the engine's public functions.

The desktop app and the Windows installer front ends (egui windows,
registry and shell calls) are not part of this crate; the decisions they
make are, in `desktop.rs` and `setup.rs`.
