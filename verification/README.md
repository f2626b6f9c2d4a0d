# bpfs

A verified library for BPFS, a generational, deduplicating backup archive
format, and a command-line tool around it.

- `src/` is the library, written in Verus: the byte layout of every record
  (encoders and parsers with exact contracts), the structural checks on a
  parsed generation, the read-side resolution of files to their bytes, the
  hash and signature checks, string interning, the filesystem scan state
  machine, blob deduplication, content hashing and the quick fingerprint
  of source files, the streamed assembly of data sections, the planning of
  a generation, and the laws
  that tie them together (a written archive reads back as what was written;
  a packed blob reads back as the bytes packed for it; identical files
  share a blob; a signed generation verifies under its key).
- `app/` is the `bpfs` command (`pack`, `ls`, `extract`, `verify`): argument
  parsing, file and terminal I/O, running the analysis of files in
  parallel, entropy in floating point, and progress output.
- `tests/` exercises the library on concrete values.

SHA-256, Brotli and Ed25519 come from the `sha2`, `brotli` and
`ed25519-dalek` crates, through a few small wrappers whose contracts are
trusted.
