# vhsvault

Content-addressed manifests and verification for local archives: every
regular file under a directory is recorded as `VHS1|path|size|hash` (FNV-1a
64-bit), and a manifest can later be verified against the directory or
compared with another manifest.

## Layout

- `src/` — the verified library (Verus):
  - `fnv.rs` — FNV-1a 64-bit, whole or a chunk at a time;
  - `text.rs`, `number.rs` — characters, trimming, ordering of paths,
    decimal and hexadecimal digits;
  - `manifest.rs` — entries, manifests, sorting by path, the text form;
  - `parse.rs` — reading the text form back, from text or from the bytes
    of a file, with its errors;
  - `walk.rs` — the decisions of the directory walk and the order of files;
  - `verify.rs` — checking a manifest against what is on disk;
  - `diff.rs` — comparing two manifests;
  - `cli.rs` — command-line arguments and the printed reports.
- `tests/` — tests of the library.
- `app/` — the program: arguments, directory walking, file reading and
  hashing, printing.

## Commands

```sh
vhsvault create ~/archive --out archive.vhs
vhsvault verify archive.vhs ~/archive
vhsvault diff old.vhs new.vhs
```
