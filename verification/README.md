# amdl

A harness for music libraries: it keeps tags, covers and lyrics of a library complete, encodes
it to Opus, finds what is broken or redundant in it, and undoes what it did.

- `src/` is the library: what each command decides, from plain values to plain values. It is
  verified with Verus; every contract is stated over mathematical models of texts, tags and
  files. Functions named `law_…` state what holds of several functions at once.
- `app/` is the program around it: the command line, files, tags on disk, the network and the
  tools that are run.
- `tests/` runs the library on concrete values.

## What is taken on trust

| Where | What |
|-------|------|
| `src/text.rs` | character classes and small letters beyond ASCII, and UTF-8 decoding, of `std` |
| `src/json.rs` | reading JSON with `serde_json` |
| `src/covers.rs` | decoding and cropping pictures with `image` |
| `src/journal.rs` | digests with `blake3` |
