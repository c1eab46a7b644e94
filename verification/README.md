# ous

`ous` builds packages from a JSON manifest into zstd-compressed `.xcs`
archives, keeps a repository index of their metadata, and maintains a
package pool (sorting, validation, checksums, signing, upload).

The library under `src/` holds the rules of the build and of the
repository, verified with Verus; `app/` is the command-line program that
runs commands, reads and writes files and calls the library for every
decision.

Library modules:

- `naming`: architecture names, path and version components, archive file
  names, natural version keys, shell quoting, source kinds.
- `pipeline`: the resume state of a build and what each stage does; fetch,
  build and install decisions, link placement, checksum selection.
- `deps`, `elf`, `resolve`, `graph`: dependencies from source manifests,
  build logs, ELF `DT_NEEDED` entries and the repository index, and their
  transitive closure.
- `components`, `metadata`, `license`, `index`: package metadata and the
  sorted repository index.
- `repo`, `upload`: repository maintenance and publication plans.
- `cli`, `config`, `plugin`, `ui`, `clock`: argument preprocessing,
  settings, plugin scripts, terminal and event messages, UTC timestamps.
- `text`, `order`, `paths`, `digest`, `model`: strings, orders, `Path`
  comparison, digests and the data types.
- `outside`: the trusted wrappers of calls into `std`, `regex`, `toml`,
  `serde_json`, `sha2`, `sha1` and `md-5`.
