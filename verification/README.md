# sumpig

Merkle tree fingerprints of directory trees, and their comparison. A fingerprint
(manifest) lists the BLAKE3-based hash of every file and the Merkle hash of every
directory down to a chosen depth; comparing two manifests finds exactly what differs,
skipping every directory whose hash is the same on both sides.

## Layout

- `src/` is the library, verified with Verus:
  - `merkle.rs`: the Merkle hash of a tree given by its file entries, and the manifest
    listing; the listing's root entry and hashes are the same at every output depth, and
    changing one file changes every directory hash above it unless BLAKE3 collides and
    leaves every other entry as it was.
  - `manifest.rs`: writing and reading the manifest text; what is written reads back as
    written. Also the calendar date of a clock time.
  - `compare.rs`: comparing two manifests and formatting the report (a mark, a tab and
    the path per line); a comparison reports exactly the entries that differ outside the
    subtrees that are the same.
  - `walk.rs`: the default ignore rules of a directory walk, `*.nosync` directories
    included.
  - `commands.rs`: the file name of a fingerprint, the settings it is made with, the two
    fingerprints a directory holds for a comparison, comparison labels and header
    warnings.
  - `hash.rs`: file hashes, their hexadecimal form, and the BLAKE3 calls the library
    relies on; `calendar.rs`, `order.rs`, `text.rs`: the calendar, the text order with a
    merge sort, and text operations on characters.
- `app/` is the `sumpig` command: argument parsing, walking and reading files on
  threads, the host name and the output of both commands.
- `tests/` holds the tests of the library.
