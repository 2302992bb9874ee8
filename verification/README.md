# sfs_core

A versioned, encrypted store of units, written in Verus. A unit is a piece of
content under one or more paths, cut into fragments that are sealed one by one.
Every write makes a new record with a version vector; superseded blocks stay
readable as history.

## Layout

- `src/` is the library. Verus verifies all of it; public functions state what
  they return and change.
  - `vector`, `block`, `bytes`, `catalog`, `cache`, `heap`, `unit`, `text`:
    values and collections.
  - `crypto`, `header`, `record_block`, `writerset`, `evicted`, `projection`,
    `commit_record`, `verify_trailer`: sealing, membership and byte formats.
  - `engine`, `storage`, `content`, `write`, `stage`, `supersede`, `units`,
    `resize`, `meta`, `names`, `raw`, `setup`: a store and what is done to its
    units.
  - `commit`, `overlay`, `wal`, `recovery`, `seams`: batches, the write log, and
    crashes.
  - `history`, `tags`: earlier versions and named commits.
  - `merge`, `transport`, `import`, `blocks`, `sync`, `conflict`, `peers`,
    `members`: several writers and several copies.
  - `compact`, `reseal`, `recipher`, `rekey`, `retention`: maintenance.
  - `laws`, `readback`, `timemachine`, `runs`, `snapshots`, `convergence`,
    `promises`: what holds across operations. Laws on one topic stand in its
    module, under names that start with `law_`.
  - `outside`: calls into other crates, with the contracts that are believed of
    them.
- `tests/` runs the library on concrete values.
- `app/` holds worker threads, the system clock and errors that print.

## What is believed

`outside` states what is used of `crc32fast`, `getrandom` and of the standard
library's text decoding. Cipher suites and signatures come from an
implementation of `crypto::Crypto`, whose contract says what they must do;
`Plaintext` is one that hides nothing and signs nothing.
