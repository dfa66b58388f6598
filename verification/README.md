# lsm_db

A log-structured merge-tree key-value store, verified with Verus.

Writes gather in a sorted buffer. A full buffer becomes an immutable sorted run, and runs are
merged into one when there are too many. A read asks the buffer first and then each run, newest
first. A write-ahead log carries the writes that no run holds yet, and a manifest names the live
runs.

- `src/` is the engine's logic: the codecs of runs, log records and the manifest, the buffer, the
  merge, the filters, the block cache, and the state that ties them together. Every function has a
  contract. `src/laws.rs` states what holds of the operations taken together: reads see the last
  write, and flushing and compaction change nothing that a reader sees. `src/history.rs` follows a
  store through any sequence of writes, flushes, compactions and reopenings, and states that a
  reader sees what the writes left. `src/promises.rs` goes from end to end: what was written is
  there after a flush and a reopening, or after a reopening alone, and a compaction keeps just the
  live values. These laws speak of what the run files hold. A block that is damaged holds nothing
  for them, and the contracts say that it is an error: a lookup that needs it, a scan that reaches
  it and a compaction of its run fail, and none passes it over. The library performs no I/O. What
  has to be read or written goes through functions that the caller supplies, and the contracts fix
  what they are called on.
- `app/` puts the library on a directory: files, the log file, locks and the compaction thread.
- `tests/` runs the library over a directory kept in memory.

The outside crates that the logic calls (`crc32c`, `bloom-lib`, `postcard`) are reached through a
few trusted functions in `src/checksum.rs` and `src/bloom.rs`. Each says what it takes for granted.
