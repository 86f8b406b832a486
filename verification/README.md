# entidb

An embedded entity database and its sync protocol, written in Verus: every
function in `src/` carries a contract, and Verus proves the code meets it.

- `src/` is the library: the storage backends (in memory, and encrypted
  with AES-GCM), the write-ahead log and its recovery, segment files, the
  segment store and compaction, transactions with snapshot isolation,
  migrations, the CBOR codec and sync messages, the change feed and operation
  log, the sync engine, the HTTP transport and the sync server.
- `tests/` runs the library on concrete values.
- `app/` holds what the verifier does not see: a file-backed storage backend,
  the sync settings with their durations and float backoff, the retry loop
  that sleeps between attempts, and the C interface's buffers and handles.

Outside crates (`aes-gcm`, `sha2`, `hmac`) are reached only through small
trusted wrappers whose contracts state what their documentation promises.
