# toydb

A small database engine written in Verus: each part is executable Rust
whose behaviour is stated in `requires`/`ensures` contracts and proved.

`src/` is the verified library:

- key-value stores: `kv_store`, `strmap`, `sorted_map`, `kv_range`,
  `storage_engine` (pluggable engines and a text command interface),
  `golden` (a store, a command runner with recorded output, and property
  checks);
- durability: `bitcask` (append-only log with a key directory),
  `wal` (write-ahead log records), `checksum` (CRC-32);
- SQL: `lexer`, `sql_parser`, `planner`, `optimizer`, `query_plan`,
  `executor` (pull-based operators), `joins` (joins, grouping, sorting),
  `index_scan` (cost estimates), `record` (rows of named columns);
- transactions: `mvcc` (snapshot isolation), `scheduler` (dependency
  ordering), `deadlock` (wait-for graph cycles);
- distribution: `raft_election`, `raft_log`, `log_compaction`, `crdt`
  (replicated counters), `sql_server` (commands through a Raft log),
  `framing` and `kv_protocol` (network messages);
- helpers: `text`, `numerals`.

Laws that span several operations are public proof functions next to the
operations they relate (for example `mvcc::lemma_snapshot_isolation`,
`bitcask::lemma_reopen_restores_offsets`, `joins::lemma_joins_agree`).

`app/` holds what the library leaves to its caller: file and network I/O,
the asynchronous server, `f64` arithmetic, serde/bincode encoding, and the
command-line front end. `tests/` exercises the library from outside.
