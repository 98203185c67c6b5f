//! A small database engine, piece by piece: key-value stores, a SQL front
//! end, query plans, transactions, durable logs with checksums, Raft
//! election and replication, and replicated counters.

pub mod crdt;
pub mod raft_election;
pub mod raft_log;
pub mod text;
pub mod log_compaction;
pub mod query_plan;
pub mod kv_range;
pub mod deadlock;
pub mod checksum;
pub mod wal;
pub mod strmap;
pub mod sql_server;
pub mod index_scan;
pub mod framing;
pub mod mvcc;
pub mod scheduler;
pub mod numerals;
pub mod golden;
pub mod lexer;
pub mod bitcask;
pub mod kv_protocol;
pub mod sql_parser;
pub mod kv_store;
pub mod sorted_map;
pub mod storage_engine;
pub mod executor;
pub mod joins;
pub mod planner;
pub mod optimizer;
pub mod record;
