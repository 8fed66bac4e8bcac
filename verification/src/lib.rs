//! The core of a streaming data platform: change events of upstream
//! databases are taken in, transformed incrementally, and kept as views in a
//! cache with secondary indexes.
//!
//! The modules, leaves first:
//!
//! - `bytes`, `bigendian`: byte strings, their lexicographic order, and
//!   big-endian numbers, whose byte order is their numeric order.
//! - `field`, `point`, `types`, `hashing`: values, their order-preserving
//!   encoding, schemas, records and operations.
//! - `storage`: sub-databases with byte-string keys.
//! - `index`, `indexer`, `cache`, `expression`, `query`, `sink`: the cache,
//!   whose secondary indexes hold exactly the entries of its records, and
//!   its read path.
//! - `aggregator`, `max`, `min`, `sum`, `processor`, `set_operator`: the
//!   stateful operators, which answer each change with its retractions.
//! - `epoch`, `record_store`, `forwarder`, `ingestion`: epochs, the record
//!   store of an output port, and what a node sends and when a source
//!   commits.
//! - `connector`, `postgres_schema`, `snapshotter`, `grpc`: what sources
//!   tell of their tables.
//! - `models`, `utils`: the configuration.
//!
//! Reading and writing are left to the caller: the library takes plain
//! values and gives plain values back, and where it stands for a protocol
//! it tells what to do next.

pub mod aggregator;
pub mod bigendian;
pub mod bytes;
pub mod cache;
pub mod connector;
pub mod epoch;
pub mod errors;
pub mod expression;
pub mod field;
pub mod forwarder;
pub mod grpc;
pub mod hashing;
pub mod index;
pub mod indexer;
pub mod ingestion;
pub mod max;
pub mod min;
pub mod models;
pub mod point;
pub mod postgres_schema;
pub mod processor;
pub mod query;
pub mod record_store;
pub mod set_operator;
pub mod sink;
pub mod snapshotter;
pub mod storage;
pub mod sum;
pub mod types;
pub mod utils;
