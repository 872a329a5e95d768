//! A small in-memory tabular data engine: typed rows in paged storage,
//! ordered secondary indexes, tables with primary-key enforcement and a
//! hash-partitioned router on top of them.

pub mod error;
pub mod query;
pub mod sharding;
pub mod storage;

pub use error::DbError;
pub use query::executor::QueryExecutor;
pub use query::parser::QueryParser;
pub use sharding::ShardedDatabase;
pub use storage::{Column, DataType, Row, Schema, Value};
