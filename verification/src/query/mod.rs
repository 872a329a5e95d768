//! Structured queries and their execution.

pub mod executor;
pub mod number;
pub mod parser;
pub mod render;
pub mod statement;

pub use executor::QueryExecutor;
pub use parser::QueryParser;
