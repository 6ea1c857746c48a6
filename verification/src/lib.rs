//! A block-oriented relational query engine whose decisions are verified.

pub mod answer;
pub mod block;
pub mod block_laws;
pub mod bytes;
pub mod cache;
pub mod cache_laws;
pub mod disk;
pub mod disk_laws;
pub mod error;
pub mod error_laws;
pub mod float;
pub mod ops;
pub mod optimizer;
pub mod query;
pub mod row;
pub mod row_laws;
pub mod schema;
pub mod schema_laws;
pub mod seqs;
pub mod text;
pub mod value;
pub mod view_laws;
