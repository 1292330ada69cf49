//! Core of a log-structured-merge storage engine: the block format, the
//! builders that pack sorted entries into blocks and tables, and the merge
//! of several sorted sources into one stream.

pub mod block;
pub mod iterators;
pub mod key;
pub mod table;
pub mod wire;
