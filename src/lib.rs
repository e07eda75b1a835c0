//! Post-processing core of a heap-allocation tracer: interprets a stream of
//! allocation records into a compact textual trace, and aggregates such a
//! trace back into per-trace and global allocation statistics.

pub mod collections;
pub mod interpret;
pub mod output;
pub mod parser;
pub mod pipeline;
pub mod pointers;
pub mod record;
pub mod resolver;
pub mod text;
