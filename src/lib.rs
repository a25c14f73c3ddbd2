//! Per-key minimum, mean and maximum over `key;value` lines, computed over
//! newline-aligned ranges of one buffer and merged into one table.

pub mod aggregate;
pub mod records;
pub mod report;
pub mod stats;
pub mod summary;
pub mod table;
pub mod value;
