//! Analysis of proxy access logs: records are cut out of a stream of lines,
//! turned into entries, filtered by a pattern and counted by field.

pub mod aggregate;
pub mod entry;
pub mod filter;
pub mod interner;
pub mod number;
pub mod parameter;
pub mod parser;
pub mod text;
pub mod timestamp;

pub use aggregate::GroupedParameter;
pub use entry::{hash, LogEntry};
pub use parameter::LogParameter;
pub use parser::convert;
