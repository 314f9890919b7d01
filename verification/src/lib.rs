//! A log-structured merge-tree key-value engine.

pub mod backup;
pub mod bytes;
pub mod checkpoint;
pub mod column_family;
pub mod engine;
pub mod error;
pub mod names;
pub mod ordered;
