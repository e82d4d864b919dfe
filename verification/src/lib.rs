//! Self-describing, variable-length binary records: a layout descriptor, a
//! bounds-checked zero-copy reader and a size-first writer.

pub mod error;
pub mod layout;
pub mod record;
pub mod scalar;
pub mod simple_array;
pub mod view;
pub mod writer;
