//! The pattern tree the grammar compiler lowers to bytecode.
pub use crate::pegc::pattern::Pattern;
