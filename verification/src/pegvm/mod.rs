pub mod charset;
pub mod incremental;
pub mod instruction;
pub mod pattern;
pub mod program;
pub mod slab;
pub mod utf8;
pub mod vm;

pub use charset::{CharSet, CharSetError};
pub use incremental::{Edit, MemoCache};
pub use instruction::{CaptureKind, Instruction, Label, LabelId, MemoId, RuleKind, SetId};
pub use vm::{Capture, MatchResult, MemoStats, VM};
pub use program::Program;
