//! Grammar source to runnable bytecode.
//!
//! [`compile`] folds parsing and compilation into one call; [`parse`],
//! [`Grammar::new`], [`Grammar::compile`], [`compile_pattern`] and
//! [`Pattern`] are the steps for callers who compose them.
pub mod analysis;
pub mod compiler;
pub mod follow;
pub mod keywords;
pub mod lint;
pub mod graph;
pub mod order;
pub mod parser;
pub mod reserved;
pub mod pattern;
pub mod rewrite;

pub use analysis::{tally_non_terminal_refs, LintFinding, LintKind};
pub use compiler::{compile_pattern, CompileError};
pub use parser::{parse, Grammar, ParseError};
pub use pattern::Pattern;

use vstd::prelude::*;

use vstd::string::*;

use crate::pegvm::Program;

verus! {

/// Failure of [`compile`]: the source did not parse, or did not compile.
#[derive(Debug)]
pub enum Error {
    Parse(ParseError),
    Compile(CompileError),
}

/// Compile grammar source straight to a runnable [`Program`].
pub fn compile(source: &str) -> (r: Result<Program, Error>)
    requires
        source.spec_bytes().len() < usize::MAX,
    ensures
        r matches Err(Error::Parse(e)) ==> parser::located(e, source.spec_bytes()),
            !(r matches Err(Error::Compile(CompileError::UnknownStartRule(_)))),
            !(r matches Err(Error::Compile(CompileError::ReservedPreferredConflict(_)))),
        r matches Ok(prog) ==> {
            &&& compiler::targets_within(prog.code@)
            &&& prog.code@.len() >= 2
            &&& prog.code@[1] == crate::pegvm::Instruction::End
        },
{
    match parse(source) {
        Err(e) => Err(Error::Parse(e)),
        Ok(g) => match g.compile() {
            Ok(p) => Ok(p),
            Err(e) => Err(Error::Compile(e)),
        },
    }
}

} // verus!
