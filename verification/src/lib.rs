use vstd::prelude::*;

pub mod lexical;
pub mod text;
pub mod naming;
pub mod literals;
pub mod natives;
pub mod vm;
pub mod graph;
pub mod tables;
pub mod analyzer;
pub mod body;
pub mod calls;
pub mod program;
pub mod ast;
pub mod semantic;
pub mod catalog;
pub mod compiled;
pub mod failures;
pub mod external;

verus! {

} // verus!
