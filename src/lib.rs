use vstd::prelude::*;

pub mod literal;
pub mod lexer;
pub mod parser;
pub mod codegen;
pub mod compiler;
pub mod machine;
pub mod report;

verus! {

} // verus!
