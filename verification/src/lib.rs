//! redv: a redstone-circuit HDL — lexer, parser, elaboration helpers and the tick simulator.
use vstd::prelude::*;

pub mod strs;
pub mod ast;
pub mod diag;
pub mod circuit;
pub mod lexer;
pub mod parser;
pub mod interp;
pub mod elab;
pub mod sim;

verus! {

} // verus!
