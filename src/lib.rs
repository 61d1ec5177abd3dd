use vstd::prelude::*;

pub mod cli;
pub mod instructions;
pub mod laws;
pub mod parser;
pub mod runner;
pub mod text;

verus! {

} // verus!
