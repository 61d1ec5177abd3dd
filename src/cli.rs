use vstd::prelude::*;

verus! {

/// What the command line asks for: the program's source file, and where to write logs.
pub struct CLI {
    pub logs: Option<String>,
    pub file: String,
}

} // verus!
