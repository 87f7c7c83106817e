//! The command-line surface as plain data: the embedding program
//! parses its arguments into these and acts on them.
use vstd::prelude::*;

verus! {

pub struct Cli {
    pub command: Option<Commands>,
}

pub enum Commands {
    VerifyDb {},
    ClearDb {},
    GenerateData {},
}

} // verus!
