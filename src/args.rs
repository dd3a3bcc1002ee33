//! The command line of the program: an optional file to compress.
use vstd::prelude::*;

verus! {

/// The arguments: the file to compress, or none for standard input.
pub struct Args {
    pub filepath: Option<String>,
}

} // verus!
