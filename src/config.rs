use vstd::prelude::*;

verus! {

/// A command line: the flag that selects the operation and the file name.
pub struct Config {
    pub flag: String,
    pub filename: String,
}

} // verus!
