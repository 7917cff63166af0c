use vstd::prelude::*;

verus! {

/// Command-line inputs, as plain values. The binary front end parses the real
/// command line into this shape before handing it to the library.
pub struct Cli {
    pub account: Option<String>,
    pub key: Option<String>,
    pub connection_string: Option<String>,
    pub out: String,
}

} // verus!
