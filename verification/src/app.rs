//! What a command-line invocation hands the library: where the vocabulary
//! lives and which patterns to solve.

use vstd::prelude::*;

verus! {

/// The invocation's inputs: the vocabulary file's name and the patterns or
/// cipher phrases to decode.
#[derive(Debug)]
pub struct App {
    pub vocabulary: String,
    pub patterns: Vec<String>,
}

impl App {
    /// Bundles the vocabulary file name with the requested patterns.
    pub fn new(vocabulary: String, patterns: Vec<String>) -> (r: App)
        ensures
            r.vocabulary@ == vocabulary@,
            r.patterns@ == patterns@,
    {
        App { vocabulary, patterns }
    }
}

} // verus!
