//! The scanner of the grammar's own source text.

use std::path::PathBuf;
use vstd::prelude::*;

verus! {

/// The scanner that reads the grammar file.
pub struct Scanner {
    grammar_file: PathBuf,
}

impl Scanner {
    /// The path of the grammar file.
    pub closed spec fn spec_grammar_file(&self) -> PathBuf {
        self.grammar_file
    }

    /// A scanner for the grammar at `grammar_file`.
    pub fn new(grammar_file: PathBuf) -> (s: Self)
        ensures
            s.spec_grammar_file() == grammar_file,
    {
        Scanner { grammar_file }
    }

    /// The path of the grammar file.
    pub fn grammar_file(&self) -> (p: &PathBuf)
        ensures
            *p == self.spec_grammar_file(),
    {
        &self.grammar_file
    }
}

} // verus!
