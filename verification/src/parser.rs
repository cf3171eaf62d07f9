//! The parser of the grammar's own source text, as far as it holds the
//! parts of a run together.

use crate::scanner::Scanner;
use crate::tab::Tab;
use crate::trace::Trace;
use vstd::prelude::*;

verus! {

/// The count of the errors found in the grammar.
pub struct Errors {
    pub count: u32,
}

/// The parts of one run of the generator.
pub struct Parser {
    pub scanner: Scanner,
    pub trace: Trace,
    pub tab: Tab,
    pub errors: Errors,
}

impl Parser {
    /// A parser over the given parts that has found no error yet.
    pub fn new(scanner: Scanner, trace: Trace, tab: Tab) -> (p: Parser)
        ensures
            p.scanner == scanner,
            p.trace == trace,
            p.tab == tab,
            p.errors.count == 0,
    {
        Parser { scanner, trace, tab, errors: Errors { count: 0 } }
    }
}

} // verus!
