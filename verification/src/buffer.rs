//! What an edit of a text buffer did to its lines.

use vstd::prelude::*;

verus! {

/// The lines an edit touched: the first and last affected line, and by how
/// many lines the buffer grew (positive) or shrank (negative).
#[derive(Clone, Copy, Debug, PartialEq, Eq)]
pub struct EditResult {
    pub start_line: usize,
    pub end_line: usize,
    pub line_delta: isize,
}

impl EditResult {
    pub fn new(start_line: usize, end_line: usize, line_delta: isize) -> (r: Self)
        ensures
            r.start_line == start_line,
            r.end_line == end_line,
            r.line_delta == line_delta,
    {
        EditResult { start_line, end_line, line_delta }
    }
}

} // verus!
