//! One retained line: a line of source text tagged with its original
//! 1-based line number.

use vstd::prelude::*;

use crate::line_parser::is_else_spec;
use crate::line_parser::line_contains_else;

verus! {

/// The mathematical model of one retained line.
#[verifier::ext_equal]
pub ghost struct LineRec {
    /// The 1-based line number the text was read from.
    pub line: nat,
    /// The text of the line, without its trailing newline.
    pub text: Seq<char>,
}

/// One entry of the context stack: a line of text together with the
/// line number it was read from.  Immutable once created.
#[derive(Debug)]
pub struct StackElement {
    pub line: usize,
    pub string: String,
}

impl View for StackElement {
    type V = LineRec;

    open spec fn view(&self) -> LineRec {
        LineRec { line: self.line as nat, text: self.string@ }
    }
}

impl StackElement {
    pub fn new(line: usize, string: &String) -> (r: StackElement)
        ensures
            r@ == (LineRec { line: line as nat, text: string@ }),
    {
        StackElement { line, string: string.clone() }
    }

    /// Is the retained text an `#else` line?
    pub fn is_else(&self) -> (r: bool)
        ensures
            r == is_else_spec(self.string@),
    {
        line_contains_else(self.string.as_str())
    }
}

} // verus!
