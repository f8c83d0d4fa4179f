//! Reports the preprocessor conditional-compilation context of a line.
//!
//! Given the lines of a source file and a 1-based target line number, the
//! scanner walks the file once, keeping a stack of the `#if*`/`#else`
//! directives whose scope is still open, and stops at the target line.  The
//! stack is then rendered as a report: one line per open scope, each prefixed
//! with its original line number, the target line last.

pub mod line_parser;
pub mod stack;
pub mod stack_element;
