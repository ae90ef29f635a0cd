//! Errors of the formatting core.

use vstd::prelude::*;

verus! {

/// Why formatting a document failed.
///
/// `Query` reports a directive that was invoked incorrectly, such as
/// `append_delimiter` without a delimiter.  `TextExtraction` reports a node
/// whose source byte range could not be turned into text, and carries that
/// node's id.
#[derive(Debug)]
pub enum FormatterError {
    Query(String),
    TextExtraction(usize),
}

pub type FormatterResult<T> = Result<T, FormatterError>;

} // verus!
