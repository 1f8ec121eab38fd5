//! Feature files: from text to lines, from lines to a document, and the
//! sorting of a document's steps.

pub mod lexer;
pub mod parser;
pub mod sorter;
pub mod theorems;

pub use lexer::{Keyword, Line, LineType, LineView};
pub use parser::{Block, BlockView, Document, Lines, Step, StepView};
pub use sorter::{Entry, EntryView, Sorter};

use crate::errors::{UserError, UserErrorView};
use vstd::prelude::*;

verus! {

/// Parses the text of a feature file: lexes its lines, then groups them
/// into blocks.
///
/// Fails on the first docstring delimiter that stands where no step is
/// open, with the number of that line.
pub fn file(text: &str) -> (result: Result<Document, UserError>)
    ensures
        match result {
            Ok(document) => parser::parse(lexer::lex(text@)) == Ok::<Seq<BlockView>, usize>(
                document.deep_view(),
            ),
            Err(error) => parser::parse(lexer::lex(text@)) matches Err(line) && error.deep_view()
                == (UserErrorView::MisplacedDocString { line }),
        },
{
    // step 1: lex the text into lines
    let lines = match lexer::file(text) {
        Ok(lines) => lines,
        Err(error) => return Err(error),
    };
    // step 2: parse the lines into blocks
    parser::file(lines)
}

} // verus!
