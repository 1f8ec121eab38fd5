//! Formatting: the sorted text of a feature file.

use crate::errors::{Finding, FindingView};
use crate::gherkin::parser::{document_lines, BlockView, Document};
use crate::gherkin::sorter::{
    document_findings, marked_by_document, patterns, sorted_document, Sorter,
};
use crate::text::join_lines;
use vstd::prelude::*;

verus! {

/// The text of the sorted document. Where a step matches no rule there is
/// none, since sorting would drop the step: then the findings say which
/// steps these are.
pub open spec fn formatted(blocks: Seq<BlockView>, patterns: Seq<Seq<char>>, file: Seq<char>)
    -> Result<Seq<char>, Seq<FindingView>> {
    let undefined = document_findings(blocks, patterns, file);
    if undefined.len() > 0 {
        Err(undefined)
    } else {
        Ok(join_lines(document_lines(sorted_document(blocks, patterns))))
    }
}

/// Sorts the document of the file `filepath`, and marks the rules that
/// sort one of its steps as used. Gives the text to write to the file, or
/// the reasons why the file has to stay as it is.
pub fn file(gherkin: Document, filepath: &str, sorter: &mut Sorter) -> (result: Result<
    String,
    Vec<Finding>,
>)
    ensures
        match result {
            Ok(text) => formatted(
                gherkin.deep_view(),
                patterns(old(sorter).deep_view()),
                filepath@,
            ) == Ok::<Seq<char>, Seq<FindingView>>(text@),
            Err(issues) => formatted(
                gherkin.deep_view(),
                patterns(old(sorter).deep_view()),
                filepath@,
            ) == Err::<Seq<char>, Seq<FindingView>>(issues.deep_view()),
        },
        final(sorter).deep_view() == marked_by_document(
            old(sorter).deep_view(),
            gherkin.deep_view(),
        ),
{
    let (sorted_file, issues) = sorter.sort_file(gherkin, filepath);
    if issues.len() > 0 {
        return Err(issues);
    }
    Ok(sorted_file.lines().to_string())
}

} // verus!
