//! Checking: is a feature file sorted?

use crate::errors::{Finding, FindingView};
use crate::gherkin::parser::{document_lines, min, mismatches, BlockView, Document};
use crate::gherkin::sorter::{
    document_findings, marked_by_document, patterns, sorted_document, Sorter,
};
use vstd::prelude::*;

verus! {

/// What checking finds in a document: its steps that no rule matches, or,
/// where there are none, its lines that differ from the lines of the
/// sorted document.
pub open spec fn checked(blocks: Seq<BlockView>, patterns: Seq<Seq<char>>, file: Seq<char>) -> Seq<
    FindingView,
> {
    let undefined = document_findings(blocks, patterns, file);
    if undefined.len() > 0 {
        undefined
    } else {
        let have = document_lines(blocks);
        let want = document_lines(sorted_document(blocks, patterns));
        mismatches(have, want, file, min(have.len(), want.len()))
    }
}

/// Checks the document of the file `filepath`, and marks the rules that
/// sort one of its steps as used.
pub fn file(gherkin: Document, filepath: &str, sorter: &mut Sorter) -> (findings: Vec<Finding>)
    ensures
        findings.deep_view() == checked(
            gherkin.deep_view(),
            patterns(old(sorter).deep_view()),
            filepath@,
        ),
        final(sorter).deep_view() == marked_by_document(
            old(sorter).deep_view(),
            gherkin.deep_view(),
        ),
{
    let (sorted_file, findings) = sorter.sort_file(gherkin.duplicate(), filepath);
    if findings.len() > 0 {
        return findings;
    }
    let sorted_lines = sorted_file.lines();
    let given_lines = gherkin.lines();
    given_lines.find_mismatching(&sorted_lines, filepath)
}

} // verus!
