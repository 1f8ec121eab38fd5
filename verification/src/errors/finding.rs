use crate::errors::paint::{green, paint_green, paint_red, red};
use crate::text::{decimal, push_char, push_decimal, trim, trimmed};
use vstd::prelude::*;
use vstd::string::StringExecFns;

verus! {

/// What is wrong at the place that a `Finding` points to.
#[derive(Debug, PartialEq, Eq)]
pub enum Issue {
    /// a step whose title no rule matches; holds the title
    UndefinedStep(String),
    /// a line that differs from the line that stands there once the file is
    /// sorted
    UnsortedLine { have: String, want: String },
    /// a rule that matched no step; holds the rule's regular expression
    UnusedRegex(String),
}

/// An `Issue`, with texts as sequences of characters.
pub ghost enum IssueView {
    UndefinedStep(Seq<char>),
    UnsortedLine { have: Seq<char>, want: Seq<char> },
    UnusedRegex(Seq<char>),
}

impl DeepView for Issue {
    type V = IssueView;

    open spec fn deep_view(&self) -> IssueView {
        match self {
            Issue::UndefinedStep(title) => IssueView::UndefinedStep(title@),
            Issue::UnsortedLine { have, want } => IssueView::UnsortedLine {
                have: have@,
                want: want@,
            },
            Issue::UnusedRegex(regex) => IssueView::UnusedRegex(regex@),
        }
    }
}

/// A problem that the tool found in a feature file or in its rule file.
#[derive(Debug, PartialEq, Eq)]
pub struct Finding {
    /// the path of the file
    pub file: String,
    /// the line in that file, from 0
    pub line: usize,
    pub problem: Issue,
}

/// A `Finding`, with texts as sequences of characters.
pub ghost struct FindingView {
    pub file: Seq<char>,
    pub line: usize,
    pub problem: IssueView,
}

impl DeepView for Finding {
    type V = FindingView;

    open spec fn deep_view(&self) -> FindingView {
        FindingView { file: self.file@, line: self.line, problem: self.problem.deep_view() }
    }
}

/// Where a finding points to: the file, a colon, and the line, counted
/// from 1.
pub open spec fn place(finding: FindingView) -> Seq<char> {
    finding.file + seq![':'] + decimal((finding.line + 1) as nat)
}

/// A finding as one line of text for the terminal.
pub open spec fn finding_text(finding: FindingView) -> Seq<char> {
    match finding.problem {
        IssueView::UndefinedStep(text) => place(finding) + "  unknown step: "@ + text,
        IssueView::UnsortedLine { have, want } => place(finding) + "  expected "@ + green(
            trimmed(want),
        ) + " but found "@ + red(trimmed(have)),
        IssueView::UnusedRegex(text) => place(finding) + "  unused regex: "@ + text,
    }
}

impl Finding {
    /// The finding as one line of text for the terminal: where it points
    /// to, and what is wrong there. Of an unsorted line it shows the wanted
    /// line in green and the line that stands there in red, both without
    /// the whitespace at their ends.
    pub fn to_string(&self) -> (text: String)
        ensures
            text@ == finding_text(self.deep_view()),
    {
        let mut text = self.file.clone();
        push_char(&mut text, ':');
        push_decimal(&mut text, self.line as u128 + 1);
        match &self.problem {
            Issue::UndefinedStep(title) => {
                text.append("  unknown step: ");
                text.append(title.as_str());
            },
            Issue::UnsortedLine { have, want } => {
                text.append("  expected ");
                let wanted = paint_green(trim(want.as_str()).as_str());
                text.append(wanted.as_str());
                text.append(" but found ");
                let found = paint_red(trim(have.as_str()).as_str());
                text.append(found.as_str());
            },
            Issue::UnusedRegex(regex) => {
                text.append("  unused regex: ");
                text.append(regex.as_str());
            },
        }
        text
    }
}

} // verus!
