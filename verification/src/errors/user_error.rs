use crate::errors::paint::{cyan, paint_cyan};
use crate::text::{decimal, push_char, push_decimal};
use vstd::prelude::*;
use vstd::string::StringExecFns;

verus! {

/// A mistake in how the tool is set up or called, as opposed to a problem
/// that it finds in a feature file. File names are paths in UTF-8.
#[derive(Debug, PartialEq, Eq)]
pub enum UserError {
    /// a configuration file could not be written
    ConfigFileCreate { file: String, message: String },
    /// a line of the rule file is no regular expression; `line` counts from 0
    ConfigFileInvalidRegex { file: String, line: usize, message: String },
    /// there is no rule file
    ConfigFileNotFound { file: String },
    /// the rule file or the ignore file could not be read
    ConfigFileRead { file: String, reason: String },
    /// a feature file could not be read
    FileRead { file: String, reason: String },
    /// a feature file could not be written
    FileWrite { file: String, reason: String },
    /// a line of the ignore file is no glob pattern; `line` counts from 0
    IgnoreFileInvalidGlob { file: String, line: usize, reason: String },
    /// a docstring delimiter stands where no step is open; `line` counts from 0
    MisplacedDocString { line: usize },
}

/// What a `UserError` holds, with texts as sequences of characters.
pub ghost enum UserErrorView {
    ConfigFileCreate { file: Seq<char>, message: Seq<char> },
    ConfigFileInvalidRegex { file: Seq<char>, line: usize, message: Seq<char> },
    ConfigFileNotFound { file: Seq<char> },
    ConfigFileRead { file: Seq<char>, reason: Seq<char> },
    FileRead { file: Seq<char>, reason: Seq<char> },
    FileWrite { file: Seq<char>, reason: Seq<char> },
    IgnoreFileInvalidGlob { file: Seq<char>, line: usize, reason: Seq<char> },
    MisplacedDocString { line: usize },
}

impl DeepView for UserError {
    type V = UserErrorView;

    open spec fn deep_view(&self) -> UserErrorView {
        match self {
            UserError::ConfigFileCreate { file, message } => UserErrorView::ConfigFileCreate {
                file: file@,
                message: message@,
            },
            UserError::ConfigFileInvalidRegex {
                file,
                line,
                message,
            } => UserErrorView::ConfigFileInvalidRegex {
                file: file@,
                line: *line,
                message: message@,
            },
            UserError::ConfigFileNotFound { file } => UserErrorView::ConfigFileNotFound {
                file: file@,
            },
            UserError::ConfigFileRead { file, reason } => UserErrorView::ConfigFileRead {
                file: file@,
                reason: reason@,
            },
            UserError::FileRead { file, reason } => UserErrorView::FileRead {
                file: file@,
                reason: reason@,
            },
            UserError::FileWrite { file, reason } => UserErrorView::FileWrite {
                file: file@,
                reason: reason@,
            },
            UserError::IgnoreFileInvalidGlob {
                file,
                line,
                reason,
            } => UserErrorView::IgnoreFileInvalidGlob { file: file@, line: *line, reason: reason@ },
            UserError::MisplacedDocString { line } => UserErrorView::MisplacedDocString {
                line: *line,
            },
        }
    }
}

/// The message for an error, and the details that go with it.
pub open spec fn message_texts(error: UserErrorView) -> (Seq<char>, Option<Seq<char>>) {
    match error {
        UserErrorView::ConfigFileCreate { file, message } => (
            "cannot create configuration file "@ + file + ": "@ + message,
            None,
        ),
        UserErrorView::ConfigFileInvalidRegex { file, line, message } => (
            file + seq![':'] + decimal(line as nat) + "  invalid regular expression"@,
            Some(message),
        ),
        UserErrorView::ConfigFileNotFound { file } => (
            "config file ("@ + file + ") not found"@,
            Some("Please run "@ + cyan("cucumber-sort init"@) + " to create the config files."@),
        ),
        UserErrorView::ConfigFileRead { file, reason } => (
            "cannot read configuration file: "@ + reason,
            Some("The configuration file has name "@ + file + seq!['.']),
        ),
        UserErrorView::FileRead { file, reason } => (
            "cannot read file "@ + file + ": "@ + reason,
            None,
        ),
        UserErrorView::FileWrite { file, reason } => (
            "cannot write file "@ + file + ": "@ + reason,
            None,
        ),
        UserErrorView::IgnoreFileInvalidGlob { file, line, reason } => (
            file + seq![':'] + decimal(line as nat) + "  invalid glob expression"@,
            Some(reason),
        ),
        UserErrorView::MisplacedDocString { line } => (
            "line "@ + decimal((line + 1) as nat) + ": docstring delimiter outside of a step"@,
            Some("A docstring belongs to the step before it."@),
        ),
    }
}

/// `first`, a colon, `line` in digits, and `last`.
fn at_line(first: String, line: usize, last: &str) -> (text: String)
    ensures
        text@ == first@ + seq![':'] + decimal(line as nat) + last@,
{
    let mut text = first;
    push_char(&mut text, ':');
    push_decimal(&mut text, line as u128);
    text.append(last);
    text
}

/// `first`, `file`, a colon and a space, and `reason`.
fn with_reason(first: &str, file: &str, reason: &str) -> (text: String)
    ensures
        text@ == first@ + file@ + ": "@ + reason@,
{
    let mut text = String::from_str(first);
    text.append(file);
    text.append(": ");
    text.append(reason);
    text
}

impl UserError {
    /// The message for the error, and the details that go with it, for
    /// the terminal.
    pub fn messages(self) -> (texts: (String, Option<String>))
        ensures
            texts.0@ == message_texts(self.deep_view()).0,
            texts.1.deep_view() == message_texts(self.deep_view()).1,
    {
        match self {
            UserError::ConfigFileCreate { file, message } => (
                with_reason("cannot create configuration file ", file.as_str(), message.as_str()),
                None,
            ),
            UserError::ConfigFileInvalidRegex { file, line, message } => (
                at_line(file, line, "  invalid regular expression"),
                Some(message),
            ),
            UserError::ConfigFileNotFound { file } => {
                let mut text = String::from_str("config file (");
                text.append(file.as_str());
                text.append(") not found");
                let mut details = String::from_str("Please run ");
                details.append(paint_cyan("cucumber-sort init").as_str());
                details.append(" to create the config files.");
                (text, Some(details))
            },
            UserError::ConfigFileRead { file, reason } => {
                let mut text = String::from_str("cannot read configuration file: ");
                text.append(reason.as_str());
                let mut details = String::from_str("The configuration file has name ");
                details.append(file.as_str());
                push_char(&mut details, '.');
                (text, Some(details))
            },
            UserError::FileRead { file, reason } => (
                with_reason("cannot read file ", file.as_str(), reason.as_str()),
                None,
            ),
            UserError::FileWrite { file, reason } => (
                with_reason("cannot write file ", file.as_str(), reason.as_str()),
                None,
            ),
            UserError::IgnoreFileInvalidGlob { file, line, reason } => (
                at_line(file, line, "  invalid glob expression"),
                Some(reason),
            ),
            UserError::MisplacedDocString { line } => {
                let mut text = String::from_str("line ");
                push_decimal(&mut text, line as u128 + 1);
                text.append(": docstring delimiter outside of a step");
                (text, Some(String::from_str("A docstring belongs to the step before it.")))
            },
        }
    }
}

} // verus!
