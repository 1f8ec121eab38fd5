//! What can go wrong: mistakes in how the tool is set up, and the findings
//! that it reports about feature files.

pub mod finding;
pub mod order;
pub mod paint;
pub mod user_error;

pub use finding::{Finding, FindingView, Issue, IssueView};
pub use order::sort_issues;
pub use user_error::{UserError, UserErrorView};
