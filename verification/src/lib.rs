//! Sorts the steps of Gherkin feature files into the order that a list of
//! regular expressions prescribes, and reports what does not fit.
//!
//! A feature file goes through three stages. The lexer says of each line
//! what it is, the parser groups the lines into blocks of text and blocks
//! of steps, and the sorter puts the steps of each block into the order of
//! the rules. A document is written back as lines, and the lines of a file
//! are compared with those of the sorted file.

pub mod cmd;
pub mod errors;
pub mod file_finder;
pub mod gherkin;
pub mod regex;
pub mod text;
